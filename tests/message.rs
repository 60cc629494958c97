use itsdns::message::{
    Answer, Answers, DnsMessage, Opcode, QClass, QType, Question, Questions,
};
use itsdns::name::Domain;
use itsdns::DnsError;

fn header(id: u16, flags: [u8; 2], qd: u16, an: u16) -> Vec<u8> {
    let mut v = Vec::new();
    v.extend_from_slice(&id.to_be_bytes());
    v.extend_from_slice(&flags);
    v.extend_from_slice(&qd.to_be_bytes());
    v.extend_from_slice(&an.to_be_bytes());
    v.extend_from_slice(&[0, 0, 0, 0]);
    v
}

fn name(text: &str) -> Vec<u8> {
    let mut v = Vec::new();
    for label in text.split('.') {
        v.push(label.len() as u8);
        v.extend_from_slice(label.as_bytes());
    }
    v.push(0);
    v
}

#[test]
fn message_test_query() {
    let mut buf = [0; 1024];

    let questions = [Question {
        qname: Domain::String("google.com"),
        qtype: QType::A,
        qclass: QClass::IN,
    }];
    let len = DnsMessage {
        id: 2,
        opcode: Opcode::Query,
        questions: Questions::Slice(&questions),
        answers: Answers::Slice(&[]),
    }
    .encode(&mut buf[..])
    .unwrap();
    assert_eq!(len, 28);

    let m = DnsMessage::decode(&buf[..len]).unwrap();

    let question = m.questions.get(0).unwrap().unwrap();
    assert_eq!(Domain::String("google.com"), question.qname);
}

#[test]
fn query_bytes_are_exact() {
    let mut buf = [0xAAu8; 64];
    let questions = [Question {
        qname: Domain::String("a.bc"),
        qtype: QType::MX,
        qclass: QClass::CH,
    }];
    let len = DnsMessage {
        id: 0x1234,
        opcode: Opcode::Status,
        questions: Questions::Slice(&questions),
        answers: Answers::Slice(&[]),
    }
    .encode(&mut buf[..])
    .unwrap();
    let expected: Vec<u8> = vec![
        0x12, 0x34, 0x10, 0, 0, 1, 0, 0, 0, 0, 0, 0, 1, b'a', 2, b'b', b'c', 0, 0, 15, 0, 3,
    ];
    assert_eq!(len, expected.len());
    assert_eq!(&buf[..len], &expected[..]);
    assert_eq!(buf[len], 0xAA);
}

#[test]
fn encode_into_small_buffer_fails() {
    let questions = [Question {
        qname: Domain::String("google.com"),
        qtype: QType::A,
        qclass: QClass::IN,
    }];
    let m = DnsMessage {
        id: 2,
        opcode: Opcode::Query,
        questions: Questions::Slice(&questions),
        answers: Answers::Slice(&[]),
    };
    let mut small = [0u8; 27];
    assert_eq!(m.encode(&mut small[..]).unwrap_err(), DnsError::Encode);
    let mut tiny = [0u8; 5];
    assert_eq!(m.encode(&mut tiny[..]).unwrap_err(), DnsError::Encode);
    let mut exact = [0u8; 28];
    assert_eq!(m.encode(&mut exact[..]), Ok(28));
}

#[test]
fn long_label_is_cut_to_255_bytes() {
    let long = "x".repeat(300);
    let d = Domain::String(&long);
    let mut buf = [0u8; 400];
    let n = d.encode(&mut buf, 3).unwrap();
    assert_eq!(n, 1 + 255 + 1);
    assert_eq!(buf[3], 255);
    assert_eq!(buf[3 + 256], 0);
}

#[test]
fn question_round_trip_at_offset() {
    let q = Question {
        qname: Domain::String("mail.example.org"),
        qtype: QType::TXT,
        qclass: QClass::HS,
    };
    let mut buf = [0u8; 64];
    let n = q.encode(&mut buf, 5).unwrap();
    assert_eq!(n, 18 + 4);
    let (m, back) = Question::decode(&buf, 5).unwrap();
    assert_eq!(m, n);
    assert_eq!(back.qtype, QType::TXT);
    assert_eq!(back.qclass, QClass::HS);
    assert_eq!(back.qname, Domain::String("mail.example.org"));
}

#[test]
fn answer_round_trip_keeps_ttl_and_data() {
    let data = [10u8, 0, 0, 1, 77];
    let a = Answer {
        domain: Domain::String("host.local"),
        rtype: QType::NULL,
        class: QClass::IN,
        ttl: 0xFEDC_BA98,
        rdata: &data,
    };
    let mut buf = [0u8; 64];
    let n = a.encode(&mut buf, 0).unwrap();
    assert_eq!(n, 12 + 10 + 5);
    let (m, back) = Answer::decode(&buf[..n], 0).unwrap();
    assert_eq!(m, n);
    assert_eq!(back.rtype, QType::NULL);
    assert_eq!(back.class, QClass::IN);
    assert_eq!(back.ttl, 0xFEDC_BA98);
    assert_eq!(back.rdata, &data[..]);
    assert_eq!(back.domain, Domain::String("host.local"));
}

#[test]
fn answer_with_oversized_data_is_not_encoded() {
    let data = vec![0u8; 70_000];
    let a = Answer {
        domain: Domain::String("a"),
        rtype: QType::TXT,
        class: QClass::IN,
        ttl: 1,
        rdata: &data,
    };
    let mut buf = vec![0u8; 80_000];
    assert_eq!(a.encode(&mut buf, 0).unwrap_err(), DnsError::Encode);
}

#[test]
fn record_type_and_class_values() {
    assert_eq!(QType::try_from(1), Ok(QType::A));
    assert_eq!(QType::try_from(16), Ok(QType::TXT));
    assert_eq!(QType::try_from(252), Ok(QType::AXFR));
    assert_eq!(QType::try_from(255), Ok(QType::ALL));
    assert_eq!(QType::try_from(17), Err(DnsError::Decode));
    assert_eq!(QType::try_from(0), Err(DnsError::Decode));
    assert_eq!(QType::MAILA.value(), 254);
    assert_eq!(QClass::try_from(4), Ok(QClass::HS));
    assert_eq!(QClass::try_from(5), Err(DnsError::Decode));
    assert_eq!(QClass::CS.value(), 2);
    assert_eq!(Opcode::IQuery.value(), 1);
}

#[test]
fn unknown_type_fails_on_get_not_on_decode() {
    let mut p = header(9, [0x81, 0x80], 1, 0);
    p.extend(name("a.b"));
    p.extend_from_slice(&[0, 99, 0, 1]);
    let m = DnsMessage::decode(&p).unwrap();
    assert_eq!(m.questions.count(), 1);
    assert_eq!(m.questions.get(0).unwrap_err(), DnsError::Decode);
    assert!(m.questions.get(1).unwrap().is_none());
}

#[test]
fn response_codes_map_to_errors() {
    let expected = [
        (1u8, DnsError::FormatError),
        (2, DnsError::ServerFailure),
        (3, DnsError::NameError),
        (4, DnsError::NotImplemented),
        (5, DnsError::Refused),
    ];
    for (code, err) in expected {
        let p = header(1, [0x81, 0x80 | code], 0, 0);
        assert_eq!(DnsMessage::decode(&p).unwrap_err(), err);
    }
    let ok = header(1, [0x81, 0x80], 0, 0);
    let m = DnsMessage::decode(&ok).unwrap();
    assert_eq!(m.id, 1);
    assert_eq!(m.opcode, Opcode::Query);
    let six = header(1, [0x81, 0x86], 0, 0);
    assert!(DnsMessage::decode(&six).is_ok());
}

#[test]
fn unknown_opcode_is_a_decode_error() {
    let p = header(1, [3 << 3, 0], 0, 0);
    assert_eq!(DnsMessage::decode(&p).unwrap_err(), DnsError::Decode);
    let q = header(1, [2 << 3, 0], 0, 0);
    assert_eq!(DnsMessage::decode(&q).unwrap().opcode, Opcode::Status);
}

fn response_for(host: &str, ip: [u8; 4]) -> Vec<u8> {
    let mut p = header(1, [0x81, 0x80], 1, 1);
    p.extend(name(host));
    p.extend_from_slice(&[0, 1, 0, 1]);
    p.extend_from_slice(&[0xC0, 12, 0, 1, 0, 1, 0, 0, 0x0E, 0x10, 0, 4]);
    p.extend_from_slice(&ip);
    p
}

#[test]
fn truncated_buffers_fail_with_decode() {
    let p = response_for("example.com", [1, 2, 3, 4]);
    assert!(DnsMessage::decode(&p).is_ok());
    for cut in 0..p.len() {
        assert_eq!(DnsMessage::decode(&p[..cut]).unwrap_err(), DnsError::Decode, "cut {}", cut);
    }
}

#[test]
fn rdata_length_past_the_end_fails() {
    let mut p = response_for("example.com", [1, 2, 3, 4]);
    let len_at = p.len() - 5;
    p[len_at] = 5;
    assert_eq!(DnsMessage::decode(&p).unwrap_err(), DnsError::Decode);
    assert_eq!(Answer::decode(&p, 29).unwrap_err(), DnsError::Decode);
}

#[test]
fn answers_are_read_on_demand() {
    let mut p = response_for("example.com", [93, 184, 216, 34]);
    p[7] = 2;
    p.extend_from_slice(&[0xC0, 12, 0, 5, 0, 1, 0, 0, 0, 1, 0, 2, 0xC0, 12]);
    let m = DnsMessage::decode(&p).unwrap();
    assert_eq!(m.answers.count(), 2);
    let first = m.answers.get(0).unwrap().unwrap();
    assert_eq!(first.rtype, QType::A);
    assert_eq!(first.ttl, 3600);
    assert_eq!(first.rdata, &[93, 184, 216, 34]);
    assert_eq!(first.domain, Domain::String("example.com"));
    let second = m.answers.get(1).unwrap().unwrap();
    assert_eq!(second.rtype, QType::CNAME);
    assert_eq!(second.ttl, 1);
    assert_eq!(second.rdata, &[0xC0, 12]);
    assert!(m.answers.get(2).unwrap().is_none());
}

#[test]
fn raw_sections_are_copied_when_encoding() {
    let p = response_for("example.com", [1, 2, 3, 4]);
    let m = DnsMessage::decode(&p).unwrap();
    let mut out = [0u8; 100];
    let n = m.encode(&mut out).unwrap();
    assert_eq!(n, p.len());
    assert_eq!(&out[..12], &header(1, [0, 0], 1, 1)[..]);
    assert_eq!(&out[12..n], &p[12..]);
}

#[test]
fn answer_slice_get_and_count() {
    let data = [1u8, 2, 3, 4];
    let answers = [Answer {
        domain: Domain::String("x.y"),
        rtype: QType::A,
        class: QClass::IN,
        ttl: 5,
        rdata: &data,
    }];
    let section = Answers::Slice(&answers);
    assert_eq!(section.count(), 1);
    assert_eq!(section.get(0).unwrap().unwrap().ttl, 5);
    assert!(section.get(1).unwrap().is_none());
}
