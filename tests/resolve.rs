use itsdns::resolve::{encode_query, lookup_answer};
use itsdns::{DnsError, Error};

fn response(answer_name: &[u8], rtype: u16, rdata: &[u8], flags: [u8; 2]) -> Vec<u8> {
    let mut p = vec![0, 1, flags[0], flags[1], 0, 1, 0, 1, 0, 0, 0, 0];
    p.extend_from_slice(&[7, b'e', b'x', b'a', b'm', b'p', b'l', b'e', 3, b'c', b'o', b'm', 0]);
    p.extend_from_slice(&[0, 1, 0, 1]);
    p.extend_from_slice(answer_name);
    p.extend_from_slice(&rtype.to_be_bytes());
    p.extend_from_slice(&[0, 1]);
    p.extend_from_slice(&3600u32.to_be_bytes());
    p.extend_from_slice(&(rdata.len() as u16).to_be_bytes());
    p.extend_from_slice(rdata);
    p
}

#[test]
fn resolves_example_com() {
    let p = response(&[0xC0, 12], 1, &[93, 184, 216, 34], [0x81, 0x80]);
    let ip = lookup_answer::<()>("example.com", &p).unwrap();
    assert_eq!(ip, [93, 184, 216, 34]);
}

#[test]
fn resolves_spelled_out_answer_name() {
    let name = [7, b'e', b'x', b'a', b'm', b'p', b'l', b'e', 3, b'c', b'o', b'm', 0];
    let p = response(&name, 1, &[93, 184, 216, 34, 9], [0x81, 0x80]);
    assert_eq!(lookup_answer::<()>("example.com", &p).unwrap(), [93, 184, 216, 34]);
}

#[test]
fn other_host_is_not_found() {
    let p = response(&[0xC0, 12], 1, &[93, 184, 216, 34], [0x81, 0x80]);
    assert!(matches!(lookup_answer::<()>("other.com", &p), Err(Error::NotFound)));
}

#[test]
fn non_address_answers_are_skipped() {
    let cname = response(&[0xC0, 12], 5, &[93, 184, 216, 34], [0x81, 0x80]);
    assert!(matches!(lookup_answer::<()>("example.com", &cname), Err(Error::NotFound)));
    let short = response(&[0xC0, 12], 1, &[93, 184, 216], [0x81, 0x80]);
    assert!(matches!(lookup_answer::<()>("example.com", &short), Err(Error::NotFound)));
}

#[test]
fn error_responses_are_reported() {
    let p = response(&[0xC0, 12], 1, &[93, 184, 216, 34], [0x81, 0x83]);
    assert!(matches!(
        lookup_answer::<()>("example.com", &p),
        Err(Error::Dns(DnsError::NameError))
    ));
    assert!(matches!(
        lookup_answer::<()>("example.com", &p[..11]),
        Err(Error::Dns(DnsError::Decode))
    ));
}

#[test]
fn unknown_answer_type_is_a_decode_error() {
    let p = response(&[0xC0, 12], 99, &[93, 184, 216, 34], [0x81, 0x80]);
    assert!(matches!(
        lookup_answer::<()>("example.com", &p),
        Err(Error::Dns(DnsError::Decode))
    ));
}

#[test]
fn query_for_example_com() {
    let mut buf = [0u8; 512];
    let n = encode_query(7, "example.com", &mut buf).unwrap();
    let expected = [
        0, 7, 0, 0, 0, 1, 0, 0, 0, 0, 0, 0, 7, b'e', b'x', b'a', b'm', b'p', b'l', b'e', 3, b'c',
        b'o', b'm', 0, 0, 1, 0, 1,
    ];
    assert_eq!(n, expected.len());
    assert_eq!(&buf[..n], &expected[..]);
    let mut small = [0u8; 20];
    assert_eq!(encode_query(7, "example.com", &mut small), Err(DnsError::Encode));
}
