//! The decisions of one lookup: the query to send for a host name, and the
//! address that a response gives for it.
use vstd::prelude::*;
use vstd::string::StringSliceAdditionalSpecFns;

use crate::message::{
    header_wire, Answer, AnswerModel, Answers, DnsMessage, Opcode, QClass, QType, Question,
    Questions,
};
use crate::name::Domain;
use crate::wire::encoded;
use crate::{DnsError, Error};

verus! {

/// The question asked for `host`: its IPv4 address.
pub open spec fn host_question<'a>(host: &'a str) -> Question<'a> {
    Question { qname: Domain::String(host), qtype: QType::A, qclass: QClass::IN }
}

/// The query for `host` with transaction id `id`: a header that counts one
/// question and no answers, then that question.
pub open spec fn query_wire(id: u16, host: &str) -> Seq<u8> {
    header_wire(id, Opcode::Query, 1, 0) + host_question(host).wire()
}

/// Whether an answer gives the IPv4 address of `host`.
pub open spec fn answer_matches(a: AnswerModel, host: &str) -> bool {
    &&& a.domain.text() == host.spec_bytes()
    &&& a.rtype == QType::A
    &&& a.rdata.len() >= 4
}

/// The first four data bytes of the first answer from index `i` on that
/// matches `host`; the decoding error of an answer met before it; or
/// `NotFound`.
pub open spec fn scan_answers<'a, N>(answers: Answers<'a>, host: &str, i: nat) -> Result<
    Seq<u8>,
    Error<N>,
>
    decreases answers.spec_count() - i,
{
    if i >= answers.spec_count() {
        Err(Error::NotFound)
    } else {
        match answers.spec_get(i as usize) {
            Err(e) => Err(Error::Dns(e)),
            Ok(Some(a)) => if answer_matches(a, host) {
                Ok(a.rdata.take(4))
            } else {
                scan_answers(answers, host, i + 1)
            },
            Ok(None) => scan_answers(answers, host, i + 1),
        }
    }
}

/// What a response gives for `host`: the decoding error of the message, or
/// the outcome of scanning its answers.
pub open spec fn spec_lookup<N>(host: &str, packet: &[u8]) -> Result<Seq<u8>, Error<N>> {
    match DnsMessage::spec_decode(packet) {
        Err(e) => Err(Error::Dns(e)),
        Ok(m) => scan_answers(m.answers, host, 0),
    }
}

/// Writes into `buf` the query for the IPv4 address of `host`.
pub fn encode_query(id: u16, host: &str, buf: &mut [u8]) -> (r: Result<usize, DnsError>)
    ensures
        encoded(old(buf)@, final(buf)@, 0, query_wire(id, host), r),
{
    let questions = [Question { qname: Domain::String(host), qtype: QType::A, qclass: QClass::IN }];
    let answers: [Answer; 0] = [];
    let m = DnsMessage {
        id,
        opcode: Opcode::Query,
        questions: Questions::Slice(questions.as_slice()),
        answers: Answers::Slice(answers.as_slice()),
    };
    proof {
        let qs = questions@;
        assert(qs.drop_last() =~= seq![]);
        assert(crate::message::questions_wire(qs.drop_last()) == Seq::<u8>::empty());
        assert(m.questions.wire() =~= host_question(host).wire());
        assert(m.answers.wire() =~= seq![]);
        assert(m.wire() =~= query_wire(id, host));
    }
    m.encode(buf)
}

/// The IPv4 address that the response in `packet` gives for `host`: the
/// first answer of type `A`, for that name, with at least four data bytes.
pub fn lookup_answer<N>(host: &str, packet: &[u8]) -> (r: Result<[u8; 4], Error<N>>)
    ensures
        match (r, spec_lookup::<N>(host, packet)) {
            (Ok(ip), Ok(octets)) => ip@ == octets,
            (Err(e), Err(f)) => e == f,
            _ => false,
        },
{
    let m = match DnsMessage::decode(packet) {
        Ok(m) => m,
        Err(e) => return Err(Error::Dns(e)),
    };
    let count = m.answers.count();
    let name = Domain::String(host);
    let mut i: usize = 0;
    while i < count
        invariant
            i <= count,
            count == m.answers.spec_count(),
            name == Domain::String(host),
            spec_lookup::<N>(host, packet) == scan_answers::<N>(m.answers, host, 0),
            scan_answers::<N>(m.answers, host, 0) == scan_answers::<N>(m.answers, host, i as nat),
        decreases count - i,
    {
        match m.answers.get(i) {
            Err(e) => return Err(Error::Dns(e)),
            Ok(Some(a)) => {
                if a.domain == name && a.rtype == QType::A && a.rdata.len() >= 4 {
                    let ip = [a.rdata[0], a.rdata[1], a.rdata[2], a.rdata[3]];
                    assert(ip@ =~= a.rdata@.take(4));
                    return Ok(ip);
                }
            },
            Ok(None) => {},
        }
        i = i + 1;
    }
    Err(Error::NotFound)
}

} // verus!
