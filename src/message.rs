//! DNS messages: the header, questions and answers, and the sections that
//! hold them, either as records in memory or as a view over received bytes.
use vstd::prelude::*;

use vstd::std_specs::cmp::PartialEqSpec;

use crate::name::{
    lemma_name_in_prefix, lemma_name_read_back, name_wire, plain_labels, wire_labels,
    wire_name_len, wire_name_ok,
    Domain,
};
use crate::wire::{
    be16, be32, copy_into, encoded, get_u16, get_u32, lemma_splice_twice, lemma_u16_round_trip,
    lemma_u32_round_trip, put_u16, put_u32, splice, u16_bytes, u32_bytes,
};
use crate::DnsError;

verus! {

/// The kind of query a message carries.
#[derive(Clone, Copy, Debug, PartialEq, Eq, Structural)]
pub enum Opcode {
    Query,
    IQuery,
    Status,
}

impl Opcode {
    /// The four-bit wire value.
    pub open spec fn spec_value(self) -> u8 {
        match self {
            Opcode::Query => 0,
            Opcode::IQuery => 1,
            Opcode::Status => 2,
        }
    }

    pub open spec fn spec_from(v: u8) -> Option<Opcode> {
        if v == 0 {
            Some(Opcode::Query)
        } else if v == 1 {
            Some(Opcode::IQuery)
        } else if v == 2 {
            Some(Opcode::Status)
        } else {
            None
        }
    }

    pub fn value(&self) -> (r: u8)
        ensures
            r == self.spec_value(),
    {
        match self {
            Opcode::Query => 0,
            Opcode::IQuery => 1,
            Opcode::Status => 2,
        }
    }
}

/// A resource record type.
#[derive(Clone, Copy, Debug, PartialEq, Eq, Structural)]
pub enum QType {
    A,
    NS,
    MD,
    MF,
    CNAME,
    SOA,
    MB,
    MG,
    MR,
    NULL,
    WKS,
    PTR,
    HINFO,
    MINFO,
    MX,
    TXT,
    AXFR,
    MAILB,
    MAILA,
    ALL,
}

impl QType {
    /// The IANA-assigned 16-bit value.
    pub open spec fn spec_value(self) -> u16 {
        match self {
            QType::A => 1,
            QType::NS => 2,
            QType::MD => 3,
            QType::MF => 4,
            QType::CNAME => 5,
            QType::SOA => 6,
            QType::MB => 7,
            QType::MG => 8,
            QType::MR => 9,
            QType::NULL => 10,
            QType::WKS => 11,
            QType::PTR => 12,
            QType::HINFO => 13,
            QType::MINFO => 14,
            QType::MX => 15,
            QType::TXT => 16,
            QType::AXFR => 252,
            QType::MAILB => 253,
            QType::MAILA => 254,
            QType::ALL => 255,
        }
    }

    /// The type whose value is `v`, if any.
    pub open spec fn spec_from(v: u16) -> Option<QType> {
        if exists|t: QType| t.spec_value() == v {
            Some(choose|t: QType| t.spec_value() == v)
        } else {
            None
        }
    }

    pub fn value(&self) -> (r: u16)
        ensures
            r == self.spec_value(),
    {
        match self {
            QType::A => 1,
            QType::NS => 2,
            QType::MD => 3,
            QType::MF => 4,
            QType::CNAME => 5,
            QType::SOA => 6,
            QType::MB => 7,
            QType::MG => 8,
            QType::MR => 9,
            QType::NULL => 10,
            QType::WKS => 11,
            QType::PTR => 12,
            QType::HINFO => 13,
            QType::MINFO => 14,
            QType::MX => 15,
            QType::TXT => 16,
            QType::AXFR => 252,
            QType::MAILB => 253,
            QType::MAILA => 254,
            QType::ALL => 255,
        }
    }

    /// The type whose value is `value`; an unknown value is a decode error.
    pub fn try_from(value: u16) -> (r: Result<QType, DnsError>)
        ensures
            match QType::spec_from(value) {
                Some(t) => r == Ok::<QType, DnsError>(t),
                None => r == Err::<QType, DnsError>(DnsError::Decode),
            },
    {
        let r = match value {
            1 => Ok(QType::A),
            2 => Ok(QType::NS),
            3 => Ok(QType::MD),
            4 => Ok(QType::MF),
            5 => Ok(QType::CNAME),
            6 => Ok(QType::SOA),
            7 => Ok(QType::MB),
            8 => Ok(QType::MG),
            9 => Ok(QType::MR),
            10 => Ok(QType::NULL),
            11 => Ok(QType::WKS),
            12 => Ok(QType::PTR),
            13 => Ok(QType::HINFO),
            14 => Ok(QType::MINFO),
            15 => Ok(QType::MX),
            16 => Ok(QType::TXT),
            252 => Ok(QType::AXFR),
            253 => Ok(QType::MAILB),
            254 => Ok(QType::MAILA),
            255 => Ok(QType::ALL),
            _ => Err(DnsError::Decode),
        };
        proof {
            match r {
                Ok(t) => {
                    assert(t.spec_value() == value);
                    QType::lemma_value_injective(t, QType::spec_from(value)->Some_0);
                },
                Err(_) => {
                    assert(forall|t: QType| t.spec_value() != value);
                },
            }
        }
        r
    }

    pub proof fn lemma_from_value(t: QType)
        ensures
            QType::spec_from(t.spec_value()) == Some(t),
    {
        let u = QType::spec_from(t.spec_value())->Some_0;
        QType::lemma_value_injective(t, u);
    }

    pub proof fn lemma_value_injective(a: QType, b: QType)
        requires
            a.spec_value() == b.spec_value(),
        ensures
            a == b,
    {
    }
}

/// A resource record class.
#[derive(Clone, Copy, Debug, PartialEq, Eq, Structural)]
pub enum QClass {
    IN,
    CS,
    CH,
    HS,
}

impl QClass {
    /// The IANA-assigned 16-bit value.
    pub open spec fn spec_value(self) -> u16 {
        match self {
            QClass::IN => 1,
            QClass::CS => 2,
            QClass::CH => 3,
            QClass::HS => 4,
        }
    }

    /// The class whose value is `v`, if any.
    pub open spec fn spec_from(v: u16) -> Option<QClass> {
        if v == 1 {
            Some(QClass::IN)
        } else if v == 2 {
            Some(QClass::CS)
        } else if v == 3 {
            Some(QClass::CH)
        } else if v == 4 {
            Some(QClass::HS)
        } else {
            None
        }
    }

    pub fn value(&self) -> (r: u16)
        ensures
            r == self.spec_value(),
    {
        match self {
            QClass::IN => 1,
            QClass::CS => 2,
            QClass::CH => 3,
            QClass::HS => 4,
        }
    }

    /// The class whose value is `value`; an unknown value is a decode error.
    pub fn try_from(value: u16) -> (r: Result<QClass, DnsError>)
        ensures
            match QClass::spec_from(value) {
                Some(c) => r == Ok::<QClass, DnsError>(c),
                None => r == Err::<QClass, DnsError>(DnsError::Decode),
            },
    {
        match value {
            1 => Ok(QClass::IN),
            2 => Ok(QClass::CS),
            3 => Ok(QClass::CH),
            4 => Ok(QClass::HS),
            _ => Err(DnsError::Decode),
        }
    }
}

/// The length of the question at `pos` of `msg`, a name followed by two
/// 16-bit fields, when all of it lies in `msg`.
pub open spec fn question_len(msg: Seq<u8>, pos: int) -> Option<int> {
    if wire_name_ok(msg, pos, pos) && pos + wire_name_len(msg, pos) + 4 <= msg.len() {
        Some(wire_name_len(msg, pos) + 4int)
    } else {
        None
    }
}

/// The 16-bit field at `at` bytes past the name at `pos`.
pub open spec fn field16(msg: Seq<u8>, pos: int, at: int) -> u16 {
    let f = pos + wire_name_len(msg, pos) + at;
    be16(msg[f], msg[f + 1])
}

/// The length of the answer at `pos` of `msg`: a name, type, class, TTL,
/// data length and as many bytes of data, when all of it lies in `msg`.
pub open spec fn answer_len(msg: Seq<u8>, pos: int) -> Option<int> {
    let f = pos + wire_name_len(msg, pos);
    if wire_name_ok(msg, pos, pos) && f + 10 <= msg.len() && f + 10 + field16(msg, pos, 8)
        <= msg.len() {
        Some(wire_name_len(msg, pos) + 10int + field16(msg, pos, 8))
    } else {
        None
    }
}

/// A question: a name and the type and class asked for.
#[derive(Clone, Copy, Debug)]
pub struct Question<'a> {
    pub qname: Domain<'a>,
    pub qtype: QType,
    pub qclass: QClass,
}

impl<'a> Question<'a> {
    /// The wire form: the name uncompressed, then type and class.
    pub open spec fn wire(&self) -> Seq<u8> {
        name_wire(self.qname.labels()) + u16_bytes(self.qtype.spec_value()) + u16_bytes(
            self.qclass.spec_value(),
        )
    }

    /// What decoding the question at `pos` of `message` gives: the bytes it
    /// occupies and the question, or `Decode` when it is cut short or names
    /// an unknown type or class.
    pub open spec fn spec_decode(message: &'a [u8], pos: int) -> Result<
        (usize, Question<'a>),
        DnsError,
    > {
        let msg = message@;
        match question_len(msg, pos) {
            None => Err(DnsError::Decode),
            Some(n) => match (
                QType::spec_from(field16(msg, pos, 0)),
                QClass::spec_from(field16(msg, pos, 2)),
            ) {
                (Some(t), Some(c)) => Ok(
                    (
                        n as usize,
                        Question {
                            qname: Domain::Raw { message, offset: pos as usize },
                            qtype: t,
                            qclass: c,
                        },
                    ),
                ),
                _ => Err(DnsError::Decode),
            },
        }
    }

    pub fn decode(message: &'a [u8], pos: usize) -> (r: Result<(usize, Question<'a>), DnsError>)
        ensures
            r == Question::spec_decode(message, pos as int),
    {
        let (n, qname) = match Domain::decode(message, pos) {
            Ok(d) => d,
            Err(e) => return Err(e),
        };
        if n > message.len() - pos || message.len() - pos - n < 4 {
            return Err(DnsError::Decode);
        }
        let f = pos + n;
        let qtype = match QType::try_from(get_u16(message, f)) {
            Ok(t) => t,
            Err(e) => return Err(e),
        };
        let qclass = match QClass::try_from(get_u16(message, f + 2)) {
            Ok(c) => c,
            Err(e) => return Err(e),
        };
        Ok((n + 4, Question { qname, qtype, qclass }))
    }

    /// Writes the question into `buf` at `pos`.
    pub fn encode(&self, buf: &mut [u8], pos: usize) -> (r: Result<usize, DnsError>)
        ensures
            encoded(old(buf)@, final(buf)@, pos as int, self.wire(), r),
    {
        let n = match self.qname.encode(buf, pos) {
            Ok(n) => n,
            Err(e) => return Err(e),
        };
        let ghost w = name_wire(self.qname.labels());
        assert(pos + n <= buf.len());
        let p = pos + n;
        if buf.len() - p < 4 {
            return Err(DnsError::Encode);
        }
        put_u16(buf, p, self.qtype.value());
        proof {
            lemma_splice_twice(old(buf)@, pos as int, w, u16_bytes(self.qtype.spec_value()));
        }
        put_u16(buf, p + 2, self.qclass.value());
        proof {
            lemma_splice_twice(
                old(buf)@,
                pos as int,
                w + u16_bytes(self.qtype.spec_value()),
                u16_bytes(self.qclass.spec_value()),
            );
        }
        Ok(n + 4)
    }
}

/// An answer record. `rdata` borrows the record's data, which for an `A`
/// record is the four octets of an IPv4 address.
#[derive(Clone, Copy, Debug)]
pub struct Answer<'a> {
    pub domain: Domain<'a>,
    pub rtype: QType,
    pub class: QClass,
    pub ttl: u32,
    pub rdata: &'a [u8],
}

impl<'a> Answer<'a> {
    /// The wire form: the name uncompressed, type, class, TTL, data length
    /// and data.
    pub open spec fn wire(&self) -> Seq<u8> {
        name_wire(self.domain.labels()) + u16_bytes(self.rtype.spec_value()) + u16_bytes(
            self.class.spec_value(),
        ) + u32_bytes(self.ttl) + u16_bytes(self.rdata@.len() as u16) + self.rdata@
    }

    /// Whether the data is short enough for its 16-bit length field.
    pub open spec fn encodable(&self) -> bool {
        self.rdata@.len() <= 0xFFFF
    }

    /// What decoding the answer at `pos` of `message` gives: the bytes it
    /// occupies and the answer, or `Decode` when it is cut short (its data
    /// included) or names an unknown type or class.
    pub open spec fn spec_decode(message: &'a [u8], pos: int) -> Result<
        (usize, AnswerModel<'a>),
        DnsError,
    > {
        let msg = message@;
        match answer_len(msg, pos) {
            None => Err(DnsError::Decode),
            Some(n) => match (
                QType::spec_from(field16(msg, pos, 0)),
                QClass::spec_from(field16(msg, pos, 2)),
            ) {
                (Some(t), Some(c)) => {
                    let f = pos + wire_name_len(msg, pos);
                    Ok(
                        (
                            n as usize,
                            AnswerModel {
                                domain: Domain::Raw { message, offset: pos as usize },
                                rtype: t,
                                class: c,
                                ttl: be32(msg[f + 4], msg[f + 5], msg[f + 6], msg[f + 7]),
                                rdata: msg.subrange(f + 10, pos + n),
                            },
                        ),
                    )
                },
                _ => Err(DnsError::Decode),
            },
        }
    }

    pub fn decode(message: &'a [u8], pos: usize) -> (r: Result<(usize, Answer<'a>), DnsError>)
        ensures
            decoded_view(r) == Answer::spec_decode(message, pos as int),
    {
        let (n, domain) = match Domain::decode(message, pos) {
            Ok(d) => d,
            Err(e) => return Err(e),
        };
        if n > message.len() - pos || message.len() - pos - n < 10 {
            return Err(DnsError::Decode);
        }
        let f = pos + n;
        let rtype = match QType::try_from(get_u16(message, f)) {
            Ok(t) => t,
            Err(e) => return Err(e),
        };
        let class = match QClass::try_from(get_u16(message, f + 2)) {
            Ok(c) => c,
            Err(e) => return Err(e),
        };
        let ttl = get_u32(message, f + 4);
        let rdata_len = get_u16(message, f + 8) as usize;
        if rdata_len > message.len() - f - 10 {
            return Err(DnsError::Decode);
        }
        let rdata = vstd::slice::slice_subrange(message, f + 10, f + 10 + rdata_len);
        Ok((n + 10 + rdata_len, Answer { domain, rtype, class, ttl, rdata }))
    }

    #[verifier::rlimit(30)]
    /// Writes the answer into `buf` at `pos`; data longer than a 16-bit
    /// length can count cannot be encoded.
    pub fn encode(&self, buf: &mut [u8], pos: usize) -> (r: Result<usize, DnsError>)
        ensures
            if self.encodable() {
                encoded(old(buf)@, final(buf)@, pos as int, self.wire(), r)
            } else {
                r == Err::<usize, DnsError>(DnsError::Encode) && final(buf)@.len() == old(
                    buf,
                )@.len()
            },
    {
        if self.rdata.len() > 0xFFFF {
            return Err(DnsError::Encode);
        }
        let n = match self.domain.encode(buf, pos) {
            Ok(n) => n,
            Err(e) => return Err(e),
        };
        let ghost w0 = name_wire(self.domain.labels());
        let ghost w1 = w0 + u16_bytes(self.rtype.spec_value());
        let ghost w2 = w1 + u16_bytes(self.class.spec_value());
        let ghost w3 = w2 + u32_bytes(self.ttl);
        let ghost w4 = w3 + u16_bytes(self.rdata@.len() as u16);
        assert(pos + n <= buf.len());
        let p = pos + n;
        let len = self.rdata.len();
        if buf.len() - p < 10 || len > buf.len() - p - 10 {
            return Err(DnsError::Encode);
        }
        put_u16(buf, p, self.rtype.value());
        proof {
            lemma_splice_twice(old(buf)@, pos as int, w0, u16_bytes(self.rtype.spec_value()));
        }
        put_u16(buf, p + 2, self.class.value());
        proof {
            lemma_splice_twice(old(buf)@, pos as int, w1, u16_bytes(self.class.spec_value()));
        }
        put_u32(buf, p + 4, self.ttl);
        proof {
            lemma_splice_twice(old(buf)@, pos as int, w2, u32_bytes(self.ttl));
        }
        put_u16(buf, p + 8, len as u16);
        proof {
            lemma_splice_twice(old(buf)@, pos as int, w3, u16_bytes(len as u16));
        }
        copy_into(buf, p + 10, self.rdata, 0, len);
        proof {
            assert(self.rdata@.subrange(0, len as int) =~= self.rdata@);
            lemma_splice_twice(old(buf)@, pos as int, w4, self.rdata@);
        }
        Ok(n + 10 + len)
    }
}

/// What an answer holds, with its data as a sequence of bytes.
pub struct AnswerModel<'a> {
    pub domain: Domain<'a>,
    pub rtype: QType,
    pub class: QClass,
    pub ttl: u32,
    pub rdata: Seq<u8>,
}

impl<'a> View for Answer<'a> {
    type V = AnswerModel<'a>;

    open spec fn view(&self) -> AnswerModel<'a> {
        AnswerModel {
            domain: self.domain,
            rtype: self.rtype,
            class: self.class,
            ttl: self.ttl,
            rdata: self.rdata@,
        }
    }
}

/// A decoding result with the answer in it replaced by its view.
pub open spec fn decoded_view<'a>(r: Result<(usize, Answer<'a>), DnsError>) -> Result<
    (usize, AnswerModel<'a>),
    DnsError,
> {
    match r {
        Ok((n, a)) => Ok((n, a@)),
        Err(e) => Err(e),
    }
}

/// The questions laid end to end.
pub open spec fn questions_wire<'a>(qs: Seq<Question<'a>>) -> Seq<u8>
    decreases qs.len(),
{
    if qs.len() == 0 {
        seq![]
    } else {
        questions_wire(qs.drop_last()) + qs.last().wire()
    }
}

/// The answers laid end to end.
pub open spec fn answers_wire<'a>(rs: Seq<Answer<'a>>) -> Seq<u8>
    decreases rs.len(),
{
    if rs.len() == 0 {
        seq![]
    } else {
        answers_wire(rs.drop_last()) + rs.last().wire()
    }
}

/// Where a run of `count` questions that starts at `pos` ends, when each of
/// them lies in `msg`.
pub open spec fn questions_end(msg: Seq<u8>, pos: int, count: nat) -> Option<int>
    decreases count,
{
    if count == 0 {
        Some(pos)
    } else {
        match question_len(msg, pos) {
            Some(n) => questions_end(msg, pos + n, (count - 1) as nat),
            None => None,
        }
    }
}

/// Where a run of `count` answers that starts at `pos` ends, when each of
/// them, data included, lies in `msg`.
pub open spec fn answers_end(msg: Seq<u8>, pos: int, count: nat) -> Option<int>
    decreases count,
{
    if count == 0 {
        Some(pos)
    } else {
        match answer_len(msg, pos) {
            Some(n) => answers_end(msg, pos + n, (count - 1) as nat),
            None => None,
        }
    }
}

/// Where question `i` of the run that starts at `pos` begins, when each
/// question before it decodes.
pub open spec fn question_at<'a>(message: &'a [u8], pos: int, i: nat) -> Option<int>
    decreases i,
{
    if i == 0 {
        Some(pos)
    } else {
        match Question::spec_decode(message, pos) {
            Ok((n, _)) => question_at(message, pos + n, (i - 1) as nat),
            Err(_) => None,
        }
    }
}

/// Where answer `i` of the run that starts at `pos` begins, when each answer
/// before it decodes.
pub open spec fn answer_at<'a>(message: &'a [u8], pos: int, i: nat) -> Option<int>
    decreases i,
{
    if i == 0 {
        Some(pos)
    } else {
        match Answer::spec_decode(message, pos) {
            Ok((n, _)) => answer_at(message, pos + n, (i - 1) as nat),
            Err(_) => None,
        }
    }
}

pub proof fn lemma_questions_end_bounds(msg: Seq<u8>, pos: int, count: nat)
    requires
        0 <= pos <= msg.len(),
    ensures
        questions_end(msg, pos, count) matches Some(e) ==> pos <= e <= msg.len(),
    decreases count,
{
    if count > 0 {
        if let Some(n) = question_len(msg, pos) {
            lemma_questions_end_bounds(msg, pos + n, (count - 1) as nat);
        }
    }
}

pub proof fn lemma_answers_end_bounds(msg: Seq<u8>, pos: int, count: nat)
    requires
        0 <= pos <= msg.len(),
    ensures
        answers_end(msg, pos, count) matches Some(e) ==> pos <= e <= msg.len(),
    decreases count,
{
    if count > 0 {
        if let Some(n) = answer_len(msg, pos) {
            lemma_answers_end_bounds(msg, pos + n, (count - 1) as nat);
        }
    }
}

pub proof fn lemma_questions_wire_prefix<'a>(qs: Seq<Question<'a>>, k: int)
    requires
        0 <= k <= qs.len(),
    ensures
        questions_wire(qs.take(k)).len() <= questions_wire(qs).len(),
        k < qs.len() ==> questions_wire(qs.take(k + 1)) == questions_wire(qs.take(k))
            + qs[k].wire(),
    decreases qs.len(),
{
    if k < qs.len() {
        assert(qs.take(k + 1).drop_last() =~= qs.take(k));
    }
    if k == qs.len() {
        assert(qs.take(k) =~= qs);
    } else {
        assert(qs.drop_last().take(k) =~= qs.take(k));
        lemma_questions_wire_prefix(qs.drop_last(), k);
    }
}

pub proof fn lemma_answers_wire_prefix<'a>(rs: Seq<Answer<'a>>, k: int)
    requires
        0 <= k <= rs.len(),
    ensures
        answers_wire(rs.take(k)).len() <= answers_wire(rs).len(),
        k < rs.len() ==> answers_wire(rs.take(k + 1)) == answers_wire(rs.take(k)) + rs[k].wire(),
    decreases rs.len(),
{
    if k < rs.len() {
        assert(rs.take(k + 1).drop_last() =~= rs.take(k));
    }
    if k == rs.len() {
        assert(rs.take(k) =~= rs);
    } else {
        assert(rs.drop_last().take(k) =~= rs.take(k));
        lemma_answers_wire_prefix(rs.drop_last(), k);
    }
}

/// The question section: records built in memory, or `count` records that
/// lie from `start` to `end` in a received `message`, decoded on demand.
#[derive(Clone, Copy, Debug)]
pub enum Questions<'a> {
    Slice(&'a [Question<'a>]),
    Raw { message: &'a [u8], count: usize, start: usize, end: usize },
}

impl<'a> Questions<'a> {
    pub open spec fn spec_count(&self) -> nat {
        match *self {
            Questions::Slice(qs) => qs@.len(),
            Questions::Raw { count, .. } => count as nat,
        }
    }

    /// The section's bytes: the records encoded, or the received bytes.
    pub open spec fn wire(&self) -> Seq<u8> {
        match *self {
            Questions::Slice(qs) => questions_wire(qs@),
            Questions::Raw { message, start, end, .. } => message@.subrange(
                start as int,
                end as int,
            ),
        }
    }

    /// Whether the section can be written out: received bytes must lie in
    /// their message.
    pub open spec fn encodable(&self) -> bool {
        match *self {
            Questions::Slice(_) => true,
            Questions::Raw { message, start, end, .. } => start <= end <= message@.len(),
        }
    }

    /// Question `i`: `None` past the end; for received bytes, `Decode` when
    /// that question or one before it does not decode.
    pub open spec fn spec_get(&self, i: usize) -> Result<Option<Question<'a>>, DnsError> {
        match *self {
            Questions::Slice(qs) => if i < qs@.len() {
                Ok(Some(qs@[i as int]))
            } else {
                Ok(None)
            },
            Questions::Raw { message, count, start, .. } => if i >= count {
                Ok(None)
            } else {
                match question_at(message, start as int, i as nat) {
                    Some(p) => match Question::spec_decode(message, p) {
                        Ok((_, q)) => Ok(Some(q)),
                        Err(e) => Err(e),
                    },
                    None => Err(DnsError::Decode),
                }
            },
        }
    }

    pub fn count(&self) -> (r: usize)
        ensures
            r == self.spec_count(),
    {
        match self {
            Questions::Slice(qs) => qs.len(),
            Questions::Raw { count, .. } => *count,
        }
    }

    pub fn get(&'a self, i: usize) -> (r: Result<Option<Question<'a>>, DnsError>)
        ensures
            r == self.spec_get(i),
    {
        match self {
            Questions::Slice(qs) => {
                if i < qs.len() {
                    Ok(Some(qs[i]))
                } else {
                    Ok(None)
                }
            },
            Questions::Raw { message, count, start, .. } => {
                if i >= *count {
                    return Ok(None);
                }
                let mut p: usize = *start;
                let mut k: usize = 0;
                let mlen = message.len();
                while k < i
                    invariant
                        k <= i < *count,
                        *self == (Questions::Raw {
                            message: *message,
                            count: *count,
                            start: *start,
                            end: self->end,
                        }),
                        mlen == message@.len(),
                        question_at(message, *start as int, i as nat) == question_at(
                            message,
                            p as int,
                            (i - k) as nat,
                        ),
                    decreases i - k,
                {
                    let r = Question::decode(message, p);
                    proof {
                        assert(question_at(message, p as int, (i - k) as nat) == match r {
                            Ok((n, _)) => question_at(message, p + n, (i - k - 1) as nat),
                            Err(_) => None,
                        });
                    }
                    match r {
                        Ok((n, _)) => {
                            assert(p + n <= message@.len());
                            p = p + n;
                            k = k + 1;
                        },
                        Err(e) => return Err(e),
                    }
                }
                match Question::decode(message, p) {
                    Ok((_, q)) => Ok(Some(q)),
                    Err(e) => Err(e),
                }
            },
        }
    }

    /// Writes the section into `buf` at `pos`.
    pub fn encode(&self, buf: &mut [u8], pos: usize) -> (r: Result<usize, DnsError>)
        ensures
            if self.encodable() {
                encoded(old(buf)@, final(buf)@, pos as int, self.wire(), r)
            } else {
                r == Err::<usize, DnsError>(DnsError::Encode) && final(buf)@.len() == old(
                    buf,
                )@.len()
            },
    {
        match self {
            Questions::Slice(qs) => {
                if pos > buf.len() {
                    return Err(DnsError::Encode);
                }
                let mut p: usize = pos;
                let mut k: usize = 0;
                proof {
                    assert(qs@.take(0) =~= seq![]);
                    crate::wire::lemma_splice_empty(buf@, pos as int);
                }
                while k < qs.len()
                    invariant
                        self.wire() == questions_wire(qs@),
                        k <= qs@.len(),
                        pos <= p <= buf.len(),
                        buf@.len() == old(buf)@.len(),
                        buf@ == splice(old(buf)@, pos as int, questions_wire(qs@.take(k as int))),
                        p == pos + questions_wire(qs@.take(k as int)).len(),
                    decreases qs@.len() - k,
                {
                    proof {
                        lemma_questions_wire_prefix(qs@, k as int);
                        lemma_questions_wire_prefix(qs@, k + 1);
                    }
                    let q = qs[k];
                    assert(q == qs@[k as int]);
                    let n = match q.encode(buf, p) {
                        Ok(n) => n,
                        Err(e) => return Err(e),
                    };
                    proof {
                        lemma_splice_twice(
                            old(buf)@,
                            pos as int,
                            questions_wire(qs@.take(k as int)),
                            qs@[k as int].wire(),
                        );
                    }
                    p = p + n;
                    k = k + 1;
                }
                proof {
                    assert(qs@.take(qs@.len() as int) =~= qs@);
                }
                Ok(p - pos)
            },
            Questions::Raw { message, start, end, .. } => {
                if *start > *end || *end > message.len() {
                    return Err(DnsError::Encode);
                }
                let len = *end - *start;
                if pos > buf.len() || len > buf.len() - pos {
                    return Err(DnsError::Encode);
                }
                copy_into(buf, pos, message, *start, len);
                Ok(len)
            },
        }
    }

    /// Walks `count` questions from `pos` of `message`, checking that each
    /// lies in it, and returns their extent and a view over them.
    pub fn decode(count: usize, message: &'a [u8], pos: usize) -> (r: Result<
        (usize, Questions<'a>),
        DnsError,
    >)
        ensures
            match questions_end(message@, pos as int, count as nat) {
                Some(e) => r == Ok::<(usize, Questions<'a>), DnsError>(
                    (
                        (e - pos) as usize,
                        Questions::Raw { message, count, start: pos, end: e as usize },
                    ),
                ),
                None => r == Err::<(usize, Questions<'a>), DnsError>(DnsError::Decode),
            },
    {
        let mut p: usize = pos;
        let mut k: usize = 0;
        while k < count
            invariant
                k <= count,
                pos <= p,
                questions_end(message@, pos as int, count as nat) == questions_end(
                    message@,
                    p as int,
                    (count - k) as nat,
                ),
            decreases count - k,
        {
            let n = match Domain::decode(message, p) {
                Ok((n, _)) => n,
                Err(e) => return Err(e),
            };
            if n > message.len() - p || message.len() - p - n < 4 {
                return Err(DnsError::Decode);
            }
            p = p + n + 4;
            k = k + 1;
        }
        Ok((p - pos, Questions::Raw { message, count, start: pos, end: p }))
    }
}

/// The answer section: records built in memory, or `count` records that lie
/// from `start` to `end` in a received `message`, decoded on demand.
#[derive(Clone, Copy, Debug)]
pub enum Answers<'a> {
    Slice(&'a [Answer<'a>]),
    Raw { message: &'a [u8], count: usize, start: usize, end: usize },
}

/// An optional answer, replaced by its view.
pub open spec fn got_view<'a>(r: Result<Option<Answer<'a>>, DnsError>) -> Result<
    Option<AnswerModel<'a>>,
    DnsError,
> {
    match r {
        Ok(Some(a)) => Ok(Some(a@)),
        Ok(None) => Ok(None),
        Err(e) => Err(e),
    }
}

impl<'a> Answers<'a> {
    pub open spec fn spec_count(&self) -> nat {
        match *self {
            Answers::Slice(rs) => rs@.len(),
            Answers::Raw { count, .. } => count as nat,
        }
    }

    /// The section's bytes: the records encoded, or the received bytes.
    pub open spec fn wire(&self) -> Seq<u8> {
        match *self {
            Answers::Slice(rs) => answers_wire(rs@),
            Answers::Raw { message, start, end, .. } => message@.subrange(
                start as int,
                end as int,
            ),
        }
    }

    /// Whether the section can be written out: each record's data fits its
    /// length field, and received bytes lie in their message.
    pub open spec fn encodable(&self) -> bool {
        match *self {
            Answers::Slice(rs) => forall|i: int|
                0 <= i < rs@.len() ==> #[trigger] rs@[i].encodable(),
            Answers::Raw { message, start, end, .. } => start <= end <= message@.len(),
        }
    }

    /// Answer `i`: `None` past the end; for received bytes, `Decode` when
    /// that answer or one before it does not decode.
    pub open spec fn spec_get(&self, i: usize) -> Result<Option<AnswerModel<'a>>, DnsError> {
        match *self {
            Answers::Slice(rs) => if i < rs@.len() {
                Ok(Some(rs@[i as int]@))
            } else {
                Ok(None)
            },
            Answers::Raw { message, count, start, .. } => if i >= count {
                Ok(None)
            } else {
                match answer_at(message, start as int, i as nat) {
                    Some(p) => match Answer::spec_decode(message, p) {
                        Ok((_, a)) => Ok(Some(a)),
                        Err(e) => Err(e),
                    },
                    None => Err(DnsError::Decode),
                }
            },
        }
    }

    pub fn count(&self) -> (r: usize)
        ensures
            r == self.spec_count(),
    {
        match self {
            Answers::Slice(rs) => rs.len(),
            Answers::Raw { count, .. } => *count,
        }
    }

    pub fn get(&'a self, i: usize) -> (r: Result<Option<Answer<'a>>, DnsError>)
        ensures
            got_view(r) == self.spec_get(i),
    {
        match self {
            Answers::Slice(rs) => {
                if i < rs.len() {
                    Ok(Some(rs[i]))
                } else {
                    Ok(None)
                }
            },
            Answers::Raw { message, count, start, .. } => {
                if i >= *count {
                    return Ok(None);
                }
                let mut p: usize = *start;
                let mut k: usize = 0;
                let mlen = message.len();
                while k < i
                    invariant
                        k <= i < *count,
                        *self == (Answers::Raw {
                            message: *message,
                            count: *count,
                            start: *start,
                            end: self->end,
                        }),
                        mlen == message@.len(),
                        answer_at(message, *start as int, i as nat) == answer_at(
                            message,
                            p as int,
                            (i - k) as nat,
                        ),
                    decreases i - k,
                {
                    let r = Answer::decode(message, p);
                    proof {
                        assert(answer_at(message, p as int, (i - k) as nat) == match decoded_view(
                            r,
                        ) {
                            Ok((n, _)) => answer_at(message, p + n, (i - k - 1) as nat),
                            Err(_) => None,
                        });
                    }
                    match r {
                        Ok((n, _)) => {
                            p = p + n;
                            k = k + 1;
                        },
                        Err(e) => return Err(e),
                    }
                }
                match Answer::decode(message, p) {
                    Ok((_, a)) => Ok(Some(a)),
                    Err(e) => Err(e),
                }
            },
        }
    }

    /// Writes the section into `buf` at `pos`.
    pub fn encode(&self, buf: &mut [u8], pos: usize) -> (r: Result<usize, DnsError>)
        ensures
            if self.encodable() {
                encoded(old(buf)@, final(buf)@, pos as int, self.wire(), r)
            } else {
                r == Err::<usize, DnsError>(DnsError::Encode) && final(buf)@.len() == old(
                    buf,
                )@.len()
            },
    {
        match self {
            Answers::Slice(rs) => {
                if pos > buf.len() {
                    return Err(DnsError::Encode);
                }
                let mut p: usize = pos;
                let mut k: usize = 0;
                proof {
                    assert(rs@.take(0) =~= seq![]);
                    crate::wire::lemma_splice_empty(buf@, pos as int);
                }
                while k < rs.len()
                    invariant
                        self.wire() == answers_wire(rs@),
                        self.encodable() == (forall|i: int|
                            0 <= i < rs@.len() ==> #[trigger] rs@[i].encodable()),
                        forall|i: int| 0 <= i < k ==> #[trigger] rs@[i].encodable(),
                        k <= rs@.len(),
                        pos <= p <= buf.len(),
                        buf@.len() == old(buf)@.len(),
                        buf@ == splice(old(buf)@, pos as int, answers_wire(rs@.take(k as int))),
                        p == pos + answers_wire(rs@.take(k as int)).len(),
                    decreases rs@.len() - k,
                {
                    proof {
                        lemma_answers_wire_prefix(rs@, k as int);
                        lemma_answers_wire_prefix(rs@, k + 1);
                    }
                    let a = rs[k];
                    assert(a == rs@[k as int]);
                    let n = match a.encode(buf, p) {
                        Ok(n) => n,
                        Err(e) => return Err(e),
                    };
                    proof {
                        lemma_splice_twice(
                            old(buf)@,
                            pos as int,
                            answers_wire(rs@.take(k as int)),
                            rs@[k as int].wire(),
                        );
                    }
                    p = p + n;
                    k = k + 1;
                }
                proof {
                    assert(rs@.take(rs@.len() as int) =~= rs@);
                }
                Ok(p - pos)
            },
            Answers::Raw { message, start, end, .. } => {
                if *start > *end || *end > message.len() {
                    return Err(DnsError::Encode);
                }
                let len = *end - *start;
                if pos > buf.len() || len > buf.len() - pos {
                    return Err(DnsError::Encode);
                }
                copy_into(buf, pos, message, *start, len);
                Ok(len)
            },
        }
    }

    /// Walks `count` answers from `pos` of `message`, checking that each,
    /// data included, lies in it, and returns their extent and a view over
    /// them.
    pub fn decode(count: usize, message: &'a [u8], pos: usize) -> (r: Result<
        (usize, Answers<'a>),
        DnsError,
    >)
        ensures
            match answers_end(message@, pos as int, count as nat) {
                Some(e) => r == Ok::<(usize, Answers<'a>), DnsError>(
                    (
                        (e - pos) as usize,
                        Answers::Raw { message, count, start: pos, end: e as usize },
                    ),
                ),
                None => r == Err::<(usize, Answers<'a>), DnsError>(DnsError::Decode),
            },
    {
        let mut p: usize = pos;
        let mut k: usize = 0;
        while k < count
            invariant
                k <= count,
                pos <= p,
                answers_end(message@, pos as int, count as nat) == answers_end(
                    message@,
                    p as int,
                    (count - k) as nat,
                ),
            decreases count - k,
        {
            let n = match Domain::decode(message, p) {
                Ok((n, _)) => n,
                Err(e) => return Err(e),
            };
            if n > message.len() - p || message.len() - p - n < 10 {
                return Err(DnsError::Decode);
            }
            let rdata_len = get_u16(message, p + n + 8) as usize;
            if rdata_len > message.len() - p - n - 10 {
                return Err(DnsError::Decode);
            }
            p = p + n + 10 + rdata_len;
            k = k + 1;
        }
        Ok((p - pos, Answers::Raw { message, count, start: pos, end: p }))
    }
}

/// The 12-byte header: id, opcode in bits 3 to 6 of the third byte, a zero
/// response code, the question and answer counts, and zero authority and
/// additional counts.
pub open spec fn header_wire(id: u16, opcode: Opcode, qdcount: u16, ancount: u16) -> Seq<u8> {
    u16_bytes(id) + seq![(opcode.spec_value() * 8) as u8, 0u8] + u16_bytes(qdcount) + u16_bytes(
        ancount,
    ) + seq![0u8, 0u8, 0u8, 0u8]
}

/// The error that a nonzero response code stands for; codes past 5 are
/// taken as success.
pub open spec fn rcode_error(code: u8) -> Option<DnsError> {
    if code == 1 {
        Some(DnsError::FormatError)
    } else if code == 2 {
        Some(DnsError::ServerFailure)
    } else if code == 3 {
        Some(DnsError::NameError)
    } else if code == 4 {
        Some(DnsError::NotImplemented)
    } else if code == 5 {
        Some(DnsError::Refused)
    } else {
        None
    }
}

/// A DNS message with its question and answer sections.
#[derive(Clone, Copy, Debug)]
pub struct DnsMessage<'a> {
    pub id: u16,
    pub opcode: Opcode,
    pub questions: Questions<'a>,
    pub answers: Answers<'a>,
}

impl<'a> DnsMessage<'a> {
    /// The wire form: header, then the question and answer sections.
    pub open spec fn wire(&self) -> Seq<u8> {
        header_wire(
            self.id,
            self.opcode,
            self.questions.spec_count() as u16,
            self.answers.spec_count() as u16,
        ) + self.questions.wire() + self.answers.wire()
    }

    /// Whether the message can be written out: its counts fit 16 bits and
    /// both sections can be written.
    pub open spec fn encodable(&self) -> bool {
        &&& self.questions.spec_count() <= 0xFFFF
        &&& self.answers.spec_count() <= 0xFFFF
        &&& self.questions.encodable()
        &&& self.answers.encodable()
    }

    /// What decoding `buf` gives: `Decode` for a short header, an unknown
    /// opcode or a section that is cut short; the error of a response code
    /// from 1 to 5; else the header's fields and views over both sections.
    pub open spec fn spec_decode(buf: &'a [u8]) -> Result<DnsMessage<'a>, DnsError> {
        let b = buf@;
        if b.len() < 12 {
            Err(DnsError::Decode)
        } else {
            match Opcode::spec_from((b[2] / 8 % 16) as u8) {
                None => Err(DnsError::Decode),
                Some(opcode) => match rcode_error((b[3] % 16) as u8) {
                    Some(e) => Err(e),
                    None => {
                        let qd = be16(b[4], b[5]);
                        let an = be16(b[6], b[7]);
                        match questions_end(b, 12, qd as nat) {
                            None => Err(DnsError::Decode),
                            Some(qe) => match answers_end(b, qe, an as nat) {
                                None => Err(DnsError::Decode),
                                Some(ae) => Ok(
                                    DnsMessage {
                                        id: be16(b[0], b[1]),
                                        opcode,
                                        questions: Questions::Raw {
                                            message: buf,
                                            count: qd as usize,
                                            start: 12,
                                            end: qe as usize,
                                        },
                                        answers: Answers::Raw {
                                            message: buf,
                                            count: an as usize,
                                            start: qe as usize,
                                            end: ae as usize,
                                        },
                                    },
                                ),
                            },
                        }
                    },
                },
            }
        }
    }

    /// Writes the message into `buf`, bounds-checking every write.
    pub fn encode(&self, buf: &mut [u8]) -> (r: Result<usize, DnsError>)
        ensures
            if self.encodable() {
                encoded(old(buf)@, final(buf)@, 0, self.wire(), r)
            } else {
                r == Err::<usize, DnsError>(DnsError::Encode) && final(buf)@.len() == old(
                    buf,
                )@.len()
            },
    {
        let qdcount = self.questions.count();
        let ancount = self.answers.count();
        if buf.len() < 12 || qdcount > 0xFFFF || ancount > 0xFFFF {
            return Err(DnsError::Encode);
        }
        let ghost header = header_wire(self.id, self.opcode, qdcount as u16, ancount as u16);
        put_u16(buf, 0, self.id);
        buf[2] = self.opcode.value() * 8;
        buf[3] = 0;
        put_u16(buf, 4, qdcount as u16);
        put_u16(buf, 6, ancount as u16);
        buf[8] = 0;
        buf[9] = 0;
        buf[10] = 0;
        buf[11] = 0;
        assert(buf@ =~= splice(old(buf)@, 0, header));
        let n = match self.questions.encode(buf, 12) {
            Ok(n) => n,
            Err(e) => return Err(e),
        };
        proof {
            lemma_splice_twice(old(buf)@, 0, header, self.questions.wire());
        }
        let m = match self.answers.encode(buf, 12 + n) {
            Ok(m) => m,
            Err(e) => return Err(e),
        };
        proof {
            lemma_splice_twice(old(buf)@, 0, header + self.questions.wire(), self.answers.wire());
        }
        Ok(12 + n + m)
    }

    /// Reads a message: checks the header, fails on an error response code
    /// before touching the sections, then walks both sections.
    pub fn decode(buf: &'a [u8]) -> (r: Result<DnsMessage<'a>, DnsError>)
        ensures
            r == DnsMessage::spec_decode(buf),
    {
        if buf.len() < 12 {
            return Err(DnsError::Decode);
        }
        let id = get_u16(buf, 0);
        let opcode = match buf[2] / 8 % 16 {
            0 => Opcode::Query,
            1 => Opcode::IQuery,
            2 => Opcode::Status,
            _ => return Err(DnsError::Decode),
        };
        match buf[3] % 16 {
            1 => return Err(DnsError::FormatError),
            2 => return Err(DnsError::ServerFailure),
            3 => return Err(DnsError::NameError),
            4 => return Err(DnsError::NotImplemented),
            5 => return Err(DnsError::Refused),
            _ => {},
        }
        let qdcount = get_u16(buf, 4);
        let ancount = get_u16(buf, 6);
        proof {
            lemma_questions_end_bounds(buf@, 12, qdcount as nat);
            if let Some(qe) = questions_end(buf@, 12, qdcount as nat) {
                lemma_answers_end_bounds(buf@, qe, ancount as nat);
            }
        }
        let (qlen, questions) = match Questions::decode(qdcount as usize, buf, 12) {
            Ok(d) => d,
            Err(e) => return Err(e),
        };
        let (_alen, answers) = match Answers::decode(ancount as usize, buf, 12 + qlen) {
            Ok(d) => d,
            Err(e) => return Err(e),
        };
        Ok(DnsMessage { id, opcode, questions, answers })
    }
}

/// The bytes of `w` stand at `pos` of `msg`.
pub open spec fn holds_at(msg: Seq<u8>, pos: int, w: Seq<u8>) -> bool {
    0 <= pos && pos + w.len() <= msg.len() && msg.subrange(pos, pos + w.len()) == w
}

pub proof fn lemma_holds_at_part(msg: Seq<u8>, pos: int, w: Seq<u8>, from: int, to: int)
    requires
        holds_at(msg, pos, w),
        0 <= from <= to <= w.len(),
    ensures
        holds_at(msg, pos + from, w.subrange(from, to)),
        forall|i: int| from <= i < to ==> msg[pos + i] == w[i],
{
    assert(msg.subrange(pos + from, pos + to) =~= w.subrange(from, to)) by {
        assert forall|i: int| 0 <= i < to - from implies msg.subrange(pos + from, pos + to)[i]
            == w.subrange(from, to)[i] by {
            assert(msg[pos + from + i] == msg.subrange(pos, pos + w.len())[from + i]);
        }
    }
    assert forall|i: int| from <= i < to implies msg[pos + i] == w[i] by {
        assert(msg[pos + i] == msg.subrange(pos, pos + w.len())[i]);
    }
}

/// Decoding a question where its encoding stands gives it back: the bytes
/// that were written, the same type and class, and a name with the same
/// labels that equals the one written.
pub proof fn lemma_question_round_trip<'a>(q: Question<'a>, message: &'a [u8], pos: usize)
    requires
        plain_labels(q.qname.labels()),
        holds_at(message@, pos as int, q.wire()),
    ensures
        Question::spec_decode(message, pos as int) == Ok::<(usize, Question<'a>), DnsError>(
            (
                q.wire().len() as usize,
                Question {
                    qname: Domain::Raw { message, offset: pos },
                    qtype: q.qtype,
                    qclass: q.qclass,
                },
            ),
        ),
        (Domain::Raw { message, offset: pos }).labels() == q.qname.labels(),
        (Domain::Raw { message, offset: pos }).eq_spec(&q.qname),
{
    let msg = message@;
    let w = q.wire();
    let nw = name_wire(q.qname.labels());
    let n = nw.len() as int;
    lemma_holds_at_part(msg, pos as int, w, 0, n);
    assert(w.subrange(0, n) =~= nw);
    lemma_holds_at_part(msg, pos as int, w, n, n + 4);
    lemma_name_read_back(msg, pos as int, pos as int, q.qname.labels());
    lemma_u16_round_trip(q.qtype.spec_value());
    lemma_u16_round_trip(q.qclass.spec_value());
    assert(w[n] == u16_bytes(q.qtype.spec_value())[0]);
    assert(w[n + 1] == u16_bytes(q.qtype.spec_value())[1]);
    assert(w[n + 2] == u16_bytes(q.qclass.spec_value())[0]);
    assert(w[n + 3] == u16_bytes(q.qclass.spec_value())[1]);
    QType::lemma_from_value(q.qtype);
    q.qname.lemma_text_is_joined_labels();
}

/// Decoding an answer where its encoding stands gives it back: the bytes
/// that were written, the same type, class, TTL and data, and a name with
/// the same labels that equals the one written.
pub proof fn lemma_answer_round_trip<'a>(a: Answer<'a>, message: &'a [u8], pos: usize)
    requires
        plain_labels(a.domain.labels()),
        a.encodable(),
        holds_at(message@, pos as int, a.wire()),
    ensures
        Answer::spec_decode(message, pos as int) == Ok::<(usize, AnswerModel<'a>), DnsError>(
            (
                a.wire().len() as usize,
                AnswerModel {
                    domain: Domain::Raw { message, offset: pos },
                    rtype: a.rtype,
                    class: a.class,
                    ttl: a.ttl,
                    rdata: a.rdata@,
                },
            ),
        ),
        (Domain::Raw { message, offset: pos }).labels() == a.domain.labels(),
        (Domain::Raw { message, offset: pos }).eq_spec(&a.domain),
{
    let msg = message@;
    let w = a.wire();
    let nw = name_wire(a.domain.labels());
    let n = nw.len() as int;
    let dl = a.rdata@.len();
    lemma_holds_at_part(msg, pos as int, w, 0, n);
    assert(w.subrange(0, n) =~= nw);
    lemma_holds_at_part(msg, pos as int, w, n, n + 10);
    lemma_holds_at_part(msg, pos as int, w, n + 10, n + 10 + dl);
    assert(w.subrange(n + 10, n + 10 + dl) =~= a.rdata@);
    lemma_name_read_back(msg, pos as int, pos as int, a.domain.labels());
    lemma_u16_round_trip(a.rtype.spec_value());
    lemma_u16_round_trip(a.class.spec_value());
    lemma_u32_round_trip(a.ttl);
    lemma_u16_round_trip(dl as u16);
    let t = u16_bytes(a.rtype.spec_value());
    let c = u16_bytes(a.class.spec_value());
    let ttl = u32_bytes(a.ttl);
    let len = u16_bytes(dl as u16);
    assert(w[n] == t[0] && w[n + 1] == t[1]);
    assert(w[n + 2] == c[0] && w[n + 3] == c[1]);
    assert(w[n + 4] == ttl[0] && w[n + 5] == ttl[1] && w[n + 6] == ttl[2] && w[n + 7] == ttl[3]);
    assert(w[n + 8] == len[0] && w[n + 9] == len[1]);
    QType::lemma_from_value(a.rtype);
    a.domain.lemma_text_is_joined_labels();
}

/// A run of records that lies in the first bytes of a message lies there in
/// the whole message too, with the same extent.
pub proof fn lemma_sections_in_prefix(short: Seq<u8>, full: Seq<u8>, pos: int, count: nat)
    requires
        short == full.subrange(0, short.len() as int),
        short.len() <= full.len(),
        0 <= pos <= short.len(),
    ensures
        questions_end(short, pos, count) matches Some(e) ==> questions_end(full, pos, count)
            == Some(e) && e <= short.len(),
        answers_end(short, pos, count) matches Some(e) ==> answers_end(full, pos, count) == Some(
            e,
        ) && e <= short.len(),
    decreases count,
{
    if count > 0 {
        if wire_name_ok(short, pos, pos) {
            lemma_name_in_prefix(short, full, pos, pos);
            let f = pos + wire_name_len(short, pos);
            if f + 10 <= short.len() {
                assert(short[f + 8] == full[f + 8] && short[f + 9] == full[f + 9]);
            }
            if let Some(n) = question_len(short, pos) {
                lemma_sections_in_prefix(short, full, pos + n, (count - 1) as nat);
            }
            if let Some(n) = answer_len(short, pos) {
                lemma_sections_in_prefix(short, full, pos + n, (count - 1) as nat);
            }
        }
    }
}

/// A message cut short anywhere before the end of its answer section,
/// inside the header, a name, the fixed fields or the data of a record,
/// fails to decode with `Decode`.
pub proof fn lemma_truncated_message<'a>(buf: &'a [u8], short: &'a [u8])
    requires
        DnsMessage::spec_decode(buf) is Ok,
        short@ == buf@.subrange(0, short@.len() as int),
        short@.len() < DnsMessage::spec_decode(buf)->Ok_0.answers->end,
    ensures
        DnsMessage::spec_decode(short) == Err::<DnsMessage<'a>, DnsError>(DnsError::Decode),
{
    let b = buf@;
    let s = short@;
    lemma_questions_end_bounds(b, 12, be16(b[4], b[5]) as nat);
    let qe0 = questions_end(b, 12, be16(b[4], b[5]) as nat)->Some_0;
    lemma_answers_end_bounds(b, qe0, be16(b[6], b[7]) as nat);
    assert(s.len() < b.len());
    if s.len() >= 12 {
        assert forall|i: int| 0 <= i < 12 implies s[i] == b[i] by {
            assert(s[i] == b.subrange(0, s.len() as int)[i]);
        }
        let qd = be16(b[4], b[5]) as nat;
        let an = be16(b[6], b[7]) as nat;
        lemma_sections_in_prefix(s, b, 12, qd);
        if let Some(qe) = questions_end(s, 12, qd) {
            lemma_sections_in_prefix(s, b, qe, an);
        }
    }
}

} // verus!
