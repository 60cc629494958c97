//! Domain names: their text form, their wire form with compression pointers,
//! and the lazy byte-by-byte reading used to compare them.
use vstd::prelude::*;

use vstd::std_specs::cmp::PartialEqSpec;
use vstd::string::StringSliceAdditionalSpecFns;

use crate::wire::{
    copy_into, encoded, lemma_splice_byte, lemma_splice_empty, lemma_splice_twice, splice,
};
use crate::DnsError;

verus! {

/// The byte that separates labels in the text form of a name (`'.'`).
pub const DOT: u8 = 46;

/// A length byte at or above this value starts a compression pointer
/// (one of its two top bits is set).
pub const POINTER_MIN: u8 = 64;

/// The offset that a compression pointer `hi lo` refers to: the low six bits
/// of `hi` followed by the eight bits of `lo`.
pub open spec fn pointer_target(hi: u8, lo: u8) -> int {
    (hi as int % 64) * 256 + lo as int
}

/// Whether the wire name at `pos` in `msg` reads to its zero terminator
/// within `msg`, every compression pointer landing strictly before the start
/// of the segment that holds it (`bound`).  This rules out forward pointers
/// and pointer cycles.
pub open spec fn wire_name_ok(msg: Seq<u8>, pos: int, bound: int) -> bool
    decreases bound, msg.len() - pos,
{
    if pos < 0 || pos >= msg.len() {
        false
    } else {
        let b = msg[pos];
        if b == 0 {
            true
        } else if b >= POINTER_MIN {
            pos + 1 < msg.len() && {
                let t = pointer_target(b, msg[pos + 1]);
                0 <= t < bound && wire_name_ok(msg, t, t)
            }
        } else {
            pos + 1 + b <= msg.len() && wire_name_ok(msg, pos + 1 + b, bound)
        }
    }
}

/// The complete labels of the wire name at `pos`, following compression
/// pointers; reading stops at the terminator or at the first malformed byte.
pub open spec fn wire_labels(msg: Seq<u8>, pos: int, bound: int) -> Seq<Seq<u8>>
    decreases bound, msg.len() - pos,
{
    if pos < 0 || pos >= msg.len() {
        seq![]
    } else {
        let b = msg[pos];
        if b == 0 {
            seq![]
        } else if b >= POINTER_MIN {
            if pos + 1 < msg.len() && 0 <= pointer_target(b, msg[pos + 1]) < bound {
                let t = pointer_target(b, msg[pos + 1]);
                wire_labels(msg, t, t)
            } else {
                seq![]
            }
        } else if pos + 1 + b <= msg.len() {
            seq![msg.subrange(pos + 1, pos + 1 + b)] + wire_labels(msg, pos + 1 + b, bound)
        } else {
            seq![]
        }
    }
}

/// How many bytes the wire name at `pos` occupies where it stands: its labels
/// up to and including the terminator, or up to and including a pointer.
pub open spec fn wire_name_len(msg: Seq<u8>, pos: int) -> nat
    decreases msg.len() - pos,
{
    if pos < 0 || pos >= msg.len() {
        0
    } else {
        let b = msg[pos];
        if b == 0 {
            1
        } else if b >= POINTER_MIN {
            2
        } else if pos + 1 + b <= msg.len() {
            (b + 1 + wire_name_len(msg, pos + 1 + b)) as nat
        } else {
            (b + 1) as nat
        }
    }
}

/// Each label preceded by a dot.
pub open spec fn dotted(labels: Seq<Seq<u8>>) -> Seq<u8>
    decreases labels.len(),
{
    if labels.len() == 0 {
        seq![]
    } else {
        seq![DOT] + labels[0] + dotted(labels.drop_first())
    }
}

/// The labels joined by dots: the text form of a name.
pub open spec fn join_labels(labels: Seq<Seq<u8>>) -> Seq<u8> {
    if labels.len() == 0 {
        seq![]
    } else {
        labels[0] + dotted(labels.drop_first())
    }
}

/// The pieces of `s` between dots; there is always at least one piece.
pub open spec fn split_dots(s: Seq<u8>) -> Seq<Seq<u8>>
    decreases s.len(),
{
    if s.len() == 0 {
        seq![seq![]]
    } else {
        let rest = split_dots(s.drop_first());
        if s[0] == DOT {
            seq![seq![]] + rest
        } else {
            rest.update(0, seq![s[0]] + rest[0])
        }
    }
}

/// A label cut to the 255 bytes that its length byte can count.
pub open spec fn truncate_label(l: Seq<u8>) -> Seq<u8> {
    if l.len() > 255 {
        l.subrange(0, 255)
    } else {
        l
    }
}

/// Each label as a length byte followed by its bytes.
pub open spec fn labels_wire(labels: Seq<Seq<u8>>) -> Seq<u8>
    decreases labels.len(),
{
    if labels.len() == 0 {
        seq![]
    } else {
        seq![labels[0].len() as u8] + labels[0] + labels_wire(labels.drop_first())
    }
}

/// The uncompressed wire form of a name: its labels and a zero terminator.
pub open spec fn name_wire(labels: Seq<Seq<u8>>) -> Seq<u8> {
    labels_wire(labels) + seq![0u8]
}

pub proof fn lemma_labels_wire_append(a: Seq<Seq<u8>>, b: Seq<Seq<u8>>)
    ensures
        labels_wire(a + b) == labels_wire(a) + labels_wire(b),
    decreases a.len(),
{
    if a.len() == 0 {
        assert(a + b =~= b);
        assert(labels_wire(a) + labels_wire(b) =~= labels_wire(b));
    } else {
        assert((a + b).drop_first() =~= a.drop_first() + b);
        lemma_labels_wire_append(a.drop_first(), b);
        assert(labels_wire(a + b) =~= labels_wire(a) + labels_wire(b));
    }
}

pub proof fn lemma_labels_wire_single(label: Seq<u8>)
    ensures
        labels_wire(seq![label]) == seq![label.len() as u8] + label,
{
    assert(seq![label].drop_first() =~= seq![]);
    assert(labels_wire(seq![label].drop_first()) == Seq::<u8>::empty());
    assert(labels_wire(seq![label]) =~= seq![label.len() as u8] + label);
}

/// Splitting text whose first `k` bytes hold no dot: the first piece is those
/// bytes, up to the end or to the dot at `k`.
pub proof fn lemma_split_first_piece(t: Seq<u8>, k: int)
    requires
        0 <= k <= t.len(),
        forall|i: int| 0 <= i < k ==> t[i] != DOT,
    ensures
        k == t.len() ==> split_dots(t) == seq![t],
        k < t.len() && t[k] == DOT ==> split_dots(t) == seq![t.subrange(0, k)] + split_dots(
            t.subrange(k + 1, t.len() as int),
        ),
    decreases k,
{
    if k == 0 {
        if t.len() == 0 {
            assert(t =~= seq![]);
            assert(seq![t] =~= seq![seq![]]);
        } else if t[0] == DOT {
            assert(t.subrange(0, 0) =~= seq![]);
            assert(t.subrange(1, t.len() as int) =~= t.drop_first());
        }
    } else {
        let t1 = t.drop_first();
        lemma_split_first_piece(t1, k - 1);
        if k == t.len() {
            assert(seq![t[0]] + t1 =~= t);
            assert(split_dots(t) =~= seq![t]);
        } else if t[k] == DOT {
            assert(t1[k - 1] == DOT);
            assert(seq![t[0]] + t1.subrange(0, k - 1) =~= t.subrange(0, k));
            assert(t1.subrange(k, t1.len() as int) =~= t.subrange(k + 1, t.len() as int));
            assert(split_dots(t) =~= seq![t.subrange(0, k)] + split_dots(
                t.subrange(k + 1, t.len() as int),
            ));
        }
    }
}

/// Labels that a decoder reads back as written: each is non-empty (a zero
/// length ends a name) and shorter than 64 bytes (a longer length byte reads
/// as a pointer).
pub open spec fn plain_labels(labels: Seq<Seq<u8>>) -> bool {
    forall|i: int| 0 <= i < labels.len() ==> 1 <= #[trigger] labels[i].len() < POINTER_MIN
}

/// Labels written at `pos` are read back from there, and reading goes on
/// after them as it would from where they end.
pub proof fn lemma_labels_read_back(msg: Seq<u8>, pos: int, bound: int, prefix: Seq<Seq<u8>>)
    requires
        plain_labels(prefix),
        0 <= pos,
        pos + labels_wire(prefix).len() <= msg.len(),
        msg.subrange(pos, pos + labels_wire(prefix).len()) == labels_wire(prefix),
    ensures
        ({
            let end = pos + labels_wire(prefix).len();
            &&& wire_labels(msg, pos, bound) == prefix + wire_labels(msg, end, bound)
            &&& wire_name_ok(msg, pos, bound) == wire_name_ok(msg, end, bound)
            &&& wire_name_len(msg, pos) == labels_wire(prefix).len() + wire_name_len(msg, end)
        }),
    decreases prefix.len(),
{
    let lw = labels_wire(prefix);
    if prefix.len() == 0 {
        assert(prefix + wire_labels(msg, pos, bound) =~= wire_labels(msg, pos, bound));
    } else {
        let l = prefix[0];
        let rest = prefix.drop_first();
        let b = l.len();
        assert(1 <= prefix[0].len() < POINTER_MIN);
        assert(lw == seq![b as u8] + l + labels_wire(rest));
        assert(msg[pos] == lw[0]);
        assert(msg.subrange(pos + 1, pos + 1 + b) =~= l) by {
            assert forall|i: int| 0 <= i < b implies msg.subrange(pos + 1, pos + 1 + b)[i]
                == l[i] by {
                assert(msg[pos + 1 + i] == lw[1 + i]);
            }
        }
        assert(msg.subrange(pos + 1 + b, pos + 1 + b + labels_wire(rest).len()) =~= labels_wire(
            rest,
        )) by {
            assert forall|i: int| 0 <= i < labels_wire(rest).len() implies msg.subrange(
                pos + 1 + b,
                pos + 1 + b + labels_wire(rest).len(),
            )[i] == labels_wire(rest)[i] by {
                assert(msg[pos + 1 + b + i] == lw[1 + b + i]);
            }
        }
        assert forall|i: int| 0 <= i < rest.len() implies 1 <= #[trigger] rest[i].len()
            < POINTER_MIN by {
            assert(rest[i] == prefix[i + 1]);
        }
        lemma_labels_read_back(msg, pos + 1 + b, bound, rest);
        assert(prefix =~= seq![l] + rest);
        assert(prefix + wire_labels(msg, pos + lw.len(), bound) =~= seq![l] + (rest + wire_labels(
            msg,
            pos + lw.len(),
            bound,
        )));
    }
}

/// An uncompressed name written at `pos` reads back as its labels.
pub proof fn lemma_name_read_back(msg: Seq<u8>, pos: int, bound: int, labels: Seq<Seq<u8>>)
    requires
        plain_labels(labels),
        0 <= pos,
        pos + name_wire(labels).len() <= msg.len(),
        msg.subrange(pos, pos + name_wire(labels).len()) == name_wire(labels),
    ensures
        wire_name_ok(msg, pos, bound),
        wire_labels(msg, pos, bound) == labels,
        wire_name_len(msg, pos) == name_wire(labels).len(),
{
    let lw = labels_wire(labels);
    assert(msg.subrange(pos, pos + lw.len()) =~= lw) by {
        assert forall|i: int| 0 <= i < lw.len() implies msg.subrange(pos, pos + lw.len())[i]
            == lw[i] by {
            assert(msg[pos + i] == name_wire(labels)[i]);
        }
    }
    assert(msg[pos + lw.len()] == name_wire(labels)[lw.len() as int]);
    lemma_labels_read_back(msg, pos, bound, labels);
    assert(labels + seq![] =~= labels);
}

pub proof fn lemma_split_nonempty(s: Seq<u8>)
    ensures
        split_dots(s).len() >= 1,
    decreases s.len(),
{
    if s.len() > 0 {
        lemma_split_nonempty(s.drop_first());
    }
}

/// Joining the pieces of text between dots gives the text back.
pub proof fn lemma_join_split(s: Seq<u8>)
    ensures
        join_labels(split_dots(s)) == s,
    decreases s.len(),
{
    if s.len() > 0 {
        let t = s.drop_first();
        let r = split_dots(t);
        lemma_join_split(t);
        lemma_split_nonempty(t);
        assert(dotted(r) == seq![DOT] + r[0] + dotted(r.drop_first()));
        if s[0] == DOT {
            let sp = seq![seq![]] + r;
            assert(sp.drop_first() =~= r);
            assert(join_labels(sp) =~= seq![DOT] + join_labels(r));
            assert(seq![DOT] + t =~= s);
        } else {
            let sp = r.update(0, seq![s[0]] + r[0]);
            assert(sp.drop_first() =~= r.drop_first());
            assert(join_labels(sp) =~= seq![s[0]] + join_labels(r));
            assert(seq![s[0]] + t =~= s);
        }
    }
}

/// A domain name, either as dotted text or as a name inside a received
/// message, which may use compression pointers into that message.
#[derive(Clone, Copy, Debug)]
pub enum Domain<'a> {
    String(&'a str),
    Raw { message: &'a [u8], offset: usize },
}

impl<'a> Domain<'a> {
    /// The bytes of the name's text form.
    pub open spec fn text(&self) -> Seq<u8> {
        match *self {
            Domain::String(s) => s.spec_bytes(),
            Domain::Raw { message, offset } => join_labels(
                wire_labels(message@, offset as int, offset as int),
            ),
        }
    }

    /// The labels that the name is encoded with.
    pub open spec fn labels(&self) -> Seq<Seq<u8>> {
        match *self {
            Domain::String(s) => split_dots(s.spec_bytes()).map_values(|l| truncate_label(l)),
            Domain::Raw { message, offset } => wire_labels(
                message@,
                offset as int,
                offset as int,
            ),
        }
    }

    /// With plain labels, the text form is the labels joined by dots.
    pub proof fn lemma_text_is_joined_labels(&self)
        requires
            plain_labels(self.labels()),
        ensures
            self.text() == join_labels(self.labels()),
    {
        if let Domain::String(s) = *self {
            let pieces = split_dots(s.spec_bytes());
            let labels = self.labels();
            assert(labels =~= pieces) by {
                assert forall|i: int| 0 <= i < pieces.len() implies labels[i] == pieces[i] by {
                    assert(1 <= labels[i].len() < POINTER_MIN);
                }
            }
            lemma_join_split(s.spec_bytes());
        }
    }

    /// Writes the name's labels, uncompressed, and a zero terminator into
    /// `buf` at `pos`; fails when they do not fit.
    pub fn encode(&self, buf: &mut [u8], pos: usize) -> (r: Result<usize, DnsError>)
        ensures
            encoded(old(buf)@, final(buf)@, pos as int, name_wire(self.labels()), r),
    {
        match self {
            Domain::String(host) => encode_text(host, buf, pos),
            Domain::Raw { message, offset } => encode_wire(message, *offset, buf, pos),
        }
    }

    /// Reads the name at `pos` of `message`, checking every label and
    /// pointer it leads to; returns the bytes it occupies there and the name.
    pub fn decode(message: &'a [u8], pos: usize) -> (r: Result<(usize, Domain<'a>), DnsError>)
        ensures
            match r {
                Ok((n, d)) => wire_name_ok(message@, pos as int, pos as int) && n
                    == wire_name_len(message@, pos as int) && d == (Domain::Raw {
                    message,
                    offset: pos,
                }),
                Err(e) => !wire_name_ok(message@, pos as int, pos as int) && e == DnsError::Decode,
            },
    {
        let mut p: usize = pos;
        let mut bound: usize = pos;
        let mut in_place = true;
        let mut n: usize = 0;
        while p < message.len()
            invariant
                bound <= pos,
                wire_name_ok(message@, pos as int, pos as int) == wire_name_ok(
                    message@,
                    p as int,
                    bound as int,
                ),
                in_place ==> bound == pos && pos <= p && wire_name_len(message@, pos as int) == (p
                    - pos) + wire_name_len(message@, p as int),
                !in_place ==> n == wire_name_len(message@, pos as int),
            decreases bound, message@.len() - p,
        {
            let b = message[p];
            if b == 0 {
                if in_place {
                    n = p - pos + 1;
                }
                return Ok((n, Domain::Raw { message, offset: pos }));
            } else if b >= POINTER_MIN {
                if p + 1 >= message.len() {
                    return Err(DnsError::Decode);
                }
                let t: usize = (b % 64) as usize * 256 + message[p + 1] as usize;
                if t >= bound {
                    return Err(DnsError::Decode);
                }
                if in_place {
                    n = p - pos + 2;
                    in_place = false;
                }
                p = t;
                bound = t;
            } else {
                if b as usize > message.len() - p - 1 {
                    return Err(DnsError::Decode);
                }
                p = p + 1 + b as usize;
            }
        }
        Err(DnsError::Decode)
    }
}


/// Writes the labels of dotted text, each cut to 255 bytes.
fn encode_text(host: &str, buf: &mut [u8], pos: usize) -> (r: Result<usize, DnsError>)
    ensures
        encoded(old(buf)@, final(buf)@, pos as int, name_wire(Domain::String(host).labels()), r),
{
    let ghost labels = Domain::String(host).labels();
    let bytes = host.as_bytes();
    let ghost text = bytes@;
    if pos > buf.len() {
        return Err(DnsError::Encode);
    }
    let mut p: usize = pos;
    let mut start: usize = 0;
    let ghost mut done: Seq<Seq<u8>> = seq![];
    proof {
        assert(text.subrange(0, text.len() as int) =~= text);
        assert(labels =~= done + split_dots(text.subrange(0, text.len() as int)).map_values(
            |l| truncate_label(l),
        ));
        lemma_splice_empty(buf@, pos as int);
    }
    loop
        invariant_except_break
            start <= text.len(),
            labels == done + split_dots(text.subrange(start as int, text.len() as int)).map_values(
                |l| truncate_label(l),
            ),
        invariant
            bytes@ == text,
            labels == Domain::String(host).labels(),
            pos <= p <= buf.len(),
            buf@.len() == old(buf)@.len(),
            buf@ == splice(old(buf)@, pos as int, labels_wire(done)),
            p == pos + labels_wire(done).len(),
        ensures
            labels == done,
        decreases text.len() - start,
    {
        let mut j: usize = start;
        while j < bytes.len() && bytes[j] != DOT
            invariant
                bytes@ == text,
                start <= j <= text.len(),
                forall|i: int| start <= i < j ==> text[i] != DOT,
            decreases text.len() - j,
        {
            j = j + 1;
        }
        let l: usize = if j - start > 255 {
            255
        } else {
            j - start
        };
        let ghost rest = text.subrange(start as int, text.len() as int);
        let ghost piece = text.subrange(start as int, j as int);
        let ghost label = truncate_label(piece);
        proof {
            lemma_split_first_piece(rest, j - start);
            assert(rest.subrange(0, j - start) =~= piece);
            if j < text.len() {
                assert(rest.subrange(j - start + 1, rest.len() as int) =~= text.subrange(
                    j + 1,
                    text.len() as int,
                ));
            }
            let tail = if j < text.len() {
                split_dots(text.subrange(j + 1, text.len() as int))
            } else {
                seq![]
            };
            assert(split_dots(rest) =~= seq![piece] + tail);
            assert(labels =~= done + seq![label] + tail.map_values(|l| truncate_label(l)));
            assert(label.len() == l);
            lemma_labels_wire_append(done + seq![label], tail.map_values(|l| truncate_label(l)));
            lemma_labels_wire_append(done, seq![label]);
            lemma_labels_wire_single(label);
        }
        if p >= buf.len() || l > buf.len() - p - 1 {
            return Err(DnsError::Encode);
        }
        let ghost before = buf@;
        buf[p] = l as u8;
        copy_into(buf, p + 1, bytes, start, l);
        proof {
            lemma_splice_byte(before, p as int, l as u8);
            assert(text.subrange(start as int, start + l) =~= label);
            lemma_splice_twice(before, p as int, seq![l as u8], label);
            lemma_splice_twice(old(buf)@, pos as int, labels_wire(done), seq![l as u8] + label);
            done = done + seq![label];
        }
        p = p + 1 + l;
        if j == bytes.len() {
            break ;
        }
        start = j + 1;
    }
    if p >= buf.len() {
        return Err(DnsError::Encode);
    }
    let ghost before = buf@;
    buf[p] = 0;
    proof {
        lemma_splice_byte(before, p as int, 0);
        lemma_splice_twice(old(buf)@, pos as int, labels_wire(done), seq![0u8]);
    }
    Ok(p + 1 - pos)
}

/// Writes the labels of a name in a message, following its pointers.
fn encode_wire(message: &[u8], offset: usize, buf: &mut [u8], pos: usize) -> (r: Result<
    usize,
    DnsError,
>)
    ensures
        encoded(
            old(buf)@,
            final(buf)@,
            pos as int,
            name_wire(wire_labels(message@, offset as int, offset as int)),
            r,
        ),
{
    let ghost msg = message@;
    let ghost labels = wire_labels(msg, offset as int, offset as int);
    if pos > buf.len() {
        return Err(DnsError::Encode);
    }
    let mut p: usize = pos;
    let mut rp: usize = offset;
    let mut bound: usize = offset;
    let ghost mut done: Seq<Seq<u8>> = seq![];
    proof {
        assert(labels =~= done + labels);
        lemma_splice_empty(buf@, pos as int);
    }
    loop
        invariant_except_break
            labels == done + wire_labels(msg, rp as int, bound as int),
        invariant
            message@ == msg,
            labels == wire_labels(msg, offset as int, offset as int),
            pos <= p <= buf.len(),
            buf@.len() == old(buf)@.len(),
            buf@ == splice(old(buf)@, pos as int, labels_wire(done)),
            p == pos + labels_wire(done).len(),
        ensures
            labels == done,
        decreases bound, msg.len() - rp,
    {
        if rp >= message.len() {
            assert(labels =~= done);
            break ;
        }
        let b = message[rp];
        if b == 0 {
            assert(labels =~= done);
            break ;
        } else if b >= POINTER_MIN {
            if rp + 1 >= message.len() {
                assert(labels =~= done);
                break ;
            }
            let t: usize = (b % 64) as usize * 256 + message[rp + 1] as usize;
            if t >= bound {
                assert(labels =~= done);
                break ;
            }
            rp = t;
            bound = t;
        } else {
            let l = b as usize;
            if l > message.len() - rp - 1 {
                assert(labels =~= done);
                break ;
            }
            let ghost label = msg.subrange(rp + 1, rp + 1 + l);
            let ghost tail = wire_labels(msg, rp + 1 + l, bound as int);
            proof {
                assert(labels =~= done + seq![label] + tail);
                lemma_labels_wire_append(done + seq![label], tail);
                lemma_labels_wire_append(done, seq![label]);
                lemma_labels_wire_single(label);
            }
            if p >= buf.len() || l > buf.len() - p - 1 {
                proof {
                    lemma_labels_wire_append(labels, seq![]);
                }
                return Err(DnsError::Encode);
            }
            let ghost before = buf@;
            buf[p] = b;
            copy_into(buf, p + 1, message, rp + 1, l);
            proof {
                lemma_splice_byte(before, p as int, b);
                lemma_splice_twice(before, p as int, seq![b], label);
                lemma_splice_twice(old(buf)@, pos as int, labels_wire(done), seq![b] + label);
                done = done + seq![label];
            }
            p = p + 1 + l;
            rp = rp + 1 + l;
        }
    }
    if p >= buf.len() {
        return Err(DnsError::Encode);
    }
    let ghost before = buf@;
    buf[p] = 0;
    proof {
        lemma_splice_byte(before, p as int, 0);
        lemma_splice_twice(old(buf)@, pos as int, labels_wire(done), seq![0u8]);
    }
    Ok(p + 1 - pos)
}

/// A reader of a name's text form, one byte at a time, that follows
/// compression pointers without copying the name anywhere.
pub struct DomainIter<'a> {
    domain: &'a Domain<'a>,
    pos: usize,
    len: usize,
    bound: usize,
    first: bool,
}

impl<'a> DomainIter<'a> {
    /// The name being read.
    pub closed spec fn domain(&self) -> Domain<'a> {
        *self.domain
    }

    pub closed spec fn wf(&self) -> bool {
        match *self.domain {
            Domain::String(s) => self.pos <= s.spec_bytes().len(),
            Domain::Raw { message, .. } => (self.len == 0 || self.pos + self.len <= message@.len())
                && (self.first ==> self.len == 0),
        }
    }

    /// The bytes of the text form that are still to come.
    pub closed spec fn rest(&self) -> Seq<u8> {
        match *self.domain {
            Domain::String(s) => s.spec_bytes().subrange(
                self.pos as int,
                s.spec_bytes().len() as int,
            ),
            Domain::Raw { message, .. } => {
                let msg = message@;
                if self.first {
                    join_labels(wire_labels(msg, self.pos as int, self.bound as int))
                } else if self.len == 0 {
                    dotted(wire_labels(msg, self.pos as int, self.bound as int))
                } else {
                    msg.subrange(self.pos as int, self.pos + self.len) + dotted(
                        wire_labels(msg, self.pos + self.len, self.bound as int),
                    )
                }
            },
        }
    }

    /// The next byte of the text form, or `None` once it is exhausted.
    pub fn next(&mut self) -> (r: Option<u8>)
        requires
            old(self).wf(),
        ensures
            final(self).wf(),
            final(self).domain() == old(self).domain(),
            match r {
                None => old(self).rest().len() == 0 && final(self).rest() == old(self).rest(),
                Some(b) => {
                    &&& old(self).rest().len() > 0
                    &&& b == old(self).rest()[0]
                    &&& final(self).rest() == old(self).rest().drop_first()
                },
            },
    {
        match self.domain {
            Domain::String(s) => {
                let b = s.as_bytes();
                if self.pos < b.len() {
                    let pos = self.pos;
                    self.pos = self.pos + 1;
                    proof {
                        assert(self.rest() =~= old(self).rest().drop_first());
                    }
                    Some(b[pos])
                } else {
                    None
                }
            },
            Domain::Raw { message, .. } => {
                loop
                    invariant
                        self.wf(),
                        self.domain == old(self).domain,
                        self.rest() == old(self).rest(),
                        *self.domain == (Domain::Raw { message, offset: self.domain->offset }),
                    decreases self.bound, message@.len() - self.pos,
                {
                    let pos = self.pos;
                    let ghost cur = *self;
                    if self.len > 0 {
                        let b = message[pos];
                        self.pos = pos + 1;
                        self.len = self.len - 1;
                        proof {
                            let w = dotted(
                                wire_labels(message@, cur.pos + cur.len, self.bound as int),
                            );
                            assert(cur.rest() == message@.subrange(pos as int, pos + cur.len) + w);
                            assert(self.rest() =~= cur.rest().drop_first());
                        }
                        return Some(b);
                    }
                    if pos >= message.len() {
                        return None;
                    }
                    let b = message[pos];
                    if b == 0 {
                        return None;
                    } else if b >= POINTER_MIN {
                        if pos + 1 >= message.len() {
                            return None;
                        }
                        let t: usize = (b % 64) as usize * 256 + message[pos + 1] as usize;
                        if t >= self.bound {
                            return None;
                        }
                        self.pos = t;
                        self.bound = t;
                        proof {
                            assert(wire_labels(message@, pos as int, cur.bound as int)
                                == wire_labels(message@, t as int, t as int));
                        }
                    } else {
                        if b as usize > message.len() - pos - 1 {
                            return None;
                        }
                        self.pos = pos + 1;
                        self.len = b as usize;
                        let ghost lab = message@.subrange(pos + 1, pos + 1 + b);
                        let ghost w = wire_labels(message@, pos + 1 + b, self.bound as int);
                        proof {
                            assert(wire_labels(message@, pos as int, cur.bound as int)
                                == seq![lab] + w);
                            assert((seq![lab] + w).drop_first() =~= w);
                            assert((seq![lab] + w)[0] == lab);
                        }
                        if !self.first {
                            proof {
                                assert(self.rest() =~= cur.rest().drop_first());
                            }
                            return Some(DOT);
                        }
                        self.first = false;
                    }
                }
            },
        }
    }
}

impl<'a> Domain<'a> {
    /// A reader of this name's text form.
    pub fn iter(&'a self) -> (r: DomainIter<'a>)
        ensures
            r.wf(),
            r.domain() == *self,
            r.rest() == self.text(),
    {
        let r = DomainIter { domain: self, pos: 0, len: 0, bound: 0, first: true };
        match self {
            Domain::String(_) => r,
            Domain::Raw { offset, .. } => DomainIter {
                domain: self,
                pos: *offset,
                len: 0,
                bound: *offset,
                first: true,
            },
        }
    }
}

impl<'a> PartialEq for Domain<'a> {
    fn eq(&self, other: &Self) -> (r: bool) {
        let mut lit = self.iter();
        let mut rit = other.iter();
        let ghost mut seen: Seq<u8> = seq![];
        loop
            invariant
                lit.wf(),
                rit.wf(),
                lit.domain() == *self,
                rit.domain() == *other,
                self.text() == seen + lit.rest(),
                other.text() == seen + rit.rest(),
            decreases lit.rest().len(),
        {
            let ghost (l0, r0) = (lit.rest(), rit.rest());
            match (lit.next(), rit.next()) {
                (Some(l), Some(r)) => {
                    if l != r {
                        proof {
                            assert((seen + l0)[seen.len() as int] == l);
                            assert((seen + r0)[seen.len() as int] == r);
                        }
                        return false;
                    }
                    proof {
                        assert(seen + l0 =~= seen.push(l) + lit.rest());
                        assert(seen + r0 =~= seen.push(l) + rit.rest());
                        seen = seen.push(l);
                    }
                },
                (None, None) => {
                    proof {
                        assert(seen + l0 =~= seen);
                        assert(seen + r0 =~= seen);
                    }
                    return true;
                },
                _ => {
                    proof {
                        assert((seen + l0).len() != (seen + r0).len());
                    }
                    return false;
                },
            }
        }
    }
}

impl<'a> vstd::std_specs::cmp::PartialEqSpecImpl for Domain<'a> {
    open spec fn obeys_eq_spec() -> bool {
        true
    }

    open spec fn eq_spec(&self, other: &Domain<'a>) -> bool {
        self.text() == other.text()
    }
}

/// A name that reads to its end in the first bytes of a message reads the
/// same way in the whole message.
pub proof fn lemma_name_in_prefix(short: Seq<u8>, full: Seq<u8>, pos: int, bound: int)
    requires
        short == full.subrange(0, short.len() as int),
        short.len() <= full.len(),
        wire_name_ok(short, pos, bound),
    ensures
        wire_name_ok(full, pos, bound),
        wire_name_len(short, pos) == wire_name_len(full, pos),
        pos + wire_name_len(full, pos) <= short.len(),
    decreases bound, short.len() - pos,
{
    assert(short[pos] == full[pos]);
    let b = short[pos];
    if b != 0 {
        if b >= POINTER_MIN {
            assert(short[pos + 1] == full[pos + 1]);
            let t = pointer_target(b, short[pos + 1]);
            lemma_name_in_prefix(short, full, t, t);
        } else {
            lemma_name_in_prefix(short, full, pos + 1 + b, bound);
        }
    }
}

/// Every label read from a message is plain.
pub proof fn lemma_wire_labels_plain(msg: Seq<u8>, pos: int, bound: int)
    ensures
        plain_labels(wire_labels(msg, pos, bound)),
    decreases bound, msg.len() - pos,
{
    if 0 <= pos < msg.len() {
        let b = msg[pos];
        if b != 0 {
            if b >= POINTER_MIN {
                if pos + 1 < msg.len() && 0 <= pointer_target(b, msg[pos + 1]) < bound {
                    let t = pointer_target(b, msg[pos + 1]);
                    lemma_wire_labels_plain(msg, t, t);
                }
            } else if pos + 1 + b <= msg.len() {
                let rest = wire_labels(msg, pos + 1 + b, bound);
                lemma_wire_labels_plain(msg, pos + 1 + b, bound);
                let all = seq![msg.subrange(pos + 1, pos + 1 + b)] + rest;
                assert forall|i: int| 0 <= i < all.len() implies 1 <= #[trigger] all[i].len()
                    < POINTER_MIN by {
                    if i > 0 {
                        assert(all[i] == rest[i - 1]);
                    }
                }
            }
        }
    }
}

/// Name equality is an equivalence: reflexive, symmetric and transitive,
/// whatever form each side has.
pub proof fn lemma_name_eq_equivalence<'a>(a: Domain<'a>, b: Domain<'a>, c: Domain<'a>)
    ensures
        a.eq_spec(&a),
        a.eq_spec(&b) == b.eq_spec(&a),
        a.eq_spec(&b) && b.eq_spec(&c) ==> a.eq_spec(&c),
{
}

/// Dotted text equals its own encoding read from a message: `"a.b.com"`
/// equals the name whose wire bytes are `1 a 1 b 3 c o m 0`.
pub proof fn lemma_text_equals_its_wire<'a>(s: &'a str, message: &'a [u8], pos: usize)
    requires
        plain_labels(Domain::String(s).labels()),
        pos + name_wire(Domain::String(s).labels()).len() <= message@.len(),
        message@.subrange(pos as int, pos + name_wire(Domain::String(s).labels()).len())
            == name_wire(Domain::String(s).labels()),
    ensures
        wire_name_ok(message@, pos as int, pos as int),
        Domain::String(s).eq_spec(&Domain::Raw { message, offset: pos }),
{
    let labels = Domain::String(s).labels();
    lemma_name_read_back(message@, pos as int, pos as int, labels);
    Domain::String(s).lemma_text_is_joined_labels();
}

/// A name whose labels end in a pointer to an earlier name reads as its own
/// labels followed by that name's, occupies its labels and the two pointer
/// bytes, and equals the same name written out in full elsewhere.
pub proof fn lemma_compressed_name<'a>(
    message: &'a [u8],
    pos: usize,
    prefix: Seq<Seq<u8>>,
    target: usize,
    plain: &'a [u8],
    at: usize,
)
    requires
        plain_labels(prefix),
        target < pos,
        target < 0x4000,
        wire_name_ok(message@, target as int, target as int),
        pos + labels_wire(prefix).len() + 2 <= message@.len(),
        message@.subrange(pos as int, pos + labels_wire(prefix).len()) == labels_wire(prefix),
        message@[pos + labels_wire(prefix).len()] == 0xC0 + target / 256,
        message@[pos + labels_wire(prefix).len() + 1] == target % 256,
        at + name_wire(prefix + wire_labels(message@, target as int, target as int)).len()
            <= plain@.len(),
        plain@.subrange(
            at as int,
            at + name_wire(prefix + wire_labels(message@, target as int, target as int)).len(),
        ) == name_wire(prefix + wire_labels(message@, target as int, target as int)),
    ensures
        wire_name_ok(message@, pos as int, pos as int),
        wire_labels(message@, pos as int, pos as int) == prefix + wire_labels(
            message@,
            target as int,
            target as int,
        ),
        wire_name_len(message@, pos as int) == labels_wire(prefix).len() + 2,
        wire_name_ok(plain@, at as int, at as int),
        (Domain::Raw { message, offset: pos }).eq_spec(&Domain::Raw { message: plain, offset: at }),
{
    let msg = message@;
    let p = pos + labels_wire(prefix).len();
    let full = prefix + wire_labels(msg, target as int, target as int);
    lemma_labels_read_back(msg, pos as int, pos as int, prefix);
    assert(pointer_target(msg[p], msg[p + 1]) == target) by {
        assert(msg[p] as int % 64 == target / 256);
    }
    lemma_wire_labels_plain(msg, target as int, target as int);
    assert forall|i: int| 0 <= i < full.len() implies 1 <= #[trigger] full[i].len()
        < POINTER_MIN by {
        if i >= prefix.len() {
            assert(full[i] == wire_labels(msg, target as int, target as int)[i - prefix.len()]);
        }
    }
    lemma_name_read_back(plain@, at as int, at as int, full);
}

} // verus!
