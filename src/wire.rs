//! Big-endian integers and byte runs in a fixed-size buffer.
use vstd::prelude::*;

verus! {

/// `b` with the bytes from `at` on replaced by `w`.
pub open spec fn splice(b: Seq<u8>, at: int, w: Seq<u8>) -> Seq<u8> {
    b.subrange(0, at) + w + b.subrange(at + w.len(), b.len() as int)
}

/// The two bytes of `v`, most significant first.
pub open spec fn u16_bytes(v: u16) -> Seq<u8> {
    seq![(v / 256) as u8, (v % 256) as u8]
}

/// The four bytes of `v`, most significant first.
pub open spec fn u32_bytes(v: u32) -> Seq<u8> {
    seq![(v / 0x100_0000) as u8, (v / 0x1_0000 % 256) as u8, (v / 256 % 256) as u8, (v % 256) as u8]
}

/// The 16-bit value of two bytes, most significant first.
pub open spec fn be16(hi: u8, lo: u8) -> u16 {
    (hi as int * 256 + lo as int) as u16
}

/// The 32-bit value of four bytes, most significant first.
pub open spec fn be32(b0: u8, b1: u8, b2: u8, b3: u8) -> u32 {
    (b0 as int * 0x100_0000 + b1 as int * 0x1_0000 + b2 as int * 256 + b3 as int) as u32
}

/// What an encoder that writes `w` at `at` leaves behind: `Ok` with the
/// length of `w` and `w` in place when it fits, else `Err(Encode)`.
pub open spec fn encoded(
    before: Seq<u8>,
    after: Seq<u8>,
    at: int,
    w: Seq<u8>,
    r: Result<usize, crate::DnsError>,
) -> bool {
    match r {
        Ok(n) => at + w.len() <= before.len() && n == w.len() && after == splice(before, at, w),
        Err(e) => at + w.len() > before.len() && e == crate::DnsError::Encode && after.len()
            == before.len(),
    }
}

pub proof fn lemma_splice_empty(b: Seq<u8>, at: int)
    requires
        0 <= at <= b.len(),
    ensures
        splice(b, at, seq![]) == b,
{
    assert(splice(b, at, seq![]) =~= b);
}

pub proof fn lemma_splice_twice(b: Seq<u8>, at: int, w1: Seq<u8>, w2: Seq<u8>)
    requires
        0 <= at,
        at + w1.len() + w2.len() <= b.len(),
    ensures
        splice(splice(b, at, w1), at + w1.len(), w2) == splice(b, at, w1 + w2),
        splice(b, at, w1).len() == b.len(),
{
    assert(splice(splice(b, at, w1), at + w1.len(), w2) =~= splice(b, at, w1 + w2));
}

pub proof fn lemma_splice_byte(b: Seq<u8>, at: int, v: u8)
    requires
        0 <= at < b.len(),
    ensures
        b.update(at, v) == splice(b, at, seq![v]),
{
    assert(b.update(at, v) =~= splice(b, at, seq![v]));
}

pub proof fn lemma_u16_round_trip(v: u16)
    ensures
        be16(u16_bytes(v)[0], u16_bytes(v)[1]) == v,
{
}

pub proof fn lemma_u32_round_trip(v: u32)
    ensures
        be32(u32_bytes(v)[0], u32_bytes(v)[1], u32_bytes(v)[2], u32_bytes(v)[3]) == v,
{
    let b = u32_bytes(v);
    assert(b[0] as int == v / 0x100_0000);
    assert(b[1] as int == v / 0x1_0000 % 256);
    assert(b[2] as int == v / 256 % 256);
    assert(b[3] as int == v % 256);
    assert(v / 0x100_0000 * 0x100_0000 + v / 0x1_0000 % 256 * 0x1_0000 + v / 256 % 256 * 256 + v
        % 256 == v) by (nonlinear_arith);
}

/// Writes `count` bytes of `src`, from index `from`, into `buf` at `at`.
pub fn copy_into(buf: &mut [u8], at: usize, src: &[u8], from: usize, count: usize)
    requires
        at + count <= old(buf)@.len(),
        from + count <= src@.len(),
    ensures
        final(buf)@ == splice(old(buf)@, at as int, src@.subrange(from as int, from + count)),
{
    let mut k: usize = 0;
    while k < count
        invariant
            k <= count,
            at + count <= buf.len(),
            buf@.len() == old(buf)@.len(),
            from + count <= src.len(),
            buf@ == splice(old(buf)@, at as int, src@.subrange(from as int, from + k)),
        decreases count - k,
    {
        let ghost before = buf@;
        buf[at + k] = src[from + k];
        proof {
            lemma_splice_byte(before, at + k, src@[from + k]);
            let done = src@.subrange(from as int, from + k);
            lemma_splice_twice(old(buf)@, at as int, done, seq![src@[from + k]]);
            assert(done + seq![src@[from + k]] =~= src@.subrange(from as int, from + k + 1));
        }
        k = k + 1;
    }
}

/// Writes `v` into `buf` at `at`, most significant byte first.
pub fn put_u16(buf: &mut [u8], at: usize, v: u16)
    requires
        at + 2 <= old(buf)@.len(),
    ensures
        final(buf)@ == splice(old(buf)@, at as int, u16_bytes(v)),
{
    buf[at] = (v / 256) as u8;
    buf[at + 1] = (v % 256) as u8;
    assert(buf@ =~= splice(old(buf)@, at as int, u16_bytes(v)));
}

/// Writes `v` into `buf` at `at`, most significant byte first.
pub fn put_u32(buf: &mut [u8], at: usize, v: u32)
    requires
        at + 4 <= old(buf)@.len(),
    ensures
        final(buf)@ == splice(old(buf)@, at as int, u32_bytes(v)),
{
    buf[at] = (v / 0x100_0000) as u8;
    buf[at + 1] = (v / 0x1_0000 % 256) as u8;
    buf[at + 2] = (v / 256 % 256) as u8;
    buf[at + 3] = (v % 256) as u8;
    assert(buf@ =~= splice(old(buf)@, at as int, u32_bytes(v)));
}

/// The 16-bit value at `at` of `msg`, most significant byte first.
pub fn get_u16(msg: &[u8], at: usize) -> (r: u16)
    requires
        at + 2 <= msg@.len(),
    ensures
        r == be16(msg@[at as int], msg@[at + 1]),
{
    msg[at] as u16 * 256 + msg[at + 1] as u16
}

/// The 32-bit value at `at` of `msg`, most significant byte first.
pub fn get_u32(msg: &[u8], at: usize) -> (r: u32)
    requires
        at + 4 <= msg@.len(),
    ensures
        r == be32(msg@[at as int], msg@[at + 1], msg@[at + 2], msg@[at + 3]),
{
    msg[at] as u32 * 0x100_0000 + msg[at + 1] as u32 * 0x1_0000 + msg[at + 2] as u32 * 256
        + msg[at + 3] as u32
}

} // verus!
