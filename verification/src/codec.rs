//! Little-endian encoding of the fixed-width integers that the data files hold.
//! The data files hold their integers in the byte order of the little-endian
//! machines (x86, most ARM) that the program runs on; this crate fixes that
//! order, least significant byte first, on every machine, so a file written
//! in big-endian order by another program does not read as intended here.
use vstd::prelude::*;

verus! {

/// The value of four bytes, least significant first.
pub open spec fn le_u32(b0: u8, b1: u8, b2: u8, b3: u8) -> u32 {
    (b0 as int + 256 * b1 as int + 65536 * b2 as int + 16777216 * b3 as int) as u32
}

/// The `u32` stored at `pos` in `data`.
pub open spec fn spec_read_u32(data: Seq<u8>, pos: int) -> u32 {
    le_u32(data[pos], data[pos + 1], data[pos + 2], data[pos + 3])
}

/// The four bytes that store `v`.
pub open spec fn spec_u32_bytes(v: u32) -> Seq<u8> {
    seq![
        (v % 256) as u8,
        ((v / 256) % 256) as u8,
        ((v / 65536) % 256) as u8,
        (v / 16777216) as u8,
    ]
}

/// The `u64` stored at `pos` in `data`: two `u32` halves, the low one first.
pub open spec fn spec_read_u64(data: Seq<u8>, pos: int) -> u64 {
    (spec_read_u32(data, pos) as int + 4294967296 * spec_read_u32(data, pos + 4) as int) as u64
}

/// The eight bytes that store `v`.
pub open spec fn spec_u64_bytes(v: u64) -> Seq<u8> {
    spec_u32_bytes((v % 4294967296) as u32) + spec_u32_bytes((v / 4294967296) as u32)
}

/// Reading the bytes of a `u32` gives it back.
pub proof fn lemma_u32_roundtrip(v: u32)
    ensures
        spec_u32_bytes(v).len() == 4,
        spec_read_u32(spec_u32_bytes(v), 0) == v,
{
    let b = spec_u32_bytes(v);
    assert((v % 256) + 256 * ((v / 256) % 256) + 65536 * ((v / 65536) % 256) + 16777216 * (v
        / 16777216) == v) by (nonlinear_arith);
}

/// Four bytes are the encoding of the value that they store.
pub proof fn lemma_u32_bytes_of_read(data: Seq<u8>, pos: int)
    requires
        0 <= pos,
        pos + 4 <= data.len(),
    ensures
        spec_u32_bytes(spec_read_u32(data, pos)) == data.subrange(pos, pos + 4),
{
    let b0 = data[pos] as int;
    let b1 = data[pos + 1] as int;
    let b2 = data[pos + 2] as int;
    let b3 = data[pos + 3] as int;
    let v = b0 + 256 * b1 + 65536 * b2 + 16777216 * b3;
    assert(0 <= b0 < 256 && 0 <= b1 < 256 && 0 <= b2 < 256 && 0 <= b3 < 256);
    assert(v % 256 == b0 && (v / 256) % 256 == b1 && (v / 65536) % 256 == b2 && v / 16777216
        == b3) by (nonlinear_arith)
        requires
            0 <= b0 < 256,
            0 <= b1 < 256,
            0 <= b2 < 256,
            0 <= b3 < 256,
            v == b0 + 256 * b1 + 65536 * b2 + 16777216 * b3,
    ;
    assert(spec_u32_bytes(spec_read_u32(data, pos)) =~= data.subrange(pos, pos + 4));
}

/// Reading the bytes of a `u64` gives it back.
pub proof fn lemma_u64_roundtrip(v: u64)
    ensures
        spec_u64_bytes(v).len() == 8,
        spec_read_u64(spec_u64_bytes(v), 0) == v,
{
    let lo = (v % 4294967296) as u32;
    let hi = (v / 4294967296) as u32;
    lemma_u32_roundtrip(lo);
    lemma_u32_roundtrip(hi);
    let b = spec_u64_bytes(v);
    assert(b.subrange(0, 4) =~= spec_u32_bytes(lo));
    assert(b.subrange(4, 8) =~= spec_u32_bytes(hi));
    assert(spec_read_u32(b, 0) == spec_read_u32(spec_u32_bytes(lo), 0));
    assert(spec_read_u32(b, 4) == spec_read_u32(spec_u32_bytes(hi), 0));
    assert(lo + 4294967296 * hi == v) by (nonlinear_arith)
        requires
            lo == v % 4294967296,
            hi == v / 4294967296,
    ;
}

/// Eight bytes are the encoding of the value that they store.
pub proof fn lemma_u64_bytes_of_read(data: Seq<u8>, pos: int)
    requires
        0 <= pos,
        pos + 8 <= data.len(),
    ensures
        spec_u64_bytes(spec_read_u64(data, pos)) == data.subrange(pos, pos + 8),
{
    let lo = spec_read_u32(data, pos);
    let hi = spec_read_u32(data, pos + 4);
    let v = spec_read_u64(data, pos);
    assert(v % 4294967296 == lo && v / 4294967296 == hi) by (nonlinear_arith)
        requires
            v == lo + 4294967296 * hi,
            0 <= lo < 4294967296,
    ;
    lemma_u32_bytes_of_read(data, pos);
    lemma_u32_bytes_of_read(data, pos + 4);
    assert(spec_u64_bytes(v) =~= data.subrange(pos, pos + 8));
}

/// A value read inside a sequence does not depend on what surrounds it.
pub proof fn lemma_read_in_context(pre: Seq<u8>, mid: Seq<u8>, post: Seq<u8>)
    requires
        mid.len() >= 8,
    ensures
        spec_read_u32(pre + mid + post, pre.len() as int) == spec_read_u32(mid, 0),
        spec_read_u32(pre + mid + post, pre.len() + 4int) == spec_read_u32(mid, 4),
        spec_read_u64(pre + mid + post, pre.len() as int) == spec_read_u64(mid, 0),
{
    let s = pre + mid + post;
    let p = pre.len() as int;
    assert(s[p] == mid[0] && s[p + 1] == mid[1] && s[p + 2] == mid[2] && s[p + 3] == mid[3]);
    assert(s[p + 4] == mid[4] && s[p + 5] == mid[5] && s[p + 6] == mid[6] && s[p + 7] == mid[7]);
}

/// A `u32` reads back from its bytes, whatever surrounds them.
pub proof fn lemma_read_u32_at(pre: Seq<u8>, v: u32, post: Seq<u8>)
    ensures
        spec_read_u32(pre + spec_u32_bytes(v) + post, pre.len() as int) == v,
{
    let d = pre + spec_u32_bytes(v) + post;
    let p = pre.len() as int;
    lemma_u32_roundtrip(v);
    let b = spec_u32_bytes(v);
    assert(d[p] == b[0] && d[p + 1] == b[1] && d[p + 2] == b[2] && d[p + 3] == b[3]);
}

/// A `u64` reads back from its bytes, whatever surrounds them.
pub proof fn lemma_read_u64_at(pre: Seq<u8>, v: u64, post: Seq<u8>)
    ensures
        spec_read_u64(pre + spec_u64_bytes(v) + post, pre.len() as int) == v,
{
    let d = pre + spec_u64_bytes(v) + post;
    let p = pre.len() as int;
    lemma_u64_roundtrip(v);
    let b = spec_u64_bytes(v);
    assert(d[p] == b[0] && d[p + 1] == b[1] && d[p + 2] == b[2] && d[p + 3] == b[3]);
    assert(d[p + 4] == b[4] && d[p + 5] == b[5] && d[p + 6] == b[6] && d[p + 7] == b[7]);
}

/// A `u32` read where four known bytes stand.
pub proof fn lemma_read_u32_sub(data: Seq<u8>, start: int, sub: Seq<u8>)
    requires
        0 <= start,
        start + 4 <= data.len(),
        data.subrange(start, start + 4) == sub,
    ensures
        spec_read_u32(data, start) == spec_read_u32(sub, 0),
{
    assert(data[start] == sub[0] && data[start + 1] == sub[1] && data[start + 2] == sub[2]
        && data[start + 3] == sub[3]);
}

/// A `u64` read where eight known bytes stand.
pub proof fn lemma_read_u64_sub(data: Seq<u8>, start: int, sub: Seq<u8>)
    requires
        0 <= start,
        start + 8 <= data.len(),
        data.subrange(start, start + 8) == sub,
    ensures
        spec_read_u64(data, start) == spec_read_u64(sub, 0),
{
    assert(data[start] == sub[0] && data[start + 1] == sub[1] && data[start + 2] == sub[2]
        && data[start + 3] == sub[3]);
    assert(data[start + 4] == sub[4] && data[start + 5] == sub[5] && data[start + 6] == sub[6]
        && data[start + 7] == sub[7]);
}

/// A piece of a piece of a sequence is a piece of the sequence.
pub proof fn lemma_sub_of_sub(data: Seq<u8>, p: int, sub: Seq<u8>, a: int, b: int)
    requires
        0 <= p,
        p + sub.len() <= data.len(),
        data.subrange(p, p + sub.len()) == sub,
        0 <= a <= b <= sub.len(),
    ensures
        data.subrange(p + a, p + b) == sub.subrange(a, b),
{
    assert(data.subrange(p + a, p + b) =~= sub.subrange(a, b));
}

/// Reads the `u32` stored at `pos`.
pub fn read_u32(data: &[u8], pos: usize) -> (v: u32)
    requires
        pos + 4 <= data.len(),
    ensures
        v == spec_read_u32(data@, pos as int),
{
    let b0 = data[pos] as u32;
    let b1 = data[pos + 1] as u32;
    let b2 = data[pos + 2] as u32;
    let b3 = data[pos + 3] as u32;
    b0 + 256 * b1 + 65536 * b2 + 16777216 * b3
}

/// Reads the `u64` stored at `pos`.
pub fn read_u64(data: &[u8], pos: usize) -> (v: u64)
    requires
        pos + 8 <= data.len(),
    ensures
        v == spec_read_u64(data@, pos as int),
{
    let lo = read_u32(data, pos) as u64;
    let hi = read_u32(data, pos + 4) as u64;
    lo + 4294967296 * hi
}

/// Appends the four bytes of `v`.
pub fn push_u32(out: &mut Vec<u8>, v: u32)
    ensures
        final(out)@ == old(out)@ + spec_u32_bytes(v),
{
    out.push((v % 256) as u8);
    out.push(((v / 256) % 256) as u8);
    out.push(((v / 65536) % 256) as u8);
    out.push((v / 16777216) as u8);
    assert(final(out)@ =~= old(out)@ + spec_u32_bytes(v));
}

/// Appends the eight bytes of `v`.
pub fn push_u64(out: &mut Vec<u8>, v: u64)
    ensures
        final(out)@ == old(out)@ + spec_u64_bytes(v),
{
    push_u32(out, (v % 4294967296) as u32);
    push_u32(out, (v / 4294967296) as u32);
    assert(final(out)@ =~= old(out)@ + spec_u64_bytes(v));
}

/// Appends `bytes` to `out`.
pub fn push_bytes(out: &mut Vec<u8>, bytes: &[u8])
    ensures
        final(out)@ == old(out)@ + bytes@,
{
    let ghost start = out@;
    let mut i: usize = 0;
    while i < bytes.len()
        invariant
            i <= bytes@.len(),
            out@ == start + bytes@.subrange(0, i as int),
        decreases bytes@.len() - i,
    {
        out.push(bytes[i]);
        i = i + 1;
        assert(out@ =~= start + bytes@.subrange(0, i as int));
    }
    assert(bytes@.subrange(0, i as int) =~= bytes@);
}

/// A copy of `data[from..to]`, appended to `out`.
pub fn push_range(out: &mut Vec<u8>, data: &[u8], from: usize, to: usize)
    requires
        from <= to <= data@.len(),
    ensures
        final(out)@ == old(out)@ + data@.subrange(from as int, to as int),
{
    let ghost start = out@;
    let mut i = from;
    while i < to
        invariant
            from <= i <= to,
            to <= data@.len(),
            out@ == start + data@.subrange(from as int, i as int),
        decreases to - i,
    {
        out.push(data[i]);
        i = i + 1;
        assert(out@ =~= start + data@.subrange(from as int, i as int));
    }
}

} // verus!
