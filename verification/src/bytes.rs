//! Fixed-width integers and delimited fields read from byte buffers.
use vstd::prelude::*;

verus! {

/// Big-endian value of the two bytes of `s` at `p`.
pub open spec fn be_u16_at(s: Seq<u8>, p: int) -> int {
    s[p] * 256 + s[p + 1]
}

/// Big-endian value of the four bytes of `s` at `p`.
pub open spec fn be_u32_at(s: Seq<u8>, p: int) -> int {
    ((s[p] * 256 + s[p + 1]) * 256 + s[p + 2]) * 256 + s[p + 3]
}

/// The four bytes of `x`, most significant first.
pub open spec fn be32_bytes(x: u32) -> Seq<u8> {
    seq![(x / 0x100_0000) as u8, ((x / 0x1_0000) % 256) as u8, ((x / 256) % 256) as u8, (x % 256) as u8]
}

/// Reading four bytes big-endian gives back the number they were written from,
/// wherever they stand.
pub proof fn lemma_be32_read_back(pre: Seq<u8>, x: u32, post: Seq<u8>)
    ensures
        be_u32_at(pre + be32_bytes(x) + post, pre.len() as int) == x,
{
    let s = pre + be32_bytes(x) + post;
    let p = pre.len() as int;
    assert(s[p] == be32_bytes(x)[0]);
    assert(s[p + 1] == be32_bytes(x)[1]);
    assert(s[p + 2] == be32_bytes(x)[2]);
    assert(s[p + 3] == be32_bytes(x)[3]);
    let b0 = x / 0x100_0000;
    let b1 = (x / 0x1_0000) % 256;
    let b2 = (x / 256) % 256;
    let b3 = x % 256;
    assert(((b0 * 256 + b1) * 256 + b2) * 256 + b3 == x) by (nonlinear_arith)
        requires
            b0 == x / 0x100_0000,
            b1 == (x / 0x1_0000) % 256,
            b2 == (x / 256) % 256,
            b3 == x % 256,
    ;
}

/// The eight bytes of `x`, most significant first.
pub open spec fn be64_bytes(x: u64) -> Seq<u8> {
    be32_bytes((x / 0x1_0000_0000) as u32) + be32_bytes((x % 0x1_0000_0000) as u32)
}

/// Reading eight bytes big-endian gives back the number they were written from,
/// wherever they stand.
pub proof fn lemma_be64_read_back(pre: Seq<u8>, x: u64, post: Seq<u8>)
    ensures
        be_u64_at(pre + be64_bytes(x) + post, pre.len() as int) == x,
{
    let hi = (x / 0x1_0000_0000) as u32;
    let lo = (x % 0x1_0000_0000) as u32;
    let s = pre + be64_bytes(x) + post;
    assert(s =~= pre + be32_bytes(hi) + (be32_bytes(lo) + post));
    assert(s =~= (pre + be32_bytes(hi)) + be32_bytes(lo) + post);
    lemma_be32_read_back(pre, hi, be32_bytes(lo) + post);
    lemma_be32_read_back(pre + be32_bytes(hi), lo, post);
}

/// The big-endian value at `p` depends only on the eight bytes there.
pub proof fn lemma_be64_within(s: Seq<u8>, p: int, x: u64)
    requires
        0 <= p,
        p + 8 <= s.len(),
        s.subrange(p, p + 8) == be64_bytes(x),
    ensures
        be_u64_at(s, p) == x,
{
    assert(s =~= s.take(p) + be64_bytes(x) + s.skip(p + 8));
    lemma_be64_read_back(s.take(p), x, s.skip(p + 8));
}

/// The big-endian value at `p` depends only on the four bytes there.
pub proof fn lemma_be32_within(s: Seq<u8>, p: int, x: u32)
    requires
        0 <= p,
        p + 4 <= s.len(),
        s.subrange(p, p + 4) == be32_bytes(x),
    ensures
        be_u32_at(s, p) == x,
{
    assert(s =~= s.take(p) + be32_bytes(x) + s.skip(p + 4));
    lemma_be32_read_back(s.take(p), x, s.skip(p + 4));
}

/// Little-endian value of the four bytes of `s` at `p`.
pub open spec fn le_u32_at(s: Seq<u8>, p: int) -> int {
    ((s[p + 3] * 256 + s[p + 2]) * 256 + s[p + 1]) * 256 + s[p]
}

/// Big-endian value of the eight bytes of `s` at `p`.
pub open spec fn be_u64_at(s: Seq<u8>, p: int) -> int {
    be_u32_at(s, p) * 0x1_0000_0000 + be_u32_at(s, p + 4)
}

pub fn read_be_u16(s: &[u8], p: usize) -> (v: u16)
    requires
        p + 2 <= s@.len(),
    ensures
        v == be_u16_at(s@, p as int),
{
    let b0: u16 = s[p] as u16;
    let b1: u16 = s[p + 1] as u16;
    b0 * 256 + b1
}

pub fn read_be_u32(s: &[u8], p: usize) -> (v: u32)
    requires
        p + 4 <= s@.len(),
    ensures
        v == be_u32_at(s@, p as int),
{
    let b0: u32 = s[p] as u32;
    let b1: u32 = s[p + 1] as u32;
    let b2: u32 = s[p + 2] as u32;
    let b3: u32 = s[p + 3] as u32;
    let x1: u32 = b0 * 256 + b1;
    let x2: u32 = x1 * 256 + b2;
    x2 * 256 + b3
}

pub fn read_le_u32(s: &[u8], p: usize) -> (v: u32)
    requires
        p + 4 <= s@.len(),
    ensures
        v == le_u32_at(s@, p as int),
{
    let b0: u32 = s[p] as u32;
    let b1: u32 = s[p + 1] as u32;
    let b2: u32 = s[p + 2] as u32;
    let b3: u32 = s[p + 3] as u32;
    let x1: u32 = b3 * 256 + b2;
    let x2: u32 = x1 * 256 + b1;
    x2 * 256 + b0
}

pub fn read_be_u64(s: &[u8], p: usize) -> (v: u64)
    requires
        p + 8 <= s@.len(),
    ensures
        v == be_u64_at(s@, p as int),
{
    let n: usize = s.len();
    let hi: u64 = read_be_u32(s, p) as u64;
    let lo: u64 = read_be_u32(s, p + 4) as u64;
    hi * 0x1_0000_0000 + lo
}

/// Index of the first zero byte of `s` at or after `p`, or the length of `s` when
/// there is none.
pub open spec fn nul_index_from(s: Seq<u8>, p: int) -> int
    decreases s.len() - p,
{
    if p >= s.len() {
        s.len() as int
    } else if s[p] == 0 {
        p
    } else {
        nul_index_from(s, p + 1)
    }
}

pub proof fn lemma_nul_index_from(s: Seq<u8>, p: int)
    requires
        0 <= p <= s.len(),
    ensures
        p <= nul_index_from(s, p) <= s.len(),
        forall|j: int| p <= j < nul_index_from(s, p) ==> s[j] != 0,
        nul_index_from(s, p) < s.len() ==> s[nul_index_from(s, p)] == 0,
    decreases s.len() - p,
{
    if p < s.len() && s[p] != 0 {
        lemma_nul_index_from(s, p + 1);
    }
}

/// Finds the first zero byte of `s` at or after `p`.
pub fn find_nul(s: &[u8], p: usize) -> (i: usize)
    requires
        p <= s@.len(),
    ensures
        i == nul_index_from(s@, p as int),
{
    let mut i: usize = p;
    while i < s.len() && s[i] != 0
        invariant
            p <= i <= s@.len(),
            nul_index_from(s@, i as int) == nul_index_from(s@, p as int),
        decreases s@.len() - i,
    {
        i = i + 1;
    }
    i
}

} // verus!
