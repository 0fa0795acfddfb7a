//! Checksums, digests and decompressors applied to MDict blocks.
use vstd::prelude::*;

verus! {

/// The running sum `a` of Adler-32 over `s`.
pub open spec fn adler_a(s: Seq<u8>) -> int
    decreases s.len(),
{
    if s.len() == 0 {
        1
    } else {
        (adler_a(s.drop_last()) + s.last()) % 65521
    }
}

/// The running sum `b` of Adler-32 over `s`.
pub open spec fn adler_b(s: Seq<u8>) -> int
    decreases s.len(),
{
    if s.len() == 0 {
        0
    } else {
        (adler_b(s.drop_last()) + adler_a(s)) % 65521
    }
}

/// The Adler-32 checksum of `s` (RFC 1950).
pub open spec fn adler32_of(s: Seq<u8>) -> int {
    adler_b(s) * 65536 + adler_a(s)
}

/// Computes the Adler-32 checksum of `data`.
pub fn adler32(data: &[u8]) -> (sum: u32)
    ensures
        sum == adler32_of(data@),
{
    let mut a: u32 = 1;
    let mut b: u32 = 0;
    let mut i: usize = 0;
    while i < data.len()
        invariant
            i <= data@.len(),
            a == adler_a(data@.take(i as int)),
            b == adler_b(data@.take(i as int)),
            a < 65521,
            b < 65521,
        decreases data@.len() - i,
    {
        assert(data@.take(i + 1).drop_last() =~= data@.take(i as int));
        a = (a + data[i] as u32) % 65521;
        b = (b + a) % 65521;
        i = i + 1;
    }
    assert(data@.take(i as int) =~= data@);
    b * 65536 + a
}

/// The bytes that a zlib stream holds, `None` where `data` does not start with a
/// complete zlib stream.
pub uninterp spec fn zlib_decompressed(data: Seq<u8>) -> Option<Seq<u8>>;

/// Reads `data` to its end through `flate2::read::ZlibDecoder`. The contract claims
/// that the outcome is a function of `data` alone: `Some` with the decompressed
/// bytes, or `None` where the decoder reports an error.
#[verifier::external_body]
pub(crate) fn zlib_decompress(data: &[u8]) -> (out: Option<Vec<u8>>)
    ensures
        out matches Some(v) ==> zlib_decompressed(data@) == Some(v@),
        out is None ==> zlib_decompressed(data@) is None,
{
    let mut v: Vec<u8> = Vec::new();
    match std::io::Read::read_to_end(&mut flate2::read::ZlibDecoder::new(data), &mut v) {
        Ok(_) => Some(v),
        Err(_) => None,
    }
}

/// The LZO1X decompressor of the `minilzo-rs` crate.
#[verifier::external_type_specification]
#[verifier::external_body]
pub struct ExLzo(minilzo_rs::LZO);

/// `minilzo_rs::LZO::init`. It checks that the bundled C library was built for this
/// machine's type sizes, so nothing is claimed of whether it succeeds.
#[verifier::external_body]
pub(crate) fn lzo_init() -> (lzo: Option<minilzo_rs::LZO>) {
    minilzo_rs::LZO::init().ok()
}

/// The output of LZO1X decompression of `data` into a buffer of `dst_len` bytes,
/// `None` where the checked decompressor reports an error (such as an overrun of
/// the input or the output).
pub uninterp spec fn lzo1x_decompressed(data: Seq<u8>, dst_len: int) -> Option<Seq<u8>>;

/// `minilzo_rs::LZO::decompress_safe(data, dst_len)`, which checks every read and
/// write against the input and the output buffer: the named output; where it
/// succeeds it is exactly `dst_len` bytes long, as the crate's source shows (it
/// allocates `dst_len` bytes and hands them back whole).
#[verifier::external_body]
pub(crate) fn lzo_decompress(lzo: &minilzo_rs::LZO, data: &[u8], dst_len: usize) -> (out: Option<Vec<u8>>)
    ensures
        out matches Some(v) ==> lzo1x_decompressed(data@, dst_len as int) == Some(v@),
        out is None ==> lzo1x_decompressed(data@, dst_len as int) is None,
        out matches Some(v) ==> v@.len() == dst_len,
{
    lzo.decompress_safe(data, dst_len).ok()
}

/// The RIPEMD-128 digest of `data`.
pub uninterp spec fn ripemd128_digest(data: Seq<u8>) -> Seq<u8>;

/// `ripemd::Ripemd128::digest`: the named digest of `data`, which is 16 bytes long
/// (the output size of `Ripemd128`).
#[verifier::external_body]
pub(crate) fn ripemd128(data: &[u8]) -> (digest: Vec<u8>)
    ensures
        digest@ == ripemd128_digest(data@),
        digest@.len() == 16,
{
    <ripemd::Ripemd128 as ripemd::Digest>::digest(data).to_vec()
}

} // verus!
