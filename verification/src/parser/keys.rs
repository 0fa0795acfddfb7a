//! The key index: the key block header, the key block index and the key blocks.
use vstd::prelude::*;
use super::{MdxError, Version};
use super::block::{decode_block, lzo_block_at, spec_block};
use crate::bytes::{
    be32_bytes, be64_bytes, lemma_be32_read_back, lemma_be32_within, lemma_be64_within, be_u16_at, be_u32_at, be_u64_at, find_nul, lemma_nul_index_from, nul_index_from, read_be_u16,
    read_be_u32, read_be_u64,
};
use crate::cipher::{fast_decrypt, fast_decrypted};
use crate::codec::{adler32, adler32_of, ripemd128, ripemd128_digest, zlib_decompress, zlib_decompressed};

verus! {

/// Sizes and counts that precede the key index.
#[derive(Debug, Clone, Copy, PartialEq, Eq, Structural)]
pub struct KeyBlockHeader {
    pub block_num: usize,
    pub entry_num: usize,
    pub decompressed_size: usize,
    pub block_info_size: usize,
    pub key_block_size: usize,
}

/// The stored and unpacked sizes of one block.
#[derive(Debug, Clone, Copy, PartialEq, Eq, Structural)]
pub struct BlockEntryInfo {
    pub compressed_size: usize,
    pub decompressed_size: usize,
}

/// One key of a key block: the offset of its record in the unpacked record data,
/// and where its text lies in the unpacked block.
#[derive(Debug, Clone, Copy, PartialEq, Eq, Structural)]
pub struct KeyEntrySlice {
    pub offset: usize,
    pub text_start: usize,
    pub text_len: usize,
}

/// An unpacked key block and its keys.
#[derive(Debug)]
pub struct KeyBlock {
    pub data: Vec<u8>,
    pub entries: Vec<KeyEntrySlice>,
}

/// What a [`KeyBlock`] holds.
pub struct KeyBlockModel {
    pub data: Seq<u8>,
    pub entries: Seq<KeyEntrySlice>,
}

impl KeyBlockModel {
    /// Every key's text lies inside the block.
    pub open spec fn wf(self) -> bool {
        forall|i: int|
            0 <= i < self.entries.len() ==> #[trigger] self.entries[i].text_start
                + self.entries[i].text_len <= self.data.len()
    }
}

impl DeepView for KeyBlock {
    type V = KeyBlockModel;

    open spec fn deep_view(&self) -> KeyBlockModel {
        KeyBlockModel { data: self.data@, entries: self.entries@ }
    }
}

/// `xs` before the sequence that `r` holds, or the error of `r`.
pub open spec fn prefixed<T>(xs: Seq<T>, r: Result<Seq<T>, MdxError>) -> Result<Seq<T>, MdxError> {
    match r {
        Ok(ys) => Ok(xs + ys),
        Err(e) => Err(e),
    }
}

pub proof fn lemma_prefixed_push<T>(xs: Seq<T>, x: T, r: Result<Seq<T>, MdxError>)
    ensures
        prefixed(xs, prefixed(seq![x], r)) == prefixed(xs.push(x), r),
{
    if let Ok(ys) = r {
        assert(xs + (seq![x] + ys) =~= xs.push(x) + ys);
    }
}

// ── key block header ────────────────────────────────────────────────────────

/// The key block header at `p`: for version 2, five big-endian 64-bit fields
/// followed by the big-endian Adler-32 of those 40 bytes; for version 1, four
/// big-endian 32-bit fields with no checksum.
pub open spec fn spec_key_block_header(s: Seq<u8>, p: int, version: Version) -> Result<
    (int, KeyBlockHeader),
    MdxError,
> {
    match version {
        Version::V2 => if p + 44 > s.len() {
            Err(MdxError::Truncated)
        } else if adler32_of(s.subrange(p, p + 40)) != be_u32_at(s, p + 40) {
            Err(MdxError::KeyBlockHeaderChecksum)
        } else {
            Ok(
                (
                    p + 44,
                    KeyBlockHeader {
                        block_num: be_u64_at(s, p) as usize,
                        entry_num: be_u64_at(s, p + 8) as usize,
                        decompressed_size: be_u64_at(s, p + 16) as usize,
                        block_info_size: be_u64_at(s, p + 24) as usize,
                        key_block_size: be_u64_at(s, p + 32) as usize,
                    },
                ),
            )
        },
        Version::V1 => if p + 16 > s.len() {
            Err(MdxError::Truncated)
        } else {
            Ok(
                (
                    p + 16,
                    KeyBlockHeader {
                        block_num: be_u32_at(s, p) as usize,
                        entry_num: be_u32_at(s, p + 4) as usize,
                        decompressed_size: be_u32_at(s, p + 8) as usize,
                        block_info_size: be_u32_at(s, p + 8) as usize,
                        key_block_size: be_u32_at(s, p + 12) as usize,
                    },
                ),
            )
        },
        Version::V3 => Err(MdxError::UnsupportedVersion),
    }
}

/// In a version 1 dictionary, four numbers written big-endian one after another
/// are read as the key block header in that order: the number of key blocks, the
/// number of keys, the size of the key block index (also taken as its unpacked
/// size) and the size of the key blocks; the header ends 16 bytes on.
pub proof fn law_v1_key_block_header_fields(
    pre: Seq<u8>,
    a: u32,
    b: u32,
    c: u32,
    d: u32,
    post: Seq<u8>,
)
    ensures
        spec_key_block_header(
            pre + be32_bytes(a) + be32_bytes(b) + be32_bytes(c) + be32_bytes(d) + post,
            pre.len() as int,
            Version::V1,
        ) == Ok::<(int, KeyBlockHeader), MdxError>(
            (
                pre.len() as int + 16,
                KeyBlockHeader {
                    block_num: a as usize,
                    entry_num: b as usize,
                    decompressed_size: c as usize,
                    block_info_size: c as usize,
                    key_block_size: d as usize,
                },
            ),
        ),
{
    let s = pre + be32_bytes(a) + be32_bytes(b) + be32_bytes(c) + be32_bytes(d) + post;
    let p = pre.len() as int;
    let pa = pre;
    let pb = pre + be32_bytes(a);
    let pc = pb + be32_bytes(b);
    let pd = pc + be32_bytes(c);
    assert(s =~= pa + be32_bytes(a) + (be32_bytes(b) + be32_bytes(c) + be32_bytes(d) + post));
    assert(s =~= pb + be32_bytes(b) + (be32_bytes(c) + be32_bytes(d) + post));
    assert(s =~= pc + be32_bytes(c) + (be32_bytes(d) + post));
    assert(s =~= pd + be32_bytes(d) + post);
    lemma_be32_read_back(pa, a, be32_bytes(b) + be32_bytes(c) + be32_bytes(d) + post);
    lemma_be32_read_back(pb, b, be32_bytes(c) + be32_bytes(d) + post);
    lemma_be32_read_back(pc, c, be32_bytes(d) + post);
    lemma_be32_read_back(pd, d, post);
    assert(s.len() >= p + 16);
}

/// In a version 2 dictionary, five numbers written as big-endian 64-bit words one
/// after another, followed by the big-endian Adler-32 `k` of those 40 bytes, are
/// read as the key block header in that order: the number of key blocks, the
/// number of keys, the unpacked size of the key block index, its stored size and
/// the size of the key blocks; the header ends 44 bytes on. With any other
/// checksum the header is refused.
#[verifier::rlimit(80)]
#[verifier::spinoff_prover]
pub proof fn law_v2_key_block_header_fields(
    pre: Seq<u8>,
    a: u64,
    b: u64,
    c: u64,
    d: u64,
    e: u64,
    k: u32,
    post: Seq<u8>,
)
    ensures
        ({
            let fields = be64_bytes(a) + be64_bytes(b) + be64_bytes(c) + be64_bytes(d) + be64_bytes(e);
            let s = pre + fields + be32_bytes(k) + post;
            &&& k == adler32_of(fields) ==> spec_key_block_header(s, pre.len() as int, Version::V2)
                == Ok::<(int, KeyBlockHeader), MdxError>(
                (
                    pre.len() as int + 44,
                    KeyBlockHeader {
                        block_num: a as usize,
                        entry_num: b as usize,
                        decompressed_size: c as usize,
                        block_info_size: d as usize,
                        key_block_size: e as usize,
                    },
                ),
            )
            &&& k != adler32_of(fields) ==> spec_key_block_header(s, pre.len() as int, Version::V2)
                == Err::<(int, KeyBlockHeader), MdxError>(MdxError::KeyBlockHeaderChecksum)
        }),
{
    let fields = be64_bytes(a) + be64_bytes(b) + be64_bytes(c) + be64_bytes(d) + be64_bytes(e);
    let s = pre + fields + be32_bytes(k) + post;
    let p = pre.len() as int;
    assert(fields.len() == 40);
    assert(s.subrange(p, p + 40) =~= fields);
    assert(s.subrange(p, p + 8) =~= be64_bytes(a)) by {
        assert(fields.subrange(0, 8) =~= be64_bytes(a));
        assert(s.subrange(p, p + 8) =~= fields.subrange(0, 8));
    }
    assert(s.subrange(p + 8, p + 16) =~= be64_bytes(b)) by {
        assert(fields.subrange(8, 16) =~= be64_bytes(b));
        assert(s.subrange(p + 8, p + 16) =~= fields.subrange(8, 16));
    }
    assert(s.subrange(p + 16, p + 24) =~= be64_bytes(c)) by {
        assert(fields.subrange(16, 24) =~= be64_bytes(c));
        assert(s.subrange(p + 16, p + 24) =~= fields.subrange(16, 24));
    }
    assert(s.subrange(p + 24, p + 32) =~= be64_bytes(d)) by {
        assert(fields.subrange(24, 32) =~= be64_bytes(d));
        assert(s.subrange(p + 24, p + 32) =~= fields.subrange(24, 32));
    }
    assert(s.subrange(p + 32, p + 40) =~= be64_bytes(e)) by {
        assert(fields.subrange(32, 40) =~= be64_bytes(e));
        assert(s.subrange(p + 32, p + 40) =~= fields.subrange(32, 40));
    }
    assert(s.subrange(p + 40, p + 44) =~= be32_bytes(k));
    lemma_be64_within(s, p, a);
    lemma_be64_within(s, p + 8, b);
    lemma_be64_within(s, p + 16, c);
    lemma_be64_within(s, p + 24, d);
    lemma_be64_within(s, p + 32, e);
    lemma_be32_within(s, p + 40, k);
}

pub fn parse_key_block_header(s: &[u8], p: usize, version: Version) -> (r: Result<
    (usize, KeyBlockHeader),
    MdxError,
>)
    requires
        p <= s@.len(),
    ensures
        r matches Err(e) ==> e != MdxError::LzoUnavailable,
        r matches Ok((q, h)) ==> spec_key_block_header(s@, p as int, version) == Ok::<
            (int, KeyBlockHeader),
            MdxError,
        >((q as int, h)),
        r matches Ok((q, h)) ==> q <= s@.len(),
        r matches Err(e) ==> spec_key_block_header(s@, p as int, version) == Err::<
            (int, KeyBlockHeader),
            MdxError,
        >(e),
{
    match version {
        Version::V2 => {
            if s.len() - p < 44 {
                return Err(MdxError::Truncated);
            }
            let checksum = read_be_u32(s, p + 40);
            if adler32(vstd::slice::slice_subrange(s, p, p + 40)) != checksum {
                return Err(MdxError::KeyBlockHeaderChecksum);
            }
            Ok(
                (
                    p + 44,
                    KeyBlockHeader {
                        block_num: read_be_u64(s, p) as usize,
                        entry_num: read_be_u64(s, p + 8) as usize,
                        decompressed_size: read_be_u64(s, p + 16) as usize,
                        block_info_size: read_be_u64(s, p + 24) as usize,
                        key_block_size: read_be_u64(s, p + 32) as usize,
                    },
                ),
            )
        },
        Version::V1 => {
            if s.len() - p < 16 {
                return Err(MdxError::Truncated);
            }
            let info_size = read_be_u32(s, p + 8) as usize;
            Ok(
                (
                    p + 16,
                    KeyBlockHeader {
                        block_num: read_be_u32(s, p) as usize,
                        entry_num: read_be_u32(s, p + 4) as usize,
                        decompressed_size: info_size,
                        block_info_size: info_size,
                        key_block_size: read_be_u32(s, p + 12) as usize,
                    },
                ),
            )
        },
        Version::V3 => Err(MdxError::UnsupportedVersion),
    }
}

// ── key block index ─────────────────────────────────────────────────────────

/// One entry of the key block index at `q`: the number of keys, the first and
/// last keys (each after a length: a byte in version 1, a big-endian 16-bit value
/// one less than the length in version 2), then the stored and unpacked sizes of
/// the block.
pub open spec fn info_entry(b: Seq<u8>, q: int, wide: bool) -> Option<(int, BlockEntryInfo)> {
    if !wide {
        if q + 5 > b.len() {
            None
        } else {
            let q1 = q + 5 + b[q + 4];
            if q1 + 1 > b.len() {
                None
            } else {
                let q2 = q1 + 1 + b[q1];
                if q2 + 8 > b.len() {
                    None
                } else {
                    Some(
                        (
                            q2 + 8,
                            BlockEntryInfo {
                                compressed_size: be_u32_at(b, q2) as usize,
                                decompressed_size: be_u32_at(b, q2 + 4) as usize,
                            },
                        ),
                    )
                }
            }
        }
    } else {
        if q + 10 > b.len() || be_u16_at(b, q + 8) == 65535 {
            None
        } else {
            let q1 = q + 10 + be_u16_at(b, q + 8) + 1;
            if q1 + 2 > b.len() || be_u16_at(b, q1) == 65535 {
                None
            } else {
                let q2 = q1 + 2 + be_u16_at(b, q1) + 1;
                if q2 + 16 > b.len() {
                    None
                } else {
                    Some(
                        (
                            q2 + 16,
                            BlockEntryInfo {
                                compressed_size: be_u64_at(b, q2) as usize,
                                decompressed_size: be_u64_at(b, q2 + 8) as usize,
                            },
                        ),
                    )
                }
            }
        }
    }
}

/// The entries of the key block index from `q` on; the index must consist of
/// whole entries.
pub open spec fn infos_from(b: Seq<u8>, q: int, wide: bool) -> Result<Seq<BlockEntryInfo>, MdxError>
    decreases b.len() - q,
{
    if q >= b.len() {
        Ok(seq![])
    } else {
        match info_entry(b, q, wide) {
            None => Err(MdxError::MalformedKeyBlockInfo),
            Some((q2, e)) => if q2 <= q || q2 > b.len() {
                Err(MdxError::MalformedKeyBlockInfo)
            } else {
                prefixed(seq![e], infos_from(b, q2, wide))
            },
        }
    }
}

fn read_info_entry(b: &[u8], q: usize, wide: bool) -> (r: Option<(usize, BlockEntryInfo)>)
    requires
        q <= b@.len(),
    ensures
        r matches Some((q2, e)) ==> info_entry(b@, q as int, wide) == Some((q2 as int, e)),
        r is None ==> info_entry(b@, q as int, wide) is None,
{
    let len = b.len();
    if !wide {
        if len - q < 5 {
            return None;
        }
        let n1 = b[q + 4] as usize;
        if len - q - 5 < n1 + 1 {
            return None;
        }
        let q1 = q + 5 + n1;
        let n2 = b[q1] as usize;
        if len - q1 - 1 < n2 + 8 {
            return None;
        }
        let q2 = q1 + 1 + n2;
        Some(
            (
                q2 + 8,
                BlockEntryInfo {
                    compressed_size: read_be_u32(b, q2) as usize,
                    decompressed_size: read_be_u32(b, q2 + 4) as usize,
                },
            ),
        )
    } else {
        if len - q < 10 {
            return None;
        }
        let n1 = read_be_u16(b, q + 8) as usize;
        if n1 == 65535 {
            return None;
        }
        if len - q - 10 < n1 + 1 + 2 {
            return None;
        }
        let q1 = q + 10 + n1 + 1;
        let n2 = read_be_u16(b, q1) as usize;
        if n2 == 65535 {
            return None;
        }
        if len - q1 - 2 < n2 + 1 + 16 {
            return None;
        }
        let q2 = q1 + 2 + n2 + 1;
        Some(
            (
                q2 + 16,
                BlockEntryInfo {
                    compressed_size: read_be_u64(b, q2) as usize,
                    decompressed_size: read_be_u64(b, q2 + 8) as usize,
                },
            ),
        )
    }
}

/// Decodes a whole key block index.
pub fn decode_key_block_info(b: &[u8], wide: bool) -> (r: Result<Vec<BlockEntryInfo>, MdxError>)
    ensures
        r matches Err(e) ==> e != MdxError::LzoUnavailable,
        r matches Ok(v) ==> infos_from(b@, 0, wide) == Ok::<Seq<BlockEntryInfo>, MdxError>(v@),
        r matches Err(e) ==> infos_from(b@, 0, wide) == Err::<Seq<BlockEntryInfo>, MdxError>(e),
{
    let mut out: Vec<BlockEntryInfo> = Vec::new();
    let mut q: usize = 0;
    assert(Seq::<BlockEntryInfo>::empty() + seq![] =~= Seq::<BlockEntryInfo>::empty());
    while q < b.len()
        invariant
            q <= b@.len(),
            infos_from(b@, 0, wide) == prefixed(out@, infos_from(b@, q as int, wide)),
        decreases b@.len() - q,
    {
        match read_info_entry(b, q, wide) {
            None => {
                return Err(MdxError::MalformedKeyBlockInfo);
            },
            Some((q2, e)) => {
                if q2 <= q || q2 > b.len() {
                    return Err(MdxError::MalformedKeyBlockInfo);
                }
                proof {
                    lemma_prefixed_push(out@, e, infos_from(b@, q2 as int, wide));
                }
                out.push(e);
                q = q2;
            },
        }
    }
    assert(out@ + seq![] =~= out@);
    Ok(out)
}

/// The key block index of `size` bytes at `p`. In version 2 it starts with the
/// magic bytes 2, 0, 0, 0 and a 4-byte salt; the rest is zlib data, encrypted with
/// the MDict cipher when the `Encrypted` flags are 2 or 3 (keyed by the RIPEMD-128
/// digest of the salt and the little-endian word 0x3695), and absent for other
/// flags than 0.
pub open spec fn key_info_bytes(block: Seq<u8>, encrypted: u8) -> Result<Seq<u8>, MdxError> {
    if encrypted == 2 || encrypted == 3 {
        if block.len() < 8 {
            Err(MdxError::Truncated)
        } else {
            let key = ripemd128_digest(block.subrange(4, 8) + seq![0x95u8, 0x36u8, 0u8, 0u8]);
            match zlib_decompressed(fast_decrypted(block.skip(8), key)) {
                Some(z) => Ok(z),
                None => Err(MdxError::Decompression),
            }
        }
    } else if encrypted == 0 {
        if block.len() < 8 {
            Err(MdxError::Truncated)
        } else {
            match zlib_decompressed(block.skip(8)) {
                Some(z) => Ok(z),
                None => Err(MdxError::Decompression),
            }
        }
    } else {
        Ok(seq![])
    }
}

pub open spec fn spec_key_block_infos(
    s: Seq<u8>,
    p: int,
    size: int,
    version: Version,
    encrypted: u8,
) -> Result<(int, Seq<BlockEntryInfo>), MdxError> {
    if version == Version::V3 {
        Err(MdxError::UnsupportedVersion)
    } else if p + size > s.len() {
        Err(MdxError::Truncated)
    } else {
        let block = s.subrange(p, p + size);
        let decoded = if version == Version::V1 {
            infos_from(block, 0, false)
        } else if block.len() < 4 {
            Err(MdxError::Truncated)
        } else if block.take(4) != seq![2u8, 0u8, 0u8, 0u8] {
            Err(MdxError::KeyBlockInfoMagic)
        } else {
            match key_info_bytes(block, encrypted) {
                Err(e) => Err(e),
                Ok(bytes) => infos_from(bytes, 0, true),
            }
        };
        match decoded {
            Err(e) => Err(e),
            Ok(infos) => Ok((p + size, infos)),
        }
    }
}

fn key_info_bytes_exec(block: &[u8], encrypted: u8) -> (r: Result<Vec<u8>, MdxError>)
    ensures
        r matches Err(e) ==> e != MdxError::LzoUnavailable,
        r matches Ok(v) ==> key_info_bytes(block@, encrypted) == Ok::<Seq<u8>, MdxError>(v@),
        r matches Err(e) ==> key_info_bytes(block@, encrypted) == Err::<Seq<u8>, MdxError>(e),
{
    if encrypted == 2 || encrypted == 3 {
        if block.len() < 8 {
            return Err(MdxError::Truncated);
        }
        let mut salt: Vec<u8> = vstd::slice::slice_to_vec(vstd::slice::slice_subrange(block, 4, 8));
        salt.push(0x95);
        salt.push(0x36);
        salt.push(0);
        salt.push(0);
        assert(salt@ =~= block@.subrange(4, 8) + seq![0x95u8, 0x36u8, 0u8, 0u8]);
        let key = ripemd128(salt.as_slice());
        let rest = vstd::slice::slice_subrange(block, 8, block.len());
        assert(rest@ =~= block@.skip(8));
        let plain = fast_decrypt(rest, key.as_slice());
        match zlib_decompress(plain.as_slice()) {
            Some(z) => Ok(z),
            None => Err(MdxError::Decompression),
        }
    } else if encrypted == 0 {
        if block.len() < 8 {
            return Err(MdxError::Truncated);
        }
        let rest = vstd::slice::slice_subrange(block, 8, block.len());
        assert(rest@ =~= block@.skip(8));
        match zlib_decompress(rest) {
            Some(z) => Ok(z),
            None => Err(MdxError::Decompression),
        }
    } else {
        Ok(Vec::new())
    }
}

pub fn parse_key_block_infos(s: &[u8], p: usize, size: usize, version: Version, encrypted: u8) -> (r:
    Result<(usize, Vec<BlockEntryInfo>), MdxError>)
    requires
        p <= s@.len(),
    ensures
        r matches Err(e) ==> e != MdxError::LzoUnavailable,
        r matches Ok((q, v)) ==> spec_key_block_infos(s@, p as int, size as int, version, encrypted)
            == Ok::<(int, Seq<BlockEntryInfo>), MdxError>((q as int, v@)),
        r matches Ok((q, v)) ==> q <= s@.len(),
        r matches Err(e) ==> spec_key_block_infos(s@, p as int, size as int, version, encrypted)
            == Err::<(int, Seq<BlockEntryInfo>), MdxError>(e),
{
    if version == Version::V3 {
        return Err(MdxError::UnsupportedVersion);
    }
    if s.len() - p < size {
        return Err(MdxError::Truncated);
    }
    let block = vstd::slice::slice_subrange(s, p, p + size);
    let decoded = if version == Version::V1 {
        decode_key_block_info(block, false)
    } else if block.len() < 4 {
        Err(MdxError::Truncated)
    } else if !(block[0] == 2 && block[1] == 0 && block[2] == 0 && block[3] == 0) {
        proof {
            if block@.take(4) == seq![2u8, 0u8, 0u8, 0u8] {
                assert(block@.take(4)[0] == block@[0]);
                assert(block@.take(4)[1] == block@[1]);
                assert(block@.take(4)[2] == block@[2]);
                assert(block@.take(4)[3] == block@[3]);
            }
        }
        Err(MdxError::KeyBlockInfoMagic)
    } else {
        assert(block@.take(4) =~= seq![2u8, 0u8, 0u8, 0u8]);
        match key_info_bytes_exec(block, encrypted) {
            Err(e) => Err(e),
            Ok(bytes) => decode_key_block_info(bytes.as_slice(), true),
        }
    };
    match decoded {
        Err(e) => Err(e),
        Ok(infos) => Ok((p + size, infos)),
    }
}


// ── key blocks ──────────────────────────────────────────────────────────────

/// The key at `q` of an unpacked key block: the big-endian offset of its record
/// (32-bit in version 1, 64-bit in version 2), then its text up to a zero byte.
pub open spec fn item_at(d: Seq<u8>, q: int, wide: bool) -> Option<(int, KeyEntrySlice)> {
    let w: int = if wide { 8 } else { 4 };
    if q + w > d.len() {
        None
    } else {
        let z = nul_index_from(d, q + w);
        if z >= d.len() {
            None
        } else {
            Some(
                (
                    z + 1,
                    KeyEntrySlice {
                        offset: (if wide { be_u64_at(d, q) } else { be_u32_at(d, q) }) as usize,
                        text_start: (q + w) as usize,
                        text_len: (z - (q + w)) as usize,
                    },
                ),
            )
        }
    }
}

/// The keys of an unpacked key block from `q` on; the block must consist of whole keys.
pub open spec fn items_from(d: Seq<u8>, q: int, wide: bool) -> Result<Seq<KeyEntrySlice>, MdxError>
    decreases d.len() - q,
{
    if q >= d.len() {
        Ok(seq![])
    } else {
        match item_at(d, q, wide) {
            None => Err(MdxError::MalformedKeyBlock),
            Some((q2, e)) => if q2 <= q || q2 > d.len() {
                Err(MdxError::MalformedKeyBlock)
            } else {
                prefixed(seq![e], items_from(d, q2, wide))
            },
        }
    }
}

fn read_item(d: &[u8], q: usize, wide: bool) -> (r: Option<(usize, KeyEntrySlice)>)
    requires
        q <= d@.len(),
    ensures
        r matches Some((q2, e)) ==> item_at(d@, q as int, wide) == Some((q2 as int, e)),
        r matches Some((q2, e)) ==> e.text_start + e.text_len < d@.len(),
        r is None ==> item_at(d@, q as int, wide) is None,
{
    let w: usize = if wide { 8 } else { 4 };
    if d.len() - q < w {
        return None;
    }
    let offset: usize = if wide { read_be_u64(d, q) as usize } else { read_be_u32(d, q) as usize };
    let z = find_nul(d, q + w);
    proof {
        lemma_nul_index_from(d@, q + w);
    }
    if z >= d.len() {
        return None;
    }
    Some((z + 1, KeyEntrySlice { offset, text_start: q + w, text_len: z - (q + w) }))
}

/// Decodes the keys of an unpacked key block.
pub fn parse_block_items(d: &[u8], wide: bool) -> (r: Result<Vec<KeyEntrySlice>, MdxError>)
    ensures
        r matches Ok(v) ==> items_from(d@, 0, wide) == Ok::<Seq<KeyEntrySlice>, MdxError>(v@),
        r matches Err(e) ==> items_from(d@, 0, wide) == Err::<Seq<KeyEntrySlice>, MdxError>(e),
        r matches Err(e) ==> e == MdxError::MalformedKeyBlock,
        r matches Ok(v) ==> (KeyBlockModel { data: d@, entries: v@ }).wf(),
{
    let mut out: Vec<KeyEntrySlice> = Vec::new();
    let mut q: usize = 0;
    assert(Seq::<KeyEntrySlice>::empty() + seq![] =~= Seq::<KeyEntrySlice>::empty());
    while q < d.len()
        invariant
            q <= d@.len(),
            items_from(d@, 0, wide) == prefixed(out@, items_from(d@, q as int, wide)),
            (KeyBlockModel { data: d@, entries: out@ }).wf(),
        decreases d@.len() - q,
    {
        match read_item(d, q, wide) {
            None => {
                return Err(MdxError::MalformedKeyBlock);
            },
            Some((q2, e)) => {
                if q2 <= q || q2 > d.len() {
                    return Err(MdxError::MalformedKeyBlock);
                }
                proof {
                    lemma_prefixed_push(out@, e, items_from(d@, q2 as int, wide));
                }
                let ghost before = out@;
                out.push(e);
                assert forall|j: int| 0 <= j < out@.len() implies #[trigger] out@[j].text_start
                    + out@[j].text_len <= d@.len() by {
                    if j < before.len() {
                        assert(out@[j] == before[j]);
                        assert((KeyBlockModel { data: d@, entries: before }).entries[j] == before[j]);
                    }
                }
                q = q2;
            },
        }
    }
    assert(out@ + seq![] =~= out@);
    Ok(out)
}

/// The key blocks stored one after another from `q` in `buf`, the `i`-th and later
/// of them as the index `infos` describes them.
pub open spec fn blocks_from(
    buf: Seq<u8>,
    q: int,
    infos: Seq<BlockEntryInfo>,
    i: int,
    wide: bool,
) -> Result<Seq<KeyBlockModel>, MdxError>
    decreases infos.len() - i,
{
    if i < 0 || i >= infos.len() {
        Ok(seq![])
    } else {
        match spec_block(
            buf,
            q,
            infos[i].compressed_size as int,
            infos[i].decompressed_size as int,
        ) {
            Err(e) => Err(e),
            Ok((q2, data)) => match items_from(data, 0, wide) {
                Err(e) => Err(e),
                Ok(entries) => prefixed(
                    seq![KeyBlockModel { data, entries }],
                    blocks_from(buf, q2, infos, i + 1, wide),
                ),
            },
        }
    }
}

/// Whether reading the key blocks from the `i`-th on, starting at `q` in `buf`,
/// comes to an LZO-compressed block before any block fails: that block is the
/// only place where the LZO decompressor is needed.
pub open spec fn lzo_needed_from(
    buf: Seq<u8>,
    q: int,
    infos: Seq<BlockEntryInfo>,
    i: int,
    wide: bool,
) -> bool
    decreases infos.len() - i,
{
    if i < 0 || i >= infos.len() {
        false
    } else if lzo_block_at(buf, q, infos[i].compressed_size as int) {
        true
    } else {
        match spec_block(
            buf,
            q,
            infos[i].compressed_size as int,
            infos[i].decompressed_size as int,
        ) {
            Err(_) => false,
            Ok((q2, data)) => items_from(data, 0, wide) is Ok && lzo_needed_from(
                buf,
                q2,
                infos,
                i + 1,
                wide,
            ),
        }
    }
}

/// Whether the key blocks area of `size` bytes at `p` holds an LZO-compressed
/// block that is reached while reading it.
pub open spec fn key_blocks_need_lzo(
    s: Seq<u8>,
    p: int,
    size: int,
    version: Version,
    infos: Seq<BlockEntryInfo>,
) -> bool {
    &&& p + size <= s.len()
    &&& version != Version::V3
    &&& lzo_needed_from(s.subrange(p, p + size), 0, infos, 0, version == Version::V2)
}

/// The key blocks area of `size` bytes at `p`.
pub open spec fn spec_key_blocks(
    s: Seq<u8>,
    p: int,
    size: int,
    version: Version,
    infos: Seq<BlockEntryInfo>,
) -> Result<(int, Seq<KeyBlockModel>), MdxError> {
    if p + size > s.len() {
        Err(MdxError::Truncated)
    } else if version == Version::V3 {
        Err(MdxError::UnsupportedVersion)
    } else {
        match blocks_from(s.subrange(p, p + size), 0, infos, 0, version == Version::V2) {
            Err(e) => Err(e),
            Ok(blocks) => Ok((p + size, blocks)),
        }
    }
}

/// Decodes the key blocks that `infos` describes; apart from the LZO decompressor
/// failing to initialise, the outcome is exactly [`spec_key_blocks`], and that
/// failure comes only where an LZO-compressed key block is reached.
pub fn parse_key_blocks(
    s: &[u8],
    p: usize,
    size: usize,
    version: Version,
    infos: &Vec<BlockEntryInfo>,
) -> (r: Result<(usize, Vec<KeyBlock>), MdxError>)
    requires
        p <= s@.len(),
    ensures
        r matches Ok((q, v)) ==> spec_key_blocks(s@, p as int, size as int, version, infos@)
            == Ok::<(int, Seq<KeyBlockModel>), MdxError>((q as int, v.deep_view())),
        r matches Ok((q, v)) ==> q <= s@.len(),
        r matches Ok((q, v)) ==> forall|i: int| 0 <= i < v@.len() ==> (#[trigger] v@[i]).deep_view().wf(),
        r matches Err(e) ==> e == MdxError::LzoUnavailable || spec_key_blocks(
            s@,
            p as int,
            size as int,
            version,
            infos@,
        ) == Err::<(int, Seq<KeyBlockModel>), MdxError>(e),
        (r matches Err(MdxError::LzoUnavailable)) ==> key_blocks_need_lzo(
            s@,
            p as int,
            size as int,
            version,
            infos@,
        ),
{
    if s.len() - p < size {
        return Err(MdxError::Truncated);
    }
    if version == Version::V3 {
        return Err(MdxError::UnsupportedVersion);
    }
    let wide = version == Version::V2;
    let buf = vstd::slice::slice_subrange(s, p, p + size);
    let mut blocks: Vec<KeyBlock> = Vec::new();
    let mut q: usize = 0;
    let mut i: usize = 0;
    assert(blocks.deep_view() + seq![] =~= blocks.deep_view());
    while i < infos.len()
        invariant
            i <= infos@.len(),
            q <= buf@.len(),
            p + size <= s@.len(),
            version != Version::V3,
            wide == (version == Version::V2),
            buf@ == s@.subrange(p as int, p + size),
            forall|j: int| 0 <= j < blocks@.len() ==> (#[trigger] blocks@[j]).deep_view().wf(),
            blocks_from(buf@, 0, infos@, 0, wide) == prefixed(
                blocks.deep_view(),
                blocks_from(buf@, q as int, infos@, i as int, wide),
            ),
            lzo_needed_from(buf@, q as int, infos@, i as int, wide) ==> lzo_needed_from(
                buf@,
                0,
                infos@,
                0,
                wide,
            ),
        decreases infos@.len() - i,
    {
        let info = infos[i];
        match decode_block(buf, q, info.compressed_size, info.decompressed_size) {
            Err(e) => {
                assert(e == MdxError::LzoUnavailable || blocks_from(buf@, q as int, infos@, i as int, wide) == Err::<Seq<KeyBlockModel>, MdxError>(e));
                assert(e == MdxError::LzoUnavailable ==> lzo_needed_from(buf@, q as int, infos@, i as int, wide));
                return Err(e);
            },
            Ok((q2, data)) => {
                match parse_block_items(data.as_slice(), wide) {
                    Err(e) => {
                        assert(blocks_from(buf@, q as int, infos@, i as int, wide) == Err::<Seq<KeyBlockModel>, MdxError>(e));
                        return Err(e);
                    },
                    Ok(entries) => {
                        let ghost old_view = blocks.deep_view();
                        let ghost model = KeyBlockModel { data: data@, entries: entries@ };
                        proof {
                            lemma_prefixed_push(
                                old_view,
                                model,
                                blocks_from(buf@, q2 as int, infos@, i + 1, wide),
                            );
                        }
                        assert(model.wf());
                        let ghost old_blocks = blocks@;
                        let blk = KeyBlock { data, entries };
                        assert(blk.deep_view() == model);
                        blocks.push(blk);
                        assert(blocks.deep_view() =~= old_view.push(model));
                        assert forall|j: int| 0 <= j < blocks@.len() implies (
                        #[trigger] blocks@[j]).deep_view().wf() by {
                            if j < old_blocks.len() {
                                assert(blocks@[j] == old_blocks[j]);
                                assert(old_blocks[j].deep_view().wf());
                            } else {
                                assert(blocks@[j] == blk);
                            }
                        }
                        q = q2;
                        i = i + 1;
                    },
                }
            },
        }
    }
    assert(blocks.deep_view() + seq![] =~= blocks.deep_view());
    Ok((p + size, blocks))
}

} // verus!
