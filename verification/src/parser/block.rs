//! A compressed, possibly encrypted block: a little-endian method word, a 4-byte
//! checksum that keys the cipher, and the payload.
use vstd::prelude::*;
use super::MdxError;
use crate::bytes::{le_u32_at, read_le_u32};
use crate::cipher::{fast_decrypt, fast_decrypted, fast_encrypted, law_decrypt_undoes_encrypt};
use crate::codec::{
    lzo1x_decompressed, lzo_decompress, lzo_init, ripemd128, ripemd128_digest, zlib_decompress,
    zlib_decompressed,
};

verus! {

/// The payload after decryption: method 0 is plain, method 1 is the MDict cipher
/// keyed by the RIPEMD-128 digest of the checksum bytes; other methods, Salsa20
/// (method 2) among them, are not read.
pub open spec fn block_plain(raw: Seq<u8>, checksum: Seq<u8>, enc_method: int) -> Result<
    Seq<u8>,
    MdxError,
> {
    if enc_method == 0 {
        Ok(raw)
    } else if enc_method == 1 {
        Ok(fast_decrypted(raw, ripemd128_digest(checksum)))
    } else {
        Err(MdxError::UnsupportedEncryption)
    }
}

/// The content after decompression: method 0 is stored, 1 is LZO1X into a buffer
/// of the declared size, 2 is zlib.
pub open spec fn block_content(plain: Seq<u8>, comp_method: int, decomp: int) -> Result<
    Seq<u8>,
    MdxError,
> {
    if comp_method == 0 {
        Ok(plain)
    } else if comp_method == 1 {
        match lzo1x_decompressed(plain, decomp) {
            Some(v) => Ok(v),
            None => Err(MdxError::Decompression),
        }
    } else if comp_method == 2 {
        match zlib_decompressed(plain) {
            Some(v) => Ok(v),
            None => Err(MdxError::Decompression),
        }
    } else {
        Err(MdxError::UnsupportedCompression)
    }
}

/// The block of `comp` bytes at `q` in `s` and the position after it.
#[verifier::opaque]
pub open spec fn spec_block(s: Seq<u8>, q: int, comp: int, decomp: int) -> Result<
    (int, Seq<u8>),
    MdxError,
> {
    if comp < 8 {
        Err(MdxError::BlockTooShort)
    } else if q + comp > s.len() {
        Err(MdxError::Truncated)
    } else {
        let word = le_u32_at(s, q);
        match block_plain(s.subrange(q + 8, q + comp), s.subrange(q + 4, q + 8), (word / 16) % 16) {
            Err(e) => Err(e),
            Ok(plain) => match block_content(plain, word % 16, decomp) {
                Err(e) => Err(e),
                Ok(content) => Ok((q + comp, content)),
            },
        }
    }
}

/// A stored block encrypted with the MDict cipher (method word 0x10), whose payload
/// is `plain` encrypted under the RIPEMD-128 digest of the block's four checksum
/// bytes, reads back as `plain`, wherever it stands in the file, and reading goes
/// on right after it.
pub proof fn law_encrypted_block_reads_back(
    pre: Seq<u8>,
    checksum: Seq<u8>,
    plain: Seq<u8>,
    post: Seq<u8>,
    decomp: int,
)
    requires
        checksum.len() == 4,
    ensures
        ({
            let payload = fast_encrypted(plain, ripemd128_digest(checksum));
            let s = pre + seq![0x10u8, 0u8, 0u8, 0u8] + checksum + payload + post;
            spec_block(s, pre.len() as int, 8 + payload.len() as int, decomp) == Ok::<
                (int, Seq<u8>),
                MdxError,
            >((pre.len() + 8 + payload.len() as int, plain))
        }),
{
    reveal(spec_block);
    let key = ripemd128_digest(checksum);
    let payload = fast_encrypted(plain, key);
    let s = pre + seq![0x10u8, 0u8, 0u8, 0u8] + checksum + payload + post;
    let q = pre.len() as int;
    assert(s[q] == 0x10u8);
    assert(s[q + 1] == 0u8);
    assert(s[q + 2] == 0u8);
    assert(s[q + 3] == 0u8);
    assert(le_u32_at(s, q) == 0x10);
    assert(s.subrange(q + 4, q + 8) =~= checksum);
    assert(s.subrange(q + 8, q + 8 + payload.len()) =~= payload);
    law_decrypt_undoes_encrypt(plain, key);
}

/// A block stored as it is (method word 0), after any four checksum bytes, reads
/// back as its payload, wherever it stands in the file.
pub proof fn law_stored_block_reads_back(
    pre: Seq<u8>,
    checksum: Seq<u8>,
    payload: Seq<u8>,
    post: Seq<u8>,
    decomp: int,
)
    requires
        checksum.len() == 4,
    ensures
        ({
            let s = pre + seq![0u8, 0u8, 0u8, 0u8] + checksum + payload + post;
            spec_block(s, pre.len() as int, 8 + payload.len() as int, decomp) == Ok::<
                (int, Seq<u8>),
                MdxError,
            >((pre.len() + 8 + payload.len() as int, payload))
        }),
{
    reveal(spec_block);
    let s = pre + seq![0u8, 0u8, 0u8, 0u8] + checksum + payload + post;
    let q = pre.len() as int;
    assert(s[q] == 0u8);
    assert(s[q + 1] == 0u8);
    assert(s[q + 2] == 0u8);
    assert(s[q + 3] == 0u8);
    assert(le_u32_at(s, q) == 0);
    assert(s.subrange(q + 8, q + 8 + payload.len()) =~= payload);
}

/// Whether the block of `comp` bytes at `q` in `s` is one that is handed to the LZO
/// decompressor: it is whole, its encryption method is one that is read, and its
/// compression method is 1.
pub open spec fn lzo_block_at(s: Seq<u8>, q: int, comp: int) -> bool {
    &&& comp >= 8
    &&& q + comp <= s.len()
    &&& le_u32_at(s, q) % 16 == 1
    &&& (le_u32_at(s, q) / 16) % 16 <= 1
}

/// Decodes the block of `comp` bytes at `q`; `decomp` is its declared size after
/// decompression. Apart from the LZO decompressor failing to initialise, the
/// outcome is exactly [`spec_block`].
pub fn decode_block(s: &[u8], q: usize, comp: usize, decomp: usize) -> (r: Result<
    (usize, Vec<u8>),
    MdxError,
>)
    requires
        q <= s@.len(),
    ensures
        r matches Ok((q2, content)) ==> spec_block(s@, q as int, comp as int, decomp as int) == Ok::<
            (int, Seq<u8>),
            MdxError,
        >((q2 as int, content@)),
        r matches Ok((q2, content)) ==> q + 8 <= q2 <= s@.len(),
        (r matches Err(MdxError::LzoUnavailable)) ==> lzo_block_at(s@, q as int, comp as int),
        r matches Err(e) ==> e == MdxError::LzoUnavailable || spec_block(
            s@,
            q as int,
            comp as int,
            decomp as int,
        ) == Err::<(int, Seq<u8>), MdxError>(e),
{
    reveal(spec_block);
    if comp < 8 {
        return Err(MdxError::BlockTooShort);
    }
    if s.len() - q < comp {
        return Err(MdxError::Truncated);
    }
    let word = read_le_u32(s, q);
    let enc_method = (word / 16) % 16;
    let comp_method = word % 16;
    let raw = vstd::slice::slice_subrange(s, q + 8, q + comp);
    let plain: Vec<u8> = if enc_method == 0 {
        vstd::slice::slice_to_vec(raw)
    } else if enc_method == 1 {
        let key = ripemd128(vstd::slice::slice_subrange(s, q + 4, q + 8));
        fast_decrypt(raw, key.as_slice())
    } else {
        return Err(MdxError::UnsupportedEncryption);
    };
    if comp_method == 0 {
        Ok((q + comp, plain))
    } else if comp_method == 1 {
        match lzo_init() {
            None => Err(MdxError::LzoUnavailable),
            Some(lzo) => match lzo_decompress(&lzo, plain.as_slice(), decomp) {
                Some(v) => Ok((q + comp, v)),
                None => Err(MdxError::Decompression),
            },
        }
    } else if comp_method == 2 {
        match zlib_decompress(plain.as_slice()) {
            Some(v) => Ok((q + comp, v)),
            None => Err(MdxError::Decompression),
        }
    } else {
        Err(MdxError::UnsupportedCompression)
    }
}

} // verus!
