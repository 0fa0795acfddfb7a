//! The MDict (`.mdx`) file format: header, key index and record index.
pub mod block;
pub mod header;
pub mod keys;
pub mod records;

use vstd::prelude::*;
use crate::mdict::{Mdx, MdxModel};
use header::{parse_header, spec_header};
use keys::{
    key_blocks_need_lzo, parse_key_block_header, parse_key_block_infos, parse_key_blocks,
    spec_key_block_header, spec_key_block_infos, spec_key_blocks,
};
use records::{parse_record_blocks, spec_record_blocks};

verus! {

/// The format generation that wrote a dictionary.
#[derive(Debug, Clone, Copy, PartialEq, Eq, Structural)]
pub enum Version {
    V1,
    V2,
    V3,
}

/// Why a dictionary file was refused.
#[derive(Debug, Clone, Copy, PartialEq, Eq, Structural)]
pub enum MdxError {
    /// A field runs past the end of its buffer.
    Truncated,
    /// The Adler-32 checksum of the header text does not match.
    HeaderChecksum,
    /// The header text is not valid UTF-16LE.
    HeaderText,
    /// The header has no `GeneratedByEngineVersion` attribute.
    MissingVersion,
    /// The engine version does not start with a digit.
    InvalidVersion,
    /// The engine version is not one this library reads.
    UnsupportedVersion,
    /// The Adler-32 checksum of the key block header does not match.
    KeyBlockHeaderChecksum,
    /// The key block index does not start with its magic bytes.
    KeyBlockInfoMagic,
    /// The key block index is not a sequence of whole entries.
    MalformedKeyBlockInfo,
    /// A key block is not a sequence of whole entries.
    MalformedKeyBlock,
    /// A block is declared shorter than its own 8-byte prefix.
    BlockTooShort,
    /// A block uses an encryption method this library does not read.
    UnsupportedEncryption,
    /// A block uses a compression method this library does not read.
    UnsupportedCompression,
    /// A compressed block or index does not decompress.
    Decompression,
    /// The LZO decompressor could not be initialised on this machine.
    LzoUnavailable,
    /// The record index size does not match the number of records.
    RecordInfoSize,
}


/// The dictionary that the bytes `s` of an `.mdx` file hold: the header, the key
/// block header, the key block index, the key blocks and the record index, one
/// after another; the record blocks follow and are read on demand.
pub open spec fn spec_parse(s: Seq<u8>) -> Result<MdxModel, MdxError> {
    match spec_header(s) {
        Err(e) => Err(e),
        Ok((p1, h)) => match spec_key_block_header(s, p1, h.version) {
            Err(e) => Err(e),
            Ok((p2, kh)) => match spec_key_block_infos(
                s,
                p2,
                kh.block_info_size as int,
                h.version,
                h.encrypted,
            ) {
                Err(e) => Err(e),
                Ok((p3, infos)) => match spec_key_blocks(
                    s,
                    p3,
                    kh.key_block_size as int,
                    h.version,
                    infos,
                ) {
                    Err(e) => Err(e),
                    Ok((p4, blocks)) => match spec_record_blocks(s, p4, h.version) {
                        Err(e) => Err(e),
                        Ok((p5, records)) => Ok(
                            MdxModel {
                                key_blocks: blocks,
                                records_info: records,
                                data: s,
                                records_start: p5,
                                encoding: h.encoding,
                                encrypted: h.encrypted,
                            },
                        ),
                    },
                },
            },
        },
    }
}

/// Whether the header, the key block header and the key block index of `s` read
/// well, and reading its key blocks comes to an LZO-compressed one: the one case
/// in which parsing needs the LZO decompressor.
pub open spec fn parse_needs_lzo(s: Seq<u8>) -> bool {
    match spec_header(s) {
        Err(_) => false,
        Ok((p1, h)) => match spec_key_block_header(s, p1, h.version) {
            Err(_) => false,
            Ok((p2, kh)) => match spec_key_block_infos(
                s,
                p2,
                kh.block_info_size as int,
                h.version,
                h.encrypted,
            ) {
                Err(_) => false,
                Ok((p3, infos)) => key_blocks_need_lzo(
                    s,
                    p3,
                    kh.key_block_size as int,
                    h.version,
                    infos,
                ),
            },
        },
    }
}

/// Parses the bytes of an `.mdx` file. Apart from the LZO decompressor failing to
/// initialise, which happens only where [`parse_needs_lzo`] holds, the outcome is
/// exactly [`spec_parse`]; a dictionary it returns is well formed.
pub fn parse(data: Vec<u8>) -> (r: Result<Mdx, MdxError>)
    ensures
        r matches Ok(m) ==> spec_parse(data@) == Ok::<MdxModel, MdxError>(m@),
        r matches Ok(m) ==> m@.wf(),
        r matches Err(e) ==> e == MdxError::LzoUnavailable || spec_parse(data@) == Err::<
            MdxModel,
            MdxError,
        >(e),
        (r matches Err(MdxError::LzoUnavailable)) ==> parse_needs_lzo(data@),
{
    let s = data.as_slice();
    let (p1, header) = match parse_header(s) {
        Ok(x) => x,
        Err(e) => return Err(e),
    };
    let (p2, kh) = match parse_key_block_header(s, p1, header.version) {
        Ok(x) => x,
        Err(e) => return Err(e),
    };
    let (p3, infos) = match parse_key_block_infos(
        s,
        p2,
        kh.block_info_size,
        header.version,
        header.encrypted,
    ) {
        Ok(x) => x,
        Err(e) => return Err(e),
    };
    let (p4, blocks) = match parse_key_blocks(s, p3, kh.key_block_size, header.version, &infos) {
        Ok(x) => x,
        Err(e) => return Err(e),
    };
    let (p5, records) = match parse_record_blocks(s, p4, header.version) {
        Ok(x) => x,
        Err(e) => return Err(e),
    };
    let m = Mdx::from_parts(blocks, records, data, p5, header.encoding, header.encrypted);
    Ok(m)
}

} // verus!
