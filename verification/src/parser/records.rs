//! The record index: how many record blocks there are and their sizes.
use vstd::prelude::*;
use super::{MdxError, Version};
use super::keys::BlockEntryInfo;
use crate::bytes::{be_u32_at, be_u64_at, read_be_u32, read_be_u64};

verus! {

/// The sizes of the `i`-th record block, whose index entries start at `base`.
pub open spec fn record_info_at(s: Seq<u8>, base: int, i: int, wide: bool) -> BlockEntryInfo {
    if wide {
        BlockEntryInfo {
            compressed_size: be_u64_at(s, base + 16 * i) as usize,
            decompressed_size: be_u64_at(s, base + 16 * i + 8) as usize,
        }
    } else {
        BlockEntryInfo {
            compressed_size: be_u32_at(s, base + 8 * i) as usize,
            decompressed_size: be_u32_at(s, base + 8 * i + 4) as usize,
        }
    }
}

/// The record index at `p` and the position just after it, where the record blocks
/// start: the number of record blocks, the number of entries, the index size (which
/// must be the number of blocks times the entry width) and the size of the record
/// data, then one pair of sizes per block; 32-bit fields in version 1, 64-bit in
/// version 2, all big-endian.
pub open spec fn spec_record_blocks(s: Seq<u8>, p: int, version: Version) -> Result<
    (int, Seq<BlockEntryInfo>),
    MdxError,
> {
    if version == Version::V3 {
        Err(MdxError::UnsupportedVersion)
    } else {
        let wide = version == Version::V2;
        let head: int = if wide { 32 } else { 16 };
        let w: int = if wide { 16 } else { 8 };
        if p + head > s.len() {
            Err(MdxError::Truncated)
        } else {
            let records = if wide { be_u64_at(s, p) } else { be_u32_at(s, p) };
            let info_size = if wide { be_u64_at(s, p + 16) } else { be_u32_at(s, p + 8) };
            if records * w != info_size {
                Err(MdxError::RecordInfoSize)
            } else {
                let n = records as usize;
                if p + head + n * w > s.len() {
                    Err(MdxError::Truncated)
                } else {
                    Ok(
                        (
                            p + head + n * w,
                            Seq::new(n as nat, |i: int| record_info_at(s, p + head, i, wide)),
                        ),
                    )
                }
            }
        }
    }
}

pub fn parse_record_blocks(s: &[u8], p: usize, version: Version) -> (r: Result<
    (usize, Vec<BlockEntryInfo>),
    MdxError,
>)
    requires
        p <= s@.len(),
    ensures
        r matches Err(e) ==> e != MdxError::LzoUnavailable,
        r matches Ok((q, v)) ==> spec_record_blocks(s@, p as int, version) == Ok::<
            (int, Seq<BlockEntryInfo>),
            MdxError,
        >((q as int, v@)),
        r matches Ok((q, v)) ==> q <= s@.len(),
        r matches Err(e) ==> spec_record_blocks(s@, p as int, version) == Err::<
            (int, Seq<BlockEntryInfo>),
            MdxError,
        >(e),
{
    if version == Version::V3 {
        return Err(MdxError::UnsupportedVersion);
    }
    let wide = version == Version::V2;
    let head: usize = if wide { 32 } else { 16 };
    let w: usize = if wide { 16 } else { 8 };
    if s.len() - p < head {
        return Err(MdxError::Truncated);
    }
    let records: u64 = if wide { read_be_u64(s, p) } else { read_be_u32(s, p) as u64 };
    let info_size: u64 = if wide { read_be_u64(s, p + 16) } else { read_be_u32(s, p + 8) as u64 };
    if records > u64::MAX / (w as u64) || records * (w as u64) != info_size {
        return Err(MdxError::RecordInfoSize);
    }
    let n: usize = records as usize;
    let base: usize = p + head;
    let room: usize = s.len() - base;
    if (wide && room / 16 < n) || (!wide && room / 8 < n) {
        return Err(MdxError::Truncated);
    }
    assert(n * w <= room) by (nonlinear_arith)
        requires
            w == 16 || w == 8,
            (w == 16 ==> n <= room / 16),
            (w == 8 ==> n <= room / 8),
    ;
    let mut infos: Vec<BlockEntryInfo> = Vec::new();
    let mut i: usize = 0;
    while i < n
        invariant
            base + n * w <= s@.len(),
            s@.len() <= usize::MAX,
            base == p + head,
            w == (if wide { 16int } else { 8int }),
            i <= n,
            infos@.len() == i,
            forall|j: int| 0 <= j < i ==> infos@[j] == record_info_at(s@, base as int, j, wide),
        decreases n - i,
    {
        assert(w * (i + 1) <= w * n) by (nonlinear_arith)
            requires
                i + 1 <= n,
                w >= 0,
        ;
        let info = if wide {
            assert(w * (i + 1) == 16 * i + 16);
            let at = base + 16 * i;
            BlockEntryInfo {
                compressed_size: read_be_u64(s, at) as usize,
                decompressed_size: read_be_u64(s, at + 8) as usize,
            }
        } else {
            assert(w * (i + 1) == 8 * i + 8);
            let at = base + 8 * i;
            BlockEntryInfo {
                compressed_size: read_be_u32(s, at) as usize,
                decompressed_size: read_be_u32(s, at + 4) as usize,
            }
        };
        infos.push(info);
        i = i + 1;
    }
    assert(infos@ =~= Seq::new(n as nat, |j: int| record_info_at(s@, base as int, j, wide)));
    Ok((base + n * w, infos))
}

} // verus!
