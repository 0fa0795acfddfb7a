//! A parsed dictionary: its keys, and the records they point to.
use vstd::prelude::*;
use std::cmp::Ordering;
use crate::bytes::{find_nul, le_u32_at, lemma_nul_index_from, nul_index_from};
use crate::lang::{collation_of, decode, try_compare};
use crate::parser::block::{decode_block, spec_block};
use crate::parser::MdxError;
use crate::parser::keys::{BlockEntryInfo, KeyBlock, KeyBlockModel, KeyEntrySlice};
use crate::text::{decoding, first_false, first_false_index, str_eq, DecodeFailure};

verus! {

/// A dictionary read from an `.mdx` file.
#[derive(Debug)]
pub struct Mdx {
    pub(crate) key_blocks: Vec<KeyBlock>,
    pub(crate) records_info: Vec<BlockEntryInfo>,
    pub(crate) data: Vec<u8>,
    pub(crate) records_start: usize,
    pub encoding: String,
    pub encrypted: u8,
}

/// What an [`Mdx`] holds: the unpacked key blocks, the sizes of the record blocks,
/// the whole file, where the record blocks start in it, the text encoding and the
/// encryption flags.
pub struct MdxModel {
    pub key_blocks: Seq<KeyBlockModel>,
    pub records_info: Seq<BlockEntryInfo>,
    pub data: Seq<u8>,
    pub records_start: int,
    pub encoding: Seq<char>,
    pub encrypted: u8,
}

impl MdxModel {
    /// Every key block is well formed and the record blocks start inside the file.
    pub open spec fn wf(self) -> bool {
        &&& forall|i: int| 0 <= i < self.key_blocks.len() ==> (#[trigger] self.key_blocks[i]).wf()
        &&& 0 <= self.records_start <= self.data.len()
    }
}

impl View for Mdx {
    type V = MdxModel;

    closed spec fn view(&self) -> MdxModel {
        MdxModel {
            key_blocks: self.key_blocks.deep_view(),
            records_info: self.records_info@,
            data: self.data@,
            records_start: self.records_start as int,
            encoding: self.encoding@,
            encrypted: self.encrypted,
        }
    }
}

impl Mdx {
    /// Assembles a dictionary from its parsed parts.
    pub(crate) fn from_parts(
        key_blocks: Vec<KeyBlock>,
        records_info: Vec<BlockEntryInfo>,
        data: Vec<u8>,
        records_start: usize,
        encoding: String,
        encrypted: u8,
    ) -> (m: Mdx)
        ensures
            m@ == (MdxModel {
                key_blocks: key_blocks.deep_view(),
                records_info: records_info@,
                data: data@,
                records_start: records_start as int,
                encoding: encoding@,
                encrypted,
            }),
    {
        Mdx { key_blocks, records_info, data, records_start, encoding, encrypted }
    }
}

/// A key of a key block: the offset of its record and its encoded text.
#[derive(Debug)]
pub struct KeyEntry<'a> {
    pub offset: usize,
    pub text: &'a [u8],
}

/// What a [`KeyEntry`] holds.
pub struct KeyEntryModel {
    pub offset: usize,
    pub text: Seq<u8>,
}

impl<'a> View for KeyEntry<'a> {
    type V = KeyEntryModel;

    open spec fn view(&self) -> KeyEntryModel {
        KeyEntryModel { offset: self.offset, text: self.text@ }
    }
}

pub open spec fn key_views<'a>(v: Seq<KeyEntry<'a>>) -> Seq<KeyEntryModel> {
    v.map_values(|k: KeyEntry<'a>| k@)
}

/// The encoded text of the key `e` of block `b`.
pub open spec fn entry_text(b: KeyBlockModel, e: KeyEntrySlice) -> Seq<u8> {
    b.data.subrange(e.text_start as int, e.text_start + e.text_len)
}

pub open spec fn entry_model(b: KeyBlockModel, e: KeyEntrySlice) -> KeyEntryModel {
    KeyEntryModel { offset: e.offset, text: entry_text(b, e) }
}

/// The keys of block `b`, in order.
pub open spec fn block_keys(b: KeyBlockModel) -> Seq<KeyEntryModel> {
    Seq::new(b.entries.len(), |i: int| entry_model(b, b.entries[i]))
}

/// Whether the key `e` of block `b` decodes, in the dictionary's encoding, to `key`.
pub open spec fn entry_matches(b: KeyBlockModel, e: KeyEntrySlice, key: Seq<char>, encoding: Seq<char>) -> bool {
    decoding(encoding, entry_text(b, e)) == Ok::<Seq<char>, DecodeFailure>(key)
}

/// The keys among the first `n` of block `b` that decode to `key`, in order.
pub open spec fn matches_upto(b: KeyBlockModel, key: Seq<char>, encoding: Seq<char>, n: int) -> Seq<
    KeyEntryModel,
>
    decreases n,
{
    if n <= 0 {
        seq![]
    } else {
        let prev = matches_upto(b, key, encoding, n - 1);
        if entry_matches(b, b.entries[n - 1], key, encoding) {
            prev.push(entry_model(b, b.entries[n - 1]))
        } else {
            prev
        }
    }
}

/// The keys of block `b` that decode to `key`, in order.
pub open spec fn block_matches(b: KeyBlockModel, key: Seq<char>, encoding: Seq<char>) -> Seq<KeyEntryModel> {
    matches_upto(b, key, encoding, b.entries.len() as int)
}

impl KeyBlock {
    fn key_at<'a>(&'a self, i: usize) -> (k: KeyEntry<'a>)
        requires
            self.deep_view().wf(),
            i < self.entries@.len(),
        ensures
            k@ == entry_model(self.deep_view(), self.entries@[i as int]),
    {
        let e = self.entries[i];
        let _n = self.data.len();
        assert(self.deep_view().entries[i as int] == e);
        KeyEntry {
            offset: e.offset,
            text: vstd::slice::slice_subrange(self.data.as_slice(), e.text_start, e.text_start + e.text_len),
        }
    }

    /// The keys of this block, in order.
    pub fn entries<'a>(&'a self) -> (keys: Vec<KeyEntry<'a>>)
        requires
            self.deep_view().wf(),
        ensures
            key_views(keys@) == block_keys(self.deep_view()),
    {
        let mut keys: Vec<KeyEntry<'a>> = Vec::new();
        let mut i: usize = 0;
        while i < self.entries.len()
            invariant
                self.deep_view().wf(),
                i <= self.entries@.len(),
                key_views(keys@) == block_keys(self.deep_view()).take(i as int),
            decreases self.entries@.len() - i,
        {
            let k = self.key_at(i);
            let ghost before = keys@;
            keys.push(k);
            assert(key_views(keys@) =~= key_views(before).push(k@));
            assert(block_keys(self.deep_view()).take(i + 1) =~= block_keys(self.deep_view()).take(
                i as int,
            ).push(k@));
            i = i + 1;
        }
        assert(block_keys(self.deep_view()).take(i as int) =~= block_keys(self.deep_view()));
        keys
    }

    /// The text of the first key, if the block has any.
    pub fn first_key(&self) -> (t: Option<&[u8]>)
        requires
            self.deep_view().wf(),
        ensures
            t is None <==> self.entries@.len() == 0,
            t matches Some(x) ==> x@ == entry_text(self.deep_view(), self.entries@[0]),
    {
        if self.entries.len() == 0 {
            None
        } else {
            Some(self.key_at(0).text)
        }
    }

    /// The text of the last key, if the block has any.
    pub fn last_key(&self) -> (t: Option<&[u8]>)
        requires
            self.deep_view().wf(),
        ensures
            t is None <==> self.entries@.len() == 0,
            t matches Some(x) ==> x@ == entry_text(self.deep_view(), self.entries@.last()),
    {
        if self.entries.len() == 0 {
            None
        } else {
            Some(self.key_at(self.entries.len() - 1).text)
        }
    }

    /// The keys of this block whose text, decoded in `encoding`, is exactly `key`
    /// (case-sensitive), in order.
    pub fn lookup<'a>(&'a self, key: &str, encoding: &str) -> (found: Vec<KeyEntry<'a>>)
        requires
            self.deep_view().wf(),
        ensures
            key_views(found@) == block_matches(self.deep_view(), key@, encoding@),
    {
        let mut found: Vec<KeyEntry<'a>> = Vec::new();
        let mut i: usize = 0;
        while i < self.entries.len()
            invariant
                self.deep_view().wf(),
                i <= self.entries@.len(),
                key_views(found@) == matches_upto(self.deep_view(), key@, encoding@, i as int),
            decreases self.entries@.len() - i,
        {
            let k = self.key_at(i);
            let hit = match decode(encoding, k.text) {
                Ok(probe) => str_eq(probe.as_str(), key),
                Err(_) => false,
            };
            assert(hit == entry_matches(self.deep_view(), self.entries@[i as int], key@, encoding@));
            if hit {
                let ghost before = found@;
                found.push(k);
                assert(key_views(found@) =~= key_views(before).push(k@));
            }
            i = i + 1;
        }
        found
    }
}


// ── records ─────────────────────────────────────────────────────────────────

/// Where the record of a key lies: the offset of its record block after the start
/// of the record blocks, its offset inside the unpacked block, and the stored and
/// unpacked sizes of that block.
#[derive(Debug, Clone, Copy, PartialEq, Eq, Structural)]
pub struct RecordOffset {
    pub buf_offset: usize,
    pub block_offset: usize,
    pub record_size: usize,
    pub decomp_size: usize,
}

/// The total unpacked size of the first `i` record blocks.
pub open spec fn decomp_before(infos: Seq<BlockEntryInfo>, i: int) -> int
    decreases i,
{
    if i <= 0 {
        0
    } else {
        decomp_before(infos, i - 1) + infos[i - 1].decompressed_size
    }
}

/// The total stored size of the first `i` record blocks.
pub open spec fn comp_before(infos: Seq<BlockEntryInfo>, i: int) -> int
    decreases i,
{
    if i <= 0 {
        0
    } else {
        comp_before(infos, i - 1) + infos[i - 1].compressed_size
    }
}

/// The location of offset `e` of the unpacked record data, searching from block
/// `i` on: the first block whose unpacked end lies past `e`.
pub open spec fn record_offset_from(infos: Seq<BlockEntryInfo>, e: int, i: int) -> Option<RecordOffset>
    decreases infos.len() - i,
{
    if i < 0 || i >= infos.len() {
        None
    } else if e < decomp_before(infos, i + 1) {
        if comp_before(infos, i) > usize::MAX {
            None
        } else {
            Some(
                RecordOffset {
                    buf_offset: comp_before(infos, i) as usize,
                    block_offset: (e - decomp_before(infos, i)) as usize,
                    record_size: infos[i].compressed_size,
                    decomp_size: infos[i].decompressed_size,
                },
            )
        }
    } else {
        record_offset_from(infos, e, i + 1)
    }
}

/// The location of offset `e` of the unpacked record data, `None` past its end
/// (or where the stored offset of its block does not fit in a `usize`).
pub open spec fn spec_record_offset(infos: Seq<BlockEntryInfo>, e: int) -> Option<RecordOffset> {
    record_offset_from(infos, e, 0)
}

/// The text of the record at offset `e`: from there in its unpacked block up to
/// the first zero byte or the block's end.
pub open spec fn spec_fetch_definition(m: MdxModel, e: usize) -> Option<Seq<u8>> {
    match spec_record_offset(m.records_info, e as int) {
        None => None,
        Some(o) => {
            let start = m.records_start + o.buf_offset;
            if start > m.data.len() {
                None
            } else {
                match spec_block(m.data, start, o.record_size as int, o.decomp_size as int) {
                    Err(_) => None,
                    Ok((_, d)) => if o.block_offset > d.len() {
                        None
                    } else {
                        Some(d.subrange(o.block_offset as int, nul_index_from(d, o.block_offset as int)))
                    },
                }
            }
        },
    }
}

/// Whether the record block that holds offset `e` is LZO-compressed.
pub open spec fn fetch_needs_lzo(m: MdxModel, e: usize) -> bool {
    match spec_record_offset(m.records_info, e as int) {
        None => false,
        Some(o) => {
            let start = m.records_start + o.buf_offset;
            start + 8 <= m.data.len() && le_u32_at(m.data, start) % 16 == 1
        },
    }
}

/// Why a key's record gave no text.
#[derive(Debug, Clone, Copy, PartialEq, Eq, Structural)]
pub enum ValueFailure {
    /// No record block holds a record at the key's offset, or its block does not
    /// decode.
    NoDefinition,
    /// The record's block is LZO-compressed and the LZO decompressor could not be
    /// initialised on this machine.
    LzoUnavailable,
    /// The record does not decode in the dictionary's encoding.
    Decode(DecodeFailure),
}

/// The text of the record at offset `e`, decoded in the dictionary's encoding;
/// `NoDefinition` where there is no such record.
pub open spec fn value_of(m: MdxModel, e: usize) -> Result<Seq<char>, ValueFailure> {
    match spec_fetch_definition(m, e) {
        None => Err(ValueFailure::NoDefinition),
        Some(raw) => match decoding(m.encoding, raw) {
            Ok(t) => Ok(t),
            Err(x) => Err(ValueFailure::Decode(x)),
        },
    }
}

impl Mdx {
    /// Locates offset `entry_offset` of the unpacked record data.
    pub fn record_offset(&self, entry_offset: usize) -> (r: Option<RecordOffset>)
        ensures
            r == spec_record_offset(self@.records_info, entry_offset as int),
    {
        let infos = &self.records_info;
        let ghost s = infos@;
        let mut block_offset: usize = 0;
        let mut buf_offset: usize = 0;
        let mut overflow = false;
        let mut i: usize = 0;
        while i < infos.len()
            invariant
                s == infos@,
                s == self@.records_info,
                i <= s.len(),
                spec_record_offset(s, entry_offset as int) == record_offset_from(
                    s,
                    entry_offset as int,
                    i as int,
                ),
                block_offset == decomp_before(s, i as int),
                block_offset <= entry_offset,
                overflow <==> comp_before(s, i as int) > usize::MAX,
                !overflow ==> buf_offset == comp_before(s, i as int),
            decreases s.len() - i,
        {
            let info = infos[i];
            if entry_offset - block_offset < info.decompressed_size {
                if overflow {
                    return None;
                }
                return Some(
                    RecordOffset {
                        buf_offset,
                        block_offset: entry_offset - block_offset,
                        record_size: info.compressed_size,
                        decomp_size: info.decompressed_size,
                    },
                );
            }
            block_offset = block_offset + info.decompressed_size;
            if !overflow {
                match buf_offset.checked_add(info.compressed_size) {
                    Some(b) => {
                        buf_offset = b;
                    },
                    None => {
                        overflow = true;
                    },
                }
            }
            i = i + 1;
        }
        None
    }

    /// The raw text of the record at offset `entry_offset` of the unpacked record
    /// data, `None` where there is none; a failure to initialise the LZO
    /// decompressor also gives `None`.
    pub fn fetch_definition(&self, entry_offset: usize) -> (r: Option<Vec<u8>>)
        requires
            self@.wf(),
        ensures
            r matches Some(v) ==> spec_fetch_definition(self@, entry_offset) == Some(v@),
            r is None ==> spec_fetch_definition(self@, entry_offset) is None || fetch_needs_lzo(
                self@,
                entry_offset,
            ),
    {
        match self.fetch_record(entry_offset) {
            Ok(v) => Some(v),
            Err(_) => None,
        }
    }

    /// The raw text of the record at offset `entry_offset`; `Err(true)` where its
    /// block needs the LZO decompressor and that is unavailable, `Err(false)` where
    /// there is no such record.
    fn fetch_record(&self, entry_offset: usize) -> (r: Result<Vec<u8>, bool>)
        requires
            self@.wf(),
        ensures
            r matches Ok(v) ==> spec_fetch_definition(self@, entry_offset) == Some(v@),
            r matches Err(lzo) ==> if lzo {
                fetch_needs_lzo(self@, entry_offset)
            } else {
                spec_fetch_definition(self@, entry_offset) is None
            },
    {
        let o = match self.record_offset(entry_offset) {
            Some(o) => o,
            None => return Err(false),
        };
        if o.buf_offset > self.data.len() - self.records_start {
            return Err(false);
        }
        let start = self.records_start + o.buf_offset;
        match decode_block(self.data.as_slice(), start, o.record_size, o.decomp_size) {
            Err(MdxError::LzoUnavailable) => Err(true),
            Err(_) => Err(false),
            Ok((_, d)) => {
                if o.block_offset > d.len() {
                    return Err(false);
                }
                let z = find_nul(d.as_slice(), o.block_offset);
                proof {
                    lemma_nul_index_from(d@, o.block_offset as int);
                }
                Ok(vstd::slice::slice_to_vec(vstd::slice::slice_subrange(d.as_slice(), o.block_offset, z)))
            },
        }
    }
}


// ── records of keys ─────────────────────────────────────────────────────────

/// A key of a dictionary together with the dictionary, from which its text and
/// its record can be decoded.
pub struct Record<'a> {
    key: &'a [u8],
    mdx: &'a Mdx,
    entry_offset: usize,
    cache: Option<Result<String, ValueFailure>>,
}

/// What a [`Record`] holds.
pub struct RecordModel {
    pub key: Seq<u8>,
    pub entry_offset: usize,
    pub dict: MdxModel,
}

impl<'a> View for Record<'a> {
    type V = RecordModel;

    closed spec fn view(&self) -> RecordModel {
        RecordModel { key: self.key@, entry_offset: self.entry_offset, dict: self.mdx@ }
    }
}

/// The text of a decoded value, or why there is none.
pub open spec fn value_view(r: Result<String, ValueFailure>) -> Result<Seq<char>, ValueFailure> {
    match r {
        Ok(t) => Ok(t@),
        Err(x) => Err(x),
    }
}

/// Whether `r` is a value that the record `m` can give: its decoded record, or
/// the failure to decode it, where the LZO decompressor may also have been found
/// unavailable for a block that needs it.
pub open spec fn value_allowed(m: RecordModel, r: Result<Seq<char>, ValueFailure>) -> bool {
    &&& r matches Ok(t) ==> value_of(m.dict, m.entry_offset) == Ok::<Seq<char>, ValueFailure>(t)
    &&& (r matches Err(ValueFailure::LzoUnavailable)) ==> fetch_needs_lzo(m.dict, m.entry_offset)
    &&& r matches Err(x) ==> x == ValueFailure::LzoUnavailable || value_of(m.dict, m.entry_offset)
        == Err::<Seq<char>, ValueFailure>(x)
}

impl<'a> Record<'a> {
    /// The value that an earlier call of [`Record::value`] gave, if there was one.
    pub closed spec fn cached(&self) -> Option<Result<Seq<char>, ValueFailure>> {
        match self.cache {
            None => None,
            Some(c) => Some(value_view(c)),
        }
    }

    /// A remembered value is one the record can give.
    #[verifier::type_invariant]
    closed spec fn cache_agrees(self) -> bool {
        match self.cache {
            None => true,
            Some(c) => value_allowed(self@, value_view(c)),
        }
    }
}

/// The keys that records point to, as key entries.
pub open spec fn record_keys<'a>(v: Seq<Record<'a>>) -> Seq<KeyEntryModel> {
    v.map_values(|r: Record<'a>| KeyEntryModel { offset: r@.entry_offset, text: r@.key })
}

/// Whether every record of `v` belongs to the dictionary `m` and has decoded
/// nothing yet.
pub open spec fn records_of<'a>(v: Seq<Record<'a>>, m: MdxModel) -> bool {
    forall|i: int| 0 <= i < v.len() ==> (#[trigger] v[i])@.dict == m && v[i].cached() is None
}

impl<'a> Record<'a> {
    /// The text of the key, decoded in the dictionary's encoding.
    pub fn key(&self) -> (r: Result<String, DecodeFailure>)
        ensures
            r matches Ok(t) ==> decoding(self@.dict.encoding, self@.key) == Ok::<Seq<char>, DecodeFailure>(t@),
            r matches Err(x) ==> decoding(self@.dict.encoding, self@.key) == Err::<Seq<char>, DecodeFailure>(x),
    {
        decode(self.mdx.encoding.as_str(), self.key)
    }

    /// The record of the key, decoded in the dictionary's encoding; `NoDefinition`
    /// where the dictionary has no record at its offset, `LzoUnavailable` only where
    /// the record block needs the LZO decompressor and it could not be set up. The
    /// first call decodes and remembers the result; every later call gives that
    /// result again and decodes nothing.
    pub fn value(&mut self) -> (r: Result<String, ValueFailure>)
        requires
            old(self)@.dict.wf(),
        ensures
            final(self)@ == old(self)@,
            final(self).cached() == Some(value_view(r)),
            old(self).cached() matches Some(c) ==> value_view(r) == c,
            r matches Ok(t) ==> value_of(old(self)@.dict, old(self)@.entry_offset) == Ok::<
                Seq<char>,
                ValueFailure,
            >(t@),
            (r matches Err(ValueFailure::LzoUnavailable)) ==> fetch_needs_lzo(
                old(self)@.dict,
                old(self)@.entry_offset,
            ),
            r matches Err(x) ==> x == ValueFailure::LzoUnavailable || value_of(
                old(self)@.dict,
                old(self)@.entry_offset,
            ) == Err::<Seq<char>, ValueFailure>(x),
    {
        proof {
            use_type_invariant(&*self);
        }
        match &self.cache {
            Some(Ok(t)) => {
                return Ok(t.clone());
            },
            Some(Err(x)) => {
                return Err(*x);
            },
            None => {},
        }
        let r = match self.mdx.fetch_record(self.entry_offset) {
            Ok(raw) => match decode(self.mdx.encoding.as_str(), raw.as_slice()) {
                Ok(t) => Ok(t),
                Err(x) => Err(ValueFailure::Decode(x)),
            },
            Err(true) => Err(ValueFailure::LzoUnavailable),
            Err(false) => Err(ValueFailure::NoDefinition),
        };
        let kept = match &r {
            Ok(t) => Ok(t.clone()),
            Err(x) => Err(*x),
        };
        self.cache = Some(kept);
        r
    }
}

/// All keys of the dictionary in the first `n` key blocks, block by block.
pub open spec fn keys_upto(m: MdxModel, n: int) -> Seq<KeyEntryModel>
    decreases n,
{
    if n <= 0 {
        seq![]
    } else {
        keys_upto(m, n - 1) + block_keys(m.key_blocks[n - 1])
    }
}

/// All keys of the dictionary, block by block.
pub open spec fn all_keys(m: MdxModel) -> Seq<KeyEntryModel> {
    keys_upto(m, m.key_blocks.len() as int)
}

// ── lookup ──────────────────────────────────────────────────────────────────

/// The text of the last key of block `b`, if it has any.
pub open spec fn last_key_of(b: KeyBlockModel) -> Option<Seq<u8>> {
    if b.entries.len() == 0 {
        None
    } else {
        Some(entry_text(b, b.entries.last()))
    }
}

/// Whether block `b` is taken to end before `key`: its last key, decoded with `key`
/// itself as the encoding label, collates before `key`.
pub open spec fn block_before_key(b: KeyBlockModel, key: Seq<char>) -> bool {
    match last_key_of(b) {
        None => false,
        Some(t) => match decoding(key, t) {
            Ok(end) => collation_of(end, key) == Some(Ordering::Less),
            Err(_) => false,
        },
    }
}

/// Whether block `i` of `m` is taken to end before `key`.
pub open spec fn block_flag(m: MdxModel, i: usize, key: Seq<char>) -> bool {
    block_before_key(m.key_blocks[i as int], key)
}

/// The block position where the search for `key` lands: the first block not taken
/// to end before it.
pub open spec fn lookup_position(m: MdxModel, key: Seq<char>) -> int {
    first_false(Seq::new(m.key_blocks.len(), |i: int| block_before_key(m.key_blocks[i], key)))
}

/// The keys of block `i` that decode to `key`, none where there is no block `i`.
pub open spec fn found_at(m: MdxModel, key: Seq<char>, i: int) -> Seq<KeyEntryModel> {
    if 0 <= i < m.key_blocks.len() {
        block_matches(m.key_blocks[i], key, m.encoding)
    } else {
        seq![]
    }
}

/// The matches of the first block from `idx` on, other than `skip1` and `skip2`,
/// that has any.
pub open spec fn scan_from(m: MdxModel, key: Seq<char>, skip1: int, skip2: int, idx: int) -> Seq<
    KeyEntryModel,
>
    decreases m.key_blocks.len() - idx,
{
    if idx < 0 || idx >= m.key_blocks.len() {
        seq![]
    } else if idx == skip1 || idx == skip2 {
        scan_from(m, key, skip1, skip2, idx + 1)
    } else if found_at(m, key, idx).len() > 0 {
        found_at(m, key, idx)
    } else {
        scan_from(m, key, skip1, skip2, idx + 1)
    }
}

/// The matches of `key` when the search landed at `pos`: those of the block before
/// `pos` if any, else of the block at `pos`, else of the first other block that has
/// any, else none.
pub open spec fn lookup_from(m: MdxModel, key: Seq<char>, pos: int) -> Seq<KeyEntryModel> {
    let prev = if pos == 0 { usize::MAX as int } else { pos - 1 };
    if found_at(m, key, prev).len() > 0 {
        found_at(m, key, prev)
    } else if found_at(m, key, pos).len() > 0 {
        found_at(m, key, pos)
    } else {
        scan_from(m, key, prev, pos, 0)
    }
}

/// The keys that a lookup of `key` finds.
pub open spec fn spec_lookup(m: MdxModel, key: Seq<char>) -> Seq<KeyEntryModel> {
    lookup_from(m, key, lookup_position(m, key))
}

impl Mdx {
    fn block_at(&self, i: usize) -> (b: &KeyBlock)
        requires
            self@.wf(),
            i < self@.key_blocks.len(),
        ensures
            b.deep_view() == self@.key_blocks[i as int],
            b.deep_view().wf(),
    {
        assert(self@.key_blocks[i as int].wf());
        &self.key_blocks[i]
    }

    fn block_is_before(&self, i: usize, key: &str) -> (r: bool)
        requires
            self@.wf(),
            i < self@.key_blocks.len(),
        ensures
            r == block_flag(self@, i, key@),
    {
        let block = self.block_at(i);
        match block.last_key() {
            None => false,
            Some(t) => match decode(key, t) {
                Ok(end) => match try_compare(end.as_str(), key) {
                    Some(Ordering::Less) => true,
                    _ => false,
                },
                Err(_) => false,
            },
        }
    }

    fn records_from<'a>(&'a self, found: Vec<KeyEntry<'a>>) -> (records: Vec<Record<'a>>)
        ensures
            record_keys(records@) == key_views(found@),
            records_of(records@, self@),
    {
        let mut records: Vec<Record<'a>> = Vec::new();
        let mut i: usize = 0;
        while i < found.len()
            invariant
                i <= found@.len(),
                record_keys(records@) == key_views(found@).take(i as int),
                records_of(records@, self@),
            decreases found@.len() - i,
        {
            let k = &found[i];
            let r = Record { key: k.text, mdx: self, entry_offset: k.offset, cache: None };
            let ghost before = records@;
            records.push(r);
            assert(record_keys(records@) =~= record_keys(before).push(
                KeyEntryModel { offset: k.offset, text: k.text@ },
            ));
            assert(key_views(found@).take(i + 1) =~= key_views(found@).take(i as int).push(
                found@[i as int]@,
            ));
            i = i + 1;
        }
        assert(key_views(found@).take(i as int) =~= key_views(found@));
        records
    }

    fn records_in_block<'a>(&'a self, idx: usize, key: &str) -> (records: Vec<Record<'a>>)
        requires
            self@.wf(),
        ensures
            record_keys(records@) == found_at(self@, key@, idx as int),
            records_of(records@, self@),
    {
        if idx < self.key_blocks.len() {
            let block = &self.key_blocks[idx];
            assert(self@.key_blocks[idx as int] == block.deep_view());
            let found = block.lookup(key, self.encoding.as_str());
            self.records_from(found)
        } else {
            let found: Vec<KeyEntry<'a>> = Vec::new();
            assert(key_views(found@) =~= Seq::<KeyEntryModel>::empty());
            self.records_from(found)
        }
    }

    /// Finds the records whose key decodes, in the dictionary's encoding, to exactly
    /// `key`. The first block whose last key is not taken to come before `key`
    /// gives a position (the partition point where the blocks are sorted); the
    /// blocks just before and at it are tried first, then every other block in
    /// order, and the matches of the first block that has any are returned.
    pub fn lookup<'a>(&'a self, key: &str) -> (found: Vec<Record<'a>>)
        requires
            self@.wf(),
        ensures
            record_keys(found@) == spec_lookup(self@, key@),
            records_of(found@, self@),
    {
        let n = self.key_blocks.len();
        let mut flags: Vec<bool> = Vec::new();
        let mut i: usize = 0;
        while i < n
            invariant
                self@.wf(),
                n == self@.key_blocks.len(),
                i <= n,
                flags@ == Seq::new(i as nat, |j: int| block_before_key(self@.key_blocks[j], key@)),
            decreases n - i,
        {
            let f = self.block_is_before(i, key);
            flags.push(f);
            assert(flags@ =~= Seq::new((i + 1) as nat, |j: int| block_before_key(self@.key_blocks[j], key@)));
            i = i + 1;
        }
        let pos = first_false_index(flags.as_slice());
        assert(flags@ =~= Seq::new(self@.key_blocks.len(), |j: int| block_before_key(self@.key_blocks[j], key@)));
        let prev: usize = if pos == 0 { usize::MAX } else { pos - 1 };
        let first = self.records_in_block(prev, key);
        if first.len() > 0 {
            return first;
        }
        let second = self.records_in_block(pos, key);
        if second.len() > 0 {
            return second;
        }
        let mut idx: usize = 0;
        while idx < n
            invariant
                self@.wf(),
                n == self@.key_blocks.len(),
                idx <= n,
                pos == lookup_position(self@, key@),
                prev as int == (if pos == 0 { usize::MAX as int } else { pos - 1 }),
                found_at(self@, key@, prev as int).len() == 0,
                found_at(self@, key@, pos as int).len() == 0,
                scan_from(self@, key@, prev as int, pos as int, 0) == scan_from(
                    self@,
                    key@,
                    prev as int,
                    pos as int,
                    idx as int,
                ),
            decreases n - idx,
        {
            if idx != prev && idx != pos {
                let found = self.records_in_block(idx, key);
                if found.len() > 0 {
                    return found;
                }
            }
            idx = idx + 1;
        }
        Vec::new()
    }

    /// Every key of the dictionary, block by block.
    pub fn keys<'a>(&'a self) -> (keys: Vec<KeyEntry<'a>>)
        requires
            self@.wf(),
        ensures
            key_views(keys@) == all_keys(self@),
    {
        let mut keys: Vec<KeyEntry<'a>> = Vec::new();
        let mut i: usize = 0;
        while i < self.key_blocks.len()
            invariant
                self@.wf(),
                i <= self@.key_blocks.len(),
                key_views(keys@) == keys_upto(self@, i as int),
            decreases self@.key_blocks.len() - i,
        {
            let block = &self.key_blocks[i];
            assert(self@.key_blocks[i as int] == block.deep_view());
            let more = block.entries();
            let ghost before = keys@;
            let mut j: usize = 0;
            while j < more.len()
                invariant
                    j <= more@.len(),
                    key_views(keys@) == key_views(before) + key_views(more@).take(j as int),
                decreases more@.len() - j,
            {
                let k = KeyEntry { offset: more[j].offset, text: more[j].text };
                let ghost mid = keys@;
                keys.push(k);
                assert(key_views(keys@) =~= key_views(mid).push(k@));
                assert(key_views(more@).take(j + 1) =~= key_views(more@).take(j as int).push(
                    more@[j as int]@,
                ));
                j = j + 1;
            }
            assert(key_views(more@).take(j as int) =~= key_views(more@));
            i = i + 1;
        }
        keys
    }

    /// A record for every key of the dictionary, block by block.
    pub fn items<'a>(&'a self) -> (records: Vec<Record<'a>>)
        requires
            self@.wf(),
        ensures
            record_keys(records@) == all_keys(self@),
            records_of(records@, self@),
    {
        let keys = self.keys();
        self.records_from(keys)
    }
}


// ── laws ────────────────────────────────────────────────────────────────────

proof fn lemma_matches_upto_exact(b: KeyBlockModel, key: Seq<char>, encoding: Seq<char>, n: int)
    requires
        0 <= n <= b.entries.len(),
    ensures
        forall|j: int|
            0 <= j < matches_upto(b, key, encoding, n).len() ==> decoding(
                encoding,
                #[trigger] matches_upto(b, key, encoding, n)[j].text,
            ) == Ok::<Seq<char>, DecodeFailure>(key),
    decreases n,
{
    if n > 0 {
        lemma_matches_upto_exact(b, key, encoding, n - 1);
        let prev = matches_upto(b, key, encoding, n - 1);
        if entry_matches(b, b.entries[n - 1], key, encoding) {
            assert forall|j: int| 0 <= j < prev.len() + 1 implies decoding(
                encoding,
                #[trigger] prev.push(entry_model(b, b.entries[n - 1]))[j].text,
            ) == Ok::<Seq<char>, DecodeFailure>(key) by {
                if j < prev.len() {
                    assert(prev.push(entry_model(b, b.entries[n - 1]))[j] == prev[j]);
                }
            }
        }
    }
}

proof fn lemma_matches_upto_finds(b: KeyBlockModel, key: Seq<char>, encoding: Seq<char>, n: int, j: int)
    requires
        0 <= j < n <= b.entries.len(),
        entry_matches(b, b.entries[j], key, encoding),
    ensures
        matches_upto(b, key, encoding, n).len() > 0,
    decreases n,
{
    if j < n - 1 {
        lemma_matches_upto_finds(b, key, encoding, n - 1, j);
    }
}

proof fn lemma_scan_from(m: MdxModel, key: Seq<char>, skip1: int, skip2: int, idx: int, i: int)
    requires
        0 <= idx <= i < m.key_blocks.len(),
        i != skip1,
        i != skip2,
        found_at(m, key, i).len() > 0,
    ensures
        scan_from(m, key, skip1, skip2, idx).len() > 0,
    decreases i - idx,
{
    if idx < i && !(found_at(m, key, idx).len() > 0 && idx != skip1 && idx != skip2) {
        lemma_scan_from(m, key, skip1, skip2, idx + 1, i);
    }
}

proof fn lemma_scan_from_one_block(m: MdxModel, key: Seq<char>, skip1: int, skip2: int, idx: int)
    requires
        0 <= idx,
    ensures
        scan_from(m, key, skip1, skip2, idx).len() == 0 || exists|i: int|
            0 <= i < m.key_blocks.len() && scan_from(m, key, skip1, skip2, idx) == #[trigger] found_at(m, key, i),
    decreases m.key_blocks.len() - idx,
{
    if idx < m.key_blocks.len() {
        if idx == skip1 || idx == skip2 || found_at(m, key, idx).len() == 0 {
            lemma_scan_from_one_block(m, key, skip1, skip2, idx + 1);
        } else {
            assert(scan_from(m, key, skip1, skip2, idx) == found_at(m, key, idx));
        }
    }
}

/// Whether every key of `keys` decodes, in `encoding`, to exactly `key`.
pub open spec fn all_decode_to(keys: Seq<KeyEntryModel>, encoding: Seq<char>, key: Seq<char>) -> bool {
    forall|j: int| 0 <= j < keys.len() ==> decoding(encoding, #[trigger] keys[j].text) == Ok::<Seq<char>, DecodeFailure>(key)
}

/// A lookup finds only keys that decode exactly (case and all) to the word
/// looked up.
pub proof fn law_lookup_finds_only_the_word(m: MdxModel, key: Seq<char>)
    ensures
        all_decode_to(spec_lookup(m, key), m.encoding, key),
{
    law_lookup_one_block(m, key);
    if spec_lookup(m, key).len() > 0 {
        let i = choose|i: int| 0 <= i < m.key_blocks.len() && spec_lookup(m, key) == #[trigger] found_at(m, key, i);
        let b = m.key_blocks[i];
        lemma_matches_upto_exact(b, key, m.encoding, b.entries.len() as int);
    }
}

/// Where any key block holds the word looked up, a lookup finds it: the search
/// falls back on every block when the blocks around the search position have none.
pub proof fn law_lookup_misses_nothing(m: MdxModel, key: Seq<char>, i: int, j: int)
    requires
        m.wf(),
        0 <= i < m.key_blocks.len(),
        0 <= j < m.key_blocks[i].entries.len(),
        entry_matches(m.key_blocks[i], m.key_blocks[i].entries[j], key, m.encoding),
    ensures
        spec_lookup(m, key).len() > 0,
{
    let b = m.key_blocks[i];
    lemma_matches_upto_finds(b, key, m.encoding, b.entries.len() as int, j);
    assert(found_at(m, key, i).len() > 0);
    let pos = lookup_position(m, key);
    let prev = if pos == 0 { usize::MAX as int } else { pos - 1 };
    if found_at(m, key, prev).len() == 0 && found_at(m, key, pos).len() == 0 {
        lemma_scan_from(m, key, prev, pos, 0, i);
    }
}

/// The keys that a lookup finds all come from a single key block: those of that
/// block which decode to the word, in block order.
pub proof fn law_lookup_one_block(m: MdxModel, key: Seq<char>)
    ensures
        spec_lookup(m, key).len() == 0 || exists|i: int|
            0 <= i < m.key_blocks.len() && spec_lookup(m, key) == #[trigger] found_at(m, key, i),
{
    let pos = lookup_position(m, key);
    let prev = if pos == 0 { usize::MAX as int } else { pos - 1 };
    lemma_scan_from_one_block(m, key, prev, pos, 0);
}

/// An offset of the unpacked record data is located in the block that covers it,
/// at an offset inside that block; offsets past the end of the record data are
/// located nowhere.
pub proof fn law_record_offset_in_block(infos: Seq<BlockEntryInfo>, e: int)
    requires
        e >= 0,
    ensures
        spec_record_offset(infos, e) matches Some(o) ==> o.block_offset < o.decomp_size,
        e >= decomp_before(infos, infos.len() as int) ==> spec_record_offset(infos, e) is None,
{
    lemma_record_offset_from(infos, e, 0);
}

proof fn lemma_decomp_before_monotone(infos: Seq<BlockEntryInfo>, i: int, j: int)
    requires
        0 <= i <= j <= infos.len(),
    ensures
        decomp_before(infos, i) <= decomp_before(infos, j),
    decreases j - i,
{
    if i < j {
        lemma_decomp_before_monotone(infos, i, j - 1);
    }
}

proof fn lemma_record_offset_from(infos: Seq<BlockEntryInfo>, e: int, i: int)
    requires
        0 <= i <= infos.len(),
        e >= decomp_before(infos, i),
    ensures
        record_offset_from(infos, e, i) matches Some(o) ==> o.block_offset < o.decomp_size,
        e >= decomp_before(infos, infos.len() as int) ==> record_offset_from(infos, e, i) is None,
    decreases infos.len() - i,
{
    if i < infos.len() {
        if e < decomp_before(infos, i + 1) {
            lemma_decomp_before_monotone(infos, i + 1, infos.len() as int);
        } else {
            lemma_record_offset_from(infos, e, i + 1);
        }
    }
}

proof fn lemma_comp_before_nonneg(infos: Seq<BlockEntryInfo>, i: int)
    ensures
        comp_before(infos, i) >= 0,
    decreases i,
{
    if i > 0 {
        lemma_comp_before_nonneg(infos, i - 1);
    }
}

proof fn lemma_sums_after_first(infos: Seq<BlockEntryInfo>, i: int)
    requires
        infos.len() > 0,
        0 <= i <= infos.len() - 1,
    ensures
        decomp_before(infos, i + 1) == infos[0].decompressed_size + decomp_before(infos.drop_first(), i),
        comp_before(infos, i + 1) == infos[0].compressed_size + comp_before(infos.drop_first(), i),
    decreases i,
{
    let t = infos.drop_first();
    assert(decomp_before(infos, i + 1) == decomp_before(infos, i) + infos[i].decompressed_size);
    assert(comp_before(infos, i + 1) == comp_before(infos, i) + infos[i].compressed_size);
    if i > 0 {
        lemma_sums_after_first(infos, i - 1);
        assert(t[i - 1] == infos[i]);
        assert(decomp_before(t, i) == decomp_before(t, i - 1) + t[i - 1].decompressed_size);
        assert(comp_before(t, i) == comp_before(t, i - 1) + t[i - 1].compressed_size);
    } else {
        assert(decomp_before(infos, 0) == 0);
        assert(comp_before(infos, 0) == 0);
        assert(decomp_before(t, 0) == 0);
        assert(comp_before(t, 0) == 0);
    }
}

/// The location of an offset in the blocks after the first, seen from the whole
/// list: its stored offset moves on by the first block's stored size.
pub open spec fn after_first_block(first: BlockEntryInfo, r: Option<RecordOffset>) -> Option<RecordOffset> {
    match r {
        None => None,
        Some(o) => if o.buf_offset + first.compressed_size > usize::MAX {
            None
        } else {
            Some(
                RecordOffset {
                    buf_offset: (o.buf_offset + first.compressed_size) as usize,
                    block_offset: o.block_offset,
                    record_size: o.record_size,
                    decomp_size: o.decomp_size,
                },
            )
        },
    }
}

proof fn lemma_record_offset_shift(infos: Seq<BlockEntryInfo>, e: int, i: int)
    requires
        infos.len() > 0,
        0 <= i <= infos.len() - 1,
        e >= infos[0].decompressed_size,
    ensures
        record_offset_from(infos, e, i + 1) == after_first_block(
            infos[0],
            record_offset_from(infos.drop_first(), e - infos[0].decompressed_size, i),
        ),
    decreases infos.len() - i,
{
    let t = infos.drop_first();
    let d0 = infos[0].decompressed_size as int;
    if i < t.len() {
        lemma_sums_after_first(infos, i);
        lemma_sums_after_first(infos, i + 1);
        assert(t[i] == infos[i + 1]);
        if !(e - d0 < decomp_before(t, i + 1)) {
            lemma_record_offset_shift(infos, e, i + 1);
        } else {
            let c = comp_before(t, i);
            lemma_comp_before_nonneg(t, i);
            assert(comp_before(infos, i + 1) == infos[0].compressed_size + c);
            assert(e < decomp_before(infos, i + 2));
            if c <= usize::MAX && c + infos[0].compressed_size <= usize::MAX {
                let o = RecordOffset {
                    buf_offset: c as usize,
                    block_offset: (e - d0 - decomp_before(t, i)) as usize,
                    record_size: t[i].compressed_size,
                    decomp_size: t[i].decompressed_size,
                };
                assert(record_offset_from(t, e - d0, i) == Some(o));
                assert(record_offset_from(infos, e, i + 1) == after_first_block(infos[0], Some(o)));
            }
        }
    }
}

/// Without record blocks no offset has a record.
pub proof fn law_record_offset_without_blocks(e: int)
    ensures
        spec_record_offset(Seq::<BlockEntryInfo>::empty(), e) is None,
{
}

/// Where an offset of the unpacked record data lies, block by block: an offset
/// inside the first record block is read from the start of the record data, at
/// that offset inside the block, whose stored and unpacked sizes are the first
/// block's.
pub proof fn law_record_offset_in_first_block(infos: Seq<BlockEntryInfo>, e: int)
    requires
        infos.len() > 0,
        0 <= e < infos[0].decompressed_size,
    ensures
        spec_record_offset(infos, e) == Some(
            RecordOffset {
                buf_offset: 0,
                block_offset: e as usize,
                record_size: infos[0].compressed_size,
                decomp_size: infos[0].decompressed_size,
            },
        ),
{
    assert(decomp_before(infos, 1) == decomp_before(infos, 0) + infos[0].decompressed_size);
}

/// An offset past the first record block lies where the same offset, less the
/// first block's unpacked size, lies in the blocks after it, except that it is
/// read further into the file by the first block's stored size (`None` where
/// that no longer fits a `usize`): blocks are stored one after another, each
/// taking its stored, not its unpacked, size.
pub proof fn law_record_offset_after_first_block(infos: Seq<BlockEntryInfo>, e: int)
    requires
        infos.len() > 0,
        e >= infos[0].decompressed_size,
    ensures
        spec_record_offset(infos, e) == after_first_block(
            infos[0],
            spec_record_offset(infos.drop_first(), e - infos[0].decompressed_size),
        ),
{
    assert(decomp_before(infos, 1) == decomp_before(infos, 0) + infos[0].decompressed_size);
    lemma_record_offset_shift(infos, e, 0);
}

/// A key whose offset no record block covers has no definition: its value is
/// refused as such, never given as an empty text.
pub proof fn law_uncovered_record_has_no_definition(m: MdxModel, e: usize)
    requires
        spec_record_offset(m.records_info, e as int) is None,
    ensures
        value_of(m, e) == Err::<Seq<char>, ValueFailure>(ValueFailure::NoDefinition),
{
}

} // verus!
