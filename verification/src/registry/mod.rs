//! The remote dictionary index: its entries, their sizes, search and upkeep.
pub mod crawler;
pub mod size;

use vstd::prelude::*;
use crate::text::{
    chars_lt, contains, contains_chars, lemma_chars_lt_irreflexive,
    lemma_chars_lt_total, lemma_chars_lt_transitive, lowercased, str_eq, str_lt, string_from_chars,
    to_lowercase,
};
use size::{size_text, size_text_chars};

verus! {

/// The site whose listing the index is crawled from.
pub const BASE_URL: &'static str = "https://mdx.mdict.org";

/// A dictionary file offered by the index.
#[derive(Debug, Clone)]
pub struct DictEntry {
    /// Display name: decoded filename without the `.mdx` extension.
    pub name: String,
    /// Direct download URL (URL-encoded).
    pub url: String,
    /// File size in bytes.
    pub size: u64,
    /// Human-readable category derived from the directory path (decoded).
    pub category: String,
}

/// What a [`DictEntry`] holds.
pub struct DictEntryModel {
    pub name: Seq<char>,
    pub url: Seq<char>,
    pub size: u64,
    pub category: Seq<char>,
}

impl View for DictEntry {
    type V = DictEntryModel;

    open spec fn view(&self) -> DictEntryModel {
        DictEntryModel { name: self.name@, url: self.url@, size: self.size, category: self.category@ }
    }
}

impl DictEntry {
    /// A compact human-readable file size: `?` for an unknown (zero) size, else
    /// GiB or MiB with one decimal, or whole KiB.
    pub fn size_human(&self) -> (s: String)
        ensures
            s@ == size_text(self.size),
    {
        let cs = size_text_chars(self.size);
        string_from_chars(cs.as_slice())
    }
}


/// The models of a sequence of entries.
pub open spec fn entry_views(v: Seq<DictEntry>) -> Seq<DictEntryModel> {
    v.map_values(|e: DictEntry| e@)
}

/// The models of a sequence of borrowed entries.
pub open spec fn entry_ref_views<'a>(v: Seq<&'a DictEntry>) -> Seq<DictEntryModel> {
    v.map_values(|e: &'a DictEntry| e@)
}

/// Whether the lowercase name or category of `e` contains `q`.
pub open spec fn entry_hit(e: DictEntryModel, q: Seq<char>) -> bool {
    contains_chars(lowercased(e.name), q) || contains_chars(lowercased(e.category), q)
}

/// The entries among the first `n` of `es` whose lowercase name or category
/// contains `q`, in order.
pub open spec fn hits_upto(es: Seq<DictEntryModel>, q: Seq<char>, n: int) -> Seq<DictEntryModel>
    decreases n,
{
    if n <= 0 {
        seq![]
    } else if entry_hit(es[n - 1], q) {
        hits_upto(es, q, n - 1).push(es[n - 1])
    } else {
        hits_upto(es, q, n - 1)
    }
}

/// Every entry holds the empty text, so a search for it keeps every entry.
pub proof fn lemma_hits_of_nothing(es: Seq<DictEntryModel>, n: int)
    requires
        0 <= n <= es.len(),
    ensures
        hits_upto(es, seq![], n) == es.take(n),
    decreases n,
{
    if n > 0 {
        lemma_hits_of_nothing(es, n - 1);
        let q: Seq<char> = seq![];
        assert(lowercased(es[n - 1].name).subrange(0, 0 + q.len() as int) =~= q);
        assert(contains_chars(lowercased(es[n - 1].name), q));
        assert(entry_hit(es[n - 1], seq![]));
        assert(es.take(n - 1).push(es[n - 1]) =~= es.take(n));
    }
}

/// The entries of `es` that a case-insensitive search for `query` finds: those
/// whose name or category, lowercased, contains the lowercased query.
pub open spec fn search_results(es: Seq<DictEntryModel>, query: Seq<char>) -> Seq<DictEntryModel> {
    hits_upto(es, lowercased(query), es.len() as int)
}

/// An index of dictionaries.
pub trait Registry {
    /// The indexed entries.
    spec fn indexed(&self) -> Seq<DictEntryModel>;

    /// All indexed entries.
    fn entries(&self) -> (es: &[DictEntry])
        ensures
            entry_views(es@) == self.indexed(),
    ;

    /// Case-insensitive substring search over name and category.
    fn search(&self, query: &str) -> (found: Vec<&DictEntry>)
        ensures
            entry_ref_views(found@) == search_results(self.indexed(), query@),
            query@.len() == 0 ==> entry_ref_views(found@) == self.indexed(),
    ;

    /// True when the index is empty (never fetched or cleared).
    fn is_stale(&self) -> (stale: bool)
        ensures
            stale == (self.indexed().len() == 0),
    ;
}

/// The index of mdx.mdict.org, kept in a JSON file under the data directory.
pub struct MdictOrgRegistry {
    entries: Vec<DictEntry>,
    cache_path: String,
}

/// `name` placed under the directory `base`, as a relative path joins onto a
/// Unix path.
pub open spec fn joined_path(base: Seq<char>, name: Seq<char>) -> Seq<char> {
    if base.len() == 0 {
        name
    } else if base.last() == '/' {
        base + name
    } else {
        base + "/"@ + name
    }
}

/// Joins the relative path `name` onto the directory `base`.
pub fn join_path(base: &str, name: &str) -> (p: String)
    ensures
        p@ == joined_path(base@, name@),
{
    let b = crate::text::chars_of(base);
    let mut out: Vec<char> = b.clone();
    if b.len() > 0 && b[b.len() - 1] != '/' {
        out.push('/');
    }
    crate::text::push_str(&mut out, name);
    assert(b@.len() > 0 ==> b@.last() == b@[b@.len() - 1]);
    proof {
        reveal_strlit("/");
    }
    assert(out@ =~= joined_path(base@, name@));
    string_from_chars(out.as_slice())
}

/// Whether the URLs of `out` strictly increase.
pub open spec fn sorted_by_url(out: Seq<DictEntryModel>) -> bool {
    forall|a: int, b: int| 0 <= a < b < out.len() ==> chars_lt(#[trigger] out[a].url, #[trigger] out[b].url)
}

/// Whether no entry before the `i`-th of `s` has its URL.
pub open spec fn first_with_url(s: Seq<DictEntryModel>, i: int) -> bool {
    forall|j: int| 0 <= j < i ==> #[trigger] s[j].url != s[i].url
}

/// Whether `x` is an entry of `input` that no earlier entry shares its URL with.
pub open spec fn is_first_entry(input: Seq<DictEntryModel>, x: DictEntryModel) -> bool {
    exists|i: int| 0 <= i < input.len() && first_with_url(input, i) && input[i] == x
}

/// Whether some entry of `out` has the URL `u`.
pub open spec fn has_url(out: Seq<DictEntryModel>, u: Seq<char>) -> bool {
    exists|k: int| 0 <= k < out.len() && out[k].url == u
}

/// Whether `out` is `input` with one entry per URL, the first that has it, sorted
/// by URL.
pub open spec fn deduplicated(input: Seq<DictEntryModel>, out: Seq<DictEntryModel>) -> bool {
    &&& sorted_by_url(out)
    &&& forall|k: int| 0 <= k < out.len() ==> #[trigger] is_first_entry(input, out[k])
    &&& forall|i: int| 0 <= i < input.len() ==> #[trigger] has_url(out, input[i].url)
}

proof fn lemma_first_entry_extends(prefix: Seq<DictEntryModel>, ev: DictEntryModel, x: DictEntryModel)
    requires
        is_first_entry(prefix, x),
    ensures
        is_first_entry(prefix.push(ev), x),
{
    let next = prefix.push(ev);
    let j = choose|j: int| 0 <= j < prefix.len() && first_with_url(prefix, j) && prefix[j] == x;
    assert(next[j] == prefix[j]);
    assert forall|m: int| 0 <= m < j implies #[trigger] next[m].url != next[j].url by {
        assert(next[m] == prefix[m]);
        assert(prefix[m].url != prefix[j].url);
    }
    assert(first_with_url(next, j));
}

proof fn lemma_dedup_skip(prefix: Seq<DictEntryModel>, ev: DictEntryModel, ov: Seq<DictEntryModel>, pos: int)
    requires
        deduplicated(prefix, ov),
        0 <= pos < ov.len(),
        ov[pos].url == ev.url,
    ensures
        deduplicated(prefix.push(ev), ov),
{
    let next = prefix.push(ev);
    assert forall|k: int| 0 <= k < ov.len() implies #[trigger] is_first_entry(next, ov[k]) by {
        assert(is_first_entry(prefix, ov[k]));
        lemma_first_entry_extends(prefix, ev, ov[k]);
    }
    assert forall|m: int| 0 <= m < next.len() implies #[trigger] has_url(ov, next[m].url) by {
        if m < prefix.len() {
            assert(next[m] == prefix[m]);
            assert(has_url(ov, prefix[m].url));
        } else {
            assert(next[m] == ev);
            assert(ov[pos].url == ev.url);
        }
    }
}

proof fn lemma_insert_sorted(ev: DictEntryModel, ov: Seq<DictEntryModel>, pos: int)
    requires
        sorted_by_url(ov),
        0 <= pos <= ov.len(),
        forall|k: int| 0 <= k < pos ==> chars_lt(#[trigger] ov[k].url, ev.url),
        pos < ov.len() ==> chars_lt(ev.url, ov[pos].url),
    ensures
        sorted_by_url(ov.insert(pos, ev)),
{
    let nv = ov.insert(pos, ev);
    assert forall|a: int, b: int| 0 <= a < b < nv.len() implies chars_lt(#[trigger] nv[a].url, #[trigger] nv[b].url) by {
        if a < pos && b == pos {
            assert(nv[a] == ov[a]);
        } else if a < pos && b > pos {
            assert(nv[b] == ov[b - 1]);
            assert(nv[a] == ov[a]);
            assert(chars_lt(ov[a].url, ov[b - 1].url));
        } else if a == pos && b > pos {
            assert(nv[b] == ov[b - 1]);
            if b - 1 > pos {
                assert(chars_lt(ov[pos].url, ov[b - 1].url));
                lemma_chars_lt_transitive(ev.url, ov[pos].url, ov[b - 1].url);
            }
        } else if a > pos {
            assert(nv[a] == ov[a - 1]);
            assert(nv[b] == ov[b - 1]);
            assert(chars_lt(ov[a - 1].url, ov[b - 1].url));
        } else {
            assert(nv[a] == ov[a]);
            assert(nv[b] == ov[b]);
            assert(chars_lt(ov[a].url, ov[b].url));
        }
    }
}

proof fn lemma_dedup_insert(prefix: Seq<DictEntryModel>, ev: DictEntryModel, ov: Seq<DictEntryModel>, pos: int)
    requires
        deduplicated(prefix, ov),
        0 <= pos <= ov.len(),
        forall|k: int| 0 <= k < pos ==> chars_lt(#[trigger] ov[k].url, ev.url),
        pos < ov.len() ==> !chars_lt(ov[pos].url, ev.url) && ov[pos].url != ev.url,
    ensures
        deduplicated(prefix.push(ev), ov.insert(pos, ev)),
{
    let next = prefix.push(ev);
    let nv = ov.insert(pos, ev);
    if pos < ov.len() {
        lemma_chars_lt_total(ov[pos].url, ev.url);
    }
    lemma_insert_sorted(ev, ov, pos);
    // nothing in `ov` has the URL of `ev`
    assert forall|k: int| 0 <= k < ov.len() implies #[trigger] ov[k].url != ev.url by {
        if k < pos {
            lemma_chars_lt_irreflexive(ev.url);
        } else if k > pos {
            assert(chars_lt(ov[pos].url, ov[k].url));
            lemma_chars_lt_transitive(ev.url, ov[pos].url, ov[k].url);
            lemma_chars_lt_irreflexive(ev.url);
        }
    }
    assert forall|k: int| 0 <= k < nv.len() implies #[trigger] is_first_entry(next, nv[k]) by {
        if k == pos {
            let i = prefix.len() as int;
            assert(next[i] == ev);
            assert forall|m: int| 0 <= m < i implies #[trigger] next[m].url != next[i].url by {
                assert(next[m] == prefix[m]);
                assert(has_url(ov, prefix[m].url));
                let kk = choose|kk: int| 0 <= kk < ov.len() && ov[kk].url == prefix[m].url;
                assert(ov[kk].url != ev.url);
            }
            assert(first_with_url(next, i));
            assert(nv[k] == ev);
        } else {
            let k0 = if k < pos { k } else { k - 1 };
            assert(nv[k] == ov[k0]);
            assert(is_first_entry(prefix, ov[k0]));
            lemma_first_entry_extends(prefix, ev, ov[k0]);
        }
    }
    assert forall|m: int| 0 <= m < next.len() implies #[trigger] has_url(nv, next[m].url) by {
        if m < prefix.len() {
            assert(next[m] == prefix[m]);
            assert(has_url(ov, prefix[m].url));
            let k0 = choose|k0: int| 0 <= k0 < ov.len() && ov[k0].url == prefix[m].url;
            if k0 < pos {
                assert(nv[k0] == ov[k0]);
            } else {
                assert(nv[k0 + 1] == ov[k0]);
            }
        } else {
            assert(next[m] == ev);
            assert(nv[pos] == ev);
        }
    }
}

/// Keeps one entry per URL, the first that has it, and sorts them by URL.
pub fn dedup_by_url(entries: Vec<DictEntry>) -> (out: Vec<DictEntry>)
    ensures
        deduplicated(entry_views(entries@), entry_views(out@)),
{
    let ghost orig = entry_views(entries@);
    let mut rest = entries;
    let mut out: Vec<DictEntry> = Vec::new();
    let ghost mut i: int = 0;
    while rest.len() > 0
        invariant
            0 <= i <= orig.len(),
            entry_views(rest@) == orig.skip(i),
            deduplicated(orig.take(i), entry_views(out@)),
        decreases rest@.len(),
    {
        let ghost raw = rest@;
        let e = rest.remove(0);
        let ghost ev = e@;
        assert(entry_views(raw).len() == raw.len());
        assert(i < orig.len());
        assert(ev == orig[i]) by {
            assert(entry_views(raw)[0] == raw[0]@);
            assert(orig.skip(i)[0] == orig[i]);
        }
        assert(entry_views(rest@) =~= orig.skip(i + 1)) by {
            assert forall|k: int| 0 <= k < rest@.len() implies entry_views(rest@)[k] == orig.skip(i + 1)[k] by {
                assert(rest@[k] == raw[k + 1]);
                assert(entry_views(raw)[k + 1] == raw[k + 1]@);
                assert(orig.skip(i)[k + 1] == orig[i + k + 1]);
            }
        }
        let ghost ov = entry_views(out@);
        let mut pos: usize = 0;
        while pos < out.len() && str_lt(out[pos].url.as_str(), e.url.as_str())
            invariant
                pos <= out@.len(),
                ov == entry_views(out@),
                ev == e@,
                forall|k: int| 0 <= k < pos ==> chars_lt(#[trigger] ov[k].url, ev.url),
            decreases out@.len() - pos,
        {
            assert(ov[pos as int] == out@[pos as int]@);
            pos = pos + 1;
        }
        let dup = pos < out.len() && str_eq(out[pos].url.as_str(), e.url.as_str());
        assert(orig.take(i + 1) =~= orig.take(i).push(ev));
        if dup {
            assert(ov[pos as int] == out@[pos as int]@);
            proof {
                lemma_dedup_skip(orig.take(i), ev, ov, pos as int);
            }
        } else {
            if pos < out.len() {
                assert(ov[pos as int] == out@[pos as int]@);
            }
            proof {
                lemma_dedup_insert(orig.take(i), ev, ov, pos as int);
            }
            out.insert(pos, e);
            assert(entry_views(out@) =~= ov.insert(pos as int, ev));
        }
        proof {
            i = i + 1;
        }
    }
    assert(orig.take(i) =~= orig);
    out
}

impl MdictOrgRegistry {
    /// The registry kept under the data directory `home_dir`, holding the entries
    /// read from its cache file (none where there was no readable cache).
    pub fn new(home_dir: &str, cached: Option<Vec<DictEntry>>) -> (r: Self)
        ensures
            r.cache_file()@ == joined_path(home_dir@, "registry.json"@),
            r.indexed() == match cached {
                Some(es) => entry_views(es@),
                None => Seq::<DictEntryModel>::empty(),
            },
    {
        let cache_path = join_path(home_dir, "registry.json");
        let entries = match cached {
            Some(es) => es,
            None => Vec::new(),
        };
        MdictOrgRegistry { entries, cache_path }
    }

    /// The path of the cache file.
    pub closed spec fn cache_file(&self) -> String {
        self.cache_path
    }

    /// The path of the cache file.
    pub fn cache_path(&self) -> (p: &str)
        ensures
            p@ == self.cache_file()@,
    {
        self.cache_path.as_str()
    }

    /// Replaces the entries by freshly crawled ones, one per URL (the first that
    /// has it), sorted by URL.
    pub fn refresh_from(&mut self, crawled: Vec<DictEntry>)
        ensures
            deduplicated(entry_views(crawled@), final(self).indexed()),
            final(self).cache_file() == old(self).cache_file(),
    {
        self.entries = dedup_by_url(crawled);
    }
}

impl Registry for MdictOrgRegistry {
    closed spec fn indexed(&self) -> Seq<DictEntryModel> {
        entry_views(self.entries@)
    }

    fn entries(&self) -> (es: &[DictEntry]) {
        self.entries.as_slice()
    }

    fn search(&self, query: &str) -> (found: Vec<&DictEntry>) {
        let q = to_lowercase(query);
        let mut found: Vec<&DictEntry> = Vec::new();
        let mut i: usize = 0;
        while i < self.entries.len()
            invariant
                i <= self.entries@.len(),
                q@ == lowercased(query@),
                entry_ref_views(found@) == hits_upto(entry_views(self.entries@), q@, i as int),
            decreases self.entries@.len() - i,
        {
            let e = &self.entries[i];
            assert(entry_views(self.entries@)[i as int] == e@);
            let name = to_lowercase(e.name.as_str());
            let hit = contains(name.as_str(), q.as_str()) || {
                let category = to_lowercase(e.category.as_str());
                contains(category.as_str(), q.as_str())
            };
            if hit {
                let ghost before = found@;
                found.push(e);
                assert(entry_ref_views(found@) =~= entry_ref_views(before).push(e@));
            }
            i = i + 1;
        }
        proof {
            if query@.len() == 0 {
                assert(q@ =~= Seq::<char>::empty());
                lemma_hits_of_nothing(entry_views(self.entries@), self.entries@.len() as int);
                assert(entry_views(self.entries@).take(self.entries@.len() as int) =~= entry_views(self.entries@));
            }
        }
        found
    }

    fn is_stale(&self) -> (stale: bool) {
        self.entries.len() == 0
    }
}

} // verus!
