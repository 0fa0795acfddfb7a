//! What each key press does in the browser: moving the cursor, searching, opening
//! and closing categories, and choosing dictionaries.
use vstd::prelude::*;
use crate::browse::rows::{
    RowModel, VisibleRow, filter_entries, filtered, flatten_tree, flattened, holds_text,
    lemma_flattened_below, lemma_hit_rows_below, row_models, rows_below,
};
use crate::browse::tree::{
    CategoryNode, build_category_tree, category_models, category_tree, fits, lemma_tree_upto_below,
    trees_count,
};
use crate::registry::{DictEntry, DictEntryModel, entry_views};
use crate::text::{chars_of, str_eq, string_from_chars, string_texts};

verus! {

/// A key as the browser reads it.
#[derive(Debug, Clone, Copy, PartialEq, Eq, Structural)]
pub enum Key {
    Esc,
    Backspace,
    Enter,
    Up,
    Down,
    PageUp,
    PageDown,
    Left,
    Right,
    Char(char),
    Other,
}

/// What the browser does after a key: goes on, is left without a choice, or is
/// left with the chosen URLs.
pub enum Outcome {
    Continue,
    Cancel,
    Confirm(Vec<String>),
}

/// What an [`Outcome`] holds.
pub enum OutcomeModel {
    Continue,
    Cancel,
    Confirm(Seq<Seq<char>>),
}

impl View for Outcome {
    type V = OutcomeModel;

    open spec fn view(&self) -> OutcomeModel {
        match self {
            Outcome::Continue => OutcomeModel::Continue,
            Outcome::Cancel => OutcomeModel::Cancel,
            Outcome::Confirm(urls) => OutcomeModel::Confirm(urls.deep_view()),
        }
    }
}

/// What the browser's state holds: the expanded category paths, the chosen URLs,
/// the cursor, the search query and whether a search is being typed.
pub struct BrowserModel {
    pub expanded: Seq<Seq<char>>,
    pub selected: Seq<Seq<char>>,
    pub cursor: Option<int>,
    pub query: Seq<char>,
    pub searching: bool,
}

/// `s` with `x` added, as a set.
pub open spec fn with_text(s: Seq<Seq<char>>, x: Seq<char>) -> Seq<Seq<char>> {
    if s.contains(x) {
        s
    } else {
        s.push(x)
    }
}

/// `s` without `x`.
pub open spec fn without_text(s: Seq<Seq<char>>, x: Seq<char>) -> Seq<Seq<char>>
    decreases s.len(),
{
    if s.len() == 0 {
        s
    } else if s.last() == x {
        without_text(s.drop_last(), x)
    } else {
        without_text(s.drop_last(), x).push(s.last())
    }
}

/// `s` with `x` taken out where it is in, added where it is not.
pub open spec fn toggled(s: Seq<Seq<char>>, x: Seq<char>) -> Seq<Seq<char>> {
    if s.contains(x) {
        without_text(s, x)
    } else {
        with_text(s, x)
    }
}

/// `s` with each of `xs` added.
pub open spec fn with_all(s: Seq<Seq<char>>, xs: Seq<Seq<char>>) -> Seq<Seq<char>>
    decreases xs.len(),
{
    if xs.len() == 0 {
        s
    } else {
        with_text(with_all(s, xs.drop_last()), xs.last())
    }
}

/// `s` without any of `xs`.
pub open spec fn without_all(s: Seq<Seq<char>>, xs: Seq<Seq<char>>) -> Seq<Seq<char>>
    decreases xs.len(),
{
    if xs.len() == 0 {
        s
    } else {
        without_text(without_all(s, xs.drop_last()), xs.last())
    }
}

/// The URLs of the dictionary rows of `rows`, in order.
pub open spec fn row_urls(rows: Seq<RowModel>, es: Seq<DictEntryModel>) -> Seq<Seq<char>>
    decreases rows.len(),
{
    if rows.len() == 0 {
        seq![]
    } else {
        let rest = row_urls(rows.drop_last(), es);
        match rows.last() {
            RowModel::Entry { entry_idx, .. } => rest.push(es[entry_idx].url),
            _ => rest,
        }
    }
}

/// The rows the browser shows: the expanded category tree, or the search results
/// while a query is typed.
pub open spec fn visible(m: BrowserModel, es: Seq<DictEntryModel>) -> Seq<RowModel> {
    if m.query.len() == 0 {
        flattened(category_tree(es), 0, m.expanded)
    } else {
        filtered(es, m.query)
    }
}

/// The cursor kept on the rows: moved to the last row when past it, to the first
/// when there is none; left alone when there are no rows.
pub open spec fn clamped(cursor: Option<int>, n: int) -> Option<int> {
    match cursor {
        Some(i) => if n > 0 && i >= n {
            Some(n - 1)
        } else {
            cursor
        },
        None => if n > 0 {
            Some(0)
        } else {
            None
        },
    }
}

/// The cursor one row up, where there is one.
pub open spec fn moved_up(c: Option<int>) -> Option<int> {
    match c {
        Some(i) => if i > 0 {
            Some(i - 1)
        } else {
            c
        },
        None => c,
    }
}

/// The cursor one row down, where there is one among `n`.
pub open spec fn moved_down(c: Option<int>, n: int) -> Option<int> {
    match c {
        Some(i) => if i + 1 < n {
            Some(i + 1)
        } else {
            c
        },
        None => c,
    }
}

/// The cursor twenty rows up, or on the first.
pub open spec fn paged_up(c: Option<int>) -> Option<int> {
    match c {
        Some(i) => Some(if i >= 20 {
            i - 20
        } else {
            0
        }),
        None => c,
    }
}

/// The cursor twenty rows down, or on the last of `n`.
pub open spec fn paged_down(c: Option<int>, n: int) -> Option<int> {
    let last = if n >= 1 {
        n - 1
    } else {
        0
    };
    match c {
        Some(i) => Some(if i + 20 <= last {
            i + 20
        } else {
            last
        }),
        None => c,
    }
}

/// The row under the cursor.
pub open spec fn current_row(m: BrowserModel, rows: Seq<RowModel>) -> Option<RowModel> {
    match m.cursor {
        Some(i) => if 0 <= i < rows.len() {
            Some(rows[i])
        } else {
            None
        },
        None => None,
    }
}

/// The state after the dictionary row under the cursor is chosen or let go: its URL
/// toggled, the cursor one row down where there is one.
pub open spec fn toggled_entry(m: BrowserModel, rows: Seq<RowModel>, es: Seq<DictEntryModel>, idx: int) -> BrowserModel {
    BrowserModel {
        selected: toggled(m.selected, es[idx].url),
        cursor: moved_down(m.cursor, rows.len() as int),
        ..m
    }
}

/// The state with the cursor on `c`.
pub open spec fn at(m: BrowserModel, c: Option<int>) -> BrowserModel {
    BrowserModel { cursor: c, ..m }
}

/// What `key` does to the state `m` showing `rows`: the next state and whether the
/// browser goes on, is cancelled or is confirmed with the chosen URLs.
pub open spec fn stepped(m: BrowserModel, key: Key, rows: Seq<RowModel>, es: Seq<DictEntryModel>) -> (BrowserModel, OutcomeModel) {
    let n = rows.len() as int;
    if m.searching {
        match key {
            Key::Esc => (BrowserModel { query: seq![], searching: false, cursor: Some(0), ..m }, OutcomeModel::Continue),
            Key::Backspace => (BrowserModel {
                query: if m.query.len() > 0 {
                    m.query.drop_last()
                } else {
                    m.query
                },
                cursor: Some(0),
                ..m
            }, OutcomeModel::Continue),
            Key::Enter => (m, OutcomeModel::Confirm(m.selected)),
            Key::Up | Key::Char('k') => (at(m, moved_up(m.cursor)), OutcomeModel::Continue),
            Key::Down | Key::Char('j') => (at(m, moved_down(m.cursor, n)), OutcomeModel::Continue),
            Key::PageUp => (at(m, paged_up(m.cursor)), OutcomeModel::Continue),
            Key::PageDown => (at(m, paged_down(m.cursor, n)), OutcomeModel::Continue),
            Key::Char(' ') => (match current_row(m, rows) {
                Some(RowModel::Entry { entry_idx, .. }) => toggled_entry(m, rows, es, entry_idx),
                _ => m,
            }, OutcomeModel::Continue),
            Key::Char(c) => (BrowserModel { query: m.query.push(c), cursor: Some(0), ..m }, OutcomeModel::Continue),
            _ => (m, OutcomeModel::Continue),
        }
    } else {
        match key {
            Key::Char('q') | Key::Esc => (m, OutcomeModel::Cancel),
            Key::Char('/') => (BrowserModel { searching: true, query: seq![], cursor: Some(0), ..m }, OutcomeModel::Continue),
            Key::Enter => (m, OutcomeModel::Confirm(m.selected)),
            Key::Up | Key::Char('k') => (at(m, moved_up(m.cursor)), OutcomeModel::Continue),
            Key::Down | Key::Char('j') => (at(m, moved_down(m.cursor, n)), OutcomeModel::Continue),
            Key::PageUp => (at(m, paged_up(m.cursor)), OutcomeModel::Continue),
            Key::PageDown => (at(m, paged_down(m.cursor, n)), OutcomeModel::Continue),
            Key::Right | Key::Char('l') => (match current_row(m, rows) {
                Some(RowModel::Category { full_path, .. }) => BrowserModel { expanded: with_text(m.expanded, full_path), ..m },
                _ => m,
            }, OutcomeModel::Continue),
            Key::Left | Key::Char('h') => (match current_row(m, rows) {
                Some(RowModel::Category { full_path, .. }) => BrowserModel { expanded: without_text(m.expanded, full_path), ..m },
                _ => m,
            }, OutcomeModel::Continue),
            Key::Char(' ') => (match current_row(m, rows) {
                Some(RowModel::Category { full_path, expanded, .. }) => BrowserModel {
                    expanded: if expanded {
                        without_text(m.expanded, full_path)
                    } else {
                        with_text(m.expanded, full_path)
                    },
                    ..m
                },
                Some(RowModel::Entry { entry_idx, .. }) => toggled_entry(m, rows, es, entry_idx),
                None => m,
            }, OutcomeModel::Continue),
            Key::Char('a') => {
                let urls = row_urls(rows, es);
                let all = forall|i: int| 0 <= i < urls.len() ==> m.selected.contains(#[trigger] urls[i]);
                (BrowserModel {
                    selected: if all {
                        without_all(m.selected, urls)
                    } else {
                        with_all(m.selected, urls)
                    },
                    ..m
                }, OutcomeModel::Continue)
            },
            _ => (m, OutcomeModel::Continue),
        }
    }
}

/// Adds `x` to the set `s`.
fn insert_text(s: &mut Vec<String>, x: &str)
    ensures
        final(s).deep_view() == with_text(old(s).deep_view(), x@),
{
    if !holds_text(s, x) {
        let ghost before = s.deep_view();
        let ghost prior = s@;
        s.push(string_from_chars(chars_of(x).as_slice()));
        assert(s.deep_view() =~= before.push(x@)) by {
            assert forall|j: int| 0 <= j < s@.len() implies s.deep_view()[j] == before.push(x@)[j] by {
                if j < before.len() {
                    assert(s@[j] == prior[j]);
                }
            }
        }
    }
}

/// Takes `x` out of the set `s`.
fn remove_text(s: &mut Vec<String>, x: &str)
    ensures
        final(s).deep_view() == without_text(old(s).deep_view(), x@),
{
    let ghost dv = s.deep_view();
    let mut kept: Vec<String> = Vec::new();
    let mut i: usize = 0;
    while i < s.len()
        invariant
            dv == s.deep_view(),
            i <= s@.len(),
            kept.deep_view() == without_text(dv.take(i as int), x@),
        decreases s@.len() - i,
    {
        assert(dv.take(i + 1).drop_last() =~= dv.take(i as int));
        assert(dv[i as int] == s@[i as int]@);
        if !str_eq(s[i].as_str(), x) {
            let ghost before = kept.deep_view();
            let ghost prior = kept@;
            let t = s[i].clone();
            kept.push(t);
            assert(kept.deep_view() =~= before.push(dv[i as int])) by {
                assert forall|j: int| 0 <= j < kept@.len() implies kept.deep_view()[j] == before.push(
                    dv[i as int],
                )[j] by {
                    if j < before.len() {
                        assert(kept@[j] == prior[j]);
                    }
                }
            }
        }
        i = i + 1;
    }
    assert(dv.take(i as int) =~= dv);
    *s = kept;
}

/// Takes `x` out of the set `s` where it is in, adds it where it is not.
fn toggle_text(s: &mut Vec<String>, x: &str)
    ensures
        final(s).deep_view() == toggled(old(s).deep_view(), x@),
{
    if holds_text(s, x) {
        remove_text(s, x);
    } else {
        insert_text(s, x);
    }
}

/// The browser's state over the dictionaries it was opened on.
pub struct Browser {
    entries: Vec<DictEntry>,
    tree: Vec<CategoryNode>,
    expanded: Vec<String>,
    selected: Vec<String>,
    cursor: Option<usize>,
    query: String,
    searching: bool,
    rows: Vec<VisibleRow>,
}

/// A cursor as a number.
pub open spec fn cursor_model(c: Option<usize>) -> Option<int> {
    match c {
        Some(i) => Some(i as int),
        None => None,
    }
}

/// The paths of the top-level categories of `tree`.
pub open spec fn top_paths(tree: Seq<crate::browse::tree::CategoryTree>) -> Seq<Seq<char>> {
    Seq::new(tree.len(), |i: int| tree[i].full_path)
}

impl View for Browser {
    type V = BrowserModel;

    closed spec fn view(&self) -> BrowserModel {
        BrowserModel {
            expanded: self.expanded.deep_view(),
            selected: self.selected.deep_view(),
            cursor: cursor_model(self.cursor),
            query: self.query@,
            searching: self.searching,
        }
    }
}

impl Browser {
    /// The dictionaries the browser shows.
    pub closed spec fn entries_model(&self) -> Seq<DictEntryModel> {
        entry_views(self.entries@)
    }

    /// The rows the browser shows now.
    pub closed spec fn rows_model(&self) -> Seq<RowModel> {
        row_models(self.rows@)
    }

    /// The tree is that of the dictionaries, and the rows show only dictionaries
    /// that are there.
    pub closed spec fn wf(&self) -> bool {
        &&& category_models(self.tree@) == category_tree(entry_views(self.entries@))
        &&& trees_count(category_models(self.tree@)) == self.entries@.len()
        &&& fits(category_models(self.tree@), usize::MAX as int)
        &&& rows_below(row_models(self.rows@), self.entries@.len() as int)
    }

    /// A browser over `entries` with the URLs `installed` chosen, every top-level
    /// category expanded, the cursor on the first row and no rows yet.
    pub fn new(entries: Vec<DictEntry>, installed: Vec<String>) -> (b: Browser)
        ensures
            b.wf(),
            b.entries_model() == entry_views(entries@),
            b.rows_model().len() == 0,
            b@ == (BrowserModel {
                expanded: top_paths(category_tree(entry_views(entries@))),
                selected: installed.deep_view(),
                cursor: Some(0),
                query: seq![],
                searching: false,
            }),
    {
        let tree = build_category_tree(entries.as_slice());
        proof {
            crate::browse::tree::lemma_category_models(tree@);
        }
        let ghost ms = category_models(tree@);
        let mut expanded: Vec<String> = Vec::new();
        let mut i: usize = 0;
        while i < tree.len()
            invariant
                ms == category_models(tree@),
                ms.len() == tree@.len(),
                forall|j: int| 0 <= j < tree@.len() ==> #[trigger] ms[j] == tree@[j]@,
                i <= tree@.len(),
                expanded@.len() == i,
                expanded.deep_view() == top_paths(ms).take(i as int),
            decreases tree@.len() - i,
        {
            let ghost before = expanded.deep_view();
            let ghost prior = expanded@;
            let p = tree[i].full_path.clone();
            expanded.push(p);
            assert(expanded.deep_view() =~= top_paths(ms).take(i + 1)) by {
                assert forall|j: int| 0 <= j < expanded@.len() implies expanded.deep_view()[j]
                    == top_paths(ms).take(i + 1)[j] by {
                    if j < i {
                        assert(expanded@[j] == prior[j]);
                    }
                }
            }
            i = i + 1;
        }
        assert(top_paths(ms).take(i as int) =~= top_paths(ms));
        let b = Browser {
            entries,
            tree,
            expanded,
            selected: installed,
            cursor: Some(0),
            query: string_from_chars(Vec::<char>::new().as_slice()),
            searching: false,
            rows: Vec::new(),
        };
        assert(row_models(b.rows@) =~= Seq::<RowModel>::empty());
        b
    }

    /// The dictionaries the browser shows.
    pub fn entries(&self) -> (es: &Vec<DictEntry>)
        ensures
            entry_views(es@) == self.entries_model(),
    {
        &self.entries
    }

    /// The rows the browser shows now.
    pub fn rows(&self) -> (rows: &Vec<VisibleRow>)
        ensures
            row_models(rows@) == self.rows_model(),
    {
        &self.rows
    }

    /// The chosen URLs.
    pub fn selected(&self) -> (urls: &Vec<String>)
        ensures
            urls.deep_view() == self@.selected,
    {
        &self.selected
    }

    /// The row under the cursor.
    pub fn cursor(&self) -> (c: Option<usize>)
        ensures
            cursor_model(c) == self@.cursor,
    {
        self.cursor
    }

    /// The search query.
    pub fn query(&self) -> (q: &str)
        ensures
            q@ == self@.query,
    {
        self.query.as_str()
    }

    /// Whether a search is being typed.
    pub fn searching(&self) -> (s: bool)
        ensures
            s == self@.searching,
    {
        self.searching
    }

    /// Works out the rows to show, and keeps the cursor on them.
    pub fn refresh_rows(&mut self)
        requires
            old(self).wf(),
        ensures
            final(self).wf(),
            final(self).entries_model() == old(self).entries_model(),
            final(self).rows_model() == visible(old(self)@, old(self).entries_model()),
            final(self)@ == at(old(self)@, clamped(old(self)@.cursor, final(self).rows_model().len() as int)),
    {
        let ghost es = entry_views(self.entries@);
        let qc = chars_of(self.query.as_str());
        let total = self.entries.len();
        let rows = if qc.len() == 0 {
            let mut rows: Vec<VisibleRow> = Vec::new();
            let ghost empty = row_models(rows@);
            assert(empty =~= Seq::<RowModel>::empty());
            flatten_tree(&self.tree, 0, &self.expanded, &mut rows);
            assert(row_models(rows@) =~= empty + flattened(
                category_models(self.tree@),
                0,
                self.expanded.deep_view(),
            ));
            proof {
                lemma_tree_upto_below(es, es.len());
                lemma_flattened_below(category_models(self.tree@), 0, self.expanded.deep_view(), es.len() as int);
            }
            rows
        } else {
            let rows = filter_entries(self.entries.as_slice(), self.query.as_str());
            proof {
                lemma_hit_rows_below(es, crate::text::lowercased(self.query@), es.len() as int);
            }
            rows
        };
        self.rows = rows;
        let n = self.rows.len();
        match self.cursor {
            Some(i) => {
                if n > 0 && i >= n {
                    self.cursor = Some(n - 1);
                }
            },
            None => {
                if n > 0 {
                    self.cursor = Some(0);
                }
            },
        }
    }
}

fn move_up(c: Option<usize>) -> (r: Option<usize>)
    ensures
        cursor_model(r) == moved_up(cursor_model(c)),
{
    match c {
        Some(i) => if i > 0 {
            Some(i - 1)
        } else {
            c
        },
        None => c,
    }
}

fn move_down(c: Option<usize>, n: usize) -> (r: Option<usize>)
    ensures
        cursor_model(r) == moved_down(cursor_model(c), n as int),
{
    match c {
        Some(i) => if n > 0 && i < n - 1 {
            Some(i + 1)
        } else {
            c
        },
        None => c,
    }
}

fn page_up(c: Option<usize>) -> (r: Option<usize>)
    ensures
        cursor_model(r) == paged_up(cursor_model(c)),
{
    match c {
        Some(i) => Some(i.saturating_sub(20)),
        None => c,
    }
}

fn page_down(c: Option<usize>, n: usize) -> (r: Option<usize>)
    ensures
        cursor_model(r) == paged_down(cursor_model(c), n as int),
{
    let last = n.saturating_sub(1);
    match c {
        Some(i) => Some(if last >= 20 && i <= last - 20 {
            i + 20
        } else {
            last
        }),
        None => c,
    }
}

/// A copy of the texts `v`.
fn copy_texts(v: &Vec<String>) -> (r: Vec<String>)
    ensures
        r.deep_view() == v.deep_view(),
{
    let cs = crate::text::char_texts(v);
    string_texts(&cs)
}

impl Browser {
    /// The URL of the dictionary at `idx`.
    fn url_of(&self, idx: usize) -> (u: &str)
        requires
            idx < self.entries@.len(),
        ensures
            u@ == self.entries_model()[idx as int].url,
    {
        self.entries[idx].url.as_str()
    }

    /// The URLs of the dictionary rows shown now, in order.
    fn shown_urls(&self) -> (urls: Vec<String>)
        requires
            self.wf(),
        ensures
            urls.deep_view() == row_urls(self.rows_model(), self.entries_model()),
    {
        let ghost rm = self.rows_model();
        let mut urls: Vec<String> = Vec::new();
        let mut i: usize = 0;
        while i < self.rows.len()
            invariant
                self.wf(),
                rm == self.rows_model(),
                rm == row_models(self.rows@),
                i <= self.rows@.len(),
                urls.deep_view() == row_urls(rm.take(i as int), self.entries_model()),
            decreases self.rows@.len() - i,
        {
            assert(rm.take(i + 1).drop_last() =~= rm.take(i as int));
            assert(rm[i as int] == self.rows@[i as int]@);
            match &self.rows[i] {
                VisibleRow::Entry { entry_idx, .. } => {
                    let u = self.url_of(*entry_idx);
                    let ghost before = urls.deep_view();
                    let ghost prior = urls@;
                    urls.push(string_from_chars(chars_of(u).as_slice()));
                    assert(urls.deep_view() =~= before.push(u@)) by {
                        assert forall|j: int| 0 <= j < urls@.len() implies urls.deep_view()[j]
                            == before.push(u@)[j] by {
                            if j < before.len() {
                                assert(urls@[j] == prior[j]);
                            }
                        }
                    }
                },
                VisibleRow::Category { .. } => {},
            }
            i = i + 1;
        }
        assert(rm.take(i as int) =~= rm);
        urls
    }

    /// Chooses or lets go the dictionary at `idx`, and moves the cursor down.
    fn toggle_entry(&mut self, idx: usize)
        requires
            old(self).wf(),
            idx < old(self).entries@.len(),
        ensures
            final(self).wf(),
            final(self).entries_model() == old(self).entries_model(),
            final(self).rows_model() == old(self).rows_model(),
            final(self)@ == toggled_entry(
                old(self)@,
                old(self).rows_model(),
                old(self).entries_model(),
                idx as int,
            ),
    {
        let u = self.entries[idx].url.clone();
        toggle_text(&mut self.selected, u.as_str());
        self.cursor = move_down(self.cursor, self.rows.len());
    }

    /// Does what `key` does: the state changes as [`stepped`] says, and so does
    /// the outcome.
    pub fn handle_key(&mut self, key: Key) -> (out: Outcome)
        requires
            old(self).wf(),
        ensures
            final(self).wf(),
            final(self).entries_model() == old(self).entries_model(),
            final(self).rows_model() == old(self).rows_model(),
            (final(self)@, out@) == stepped(old(self)@, key, old(self).rows_model(), old(self).entries_model()),
    {
        let n = self.rows.len();
        let ghost rm = self.rows_model();
        let ghost es = self.entries_model();
        let current: Option<usize> = match self.cursor {
            Some(i) => if i < n {
                Some(i)
            } else {
                None
            },
            None => None,
        };
        proof {
            if let Some(i) = current {
                assert(rm[i as int] == self.rows@[i as int]@);
            }
        }
        if self.searching {
            match key {
                Key::Esc => {
                    self.query = string_from_chars(Vec::<char>::new().as_slice());
                    self.searching = false;
                    self.cursor = Some(0);
                    Outcome::Continue
                },
                Key::Backspace => {
                    let mut qc = chars_of(self.query.as_str());
                    if qc.len() > 0 {
                        qc.pop();
                    }
                    self.query = string_from_chars(qc.as_slice());
                    self.cursor = Some(0);
                    Outcome::Continue
                },
                Key::Enter => Outcome::Confirm(copy_texts(&self.selected)),
                Key::Up | Key::Char('k') => {
                    self.cursor = move_up(self.cursor);
                    Outcome::Continue
                },
                Key::Down | Key::Char('j') => {
                    self.cursor = move_down(self.cursor, n);
                    Outcome::Continue
                },
                Key::PageUp => {
                    self.cursor = page_up(self.cursor);
                    Outcome::Continue
                },
                Key::PageDown => {
                    self.cursor = page_down(self.cursor, n);
                    Outcome::Continue
                },
                Key::Char(' ') => {
                    if let Some(i) = current {
                        if let VisibleRow::Entry { entry_idx, .. } = &self.rows[i] {
                            let idx = *entry_idx;
                            self.toggle_entry(idx);
                        }
                    }
                    Outcome::Continue
                },
                Key::Char(c) => {
                    let mut qc = chars_of(self.query.as_str());
                    qc.push(c);
                    self.query = string_from_chars(qc.as_slice());
                    self.cursor = Some(0);
                    Outcome::Continue
                },
                _ => Outcome::Continue,
            }
        } else {
            match key {
                Key::Char('q') | Key::Esc => Outcome::Cancel,
                Key::Char('/') => {
                    self.searching = true;
                    self.query = string_from_chars(Vec::<char>::new().as_slice());
                    self.cursor = Some(0);
                    Outcome::Continue
                },
                Key::Enter => Outcome::Confirm(copy_texts(&self.selected)),
                Key::Up | Key::Char('k') => {
                    self.cursor = move_up(self.cursor);
                    Outcome::Continue
                },
                Key::Down | Key::Char('j') => {
                    self.cursor = move_down(self.cursor, n);
                    Outcome::Continue
                },
                Key::PageUp => {
                    self.cursor = page_up(self.cursor);
                    Outcome::Continue
                },
                Key::PageDown => {
                    self.cursor = page_down(self.cursor, n);
                    Outcome::Continue
                },
                Key::Right | Key::Char('l') => {
                    if let Some(i) = current {
                        if let VisibleRow::Category { full_path, .. } = &self.rows[i] {
                            let p = full_path.clone();
                            insert_text(&mut self.expanded, p.as_str());
                        }
                    }
                    Outcome::Continue
                },
                Key::Left | Key::Char('h') => {
                    if let Some(i) = current {
                        if let VisibleRow::Category { full_path, .. } = &self.rows[i] {
                            let p = full_path.clone();
                            remove_text(&mut self.expanded, p.as_str());
                        }
                    }
                    Outcome::Continue
                },
                Key::Char(' ') => {
                    if let Some(i) = current {
                        match &self.rows[i] {
                            VisibleRow::Category { full_path, expanded, .. } => {
                                let p = full_path.clone();
                                if *expanded {
                                    remove_text(&mut self.expanded, p.as_str());
                                } else {
                                    insert_text(&mut self.expanded, p.as_str());
                                }
                            },
                            VisibleRow::Entry { entry_idx, .. } => {
                                let idx = *entry_idx;
                                self.toggle_entry(idx);
                            },
                        }
                    }
                    Outcome::Continue
                },
                Key::Char('a') => {
                    let urls = self.shown_urls();
                    let ghost before = *self;
                    let ghost uv = urls.deep_view();
                    let ghost start = self.selected.deep_view();
                    let mut all = true;
                    let mut i: usize = 0;
                    while i < urls.len()
                        invariant
                            self.entries == before.entries,
                            self.tree == before.tree,
                            self.expanded == before.expanded,
                            self.cursor == before.cursor,
                            self.query == before.query,
                            self.searching == before.searching,
                            self.rows == before.rows,
                            before.wf(),
                            uv == urls.deep_view(),
                            start == self.selected.deep_view(),
                            i <= urls@.len(),
                            all == (forall|j: int| 0 <= j < i ==> start.contains(#[trigger] uv[j])),
                        decreases urls@.len() - i,
                    {
                        assert(uv[i as int] == urls@[i as int]@);
                        if !holds_text(&self.selected, urls[i].as_str()) {
                            all = false;
                        }
                        i = i + 1;
                    }
                    let mut k: usize = 0;
                    while k < urls.len()
                        invariant
                            self.entries == before.entries,
                            self.tree == before.tree,
                            self.expanded == before.expanded,
                            self.cursor == before.cursor,
                            self.query == before.query,
                            self.searching == before.searching,
                            self.rows == before.rows,
                            before.wf(),
                            uv == urls.deep_view(),
                            k <= urls@.len(),
                            self.selected.deep_view() == if all {
                                without_all(start, uv.take(k as int))
                            } else {
                                with_all(start, uv.take(k as int))
                            },
                        decreases urls@.len() - k,
                    {
                        assert(uv.take(k + 1).drop_last() =~= uv.take(k as int));
                        assert(uv[k as int] == urls@[k as int]@);
                        if all {
                            remove_text(&mut self.selected, urls[k].as_str());
                        } else {
                            insert_text(&mut self.selected, urls[k].as_str());
                        }
                        k = k + 1;
                    }
                    assert(uv.take(k as int) =~= uv);
                    Outcome::Continue
                },
                _ => Outcome::Continue,
            }
        }
    }
}

/// What a key does in the confirmation pop-up: `Enter` or `y` confirms, `Esc`, `n`
/// or `q` cancels, any other key does nothing.
pub open spec fn confirm_answer(key: Key) -> Option<bool> {
    match key {
        Key::Enter | Key::Char('y') => Some(true),
        Key::Esc | Key::Char('n') | Key::Char('q') => Some(false),
        _ => None,
    }
}

/// The answer that `key` gives to the confirmation pop-up, if any.
pub fn confirm_key(key: Key) -> (answer: Option<bool>)
    ensures
        answer == confirm_answer(key),
{
    match key {
        Key::Enter | Key::Char('y') => Some(true),
        Key::Esc | Key::Char('n') | Key::Char('q') => Some(false),
        _ => None,
    }
}

/// The positions among the first `n` of `es` of the dictionaries to fetch (chosen,
/// not installed) or, with `fetch` false, to delete (installed, not chosen).
pub open spec fn changes_upto(es: Seq<DictEntryModel>, chosen: Seq<Seq<char>>, installed: Seq<Seq<char>>, fetch: bool, n: int) -> Seq<int>
    decreases n,
{
    if n <= 0 {
        seq![]
    } else {
        let rest = changes_upto(es, chosen, installed, fetch, n - 1);
        let u = es[n - 1].url;
        let wanted = if fetch {
            chosen.contains(u) && !installed.contains(u)
        } else {
            !chosen.contains(u) && installed.contains(u)
        };
        if wanted {
            rest.push(n - 1)
        } else {
            rest
        }
    }
}

/// The positions of the dictionaries to fetch and of those to delete once the URLs
/// `chosen` are confirmed, where those of `installed` are on disk; each list in the
/// order of `entries`.
pub fn plan_changes(entries: &[DictEntry], chosen: &Vec<String>, installed: &Vec<String>) -> (r: (Vec<usize>, Vec<usize>))
    ensures
        r.0@.map_values(|i: usize| i as int) == changes_upto(
            entry_views(entries@),
            chosen.deep_view(),
            installed.deep_view(),
            true,
            entries@.len() as int,
        ),
        r.1@.map_values(|i: usize| i as int) == changes_upto(
            entry_views(entries@),
            chosen.deep_view(),
            installed.deep_view(),
            false,
            entries@.len() as int,
        ),
{
    let ghost es = entry_views(entries@);
    let mut fetch: Vec<usize> = Vec::new();
    let mut delete: Vec<usize> = Vec::new();
    let mut i: usize = 0;
    while i < entries.len()
        invariant
            es == entry_views(entries@),
            i <= entries@.len(),
            fetch@.map_values(|k: usize| k as int) == changes_upto(es, chosen.deep_view(), installed.deep_view(), true, i as int),
            delete@.map_values(|k: usize| k as int) == changes_upto(es, chosen.deep_view(), installed.deep_view(), false, i as int),
        decreases entries@.len() - i,
    {
        assert(es[i as int] == entries@[i as int]@);
        let u = entries[i].url.as_str();
        let c = holds_text(chosen, u);
        let inst = holds_text(installed, u);
        if c && !inst {
            let ghost before = fetch@;
            fetch.push(i);
            assert(fetch@.map_values(|k: usize| k as int) =~= before.map_values(|k: usize| k as int).push(i as int));
        }
        if !c && inst {
            let ghost before = delete@;
            delete.push(i);
            assert(delete@.map_values(|k: usize| k as int) =~= before.map_values(|k: usize| k as int).push(i as int));
        }
        i = i + 1;
    }
    (fetch, delete)
}

proof fn lemma_with_text(s: Seq<Seq<char>>, x: Seq<char>, y: Seq<char>)
    ensures
        with_text(s, x).contains(y) <==> (s.contains(y) || y == x),
{
    if !s.contains(x) && y == x {
        assert(s.push(x)[s.len() as int] == x);
    }
    if !s.contains(x) && s.contains(y) {
        let k = choose|k: int| 0 <= k < s.len() && s[k] == y;
        assert(s.push(x)[k] == y);
    }
}

proof fn lemma_without_text(s: Seq<Seq<char>>, x: Seq<char>, y: Seq<char>)
    ensures
        without_text(s, x).contains(y) <==> (s.contains(y) && y != x),
    decreases s.len(),
{
    if s.len() > 0 {
        let t = s.drop_last();
        lemma_without_text(t, x, y);
        let w = without_text(t, x);
        if s.contains(y) && y != x {
            let k = choose|k: int| 0 <= k < s.len() && s[k] == y;
            if k < s.len() - 1 {
                assert(t[k] == y);
                if s.last() != x {
                    let j = choose|j: int| 0 <= j < w.len() && w[j] == y;
                    assert(w.push(s.last())[j] == y);
                }
            } else {
                assert(w.push(s.last())[w.len() as int] == y);
            }
        }
        if without_text(s, x).contains(y) {
            if s.last() != x {
                let j = choose|j: int| 0 <= j < w.len() + 1 && w.push(s.last())[j] == y;
                if j < w.len() {
                    assert(w[j] == y);
                    let k = choose|k: int| 0 <= k < t.len() && t[k] == y;
                    assert(s[k] == y);
                } else {
                    assert(s[s.len() - 1] == y);
                }
            } else {
                let k = choose|k: int| 0 <= k < t.len() && t[k] == y;
                assert(s[k] == y);
            }
        }
    }
}

/// Choosing a dictionary twice (space on its row twice) leaves the set of chosen
/// URLs as it was.
pub proof fn law_toggle_twice(s: Seq<Seq<char>>, x: Seq<char>)
    ensures
        toggled(toggled(s, x), x).to_set() == s.to_set(),
{
    assert forall|y: Seq<char>| #[trigger] toggled(toggled(s, x), x).to_set().contains(y) <==> s.to_set().contains(y) by {
        lemma_with_text(s, x, y);
        lemma_without_text(s, x, y);
        lemma_with_text(s, x, x);
        lemma_without_text(s, x, x);
        let t = toggled(s, x);
        lemma_with_text(t, x, y);
        lemma_without_text(t, x, y);
        lemma_with_text(t, x, x);
        lemma_without_text(t, x, x);
    }
    assert(toggled(toggled(s, x), x).to_set() =~= s.to_set());
}

proof fn lemma_with_all(s: Seq<Seq<char>>, xs: Seq<Seq<char>>, y: Seq<char>)
    ensures
        with_all(s, xs).contains(y) <==> (s.contains(y) || xs.contains(y)),
    decreases xs.len(),
{
    if xs.len() > 0 {
        lemma_with_all(s, xs.drop_last(), y);
        lemma_with_text(with_all(s, xs.drop_last()), xs.last(), y);
        if xs.contains(y) {
            let k = choose|k: int| 0 <= k < xs.len() && xs[k] == y;
            if k < xs.len() - 1 {
                assert(xs.drop_last()[k] == y);
            }
        }
        if xs.drop_last().contains(y) {
            let k = choose|k: int| 0 <= k < xs.len() - 1 && xs.drop_last()[k] == y;
            assert(xs[k] == y);
        }
    }
}

proof fn lemma_without_all(s: Seq<Seq<char>>, xs: Seq<Seq<char>>, y: Seq<char>)
    ensures
        without_all(s, xs).contains(y) <==> (s.contains(y) && !xs.contains(y)),
    decreases xs.len(),
{
    if xs.len() > 0 {
        lemma_without_all(s, xs.drop_last(), y);
        lemma_without_text(without_all(s, xs.drop_last()), xs.last(), y);
        if xs.contains(y) {
            let k = choose|k: int| 0 <= k < xs.len() && xs[k] == y;
            if k < xs.len() - 1 {
                assert(xs.drop_last()[k] == y);
            }
        }
        if xs.drop_last().contains(y) {
            let k = choose|k: int| 0 <= k < xs.len() - 1 && xs.drop_last()[k] == y;
            assert(xs[k] == y);
        }
    }
}

/// `a` (outside a search) chooses every dictionary shown where some of them are not
/// chosen, and lets them all go where all are; the choice of the others stays.
pub proof fn law_select_all(m: BrowserModel, rows: Seq<RowModel>, es: Seq<DictEntryModel>)
    requires
        !m.searching,
    ensures
        ({
            let after = stepped(m, Key::Char('a'), rows, es).0;
            let urls = row_urls(rows, es);
            let all = forall|i: int| 0 <= i < urls.len() ==> m.selected.contains(#[trigger] urls[i]);
            &&& all ==> forall|u: Seq<char>| #[trigger] urls.contains(u) ==> !after.selected.contains(u)
            &&& !all ==> forall|u: Seq<char>| #[trigger] urls.contains(u) ==> after.selected.contains(u)
            &&& forall|y: Seq<char>| !urls.contains(y) ==> (#[trigger] after.selected.contains(y) <==> m.selected.contains(y))
        }),
{
    let urls = row_urls(rows, es);
    assert forall|y: Seq<char>| true implies (with_all(m.selected, urls).contains(y) <==> (m.selected.contains(y) || urls.contains(y))) && (without_all(m.selected, urls).contains(y) <==> (m.selected.contains(y) && !urls.contains(y))) by {
        lemma_with_all(m.selected, urls, y);
        lemma_without_all(m.selected, urls, y);
    }
}

/// `Esc` during a search clears the query and leaves the search, so the category
/// tree is shown again.
pub proof fn law_leave_search(m: BrowserModel, rows: Seq<RowModel>, es: Seq<DictEntryModel>)
    requires
        m.searching,
    ensures
        ({
            let after = stepped(m, Key::Esc, rows, es).0;
            &&& !after.searching
            &&& after.query.len() == 0
            &&& after.expanded == m.expanded
            &&& after.selected == m.selected
            &&& visible(after, es) == flattened(category_tree(es), 0, m.expanded)
        }),
{
}

/// A key never takes the cursor off the rows that are shown.
pub proof fn law_cursor_on_rows(m: BrowserModel, key: Key, rows: Seq<RowModel>, es: Seq<DictEntryModel>, i: int)
    requires
        m.cursor == Some(i),
        0 <= i < rows.len(),
    ensures
        stepped(m, key, rows, es).0.cursor matches Some(j) && 0 <= j < rows.len(),
{
}

/// Working out the rows puts the cursor on one of them whenever there are any.
pub proof fn law_refresh_cursor(c: Option<int>, n: int)
    requires
        n > 0,
        c matches Some(i) ==> i >= 0,
    ensures
        clamped(c, n) matches Some(j) && 0 <= j < n,
{
}

proof fn lemma_changes_upto(es: Seq<DictEntryModel>, chosen: Seq<Seq<char>>, installed: Seq<Seq<char>>, fetch: bool, n: int, k: int)
    requires
        0 <= n <= es.len(),
    ensures
        changes_upto(es, chosen, installed, fetch, n).contains(k) <==> (0 <= k < n && if fetch {
            chosen.contains(es[k].url) && !installed.contains(es[k].url)
        } else {
            !chosen.contains(es[k].url) && installed.contains(es[k].url)
        }),
    decreases n,
{
    if n > 0 {
        lemma_changes_upto(es, chosen, installed, fetch, n - 1, k);
        let rest = changes_upto(es, chosen, installed, fetch, n - 1);
        if rest.contains(k) {
            let j = choose|j: int| 0 <= j < rest.len() && rest[j] == k;
            assert(rest.push(n - 1)[j] == k);
        }
        if changes_upto(es, chosen, installed, fetch, n).contains(k) && k != n - 1 {
            let r = changes_upto(es, chosen, installed, fetch, n);
            let j = choose|j: int| 0 <= j < r.len() && r[j] == k;
            if r != rest {
                assert(j < rest.len());
                assert(rest[j] == k);
            }
        }
        if k == n - 1 {
            let r = changes_upto(es, chosen, installed, fetch, n);
            if r != rest {
                assert(r[rest.len() as int] == k);
            }
        }
    }
}

/// A dictionary is fetched exactly when it is chosen and not installed, deleted
/// exactly when it is installed and not chosen, and never both.
pub proof fn law_plan_changes(es: Seq<DictEntryModel>, chosen: Seq<Seq<char>>, installed: Seq<Seq<char>>, k: int)
    requires
        0 <= k < es.len(),
    ensures
        changes_upto(es, chosen, installed, true, es.len() as int).contains(k) <==> (chosen.contains(es[k].url) && !installed.contains(es[k].url)),
        changes_upto(es, chosen, installed, false, es.len() as int).contains(k) <==> (!chosen.contains(es[k].url) && installed.contains(es[k].url)),
        !(changes_upto(es, chosen, installed, true, es.len() as int).contains(k) && changes_upto(es, chosen, installed, false, es.len() as int).contains(k)),
{
    lemma_changes_upto(es, chosen, installed, true, es.len() as int, k);
    lemma_changes_upto(es, chosen, installed, false, es.len() as int, k);
}

/// Where the chosen URLs are the installed ones, nothing is fetched and nothing is
/// deleted.
pub proof fn law_no_change_no_plan(es: Seq<DictEntryModel>, chosen: Seq<Seq<char>>, installed: Seq<Seq<char>>)
    requires
        forall|u: Seq<char>| chosen.contains(u) <==> installed.contains(u),
    ensures
        changes_upto(es, chosen, installed, true, es.len() as int).len() == 0,
        changes_upto(es, chosen, installed, false, es.len() as int).len() == 0,
{
    let n = es.len() as int;
    let f = changes_upto(es, chosen, installed, true, n);
    let d = changes_upto(es, chosen, installed, false, n);
    lemma_changes_range(es, chosen, installed, true, n);
    lemma_changes_range(es, chosen, installed, false, n);
    if f.len() > 0 {
        lemma_changes_upto(es, chosen, installed, true, n, f[0]);
        assert(f.contains(f[0]));
    }
    if d.len() > 0 {
        lemma_changes_upto(es, chosen, installed, false, n, d[0]);
        assert(d.contains(d[0]));
    }
}

proof fn lemma_changes_range(es: Seq<DictEntryModel>, chosen: Seq<Seq<char>>, installed: Seq<Seq<char>>, fetch: bool, n: int)
    ensures
        forall|i: int| 0 <= i < changes_upto(es, chosen, installed, fetch, n).len() ==> 0 <= #[trigger] changes_upto(es, chosen, installed, fetch, n)[i] < n,
    decreases n,
{
    if n > 0 {
        lemma_changes_range(es, chosen, installed, fetch, n - 1);
        let rest = changes_upto(es, chosen, installed, fetch, n - 1);
        let all = changes_upto(es, chosen, installed, fetch, n);
        assert forall|i: int| 0 <= i < all.len() implies 0 <= #[trigger] all[i] < n by {
            if i < rest.len() {
                assert(all[i] == rest[i]);
            }
        }
    }
}

} // verus!
