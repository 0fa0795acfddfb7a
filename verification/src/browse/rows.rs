//! The rows that the browser shows: the expanded part of the category tree, or the
//! dictionaries that a search finds.
use vstd::prelude::*;
use crate::browse::tree::{
    CategoryNode, CategoryTree, below, below_node, category_models, count_tree_entries, fits,
    lemma_category_models, lemma_fits_member, lemma_trees_count_member, tree_count,
    trees_count,
};
use crate::registry::{DictEntry, DictEntryModel, entry_views};
use crate::text::{contains, contains_chars, lowercased, str_eq, to_lowercase};

verus! {

/// A row of the browser: a category, or a dictionary (by its position in the entry
/// list).
pub enum VisibleRow {
    Category { segment: String, full_path: String, depth: usize, expanded: bool, entry_count: usize },
    Entry { entry_idx: usize, depth: usize, show_category: bool },
}

/// What a [`VisibleRow`] holds.
pub enum RowModel {
    Category {
        segment: Seq<char>,
        full_path: Seq<char>,
        depth: int,
        expanded: bool,
        entry_count: int,
    },
    Entry { entry_idx: int, depth: int, show_category: bool },
}

impl View for VisibleRow {
    type V = RowModel;

    open spec fn view(&self) -> RowModel {
        match *self {
            VisibleRow::Category { segment, full_path, depth, expanded, entry_count } => RowModel::Category {
                segment: segment@,
                full_path: full_path@,
                depth: depth as int,
                expanded,
                entry_count: entry_count as int,
            },
            VisibleRow::Entry { entry_idx, depth, show_category } => RowModel::Entry {
                entry_idx: entry_idx as int,
                depth: depth as int,
                show_category,
            },
        }
    }
}

/// The models of a sequence of rows.
pub open spec fn row_models(s: Seq<VisibleRow>) -> Seq<RowModel> {
    s.map_values(|r: VisibleRow| r@)
}

/// The rows of the dictionaries `es` right in a category, at `depth`.
pub open spec fn entry_rows(es: Seq<usize>, depth: int) -> Seq<RowModel> {
    Seq::new(es.len(), |i: int| RowModel::Entry { entry_idx: es[i] as int, depth, show_category: false })
}

/// The rows of the categories `nodes` at `depth`: each category, and where its path
/// is among `expanded`, the rows of its sub-categories and then its dictionaries,
/// one level deeper.
pub open spec fn flattened(nodes: Seq<CategoryTree>, depth: int, expanded: Seq<Seq<char>>) -> Seq<RowModel>
    decreases nodes,
{
    if nodes.len() == 0 {
        seq![]
    } else {
        flattened(nodes.drop_last(), depth, expanded) + flattened_node(nodes.last(), depth, expanded)
    }
}

/// The rows of one category at `depth`.
pub open spec fn flattened_node(t: CategoryTree, depth: int, expanded: Seq<Seq<char>>) -> Seq<RowModel>
    decreases t,
{
    let open = expanded.contains(t.full_path);
    seq![
        RowModel::Category {
            segment: t.segment,
            full_path: t.full_path,
            depth,
            expanded: open,
            entry_count: tree_count(t) as int,
        },
    ] + if open {
        flattened(t.children, depth + 1, expanded) + entry_rows(t.entries, depth + 1)
    } else {
        seq![]
    }
}

/// Whether `set` holds the text `x`.
pub fn holds_text(set: &Vec<String>, x: &str) -> (r: bool)
    ensures
        r == set.deep_view().contains(x@),
{
    let ghost dv = set.deep_view();
    let mut i: usize = 0;
    while i < set.len()
        invariant
            dv == set.deep_view(),
            i <= set@.len(),
            forall|j: int| 0 <= j < i ==> dv[j] != x@,
        decreases set@.len() - i,
    {
        assert(dv[i as int] == set@[i as int]@);
        if str_eq(set[i].as_str(), x) {
            return true;
        }
        i = i + 1;
    }
    false
}

proof fn lemma_row_models_push(s: Seq<VisibleRow>, r: VisibleRow)
    ensures
        row_models(s.push(r)) == row_models(s).push(r@),
{
    assert(row_models(s.push(r)) =~= row_models(s).push(r@));
}

/// Appends the rows of `nodes`, at `depth`, to `out`.
pub fn flatten_tree(nodes: &Vec<CategoryNode>, depth: usize, expanded: &Vec<String>, out: &mut Vec<VisibleRow>)
    requires
        fits(category_models(nodes@), usize::MAX - depth),
        trees_count(category_models(nodes@)) <= usize::MAX,
    ensures
        row_models(final(out)@) == row_models(old(out)@) + flattened(
            category_models(nodes@),
            depth as int,
            expanded.deep_view(),
        ),
    decreases nodes,
{
    proof {
        lemma_category_models(nodes@);
    }
    let ghost ms = category_models(nodes@);
    let ghost ex = expanded.deep_view();
    let ghost start = row_models(out@);
    let mut i: usize = 0;
    while i < nodes.len()
        invariant
            ms == category_models(nodes@),
            ex == expanded.deep_view(),
            ms.len() == nodes@.len(),
            forall|j: int| 0 <= j < nodes@.len() ==> #[trigger] ms[j] == nodes@[j]@,
            fits(ms, usize::MAX - depth),
            trees_count(ms) <= usize::MAX,
            i <= nodes@.len(),
            row_models(out@) == start + flattened(ms.take(i as int), depth as int, ex),
        decreases nodes@.len() - i,
    {
        let node = &nodes[i];
        proof {
            lemma_trees_count_member(ms, i as int);
            lemma_fits_member(ms, usize::MAX - depth, i as int);
            lemma_category_models(node.children@);
            assert(ms.take(i + 1).drop_last() =~= ms.take(i as int));
        }
        let open = holds_text(expanded, node.full_path.as_str());
        let count = count_tree_entries(node);
        let row = VisibleRow::Category {
            segment: node.segment.clone(),
            full_path: node.full_path.clone(),
            depth,
            expanded: open,
            entry_count: count,
        };
        let ghost before = row_models(out@);
        proof {
            lemma_row_models_push(out@, row);
        }
        out.push(row);
        if open {
            proof {
                assert(trees_count(node@.children) <= tree_count(node@));
            }
            flatten_tree(&node.children, depth + 1, expanded, out);
            let ghost mid = row_models(out@);
            let mut k: usize = 0;
            while k < node.entry_indices.len()
                invariant
                    k <= node.entry_indices@.len(),
                    depth < usize::MAX,
                    row_models(out@) == mid + entry_rows(node.entry_indices@.take(k as int), depth + 1),
                decreases node.entry_indices@.len() - k,
            {
                let r = VisibleRow::Entry {
                    entry_idx: node.entry_indices[k],
                    depth: depth + 1,
                    show_category: false,
                };
                proof {
                    lemma_row_models_push(out@, r);
                }
                out.push(r);
                assert(entry_rows(node.entry_indices@.take(k + 1), depth + 1) =~= entry_rows(
                    node.entry_indices@.take(k as int),
                    depth + 1,
                ).push(r@));
                k = k + 1;
            }
            assert(node.entry_indices@.take(k as int) =~= node.entry_indices@);
        }
        assert(flattened_node(ms[i as int], depth as int, ex) =~= row_models(out@).subrange(
            before.len() as int,
            row_models(out@).len() as int,
        ));
        i = i + 1;
    }
    assert(ms.take(i as int) =~= ms);
}

/// The lowercased `q` occurs in the lowercased name of `e`, or in its lowercased
/// category where it has one.
pub open spec fn row_hit(e: DictEntryModel, q: Seq<char>) -> bool {
    contains_chars(lowercased(e.name), q) || (e.category.len() > 0 && contains_chars(
        lowercased(e.category),
        q,
    ))
}

/// The rows of the dictionaries among the first `n` of `es` that `q` hits.
pub open spec fn hit_rows(es: Seq<DictEntryModel>, q: Seq<char>, n: int) -> Seq<RowModel>
    decreases n,
{
    if n <= 0 {
        seq![]
    } else if row_hit(es[n - 1], q) {
        hit_rows(es, q, n - 1).push(RowModel::Entry { entry_idx: n - 1, depth: 0, show_category: true })
    } else {
        hit_rows(es, q, n - 1)
    }
}

/// The rows of a search for `query`: each dictionary whose name or category holds
/// the query, case aside, at the top level and with its category shown.
pub open spec fn filtered(es: Seq<DictEntryModel>, query: Seq<char>) -> Seq<RowModel> {
    hit_rows(es, lowercased(query), es.len() as int)
}

/// The rows of a search for `query` among `entries`.
pub fn filter_entries(entries: &[DictEntry], query: &str) -> (rows: Vec<VisibleRow>)
    ensures
        row_models(rows@) == filtered(entry_views(entries@), query@),
{
    let ghost es = entry_views(entries@);
    let q = to_lowercase(query);
    let mut rows: Vec<VisibleRow> = Vec::new();
    let mut i: usize = 0;
    while i < entries.len()
        invariant
            es == entry_views(entries@),
            q@ == lowercased(query@),
            i <= entries@.len(),
            row_models(rows@) == hit_rows(es, q@, i as int),
        decreases entries@.len() - i,
    {
        let e = &entries[i];
        assert(es[i as int] == e@);
        let name_lower = to_lowercase(e.name.as_str());
        let mut hit = contains(name_lower.as_str(), q.as_str());
        let cat_chars = crate::text::chars_of(e.category.as_str());
        if !hit && cat_chars.len() > 0 {
            let cat_lower = to_lowercase(e.category.as_str());
            hit = contains(cat_lower.as_str(), q.as_str());
        }
        if hit {
            let r = VisibleRow::Entry { entry_idx: i, depth: 0, show_category: true };
            proof {
                lemma_row_models_push(rows@, r);
            }
            rows.push(r);
        }
        i = i + 1;
    }
    rows
}

/// Every dictionary row of `rows` is one of the first `n` dictionaries.
pub open spec fn rows_below(rows: Seq<RowModel>, n: int) -> bool {
    forall|i: int| 0 <= i < rows.len() ==> (#[trigger] rows[i] matches RowModel::Entry { entry_idx, .. } ==> 0 <= entry_idx < n)
}

pub proof fn lemma_flattened_below(nodes: Seq<CategoryTree>, depth: int, ex: Seq<Seq<char>>, n: int)
    requires
        below(nodes, n),
    ensures
        rows_below(flattened(nodes, depth, ex), n),
    decreases nodes,
{
    if nodes.len() > 0 {
        lemma_flattened_below(nodes.drop_last(), depth, ex, n);
        lemma_flattened_node_below(nodes.last(), depth, ex, n);
        let a = flattened(nodes.drop_last(), depth, ex);
        let b = flattened_node(nodes.last(), depth, ex);
        assert forall|i: int| 0 <= i < (a + b).len() implies ((#[trigger] (a + b)[i]) matches RowModel::Entry { entry_idx, .. } ==> 0 <= entry_idx < n) by {
            if i < a.len() {
                assert((a + b)[i] == a[i]);
            } else {
                assert((a + b)[i] == b[i - a.len()]);
            }
        }
    }
}

pub proof fn lemma_flattened_node_below(t: CategoryTree, depth: int, ex: Seq<Seq<char>>, n: int)
    requires
        below_node(t, n),
    ensures
        rows_below(flattened_node(t, depth, ex), n),
    decreases t,
{
    if ex.contains(t.full_path) {
        lemma_flattened_below(t.children, depth + 1, ex, n);
        let h = seq![
            RowModel::Category {
                segment: t.segment,
                full_path: t.full_path,
                depth,
                expanded: true,
                entry_count: tree_count(t) as int,
            },
        ];
        let a = flattened(t.children, depth + 1, ex);
        let b = entry_rows(t.entries, depth + 1);
        let all = h + (a + b);
        assert(flattened_node(t, depth, ex) == all);
        assert forall|i: int| 0 <= i < all.len() implies ((#[trigger] all[i]) matches RowModel::Entry { entry_idx, .. } ==> 0 <= entry_idx < n) by {
            if i == 0 {
            } else if i - 1 < a.len() {
                assert(all[i] == a[i - 1]);
            } else {
                assert(all[i] == b[i - 1 - a.len()]);
                assert(t.entries[i - 1 - a.len()] < n);
            }
        }
    }
}

pub proof fn lemma_hit_rows_below(es: Seq<DictEntryModel>, q: Seq<char>, k: int)
    requires
        k <= es.len(),
    ensures
        rows_below(hit_rows(es, q, k), es.len() as int),
    decreases k,
{
    if k > 0 {
        lemma_hit_rows_below(es, q, k - 1);
    }
}

} // verus!
