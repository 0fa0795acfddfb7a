//! The category tree of the index: each dictionary under the path of its category.
use vstd::prelude::*;
use crate::registry::{DictEntry, DictEntryModel, entry_views};
use crate::text::{chars_of, push_chars, push_text, split_by, split_on, string_from_chars};

verus! {

/// The category of a dictionary whose category is empty.
pub const UNCATEGORIZED: &'static str = "(uncategorized)";

/// What separates the parts of a category path.
pub const CATEGORY_SEPARATOR: &'static str = " / ";

/// The non-empty texts of `s`, in order.
pub open spec fn nonempty_texts(s: Seq<Seq<char>>) -> Seq<Seq<char>>
    decreases s.len(),
{
    if s.len() == 0 {
        seq![]
    } else if s.last().len() > 0 {
        nonempty_texts(s.drop_last()).push(s.last())
    } else {
        nonempty_texts(s.drop_last())
    }
}

/// The path of tree segments that a dictionary of `category` sits under: the
/// non-empty parts of the category between ` / `, or the single segment
/// `(uncategorized)` where there is none.
pub open spec fn category_segments(category: Seq<char>) -> Seq<Seq<char>> {
    let segs = nonempty_texts(split_on(category, CATEGORY_SEPARATOR@));
    if segs.len() == 0 {
        seq![UNCATEGORIZED@]
    } else {
        segs
    }
}

/// The tree segments of `category`.
pub fn category_segments_of(category: &str) -> (segs: Vec<Vec<char>>)
    ensures
        segs.deep_view() == category_segments(category@),
        segs@.len() > 0,
{
    let cs = chars_of(category);
    let sep = chars_of(CATEGORY_SEPARATOR);
    assert(sep@.len() > 0) by {
        reveal_strlit(" / ");
    }
    let parts = split_by(&cs, &sep);
    let ghost pv = parts.deep_view();
    let mut segs: Vec<Vec<char>> = Vec::new();
    let mut i: usize = 0;
    while i < parts.len()
        invariant
            pv == parts.deep_view(),
            i <= parts@.len(),
            segs.deep_view() == nonempty_texts(pv.take(i as int)),
        decreases parts@.len() - i,
    {
        assert(pv.take(i + 1).drop_last() =~= pv.take(i as int));
        assert(pv[i as int] == parts@[i as int]@);
        if parts[i].len() > 0 {
            push_text(&mut segs, crate::text::chars_between(&parts[i], 0, parts[i].len()));
            assert(parts@[i as int]@.subrange(0, parts@[i as int]@.len() as int) =~= parts@[i as int]@);
        }
        i = i + 1;
    }
    assert(pv.take(i as int) =~= pv);
    if segs.len() == 0 {
        let mut only: Vec<Vec<char>> = Vec::new();
        push_text(&mut only, chars_of(UNCATEGORIZED));
        only
    } else {
        segs
    }
}

/// A category of the tree: its last path segment, its whole path, the categories
/// below it, and the dictionaries right in it (positions in the entry list).
pub struct CategoryNode {
    pub segment: String,
    pub full_path: String,
    pub children: Vec<CategoryNode>,
    pub entry_indices: Vec<usize>,
}

/// What a [`CategoryNode`] holds.
pub struct CategoryTree {
    pub segment: Seq<char>,
    pub full_path: Seq<char>,
    pub children: Seq<CategoryTree>,
    pub entries: Seq<usize>,
}

/// The tree that `n` holds.
pub open spec fn category_model(n: CategoryNode) -> CategoryTree
    decreases n,
{
    CategoryTree {
        segment: n.segment@,
        full_path: n.full_path@,
        children: category_models(n.children@),
        entries: n.entry_indices@,
    }
}

/// The trees that the nodes of `s` hold.
pub open spec fn category_models(s: Seq<CategoryNode>) -> Seq<CategoryTree>
    decreases s,
{
    if s.len() == 0 {
        seq![]
    } else {
        category_models(s.drop_last()).push(category_model(s.last()))
    }
}

impl View for CategoryNode {
    type V = CategoryTree;

    open spec fn view(&self) -> CategoryTree {
        category_model(*self)
    }
}

/// The trees of a sequence of nodes are those of its nodes, one by one.
pub proof fn lemma_category_models(s: Seq<CategoryNode>)
    ensures
        category_models(s).len() == s.len(),
        forall|i: int| 0 <= i < s.len() ==> #[trigger] category_models(s)[i] == category_model(s[i]),
    decreases s.len(),
{
    if s.len() > 0 {
        lemma_category_models(s.drop_last());
    }
}

/// Where the category named `seg` is among `nodes`, or -1.
pub open spec fn segment_index(nodes: Seq<CategoryTree>, seg: Seq<char>) -> int
    decreases nodes.len(),
{
    if nodes.len() == 0 {
        -1
    } else if nodes[0].segment == seg {
        0
    } else {
        let r = segment_index(nodes.drop_first(), seg);
        if r < 0 {
            -1
        } else {
            r + 1
        }
    }
}

/// The path of the category `seg` under the category path `parent`.
pub open spec fn child_path(parent: Seq<char>, seg: Seq<char>) -> Seq<char> {
    if parent.len() == 0 {
        seg
    } else {
        parent + CATEGORY_SEPARATOR@ + seg
    }
}

/// `nodes` with the dictionary `idx` filed under the segments `segs`, the
/// categories on the way made where missing (at the end, with paths under
/// `parent`).
pub open spec fn inserted(nodes: Seq<CategoryTree>, segs: Seq<Seq<char>>, parent: Seq<char>, idx: usize) -> Seq<CategoryTree>
    decreases segs.len(),
{
    if segs.len() == 0 {
        nodes
    } else {
        let seg = segs[0];
        let found = segment_index(nodes, seg);
        let with_seg = if found >= 0 {
            nodes
        } else {
            nodes.push(
                CategoryTree {
                    segment: seg,
                    full_path: child_path(parent, seg),
                    children: seq![],
                    entries: seq![],
                },
            )
        };
        let pos = if found >= 0 {
            found
        } else {
            nodes.len() as int
        };
        let node = with_seg[pos];
        if segs.len() == 1 {
            with_seg.update(
                pos,
                CategoryTree {
                    segment: node.segment,
                    full_path: node.full_path,
                    children: node.children,
                    entries: node.entries.push(idx),
                },
            )
        } else {
            with_seg.update(
                pos,
                CategoryTree {
                    segment: node.segment,
                    full_path: node.full_path,
                    children: inserted(node.children, segs.drop_first(), node.full_path, idx),
                    entries: node.entries,
                },
            )
        }
    }
}

proof fn lemma_segment_index(nodes: Seq<CategoryTree>, seg: Seq<char>, i: int)
    requires
        0 <= i <= nodes.len(),
        forall|j: int| 0 <= j < i ==> nodes[j].segment != seg,
        i < nodes.len() ==> nodes[i].segment == seg,
    ensures
        segment_index(nodes, seg) == (if i < nodes.len() { i } else { -1 }),
    decreases i,
{
    if i > 0 {
        lemma_segment_index(nodes.drop_first(), seg, i - 1);
    }
}

proof fn lemma_category_models_update(s: Seq<CategoryNode>, i: int, x: CategoryNode)
    requires
        0 <= i < s.len(),
    ensures
        category_models(s.update(i, x)) == category_models(s).update(i, category_model(x)),
{
    lemma_category_models(s);
    lemma_category_models(s.update(i, x));
    assert(category_models(s.update(i, x)) =~= category_models(s).update(i, category_model(x)));
}

/// Files the dictionary `idx` under `segs[k..]` among `nodes`, whose paths lie under
/// `parent`.
pub fn insert_into_tree(nodes: &mut Vec<CategoryNode>, segs: &Vec<Vec<char>>, k: usize, parent: &Vec<char>, idx: usize)
    requires
        k < segs@.len(),
    ensures
        category_models(final(nodes)@) == inserted(
            category_models(old(nodes)@),
            segs.deep_view().skip(k as int),
            parent@,
            idx,
        ),
    decreases segs@.len() - k,
{
    proof {
        lemma_category_models(nodes@);
    }
    let ghost old_models = category_models(nodes@);
    let ghost rest = segs.deep_view().skip(k as int);
    assert(rest[0] == segs@[k as int]@);
    let seg = &segs[k];
    let mut pos: usize = 0;
    while pos < nodes.len() && !crate::text::str_eq_chars(nodes[pos].segment.as_str(), seg)
        invariant
            pos <= nodes@.len(),
            old_models == category_models(nodes@),
            category_models(nodes@).len() == nodes@.len(),
            forall|j: int| 0 <= j < nodes@.len() ==> #[trigger] category_models(nodes@)[j] == category_model(nodes@[j]),
            forall|j: int| 0 <= j < pos ==> old_models[j].segment != seg@,
        decreases nodes@.len() - pos,
    {
        pos = pos + 1;
    }
    proof {
        lemma_segment_index(old_models, seg@, pos as int);
    }
    if pos == nodes.len() {
        let mut full: Vec<char> = Vec::new();
        if parent.len() == 0 {
            push_chars(&mut full, seg);
        } else {
            push_chars(&mut full, parent);
            let sep = chars_of(CATEGORY_SEPARATOR);
            push_chars(&mut full, &sep);
            push_chars(&mut full, seg);
        }
        let node = CategoryNode {
            segment: string_from_chars(seg.as_slice()),
            full_path: string_from_chars(full.as_slice()),
            children: Vec::new(),
            entry_indices: Vec::new(),
        };
        let ghost before = nodes@;
        nodes.push(node);
        assert(nodes@.drop_last() =~= before);
        assert(category_model(node).children =~= Seq::<CategoryTree>::empty());
        proof {
            lemma_category_models(nodes@);
        }
    }
    let ghost with_seg = category_models(nodes@);
    let ghost target = with_seg[pos as int];
    if k == segs.len() - 1 {
        let ghost before = nodes@;
        nodes[pos].entry_indices.push(idx);
        proof {
            lemma_category_models_update(before, pos as int, nodes@[pos as int]);
            assert(nodes@ =~= before.update(pos as int, nodes@[pos as int]));
        }
    } else {
        let fp = chars_of(nodes[pos].full_path.as_str());
        let ghost before = nodes@;
        insert_into_tree(&mut nodes[pos].children, segs, k + 1, &fp, idx);
        proof {
            assert(segs.deep_view().skip(k + 1) =~= rest.drop_first());
            lemma_category_models_update(before, pos as int, nodes@[pos as int]);
            assert(nodes@ =~= before.update(pos as int, nodes@[pos as int]));
        }
    }
}

/// The category tree of the first `n` dictionaries of `es`.
pub open spec fn tree_upto(es: Seq<DictEntryModel>, n: nat) -> Seq<CategoryTree>
    decreases n,
{
    if n == 0 || n > es.len() {
        seq![]
    } else {
        inserted(
            tree_upto(es, (n - 1) as nat),
            category_segments(es[n - 1].category),
            seq![],
            (n - 1) as usize,
        )
    }
}

/// The category tree of the dictionaries `es`: each filed, by its position, under
/// the segments of its category, the categories in the order they first occur.
pub open spec fn category_tree(es: Seq<DictEntryModel>) -> Seq<CategoryTree> {
    tree_upto(es, es.len())
}

/// The number of dictionaries in `t` and below it.
pub open spec fn tree_count(t: CategoryTree) -> nat
    decreases t,
{
    t.entries.len() + trees_count(t.children)
}

/// The number of dictionaries in the trees of `s` and below them.
pub open spec fn trees_count(s: Seq<CategoryTree>) -> nat
    decreases s,
{
    if s.len() == 0 {
        0
    } else {
        trees_count(s.drop_last()) + tree_count(s.last())
    }
}

/// No category of `s` lies more than `h` levels deep (the top level is level 1).
pub open spec fn fits(s: Seq<CategoryTree>, h: int) -> bool
    decreases s,
{
    if s.len() == 0 {
        true
    } else {
        fits(s.drop_last(), h) && fits_node(s.last(), h)
    }
}

/// No category of `t` (itself level 1) lies more than `h` levels deep.
pub open spec fn fits_node(t: CategoryTree, h: int) -> bool
    decreases t,
{
    h >= 1 && fits(t.children, h - 1)
}

pub proof fn lemma_trees_count_update(s: Seq<CategoryTree>, i: int, x: CategoryTree)
    requires
        0 <= i < s.len(),
    ensures
        trees_count(s.update(i, x)) + tree_count(s[i]) == trees_count(s) + tree_count(x),
    decreases s.len(),
{
    if i == s.len() - 1 {
        assert(s.update(i, x).drop_last() =~= s.drop_last());
    } else {
        lemma_trees_count_update(s.drop_last(), i, x);
        assert(s.update(i, x).drop_last() =~= s.drop_last().update(i, x));
    }
}

pub proof fn lemma_trees_count_member(s: Seq<CategoryTree>, i: int)
    requires
        0 <= i < s.len(),
    ensures
        tree_count(s[i]) <= trees_count(s),
    decreases s.len(),
{
    if i < s.len() - 1 {
        lemma_trees_count_member(s.drop_last(), i);
    }
}

pub proof fn lemma_fits_member(s: Seq<CategoryTree>, h: int, i: int)
    requires
        0 <= i < s.len(),
        fits(s, h),
    ensures
        fits_node(s[i], h),
    decreases s.len(),
{
    if i < s.len() - 1 {
        lemma_fits_member(s.drop_last(), h, i);
    }
}

pub proof fn lemma_fits_update(s: Seq<CategoryTree>, h: int, i: int, x: CategoryTree)
    requires
        0 <= i < s.len(),
        fits(s, h),
        fits_node(x, h),
    ensures
        fits(s.update(i, x), h),
    decreases s.len(),
{
    if i == s.len() - 1 {
        assert(s.update(i, x).drop_last() =~= s.drop_last());
    } else {
        lemma_fits_update(s.drop_last(), h, i, x);
        assert(s.update(i, x).drop_last() =~= s.drop_last().update(i, x));
    }
}

/// Filing a dictionary adds one to the count, and keeps the tree within `h` levels
/// where its path has no more than `h` segments.
pub proof fn lemma_inserted(nodes: Seq<CategoryTree>, segs: Seq<Seq<char>>, parent: Seq<char>, idx: usize, h: int)
    requires
        segs.len() > 0,
    ensures
        trees_count(inserted(nodes, segs, parent, idx)) == trees_count(nodes) + 1,
        fits(nodes, h) && segs.len() <= h ==> fits(inserted(nodes, segs, parent, idx), h),
    decreases segs.len(),
{
    let seg = segs[0];
    let found = segment_index(nodes, seg);
    let fresh = CategoryTree {
        segment: seg,
        full_path: child_path(parent, seg),
        children: seq![],
        entries: seq![],
    };
    let with_seg = if found >= 0 {
        nodes
    } else {
        nodes.push(fresh)
    };
    let pos = if found >= 0 {
        found
    } else {
        nodes.len() as int
    };
    lemma_segment_index_range(nodes, seg);
    if found < 0 {
        assert(with_seg.drop_last() =~= nodes);
        assert(with_seg.last() == fresh);
        assert(trees_count(fresh.children) == 0);
        assert(tree_count(fresh) == 0);
        assert(fits(fresh.children, h - 1));
        if fits(nodes, h) && segs.len() <= h {
            assert(fits_node(fresh, h));
            assert(fits(with_seg, h));
        }
    }
    assert(trees_count(with_seg) == trees_count(nodes));
    let node = with_seg[pos];
    if segs.len() == 1 {
        let x = CategoryTree {
            segment: node.segment,
            full_path: node.full_path,
            children: node.children,
            entries: node.entries.push(idx),
        };
        lemma_trees_count_update(with_seg, pos, x);
        if fits(nodes, h) && segs.len() <= h {
            lemma_fits_member(with_seg, h, pos);
            lemma_fits_update(with_seg, h, pos, x);
        }
    } else {
        lemma_inserted(node.children, segs.drop_first(), node.full_path, idx, h - 1);
        let x = CategoryTree {
            segment: node.segment,
            full_path: node.full_path,
            children: inserted(node.children, segs.drop_first(), node.full_path, idx),
            entries: node.entries,
        };
        lemma_trees_count_update(with_seg, pos, x);
        if fits(nodes, h) && segs.len() <= h {
            lemma_fits_member(with_seg, h, pos);
            lemma_fits_update(with_seg, h, pos, x);
        }
    }
}

proof fn lemma_segment_index_range(nodes: Seq<CategoryTree>, seg: Seq<char>)
    ensures
        -1 <= segment_index(nodes, seg) < nodes.len(),
        segment_index(nodes, seg) >= 0 ==> nodes[segment_index(nodes, seg)].segment == seg,
        segment_index(nodes, seg) < 0 ==> forall|j: int|
            0 <= j < nodes.len() ==> (#[trigger] nodes[j]).segment != seg,
    decreases nodes.len(),
{
    if nodes.len() > 0 && nodes[0].segment != seg {
        lemma_segment_index_range(nodes.drop_first(), seg);
        if segment_index(nodes, seg) < 0 {
            assert forall|j: int| 0 <= j < nodes.len() implies (#[trigger] nodes[j]).segment
                != seg by {
                if j > 0 {
                    assert(nodes[j] == nodes.drop_first()[j - 1]);
                }
            }
        }
    }
}

/// No two categories side by side among `s`, nor side by side anywhere below
/// them, share a name.
pub open spec fn siblings_distinct(s: Seq<CategoryTree>) -> bool
    decreases s,
{
    if s.len() == 0 {
        true
    } else {
        &&& siblings_distinct(s.drop_last())
        &&& node_siblings_distinct(s.last())
        &&& forall|j: int| 0 <= j < s.len() - 1 ==> (#[trigger] s[j]).segment != s.last().segment
    }
}

/// No two categories side by side anywhere below `t` share a name.
pub open spec fn node_siblings_distinct(t: CategoryTree) -> bool
    decreases t,
{
    siblings_distinct(t.children)
}

/// [`siblings_distinct`] holds exactly where the names of `s` are pairwise
/// distinct and it holds below each of them.
proof fn lemma_siblings_distinct(s: Seq<CategoryTree>)
    ensures
        siblings_distinct(s) <==> (forall|i: int, j: int|
            0 <= i < j < s.len() ==> (#[trigger] s[i]).segment != (#[trigger] s[j]).segment)
            && (forall|i: int| 0 <= i < s.len() ==> node_siblings_distinct(#[trigger] s[i])),
    decreases s.len(),
{
    if s.len() > 0 {
        let t = s.drop_last();
        let n = s.len() - 1;
        lemma_siblings_distinct(t);
        assert forall|i: int| 0 <= i < t.len() implies #[trigger] t[i] == s[i] by {}
        if siblings_distinct(s) {
            assert forall|i: int, j: int| 0 <= i < j < s.len() implies (#[trigger] s[i]).segment
                != (#[trigger] s[j]).segment by {
                if j < n {
                    assert(t[i].segment != t[j].segment);
                }
            }
            assert forall|i: int| 0 <= i < s.len() implies node_siblings_distinct(
                #[trigger] s[i],
            ) by {
                if i < n {
                    assert(node_siblings_distinct(t[i]));
                }
            }
        }
        if (forall|i: int, j: int|
            0 <= i < j < s.len() ==> (#[trigger] s[i]).segment != (#[trigger] s[j]).segment)
            && (forall|i: int| 0 <= i < s.len() ==> node_siblings_distinct(#[trigger] s[i])) {
            assert forall|i: int, j: int| 0 <= i < j < t.len() implies (#[trigger] t[i]).segment
                != (#[trigger] t[j]).segment by {
                assert(s[i].segment != s[j].segment);
            }
            assert forall|i: int| 0 <= i < t.len() implies node_siblings_distinct(
                #[trigger] t[i],
            ) by {
                assert(node_siblings_distinct(s[i]));
            }
            assert forall|j: int| 0 <= j < n implies (#[trigger] s[j]).segment
                != s.last().segment by {
                assert(s[j].segment != s[n].segment);
            }
            assert(node_siblings_distinct(s[n]));
        }
    }
}

/// Filing a dictionary keeps the names of side-by-side categories distinct, keeps
/// the categories that were there, in their order and with their names, and adds
/// at most one category at the end.
pub proof fn law_insert_keeps_siblings_distinct(
    nodes: Seq<CategoryTree>,
    segs: Seq<Seq<char>>,
    parent: Seq<char>,
    idx: usize,
)
    requires
        segs.len() > 0,
        siblings_distinct(nodes),
    ensures
        siblings_distinct(inserted(nodes, segs, parent, idx)),
        nodes.len() <= inserted(nodes, segs, parent, idx).len() <= nodes.len() + 1,
        forall|j: int|
            0 <= j < nodes.len() ==> (#[trigger] inserted(nodes, segs, parent, idx)[j]).segment
                == nodes[j].segment,
    decreases segs.len(),
{
    let seg = segs[0];
    let found = segment_index(nodes, seg);
    let fresh = CategoryTree {
        segment: seg,
        full_path: child_path(parent, seg),
        children: seq![],
        entries: seq![],
    };
    let with_seg = if found >= 0 {
        nodes
    } else {
        nodes.push(fresh)
    };
    let pos = if found >= 0 {
        found
    } else {
        nodes.len() as int
    };
    lemma_segment_index_range(nodes, seg);
    lemma_siblings_distinct(nodes);
    assert(siblings_distinct(fresh.children));
    lemma_siblings_distinct(with_seg);
    assert(siblings_distinct(with_seg)) by {
        if found < 0 {
            assert forall|i: int, j: int| 0 <= i < j < with_seg.len() implies (
            #[trigger] with_seg[i]).segment != (#[trigger] with_seg[j]).segment by {
                if j == nodes.len() {
                    assert(nodes[i] == with_seg[i]);
                } else {
                    assert(nodes[i] == with_seg[i] && nodes[j] == with_seg[j]);
                }
            }
            assert forall|i: int| 0 <= i < with_seg.len() implies node_siblings_distinct(
                #[trigger] with_seg[i],
            ) by {
                if i < nodes.len() {
                    assert(nodes[i] == with_seg[i]);
                }
            }
        }
    }
    let node = with_seg[pos];
    let x = if segs.len() == 1 {
        CategoryTree {
            segment: node.segment,
            full_path: node.full_path,
            children: node.children,
            entries: node.entries.push(idx),
        }
    } else {
        CategoryTree {
            segment: node.segment,
            full_path: node.full_path,
            children: inserted(node.children, segs.drop_first(), node.full_path, idx),
            entries: node.entries,
        }
    };
    assert(node_siblings_distinct(node));
    if segs.len() > 1 {
        law_insert_keeps_siblings_distinct(node.children, segs.drop_first(), node.full_path, idx);
    }
    assert(node_siblings_distinct(x));
    let result = with_seg.update(pos, x);
    assert(result == inserted(nodes, segs, parent, idx));
    lemma_siblings_distinct(result);
    assert forall|i: int, j: int| 0 <= i < j < result.len() implies (
    #[trigger] result[i]).segment != (#[trigger] result[j]).segment by {
        assert(with_seg[i].segment != with_seg[j].segment);
    }
    assert forall|i: int| 0 <= i < result.len() implies node_siblings_distinct(
        #[trigger] result[i],
    ) by {
        if i != pos {
            assert(result[i] == with_seg[i]);
        }
    }
    assert forall|j: int| 0 <= j < nodes.len() implies (#[trigger] result[j]).segment
        == nodes[j].segment by {
        assert(with_seg[j] == nodes[j]);
    }
}

/// The category tree of `entries`.
pub fn build_category_tree(entries: &[DictEntry]) -> (roots: Vec<CategoryNode>)
    ensures
        category_models(roots@) == category_tree(entry_views(entries@)),
        trees_count(category_models(roots@)) == entries@.len(),
        fits(category_models(roots@), usize::MAX as int),
{
    let ghost es = entry_views(entries@);
    let mut roots: Vec<CategoryNode> = Vec::new();
    let mut i: usize = 0;
    let empty: Vec<char> = Vec::new();
    assert(category_models(roots@) =~= Seq::<CategoryTree>::empty());
    while i < entries.len()
        invariant
            es == entry_views(entries@),
            i <= entries@.len(),
            empty@ == Seq::<char>::empty(),
            category_models(roots@) == tree_upto(es, i as nat),
            trees_count(category_models(roots@)) == i,
            fits(category_models(roots@), usize::MAX as int),
        decreases entries@.len() - i,
    {
        let segs = category_segments_of(entries[i].category.as_str());
        assert(segs.deep_view().skip(0) =~= segs.deep_view());
        let n_segs = segs.len();
        assert(segs.deep_view().len() == n_segs);
        proof {
            lemma_inserted(
                category_models(roots@),
                segs.deep_view(),
                seq![],
                i,
                usize::MAX as int,
            );
        }
        insert_into_tree(&mut roots, &segs, 0, &empty, i);
        i = i + 1;
    }
    roots
}

/// The number of dictionaries in `node` and below it.
pub fn count_tree_entries(node: &CategoryNode) -> (n: usize)
    requires
        tree_count(node@) <= usize::MAX,
    ensures
        n == tree_count(node@),
    decreases node,
{
    proof {
        lemma_category_models(node.children@);
    }
    let ghost kids = node@.children;
    let mut total: usize = node.entry_indices.len();
    let mut i: usize = 0;
    while i < node.children.len()
        invariant
            kids == node@.children,
            kids.len() == node.children@.len(),
            forall|j: int| 0 <= j < kids.len() ==> #[trigger] kids[j] == node.children@[j]@,
            tree_count(node@) <= usize::MAX,
            i <= kids.len(),
            total == node@.entries.len() + trees_count(kids.take(i as int)),
        decreases kids.len() - i,
    {
        assert(kids.take(i + 1).drop_last() =~= kids.take(i as int));
        proof {
            lemma_trees_count_member(kids, i as int);
            lemma_trees_count_prefix(kids, i + 1);
        }
        let c = count_tree_entries(&node.children[i]);
        total = total + c;
        i = i + 1;
    }
    assert(kids.take(i as int) =~= kids);
    total
}

pub proof fn lemma_trees_count_prefix(s: Seq<CategoryTree>, n: int)
    requires
        0 <= n <= s.len(),
    ensures
        trees_count(s.take(n)) <= trees_count(s),
    decreases s.len(),
{
    if n < s.len() {
        assert(s.drop_last().take(n) =~= s.take(n));
        lemma_trees_count_prefix(s.drop_last(), n);
    } else {
        assert(s.take(n) =~= s);
    }
}

/// Every dictionary filed in `s` or below has a position under `n`.
pub open spec fn below(s: Seq<CategoryTree>, n: int) -> bool
    decreases s,
{
    if s.len() == 0 {
        true
    } else {
        below(s.drop_last(), n) && below_node(s.last(), n)
    }
}

/// Every dictionary filed in `t` or below has a position under `n`.
pub open spec fn below_node(t: CategoryTree, n: int) -> bool
    decreases t,
{
    (forall|i: int| 0 <= i < t.entries.len() ==> #[trigger] t.entries[i] < n) && below(t.children, n)
}

pub proof fn lemma_below_member(s: Seq<CategoryTree>, n: int, i: int)
    requires
        0 <= i < s.len(),
        below(s, n),
    ensures
        below_node(s[i], n),
    decreases s.len(),
{
    if i < s.len() - 1 {
        lemma_below_member(s.drop_last(), n, i);
    }
}

proof fn lemma_below_update(s: Seq<CategoryTree>, n: int, i: int, x: CategoryTree)
    requires
        0 <= i < s.len(),
        below(s, n),
        below_node(x, n),
    ensures
        below(s.update(i, x), n),
    decreases s.len(),
{
    if i == s.len() - 1 {
        assert(s.update(i, x).drop_last() =~= s.drop_last());
    } else {
        lemma_below_update(s.drop_last(), n, i, x);
        assert(s.update(i, x).drop_last() =~= s.drop_last().update(i, x));
    }
}

proof fn lemma_below_weaken(s: Seq<CategoryTree>, n: int, m: int)
    requires
        below(s, n),
        n <= m,
    ensures
        below(s, m),
    decreases s,
{
    if s.len() > 0 {
        lemma_below_weaken(s.drop_last(), n, m);
        lemma_below_node_weaken(s.last(), n, m);
    }
}

proof fn lemma_below_node_weaken(t: CategoryTree, n: int, m: int)
    requires
        below_node(t, n),
        n <= m,
    ensures
        below_node(t, m),
    decreases t,
{
    lemma_below_weaken(t.children, n, m);
}

/// Filing the dictionary `idx` keeps every position under `n` where `idx` is.
pub proof fn lemma_inserted_below(nodes: Seq<CategoryTree>, segs: Seq<Seq<char>>, parent: Seq<char>, idx: usize, n: int)
    requires
        segs.len() > 0,
        below(nodes, n),
        idx < n,
    ensures
        below(inserted(nodes, segs, parent, idx), n),
    decreases segs.len(),
{
    let seg = segs[0];
    let found = segment_index(nodes, seg);
    let fresh = CategoryTree {
        segment: seg,
        full_path: child_path(parent, seg),
        children: seq![],
        entries: seq![],
    };
    let with_seg = if found >= 0 {
        nodes
    } else {
        nodes.push(fresh)
    };
    let pos = if found >= 0 {
        found
    } else {
        nodes.len() as int
    };
    lemma_segment_index_range(nodes, seg);
    if found < 0 {
        assert(with_seg.drop_last() =~= nodes);
        assert(below_node(fresh, n));
        assert(below(with_seg, n));
    }
    let node = with_seg[pos];
    lemma_below_member(with_seg, n, pos);
    if segs.len() == 1 {
        let x = CategoryTree {
            segment: node.segment,
            full_path: node.full_path,
            children: node.children,
            entries: node.entries.push(idx),
        };
        assert(below_node(x, n));
        lemma_below_update(with_seg, n, pos, x);
    } else {
        lemma_inserted_below(node.children, segs.drop_first(), node.full_path, idx, n);
        let x = CategoryTree {
            segment: node.segment,
            full_path: node.full_path,
            children: inserted(node.children, segs.drop_first(), node.full_path, idx),
            entries: node.entries,
        };
        lemma_below_update(with_seg, n, pos, x);
    }
}

/// Every dictionary in the category tree of the first `n` dictionaries is one of
/// them.
pub proof fn lemma_tree_upto_below(es: Seq<DictEntryModel>, n: nat)
    ensures
        below(tree_upto(es, n), n as int),
    decreases n,
{
    if n > 0 && n <= es.len() {
        lemma_tree_upto_below(es, (n - 1) as nat);
        lemma_below_weaken(tree_upto(es, (n - 1) as nat), n - 1, n as int);
        lemma_category_segments_nonempty(es[n - 1].category);
        lemma_inserted_below(
            tree_upto(es, (n - 1) as nat),
            category_segments(es[n - 1].category),
            seq![],
            (n - 1) as usize,
            n as int,
        );
    }
}

proof fn lemma_category_segments_nonempty(category: Seq<char>)
    ensures
        category_segments(category).len() > 0,
{
}

} // verus!

