//! The Markdown syntax tree that a definition is rendered from, and its rendering.
use vstd::prelude::*;
use crate::render::ansi::Styles;
use crate::text::{decimal, decimal_chars, lines, lines_of, push_chars, push_str};

verus! {

/// What a node of the tree is.
pub enum MdKind {
    Text(String),
    SoftBreak,
    LineBreak,
    Paragraph,
    Heading(u8),
    Strong,
    Emph,
    Code(String),
    CodeBlock(String),
    ThematicBreak,
    BlockQuote,
    List { ordered: bool, start: u64 },
    Link(String),
    Html,
    Other,
}

/// A node of the tree and its children, in document order.
pub struct MdNode {
    pub kind: MdKind,
    pub children: Vec<MdNode>,
}

/// What a node of the tree is, its texts as characters.
pub enum MdTreeKind {
    Text(Seq<char>),
    SoftBreak,
    LineBreak,
    Paragraph,
    Heading(u8),
    Strong,
    Emph,
    Code(Seq<char>),
    CodeBlock(Seq<char>),
    ThematicBreak,
    BlockQuote,
    List { ordered: bool, start: u64 },
    Link(Seq<char>),
    Html,
    Other,
}

/// The tree that an [`MdNode`] holds.
pub struct MdTree {
    pub kind: MdTreeKind,
    pub children: Seq<MdTree>,
}

/// What a kind of node holds.
pub open spec fn kind_model(k: MdKind) -> MdTreeKind {
    match k {
        MdKind::Text(s) => MdTreeKind::Text(s@),
        MdKind::SoftBreak => MdTreeKind::SoftBreak,
        MdKind::LineBreak => MdTreeKind::LineBreak,
        MdKind::Paragraph => MdTreeKind::Paragraph,
        MdKind::Heading(level) => MdTreeKind::Heading(level),
        MdKind::Strong => MdTreeKind::Strong,
        MdKind::Emph => MdTreeKind::Emph,
        MdKind::Code(s) => MdTreeKind::Code(s@),
        MdKind::CodeBlock(s) => MdTreeKind::CodeBlock(s@),
        MdKind::ThematicBreak => MdTreeKind::ThematicBreak,
        MdKind::BlockQuote => MdTreeKind::BlockQuote,
        MdKind::List { ordered, start } => MdTreeKind::List { ordered, start },
        MdKind::Link(s) => MdTreeKind::Link(s@),
        MdKind::Html => MdTreeKind::Html,
        MdKind::Other => MdTreeKind::Other,
    }
}

/// The tree that `n` holds.
pub open spec fn node_model(n: MdNode) -> MdTree
    decreases n,
{
    MdTree { kind: kind_model(n.kind), children: node_models(n.children@) }
}

/// The trees that the nodes of `s` hold.
pub open spec fn node_models(s: Seq<MdNode>) -> Seq<MdTree>
    decreases s,
{
    if s.len() == 0 {
        seq![]
    } else {
        node_models(s.drop_last()).push(node_model(s.last()))
    }
}

impl View for MdNode {
    type V = MdTree;

    open spec fn view(&self) -> MdTree {
        node_model(*self)
    }
}

/// The trees of a sequence of nodes are those of its nodes, one by one.
pub proof fn lemma_node_models(s: Seq<MdNode>)
    ensures
        node_models(s).len() == s.len(),
        forall|i: int| 0 <= i < s.len() ==> #[trigger] node_models(s)[i] == node_model(s[i]),
    decreases s.len(),
{
    if s.len() > 0 {
        lemma_node_models(s.drop_last());
    }
}

/// A list item whose only child is a paragraph: it is written on the marker's line.
pub open spec fn is_tight(item: MdTree) -> bool {
    item.children.len() == 1 && item.children[0].kind is Paragraph
}

/// The colour of a heading of `level`.
pub open spec fn heading_color(st: Styles, level: u8) -> Seq<char> {
    if level == 1 {
        st.heading1@
    } else if level == 2 {
        st.heading2@
    } else if level == 3 {
        st.heading3@
    } else {
        st.heading_other@
    }
}

/// `n` copies of `c`.
pub open spec fn repeat_char(c: char, n: nat) -> Seq<char> {
    Seq::new(n, |i: int| c)
}

/// Each line indented by four spaces and ended by a line feed.
pub open spec fn indented(ls: Seq<Seq<char>>) -> Seq<char>
    decreases ls.len(),
{
    if ls.len() == 0 {
        seq![]
    } else {
        indented(ls.drop_last()) + seq![' ', ' ', ' ', ' '] + ls.last() + seq!['\n']
    }
}

/// The terminal text of `n`.
pub open spec fn rendered(n: MdTree, st: Styles) -> Seq<char>
    decreases n,
{
    match n.kind {
        MdTreeKind::Text(s) => s,
        MdTreeKind::SoftBreak => seq![' '],
        MdTreeKind::LineBreak => seq!['\n'],
        MdTreeKind::Html => seq![],
        MdTreeKind::Other => rendered_all(n.children, st),
        MdTreeKind::Paragraph => rendered_all(n.children, st) + seq!['\n'],
        MdTreeKind::Heading(level) => heading_color(st, level) + st.bold@ + (if level == 1 {
            st.underlined@
        } else {
            seq![]
        }) + rendered_all(n.children, st) + st.reset@ + seq!['\n'],
        MdTreeKind::Strong => st.strong@ + st.bold@ + rendered_all(n.children, st) + st.reset@,
        MdTreeKind::Emph => st.emph@ + st.italic@ + rendered_all(n.children, st) + st.reset@,
        MdTreeKind::Code(literal) => st.code@ + literal + st.reset@,
        MdTreeKind::CodeBlock(literal) => st.code@ + indented(lines_of(literal)) + st.reset@,
        MdTreeKind::ThematicBreak => st.rule@ + repeat_char('─', 60) + st.reset@ + seq!['\n'],
        MdTreeKind::BlockQuote => quoted_all(n.children, st),
        MdTreeKind::List { ordered, start } => listed(n.children, st, ordered, start as nat),
        MdTreeKind::Link(url) => rendered_all(n.children, st) + (if url.len() > 0 {
            st.link@ + seq![' ', '('] + url + seq![')'] + st.reset@
        } else {
            seq![]
        }),
    }
}

/// The terminal text of the nodes of `s`, one after another.
pub open spec fn rendered_all(s: Seq<MdTree>, st: Styles) -> Seq<char>
    decreases s,
{
    if s.len() == 0 {
        seq![]
    } else {
        rendered_all(s.drop_last(), st) + rendered(s.last(), st)
    }
}

/// The children of a block quote, each behind the quote bar.
pub open spec fn quoted_all(s: Seq<MdTree>, st: Styles) -> Seq<char>
    decreases s,
{
    if s.len() == 0 {
        seq![]
    } else {
        quoted_all(s.drop_last(), st) + st.quote@ + seq!['│'] + st.reset@ + seq![' '] + rendered(
            s.last(),
            st,
        )
    }
}

/// A block quote with no children renders as nothing.
pub proof fn law_empty_quote_renders_nothing(st: Styles)
    ensures
        rendered(MdTree { kind: MdTreeKind::BlockQuote, children: seq![] }, st) == Seq::<char>::empty(),
{
}

/// Adding a child at the end of a block quote adds, at the end of its rendering,
/// the quote bar and the child's own rendering: every child is written, in order,
/// each behind the bar.
pub proof fn law_quote_renders_every_child(cs: Seq<MdTree>, c: MdTree, st: Styles)
    ensures
        rendered(MdTree { kind: MdTreeKind::BlockQuote, children: cs.push(c) }, st) == rendered(
            MdTree { kind: MdTreeKind::BlockQuote, children: cs },
            st,
        ) + st.quote@ + seq!['│'] + st.reset@ + seq![' '] + rendered(c, st),
{
    assert(cs.push(c).drop_last() =~= cs);
    assert(cs.push(c).last() == c);
}

/// Adding an item at the end of a list adds, at the end of its rendering, that
/// item under the number that follows the items before it (the list's start
/// number plus their count), or under a bullet.
pub proof fn law_list_renders_every_item(
    cs: Seq<MdTree>,
    c: MdTree,
    st: Styles,
    ordered: bool,
    start: u64,
)
    ensures
        rendered(MdTree { kind: MdTreeKind::List { ordered, start }, children: cs.push(c) }, st)
            == rendered(MdTree { kind: MdTreeKind::List { ordered, start }, children: cs }, st)
            + list_item(c, st, ordered, (start + cs.len()) as nat),
{
    assert(cs.push(c).drop_last() =~= cs);
    assert(cs.push(c).last() == c);
}

/// The items of a list whose first item has the number `start`.
pub open spec fn listed(s: Seq<MdTree>, st: Styles, ordered: bool, start: nat) -> Seq<char>
    decreases s,
{
    if s.len() == 0 {
        seq![]
    } else {
        listed(s.drop_last(), st, ordered, start) + list_item(
            s.last(),
            st,
            ordered,
            (start + s.len() - 1) as nat,
        )
    }
}

/// The marker of a list item: its number, or a bullet.
pub open spec fn item_marker(st: Styles, ordered: bool, num: nat) -> Seq<char> {
    if ordered {
        st.number@ + decimal(num) + seq!['.'] + st.reset@
    } else {
        st.bullet@ + seq!['›'] + st.reset@
    }
}

/// One list item: its marker, a space, then its content; a tight item's paragraph
/// stays on the marker's line.
pub open spec fn list_item(item: MdTree, st: Styles, ordered: bool, num: nat) -> Seq<char>
    decreases item,
{
    item_marker(st, ordered, num) + seq![' '] + if is_tight(item) {
        rendered_all(item.children[0].children, st) + seq!['\n']
    } else {
        rendered_all(item.children, st)
    }
}

/// Writes the children of `node`, one after another.
fn render_children(node: &MdNode, st: &Styles, out: &mut Vec<char>)
    ensures
        final(out)@ == old(out)@ + rendered_all(node@.children, *st),
    decreases node, 0nat,
{
    proof {
        lemma_node_models(node.children@);
    }
    let ghost start = out@;
    let mut i: usize = 0;
    while i < node.children.len()
        invariant
            i <= node.children@.len(),
            node@.children.len() == node.children@.len(),
            forall|j: int| 0 <= j < node.children@.len() ==> #[trigger] node@.children[j] == node.children@[j]@,
            out@ == start + rendered_all(node@.children.take(i as int), *st),
        decreases node.children@.len() - i,
    {
        render_node(&node.children[i], st, out);
        assert(node@.children.take(i + 1).drop_last() =~= node@.children.take(i as int));
        assert(node@.children[i as int] == node.children@[i as int]@);
        i = i + 1;
    }
    assert(node@.children.take(i as int) =~= node@.children);
}

/// Writes one list item, its marker first.
fn render_list_item(item: &MdNode, st: &Styles, out: &mut Vec<char>, ordered: bool, num: u128)
    ensures
        final(out)@ == old(out)@ + list_item(item@, *st, ordered, num as nat),
    decreases item, 1nat,
{
    proof {
        lemma_node_models(item.children@);
    }
    if ordered {
        push_str(out, st.number.as_str());
        let digits = decimal_chars(num);
        push_chars(out, &digits);
        out.push('.');
        push_str(out, st.reset.as_str());
    } else {
        push_str(out, st.bullet.as_str());
        out.push('›');
        push_str(out, st.reset.as_str());
    }
    out.push(' ');
    let tight = item.children.len() == 1 && match item.children[0].kind {
        MdKind::Paragraph => true,
        _ => false,
    };
    if tight {
        assert(item@.children[0] == item.children@[0]@);
        render_children(&item.children[0], st, out);
        out.push('\n');
    } else {
        render_children(item, st, out);
    }
}

/// Writes `n` as terminal text. It only appends to `out`, and raw HTML adds
/// nothing.
pub fn render_node(n: &MdNode, st: &Styles, out: &mut Vec<char>)
    ensures
        final(out)@ == old(out)@ + rendered(n@, *st),
        (n.kind matches MdKind::Html) ==> final(out)@ == old(out)@,
    decreases n, 2nat,
{
    proof {
        lemma_node_models(n.children@);
    }
    match &n.kind {
        MdKind::Text(s) => push_str(out, s.as_str()),
        MdKind::SoftBreak => out.push(' '),
        MdKind::LineBreak => out.push('\n'),
        MdKind::Html => {},
        MdKind::Other => render_children(n, st, out),
        MdKind::Paragraph => {
            render_children(n, st, out);
            out.push('\n');
        },
        MdKind::Heading(level) => {
            if *level == 1 {
                push_str(out, st.heading1.as_str());
            } else if *level == 2 {
                push_str(out, st.heading2.as_str());
            } else if *level == 3 {
                push_str(out, st.heading3.as_str());
            } else {
                push_str(out, st.heading_other.as_str());
            }
            push_str(out, st.bold.as_str());
            if *level == 1 {
                push_str(out, st.underlined.as_str());
            }
            render_children(n, st, out);
            push_str(out, st.reset.as_str());
            out.push('\n');
        },
        MdKind::Strong => {
            push_str(out, st.strong.as_str());
            push_str(out, st.bold.as_str());
            render_children(n, st, out);
            push_str(out, st.reset.as_str());
        },
        MdKind::Emph => {
            push_str(out, st.emph.as_str());
            push_str(out, st.italic.as_str());
            render_children(n, st, out);
            push_str(out, st.reset.as_str());
        },
        MdKind::Code(literal) => {
            push_str(out, st.code.as_str());
            push_str(out, literal.as_str());
            push_str(out, st.reset.as_str());
        },
        MdKind::CodeBlock(literal) => {
            push_str(out, st.code.as_str());
            let text = crate::text::chars_of(literal.as_str());
            let ls = lines(&text);
            let ghost start = out@;
            let mut i: usize = 0;
            while i < ls.len()
                invariant
                    i <= ls@.len(),
                    ls.deep_view() == lines_of(literal@),
                    out@ == start + indented(ls.deep_view().take(i as int)),
                decreases ls@.len() - i,
            {
                out.push(' ');
                out.push(' ');
                out.push(' ');
                out.push(' ');
                push_chars(out, &ls[i]);
                out.push('\n');
                assert(ls.deep_view().take(i + 1).drop_last() =~= ls.deep_view().take(i as int));
                assert(ls.deep_view()[i as int] == ls@[i as int]@);
                i = i + 1;
            }
            assert(ls.deep_view().take(i as int) =~= ls.deep_view());
            push_str(out, st.reset.as_str());
        },
        MdKind::ThematicBreak => {
            push_str(out, st.rule.as_str());
            let ghost start = out@;
            let mut k: usize = 0;
            while k < 60
                invariant
                    k <= 60,
                    out@ == start + repeat_char('─', k as nat),
                decreases 60 - k,
            {
                out.push('─');
                assert(repeat_char('─', (k + 1) as nat) =~= repeat_char('─', k as nat).push('─'));
                k = k + 1;
            }
            push_str(out, st.reset.as_str());
            out.push('\n');
        },
        MdKind::BlockQuote => {
            let ghost start = out@;
            let mut i: usize = 0;
            while i < n.children.len()
                invariant
                    i <= n.children@.len(),
                    n@.children.len() == n.children@.len(),
                    forall|j: int| 0 <= j < n.children@.len() ==> #[trigger] n@.children[j] == n.children@[j]@,
                    out@ == start + quoted_all(n@.children.take(i as int), *st),
                decreases n.children@.len() - i,
            {
                push_str(out, st.quote.as_str());
                out.push('│');
                push_str(out, st.reset.as_str());
                out.push(' ');
                render_node(&n.children[i], st, out);
                assert(n@.children.take(i + 1).drop_last() =~= n@.children.take(i as int));
                assert(n@.children[i as int] == n.children@[i as int]@);
                i = i + 1;
            }
            assert(n@.children.take(i as int) =~= n@.children);
        },
        MdKind::List { ordered, start } => {
            let ghost begin = out@;
            let mut i: usize = 0;
            while i < n.children.len()
                invariant
                    i <= n.children@.len(),
                    n@.children.len() == n.children@.len(),
                    forall|j: int| 0 <= j < n.children@.len() ==> #[trigger] n@.children[j] == n.children@[j]@,
                    out@ == begin + listed(n@.children.take(i as int), *st, *ordered, *start as nat),
                decreases n.children@.len() - i,
            {
                let num: u128 = *start as u128 + i as u128;
                render_list_item(&n.children[i], st, out, *ordered, num);
                assert(n@.children.take(i + 1).drop_last() =~= n@.children.take(i as int));
                assert(n@.children[i as int] == n.children@[i as int]@);
                i = i + 1;
            }
            assert(n@.children.take(i as int) =~= n@.children);
        },
        MdKind::Link(url) => {
            render_children(n, st, out);
            let url_chars = crate::text::chars_of(url.as_str());
            if url_chars.len() > 0 {
                push_str(out, st.link.as_str());
                out.push(' ');
                out.push('(');
                push_str(out, url.as_str());
                out.push(')');
                push_str(out, st.reset.as_str());
            }
        },
    }
}

/// The terminal text of the document `doc`.
pub fn render_document(doc: &MdNode, st: &Styles) -> (text: String)
    ensures
        text@ == rendered(doc@, *st),
{
    let mut out: Vec<char> = Vec::new();
    render_node(doc, st, &mut out);
    assert(out@ =~= rendered(doc@, *st));
    crate::text::string_from_chars(out.as_slice())
}

} // verus!
