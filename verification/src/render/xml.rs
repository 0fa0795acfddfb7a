//! Reading the CommonMark XML that comrak writes for a parsed document back into
//! a [`MdNode`] tree.
//!
//! comrak writes one element per line: `<name attr="value" ...>` with the children
//! on the lines below and `</name>` after them, `<name ... />` for a node without
//! children, and `<name ... xml:space="preserve">text</name>` for a node that holds
//! text. Text and attribute values have `"`, `&`, `<` and `>` escaped, all but the
//! info string of a fenced code block, which comrak writes as it is: one holding a
//! `"` or an `&` makes the XML unreadable here.
use vstd::prelude::*;
use crate::render::tree::{MdKind, MdNode, MdTree, MdTreeKind, node_models};
use crate::text::{chars_of, parse_i64, parse_u8, parsed_i64, parsed_u8, string_from_chars};

verus! {

/// The word `w` stands in `s` at `p`.
pub open spec fn has_at(s: Seq<char>, p: int, w: Seq<char>) -> bool {
    0 <= p && p + w.len() <= s.len() && s.subrange(p, p + w.len()) == w
}

/// A character that can be part of an element or attribute name.
pub open spec fn is_name_char(c: char) -> bool {
    !(c == ' ' || c == '\n' || c == '>' || c == '/' || c == '=' || c == '"' || c == '<'
        || c == '&')
}

/// Where the name that starts at `p` ends.
pub open spec fn name_end(s: Seq<char>, p: int) -> int
    decreases s.len() - p,
{
    if 0 <= p < s.len() && is_name_char(s[p]) {
        name_end(s, p + 1)
    } else {
        p
    }
}

/// Where the spaces and line feeds that start at `p` end.
pub open spec fn ws_end(s: Seq<char>, p: int) -> int
    decreases s.len() - p,
{
    if 0 <= p < s.len() && (s[p] == ' ' || s[p] == '\n') {
        ws_end(s, p + 1)
    } else {
        p
    }
}

/// The character that the entity at `p` stands for, and the entity's length.
pub open spec fn entity_at(s: Seq<char>, p: int) -> Option<(char, int)> {
    if has_at(s, p, "&quot;"@) {
        Some(('"', 6))
    } else if has_at(s, p, "&amp;"@) {
        Some(('&', 5))
    } else if has_at(s, p, "&lt;"@) {
        Some(('<', 4))
    } else if has_at(s, p, "&gt;"@) {
        Some(('>', 4))
    } else {
        None
    }
}

/// `r` with `acc` put before its text.
pub open spec fn prefixed(acc: Seq<char>, r: Option<(Seq<char>, int)>) -> Option<(Seq<char>, int)> {
    match r {
        Some((t, e)) => Some((acc + t, e)),
        None => None,
    }
}

/// The escaped text from `p` up to the first `stop`: its characters, and where
/// `stop` is; `None` where `stop` never comes or an `&` starts no known entity.
pub open spec fn unescaped(s: Seq<char>, p: int, stop: char) -> Option<(Seq<char>, int)>
    decreases s.len() - p,
{
    if p < 0 || p >= s.len() {
        None
    } else if s[p] == stop {
        Some((seq![], p))
    } else if s[p] == '&' {
        match entity_at(s, p) {
            Some((c, k)) => if 0 < k && p + k <= s.len() {
                prefixed(seq![c], unescaped(s, p + k, stop))
            } else {
                None
            },
            None => None,
        }
    } else {
        prefixed(seq![s[p]], unescaped(s, p + 1, stop))
    }
}

/// `r` with the attribute `a` put before its attributes.
pub open spec fn with_attr(a: (Seq<char>, Seq<char>), r: Option<(Seq<(Seq<char>, Seq<char>)>, int)>) -> Option<
    (Seq<(Seq<char>, Seq<char>)>, int),
> {
    match r {
        Some((rest, e)) => Some((seq![a] + rest, e)),
        None => None,
    }
}

/// The attributes ` name="value"` from `p` on, and where they end.
pub open spec fn attrs(s: Seq<char>, p: int) -> Option<(Seq<(Seq<char>, Seq<char>)>, int)>
    decreases s.len() - p,
{
    if 0 <= p && p + 1 < s.len() && s[p] == ' ' && is_name_char(s[p + 1]) {
        let ne = name_end(s, p + 1);
        if ne > p + 1 && has_at(s, ne, seq!['=', '"']) {
            match unescaped(s, ne + 2, '"') {
                Some((v, q)) => if p < q < s.len() {
                    with_attr((s.subrange(p + 1, ne), v), attrs(s, q + 1))
                } else {
                    None
                },
                None => None,
            }
        } else {
            None
        }
    } else {
        Some((seq![], p))
    }
}

/// The value of the first attribute named `key`.
pub open spec fn attr_value(at: Seq<(Seq<char>, Seq<char>)>, key: Seq<char>) -> Option<Seq<char>>
    decreases at.len(),
{
    if at.len() == 0 {
        None
    } else if at[0].0 == key {
        Some(at[0].1)
    } else {
        attr_value(at.drop_first(), key)
    }
}

/// Elements whose content is text rather than child elements.
pub open spec fn holds_text(name: Seq<char>) -> bool {
    name == "text"@ || name == "code"@ || name == "code_block"@ || name == "html_block"@ || name
        == "html_inline"@
}

/// The level of a heading, 0 where the attribute is missing or no byte.
pub open spec fn heading_level(at: Seq<(Seq<char>, Seq<char>)>) -> u8 {
    match attr_value(at, "level"@) {
        Some(v) => match parsed_u8(v) {
            Some(l) => l,
            None => 0,
        },
        None => 0,
    }
}

/// The number of a list's first item, 1 where the attribute is missing.
pub open spec fn list_start(at: Seq<(Seq<char>, Seq<char>)>) -> u64 {
    match attr_value(at, "start"@) {
        Some(v) => match parsed_i64(v) {
            Some(n) => if n >= 0 {
                n as u64
            } else {
                1
            },
            None => 1,
        },
        None => 1,
    }
}

/// The kind of node that the element `name` stands for.
pub open spec fn element_kind(name: Seq<char>, at: Seq<(Seq<char>, Seq<char>)>, text: Seq<char>) -> MdTreeKind {
    if name == "text"@ {
        MdTreeKind::Text(text)
    } else if name == "softbreak"@ {
        MdTreeKind::SoftBreak
    } else if name == "linebreak"@ {
        MdTreeKind::LineBreak
    } else if name == "paragraph"@ {
        MdTreeKind::Paragraph
    } else if name == "heading"@ {
        MdTreeKind::Heading(heading_level(at))
    } else if name == "strong"@ {
        MdTreeKind::Strong
    } else if name == "emph"@ {
        MdTreeKind::Emph
    } else if name == "code"@ {
        MdTreeKind::Code(text)
    } else if name == "code_block"@ {
        MdTreeKind::CodeBlock(text)
    } else if name == "thematic_break"@ {
        MdTreeKind::ThematicBreak
    } else if name == "block_quote"@ {
        MdTreeKind::BlockQuote
    } else if name == "list"@ {
        MdTreeKind::List {
            ordered: attr_value(at, "type"@) == Some("ordered"@),
            start: list_start(at),
        }
    } else if name == "link"@ {
        MdTreeKind::Link(
            match attr_value(at, "destination"@) {
                Some(d) => d,
                None => seq![],
            },
        )
    } else if name == "html_block"@ || name == "html_inline"@ {
        MdTreeKind::Html
    } else {
        MdTreeKind::Other
    }
}

/// The closing tag `</name>` stands at `q`.
pub open spec fn closes_at(s: Seq<char>, q: int, name: Seq<char>) -> bool {
    has_at(s, q, seq!['<', '/'] + name + seq!['>'])
}

/// The element that starts at `p`, and where it ends.
pub open spec fn element(s: Seq<char>, p: int) -> Option<(MdTree, int)>
    decreases s.len() - p, 0int,
{
    if !(0 <= p < s.len() && s[p] == '<') {
        None
    } else {
        let ne = name_end(s, p + 1);
        let name = s.subrange(p + 1, ne);
        if ne <= p + 1 {
            None
        } else {
            match attrs(s, ne) {
                None => None,
                Some((at, r)) => if !(p < r < s.len()) {
                    None
                } else if has_at(s, r, seq![' ', '/', '>']) {
                    Some((MdTree { kind: element_kind(name, at, seq![]), children: seq![] }, r + 3))
                } else if has_at(s, r, seq!['/', '>']) {
                    Some((MdTree { kind: element_kind(name, at, seq![]), children: seq![] }, r + 2))
                } else if s[r] != '>' {
                    None
                } else if holds_text(name) {
                    match unescaped(s, r + 1, '<') {
                        Some((text, q)) => if closes_at(s, q, name) {
                            Some(
                                (
                                    MdTree { kind: element_kind(name, at, text), children: seq![] },
                                    q + name.len() + 3,
                                ),
                            )
                        } else {
                            None
                        },
                        None => None,
                    }
                } else {
                    match children(s, r + 1, name) {
                        Some((kids, e)) => Some(
                            (MdTree { kind: element_kind(name, at, seq![]), children: kids }, e),
                        ),
                        None => None,
                    }
                }
            }
        }
    }
}

/// The child elements from `p` on, up to and past the closing tag of `name`.
pub open spec fn children(s: Seq<char>, p: int, name: Seq<char>) -> Option<(Seq<MdTree>, int)>
    decreases s.len() - p, 1int,
{
    let w = ws_end(s, p);
    if !(0 <= p <= w <= s.len()) {
        None
    } else if closes_at(s, w, name) {
        Some((seq![], w + name.len() + 3))
    } else {
        match element(s, w) {
            Some((c, q)) => if w < q <= s.len() {
                match children(s, q, name) {
                    Some((cs, e)) => Some((seq![c] + cs, e)),
                    None => None,
                }
            } else {
                None
            },
            None => None,
        }
    }
}

/// Where the line that `p` is on ends.
pub open spec fn line_end(s: Seq<char>, p: int) -> int
    decreases s.len() - p,
{
    if 0 <= p < s.len() && s[p] != '\n' {
        line_end(s, p + 1)
    } else {
        p
    }
}

/// Where the lines of `<?...?>` and `<!...>` declarations that start at `p` end.
pub open spec fn after_declarations(s: Seq<char>, p: int) -> int
    decreases s.len() - p,
{
    let e = line_end(s, p);
    if 0 <= p && p + 1 < s.len() && s[p] == '<' && (s[p + 1] == '?' || s[p + 1] == '!') && p <= e
        < s.len() {
        after_declarations(s, e + 1)
    } else {
        p
    }
}

/// The document that the CommonMark XML `s` holds.
pub open spec fn document_of(s: Seq<char>) -> Option<MdTree> {
    match element(s, after_declarations(s, 0)) {
        Some((t, e)) => Some(t),
        None => None,
    }
}

/// Whether the characters of `w` stand in `s` at `p`.
fn word_at(s: &Vec<char>, p: usize, w: &Vec<char>) -> (r: bool)
    ensures
        r == has_at(s@, p as int, w@),
{
    if p > s.len() || w.len() > s.len() - p {
        return false;
    }
    let mut j: usize = 0;
    while j < w.len()
        invariant
            p + w@.len() <= s.len(),
            j <= w@.len(),
            forall|k: int| 0 <= k < j ==> s@[p + k] == w@[k],
        decreases w@.len() - j,
    {
        if s[p + j] != w[j] {
            assert(s@.subrange(p as int, p + w@.len())[j as int] != w@[j as int]);
            return false;
        }
        j = j + 1;
    }
    assert(s@.subrange(p as int, p + w@.len()) =~= w@);
    true
}

/// Whether the word `w` stands in `s` at `p`.
fn str_at(s: &Vec<char>, p: usize, w: &str) -> (r: bool)
    ensures
        r == has_at(s@, p as int, w@),
{
    let wc = chars_of(w);
    word_at(s, p, &wc)
}

/// Whether `name` is the word `w`.
fn is_word(name: &Vec<char>, w: &str) -> (r: bool)
    ensures
        r == (name@ == w@),
{
    let wc = chars_of(w);
    if wc.len() != name.len() {
        return false;
    }
    let r = word_at(name, 0, &wc);
    assert(name@.subrange(0, wc@.len() as int) =~= name@);
    r
}

fn name_end_at(s: &Vec<char>, p: usize) -> (e: usize)
    requires
        p <= s@.len(),
    ensures
        e == name_end(s@, p as int),
        p <= e <= s@.len(),
{
    let mut i = p;
    while i < s.len() && !(s[i] == ' ' || s[i] == '\n' || s[i] == '>' || s[i] == '/' || s[i]
        == '=' || s[i] == '"' || s[i] == '<' || s[i] == '&')
        invariant
            p <= i <= s@.len(),
            name_end(s@, p as int) == name_end(s@, i as int),
        decreases s@.len() - i,
    {
        i = i + 1;
    }
    i
}

fn ws_end_at(s: &Vec<char>, p: usize) -> (e: usize)
    requires
        p <= s@.len(),
    ensures
        e == ws_end(s@, p as int),
        p <= e <= s@.len(),
{
    let mut i = p;
    while i < s.len() && (s[i] == ' ' || s[i] == '\n')
        invariant
            p <= i <= s@.len(),
            ws_end(s@, p as int) == ws_end(s@, i as int),
        decreases s@.len() - i,
    {
        i = i + 1;
    }
    i
}

fn entity(s: &Vec<char>, p: usize) -> (r: Option<(char, usize)>)
    ensures
        match r {
            Some((c, k)) => entity_at(s@, p as int) == Some((c, k as int)),
            None => entity_at(s@, p as int) is None,
        },
{
    if str_at(s, p, "&quot;") {
        Some(('"', 6))
    } else if str_at(s, p, "&amp;") {
        Some(('&', 5))
    } else if str_at(s, p, "&lt;") {
        Some(('<', 4))
    } else if str_at(s, p, "&gt;") {
        Some(('>', 4))
    } else {
        None
    }
}

proof fn lemma_prefixed(acc: Seq<char>, c: char, r: Option<(Seq<char>, int)>)
    ensures
        prefixed(acc, prefixed(seq![c], r)) == prefixed(acc.push(c), r),
{
    if let Some((t, e)) = r {
        assert(acc + (seq![c] + t) =~= acc.push(c) + t);
    }
}

/// The escaped text from `p` up to the first `stop`, and where `stop` is.
fn unescape_until(s: &Vec<char>, p: usize, stop: char) -> (r: Option<(Vec<char>, usize)>)
    ensures
        match r {
            Some((t, e)) => unescaped(s@, p as int, stop) == Some((t@, e as int)),
            None => unescaped(s@, p as int, stop) is None,
        },
{
    let mut acc: Vec<char> = Vec::new();
    let mut i = p;
    assert(prefixed(acc@, unescaped(s@, i as int, stop)) =~= unescaped(s@, p as int, stop)) by {
        if let Some((t, e)) = unescaped(s@, p as int, stop) {
            assert(acc@ + t =~= t);
        }
    }
    loop
        invariant
            p <= i,
            unescaped(s@, p as int, stop) == prefixed(acc@, unescaped(s@, i as int, stop)),
        decreases s@.len() - i,
    {
        if i >= s.len() {
            return None;
        }
        if s[i] == stop {
            assert(acc@ + seq![] =~= acc@);
            return Some((acc, i));
        }
        if s[i] == '&' {
            match entity(s, i) {
                Some((c, k)) => {
                    if k == 0 || k > s.len() - i {
                        return None;
                    }
                    proof {
                        lemma_prefixed(acc@, c, unescaped(s@, i + k, stop));
                    }
                    acc.push(c);
                    i = i + k;
                },
                None => {
                    return None;
                },
            }
        } else {
            proof {
                lemma_prefixed(acc@, s@[i as int], unescaped(s@, i + 1, stop));
            }
            acc.push(s[i]);
            i = i + 1;
        }
    }
}

/// `r` with `acc` put before its attributes.
pub open spec fn attrs_after(acc: Seq<(Seq<char>, Seq<char>)>, r: Option<(Seq<(Seq<char>, Seq<char>)>, int)>) -> Option<
    (Seq<(Seq<char>, Seq<char>)>, int),
> {
    match r {
        Some((rest, e)) => Some((acc + rest, e)),
        None => None,
    }
}

/// The attributes ` name="value"` from `p` on, and where they end.
fn read_attrs(s: &Vec<char>, p: usize) -> (r: Option<(Vec<(Vec<char>, Vec<char>)>, usize)>)
    ensures
        match r {
            Some((at, e)) => attrs(s@, p as int) == Some((at.deep_view(), e as int)),
            None => attrs(s@, p as int) is None,
        },
{
    let mut acc: Vec<(Vec<char>, Vec<char>)> = Vec::new();
    let mut i = p;
    assert(attrs_after(acc.deep_view(), attrs(s@, i as int)) =~= attrs(s@, p as int)) by {
        if let Some((t, e)) = attrs(s@, p as int) {
            assert(acc.deep_view() + t =~= t);
        }
    }
    loop
        invariant
            p <= i,
            attrs(s@, p as int) == attrs_after(acc.deep_view(), attrs(s@, i as int)),
        decreases s@.len() - i,
    {
        if !(i < s.len() && i + 1 < s.len() && s[i] == ' ' && !(s[i + 1] == ' ' || s[i + 1] == '\n'
            || s[i + 1] == '>' || s[i + 1] == '/' || s[i + 1] == '=' || s[i + 1] == '"' || s[i + 1]
            == '<' || s[i + 1] == '&')) {
            assert(acc.deep_view() + seq![] =~= acc.deep_view());
            return Some((acc, i));
        }
        let ne = name_end_at(s, i + 1);
        if !(ne > i + 1 && str_at(s, ne, "=\"")) {
            assert("=\""@ == seq!['=', '"']) by {
                reveal_strlit("=\"");
            }
            return None;
        }
        assert("=\""@ == seq!['=', '"']) by {
            reveal_strlit("=\"");
        }
        let (v, q) = match unescape_until(s, ne + 2, '"') {
            Some(x) => x,
            None => {
                return None;
            },
        };
        if !(i < q && q < s.len()) {
            return None;
        }
        let mut name: Vec<char> = Vec::new();
        let mut k = i + 1;
        while k < ne
            invariant
                i + 1 <= k <= ne <= s@.len(),
                name@ == s@.subrange(i + 1, k as int),
            decreases ne - k,
        {
            name.push(s[k]);
            assert(s@.subrange(i + 1, k + 1) =~= s@.subrange(i + 1, k as int).push(s@[k as int]));
            k = k + 1;
        }
        let ghost a = (name@, v@);
        let ghost before = acc.deep_view();
        let ghost prior = acc@;
        acc.push((name, v));
        assert(acc.deep_view() =~= before.push(a)) by {
            assert forall|j: int| 0 <= j < acc@.len() implies acc.deep_view()[j] == before.push(a)[j] by {
                if j < before.len() {
                    assert(acc@[j] == prior[j]);
                }
            }
        }
        assert(attrs_after(before, with_attr(a, attrs(s@, q + 1))) == attrs_after(
            before.push(a),
            attrs(s@, q + 1),
        )) by {
            if let Some((rest, e)) = attrs(s@, q + 1) {
                assert(before + (seq![a] + rest) =~= before.push(a) + rest);
            }
        }
        i = q + 1;
    }
}

/// Where the first attribute named `key` is.
fn find_attr(at: &Vec<(Vec<char>, Vec<char>)>, key: &str) -> (r: Option<usize>)
    ensures
        match r {
            Some(i) => i < at@.len() && attr_value(at.deep_view(), key@) == Some(at@[i as int].1@),
            None => attr_value(at.deep_view(), key@) is None,
        },
{
    let ghost dv = at.deep_view();
    let mut i: usize = 0;
    assert(dv.subrange(0, dv.len() as int) =~= dv);
    while i < at.len()
        invariant
            dv == at.deep_view(),
            i <= at@.len(),
            attr_value(dv, key@) == attr_value(dv.subrange(i as int, dv.len() as int), key@),
        decreases at@.len() - i,
    {
        assert(dv[i as int] == (at@[i as int].0@, at@[i as int].1@));
        if is_word(&at[i].0, key) {
            return Some(i);
        }
        assert(dv.subrange(i as int, dv.len() as int).drop_first() =~= dv.subrange(
            i + 1,
            dv.len() as int,
        ));
        i = i + 1;
    }
    None
}

/// The value of attribute `i` as a string.
fn attr_string(at: &Vec<(Vec<char>, Vec<char>)>, i: usize) -> (v: String)
    requires
        i < at@.len(),
    ensures
        v@ == at@[i as int].1@,
{
    string_from_chars(at[i].1.as_slice())
}

/// The kind of node that the element `name` stands for.
fn element_kind_of(name: &Vec<char>, at: &Vec<(Vec<char>, Vec<char>)>, text: Vec<char>) -> (k: MdKind)
    ensures
        crate::render::tree::kind_model(k) == element_kind(name@, at.deep_view(), text@),
{
    if is_word(name, "text") {
        MdKind::Text(string_from_chars(text.as_slice()))
    } else if is_word(name, "softbreak") {
        MdKind::SoftBreak
    } else if is_word(name, "linebreak") {
        MdKind::LineBreak
    } else if is_word(name, "paragraph") {
        MdKind::Paragraph
    } else if is_word(name, "heading") {
        let level = match find_attr(at, "level") {
            Some(i) => match parse_u8(attr_string(at, i).as_str()) {
                Some(l) => l,
                None => 0,
            },
            None => 0,
        };
        MdKind::Heading(level)
    } else if is_word(name, "strong") {
        MdKind::Strong
    } else if is_word(name, "emph") {
        MdKind::Emph
    } else if is_word(name, "code") {
        MdKind::Code(string_from_chars(text.as_slice()))
    } else if is_word(name, "code_block") {
        MdKind::CodeBlock(string_from_chars(text.as_slice()))
    } else if is_word(name, "thematic_break") {
        MdKind::ThematicBreak
    } else if is_word(name, "block_quote") {
        MdKind::BlockQuote
    } else if is_word(name, "list") {
        let ordered = match find_attr(at, "type") {
            Some(i) => is_word(&at[i].1, "ordered"),
            None => false,
        };
        let start: u64 = match find_attr(at, "start") {
            Some(i) => match parse_i64(attr_string(at, i).as_str()) {
                Some(n) => if n >= 0 {
                    n as u64
                } else {
                    1
                },
                None => 1,
            },
            None => 1,
        };
        MdKind::List { ordered, start }
    } else if is_word(name, "link") {
        let url = match find_attr(at, "destination") {
            Some(i) => attr_string(at, i),
            None => string_from_chars(Vec::<char>::new().as_slice()),
        };
        MdKind::Link(url)
    } else if is_word(name, "html_block") || is_word(name, "html_inline") {
        MdKind::Html
    } else {
        MdKind::Other
    }
}

/// Whether `name` holds text rather than child elements.
fn holds_text_of(name: &Vec<char>) -> (r: bool)
    ensures
        r == holds_text(name@),
{
    is_word(name, "text") || is_word(name, "code") || is_word(name, "code_block") || is_word(
        name,
        "html_block",
    ) || is_word(name, "html_inline")
}

/// Whether the closing tag of `name` stands at `q`.
fn closing_at(s: &Vec<char>, q: usize, name: &Vec<char>) -> (r: bool)
    ensures
        r == closes_at(s@, q as int, name@),
{
    let mut tag: Vec<char> = Vec::new();
    tag.push('<');
    tag.push('/');
    crate::text::push_chars(&mut tag, name);
    tag.push('>');
    assert(tag@ =~= seq!['<', '/'] + name@ + seq!['>']);
    word_at(s, q, &tag)
}

/// `r` with the trees `acc` put before its trees.
pub open spec fn trees_after(acc: Seq<MdTree>, r: Option<(Seq<MdTree>, int)>) -> Option<(Seq<MdTree>, int)> {
    match r {
        Some((cs, e)) => Some((acc + cs, e)),
        None => None,
    }
}

/// An element with children: its tree once `r` has read its children.
pub open spec fn with_children(name: Seq<char>, at: Seq<(Seq<char>, Seq<char>)>, r: Option<(Seq<MdTree>, int)>) -> Option<
    (MdTree, int),
> {
    match r {
        Some((kids, e)) => Some((MdTree { kind: element_kind(name, at, seq![]), children: kids }, e)),
        None => None,
    }
}

/// The element that starts at `p`, and where it ends.
fn read_element(s: &Vec<char>, p: usize) -> (r: Option<(MdNode, usize)>)
    ensures
        match r {
            Some((n, e)) => element(s@, p as int) == Some((n@, e as int)),
            None => element(s@, p as int) is None,
        },
    decreases s@.len() - p,
{
    if !(p < s.len() && s[p] == '<') {
        return None;
    }
    let ne = name_end_at(s, p + 1);
    if ne <= p + 1 {
        return None;
    }
    let name = crate::text::chars_between(s, p + 1, ne);
    let (at, r) = match read_attrs(s, ne) {
        Some(x) => x,
        None => {
            return None;
        },
    };
    if !(p < r && r < s.len()) {
        return None;
    }
    assert(" />"@ == seq![' ', '/', '>']) by {
        reveal_strlit(" />");
    }
    assert("/>"@ == seq!['/', '>']) by {
        reveal_strlit("/>");
    }
    if str_at(s, r, " />") {
        let kind = element_kind_of(&name, &at, Vec::new());
        let node = MdNode { kind, children: Vec::new() };
        assert(node@.children =~= Seq::<MdTree>::empty());
        return Some((node, r + 3));
    }
    if str_at(s, r, "/>") {
        let kind = element_kind_of(&name, &at, Vec::new());
        let node = MdNode { kind, children: Vec::new() };
        assert(node@.children =~= Seq::<MdTree>::empty());
        return Some((node, r + 2));
    }
    if s[r] != '>' {
        return None;
    }
    if holds_text_of(&name) {
        let (text, q) = match unescape_until(s, r + 1, '<') {
            Some(x) => x,
            None => {
                return None;
            },
        };
        if !closing_at(s, q, &name) {
            return None;
        }
        let kind = element_kind_of(&name, &at, text);
        let node = MdNode { kind, children: Vec::new() };
        assert(node@.children =~= Seq::<MdTree>::empty());
        return Some((node, q + name.len() + 3));
    }
    assert(element(s@, p as int) == with_children(name@, at.deep_view(), children(s@, r + 1, name@)));
    let mut kids: Vec<MdNode> = Vec::new();
    let mut i = r + 1;
    assert(trees_after(node_models(kids@), children(s@, i as int, name@)) =~= children(
        s@,
        r + 1,
        name@,
    )) by {
        if let Some((cs, e)) = children(s@, r + 1, name@) {
            assert(node_models(kids@) + cs =~= cs);
        }
    }
    loop
        invariant
            p < i <= s@.len(),
            p < r < s@.len(),
            element(s@, p as int) == with_children(name@, at.deep_view(), children(s@, r + 1, name@)),
            children(s@, r + 1, name@) == trees_after(node_models(kids@), children(s@, i as int, name@)),
        decreases s@.len() - i,
    {
        let w = ws_end_at(s, i);
        if closing_at(s, w, &name) {
            let total = s.len();
            assert(w + name@.len() + 3 <= total);
            let kind = element_kind_of(&name, &at, Vec::new());
            let node = MdNode { kind, children: kids };
            assert(node_models(node.children@) + seq![] =~= node_models(node.children@));
            return Some((node, w + name.len() + 3));
        }
        let (c, q) = match read_element(s, w) {
            Some(x) => x,
            None => {
                return None;
            },
        };
        if !(w < q && q <= s.len()) {
            return None;
        }
        let ghost before = kids@;
        kids.push(c);
        assert(kids@.drop_last() =~= before);
        assert(trees_after(node_models(before), children(s@, i as int, name@)) == trees_after(
            node_models(kids@),
            children(s@, q as int, name@),
        )) by {
            if let Some((cs, e)) = children(s@, q as int, name@) {
                assert(node_models(before) + (seq![c@] + cs) =~= node_models(before).push(c@) + cs);
            }
        }
        i = q;
    }
}

/// Where the line that `p` is on ends.
fn line_end_at(s: &Vec<char>, p: usize) -> (e: usize)
    requires
        p <= s@.len(),
    ensures
        e == line_end(s@, p as int),
        p <= e <= s@.len(),
{
    let mut i = p;
    while i < s.len() && s[i] != '\n'
        invariant
            p <= i <= s@.len(),
            line_end(s@, p as int) == line_end(s@, i as int),
        decreases s@.len() - i,
    {
        i = i + 1;
    }
    i
}

/// Where the declaration lines at the start of `s` end.
fn skip_declarations(s: &Vec<char>) -> (p: usize)
    ensures
        p == after_declarations(s@, 0),
{
    let mut p: usize = 0;
    loop
        invariant
            p <= s@.len(),
            after_declarations(s@, 0) == after_declarations(s@, p as int),
        decreases s@.len() - p,
    {
        let e = line_end_at(s, p);
        if p < s.len() && p + 1 < s.len() && s[p] == '<' && (s[p + 1] == '?' || s[p + 1] == '!')
            && e < s.len() {
            p = e + 1;
        } else {
            return p;
        }
    }
}

/// Reads the CommonMark XML that comrak writes for a document back into its tree;
/// `None` where the text is not such XML.
pub fn read_commonmark_xml(xml: &str) -> (doc: Option<MdNode>)
    ensures
        match doc {
            Some(n) => document_of(xml@) == Some(n@),
            None => document_of(xml@) is None,
        },
{
    let s = chars_of(xml);
    let p = skip_declarations(&s);
    match read_element(&s, p) {
        Some((n, e)) => Some(n),
        None => None,
    }
}

} // verus!
