//! Tidying the Markdown that html2text writes, so that its lists parse as lists.
use vstd::prelude::*;
use crate::text::{
    all_ascii_digits, char_texts, chars_between, chars_of, interleaved, is_ascii_digit, lines,
    lines_of, push_chars, push_text, regex_split, regex_split_found, skip_leading_ws,
    string_from_chars, string_texts, trim_bounds, trim_start_ws, trim_ws,
};

verus! {

/// The number of ASCII digits that `s` starts with.
pub open spec fn digit_run(s: Seq<char>) -> nat
    decreases s.len(),
{
    if s.len() > 0 && is_ascii_digit(s[0]) {
        1 + digit_run(s.drop_first())
    } else {
        0
    }
}

/// `s` starts like a numbered Markdown item: digits, `.` or `)`, then a space.
pub open spec fn numbered_item(s: Seq<char>) -> bool {
    let n = digit_run(s);
    n > 0 && n + 1 < s.len() && (s[n as int] == '.' || s[n as int] == ')') && s[(n + 1) as int] == ' '
}

fn count_digits(s: &Vec<char>) -> (n: usize)
    ensures
        n == digit_run(s@),
        n <= s@.len(),
{
    let mut i: usize = 0;
    assert(s@.subrange(0, s@.len() as int) =~= s@);
    while i < s.len() && '0' <= s[i] && s[i] <= '9'
        invariant
            i <= s@.len(),
            digit_run(s@) == i + digit_run(s@.subrange(i as int, s@.len() as int)),
        decreases s@.len() - i,
    {
        assert(s@.subrange(i as int, s@.len() as int).drop_first() =~= s@.subrange(
            i + 1,
            s@.len() as int,
        ));
        i = i + 1;
    }
    i
}

/// Whether `s` starts like a numbered Markdown item (`1. `, `2) `).
pub fn is_numbered_md_item(s: &Vec<char>) -> (r: bool)
    ensures
        r == numbered_item(s@),
{
    let n = count_digits(s);
    n > 0 && n < s.len() - 1 && (s[n] == '.' || s[n] == ')') && s[n + 1] == ' '
}

/// Where `c` first occurs in `s`, or -1.
pub open spec fn index_of(s: Seq<char>, c: char) -> int
    decreases s.len(),
{
    if s.len() == 0 {
        -1
    } else if s[0] == c {
        0
    } else {
        let r = index_of(s.drop_first(), c);
        if r < 0 {
            -1
        } else {
            r + 1
        }
    }
}

pub proof fn lemma_index_of(s: Seq<char>, c: char, i: int)
    requires
        0 <= i <= s.len(),
        forall|j: int| 0 <= j < i ==> s[j] != c,
        i < s.len() ==> s[i] == c,
    ensures
        index_of(s, c) == (if i < s.len() { i } else { -1 }),
    decreases i,
{
    if i > 0 {
        lemma_index_of(s.drop_first(), c, i - 1);
    }
}

/// An inline item `N.text` as a Markdown list item `N. text`: where the text before
/// the first `.` is all ASCII digits (or empty), the rest loses its leading white
/// space behind `. `; any other item stays as it is.
pub open spec fn md_list_item(item: Seq<char>) -> Seq<char> {
    let d = index_of(item, '.');
    if d >= 0 && all_ascii_digits(item.take(d)) {
        item.take(d) + seq!['.', ' '] + trim_start_ws(item.skip(d + 1))
    } else {
        item
    }
}

/// Turns `N.text` into `N. text`, so that the Markdown parser sees a numbered item.
pub fn to_md_list_item(item: &Vec<char>) -> (r: Vec<char>)
    ensures
        r@ == md_list_item(item@),
{
    let mut d: usize = 0;
    while d < item.len() && item[d] != '.'
        invariant
            d <= item@.len(),
            forall|j: int| 0 <= j < d ==> item@[j] != '.',
        decreases item@.len() - d,
    {
        d = d + 1;
    }
    proof {
        lemma_index_of(item@, '.', d as int);
    }
    assert(item@.subrange(0, item@.len() as int) =~= item@);
    if d == item.len() {
        return chars_between(item, 0, item.len());
    }
    let mut k: usize = 0;
    while k < d
        invariant
            k <= d < item@.len(),
            all_ascii_digits(item@.take(k as int)),
            index_of(item@, '.') == d,
            item@.subrange(0, item@.len() as int) == item@,
        decreases d - k,
    {
        if !('0' <= item[k] && item[k] <= '9') {
            assert(!all_ascii_digits(item@.take(d as int))) by {
                assert(item@.take(d as int)[k as int] == item@[k as int]);
            }
            return chars_between(item, 0, item.len());
        }
        assert forall|j: int| 0 <= j < k + 1 implies is_ascii_digit(
            #[trigger] item@.take(k + 1)[j],
        ) by {
            if j < k {
                assert(item@.take(k as int)[j] == item@[j]);
            }
        }
        k = k + 1;
    }
    let mut r = chars_between(item, 0, d);
    r.push('.');
    r.push(' ');
    let rest = skip_leading_ws(item, d + 1, item.len());
    let tail = chars_between(item, rest, item.len());
    let ghost head = r@;
    r.append(&mut tail.clone());
    assert(item@.subrange(d + 1, item@.len() as int) =~= item@.skip(d + 1));
    assert(item@.subrange(0, d as int) =~= item@.take(d as int));
    r
}

/// The pattern of an inline item number: a space, decimal digits, a dot.
pub const INLINE_NUMBER: &'static str = " \\d+\\.";

/// Match `k` starts a new item: the text after it does not go on with an ASCII
/// digit (so `1.5` is no item number).
pub open spec fn kept_cut(gaps: Seq<Seq<char>>, found: Seq<Seq<char>>, k: int) -> bool {
    let rest = interleaved(gaps, found, k + 1);
    !(rest.len() > 0 && is_ascii_digit(rest[0]))
}

/// `items` with `piece` added unless it is empty.
pub open spec fn push_nonempty(items: Seq<Seq<char>>, piece: Seq<char>) -> Seq<Seq<char>> {
    if piece.len() > 0 {
        items.push(piece)
    } else {
        items
    }
}

/// A match without its first character, the space before the number.
pub open spec fn after_space(m: Seq<char>) -> Seq<char> {
    if m.len() > 0 {
        m.drop_first()
    } else {
        m
    }
}

/// The items finished, and the text of the item still open, once the first `k`
/// matches are taken into account.
pub open spec fn cut_pieces(gaps: Seq<Seq<char>>, found: Seq<Seq<char>>, k: nat) -> (
    Seq<Seq<char>>,
    Seq<char>,
)
    decreases k,
{
    if k == 0 {
        (seq![], if gaps.len() > 0 {
            gaps[0]
        } else {
            seq![]
        })
    } else {
        let (items, cur) = cut_pieces(gaps, found, (k - 1) as nat);
        if kept_cut(gaps, found, k - 1) {
            (push_nonempty(items, trim_ws(cur)), after_space(found[k - 1]) + gaps[k as int])
        } else {
            (items, cur + found[k - 1] + gaps[k as int])
        }
    }
}

/// The inline numbered definitions of a paragraph (`1.foo 2.bar`), each trimmed;
/// `None` unless the trimmed paragraph starts with an ASCII digit and splits into
/// more than one item.
pub open spec fn inline_items(para: Seq<char>) -> Option<Seq<Seq<char>>> {
    let s = trim_ws(para);
    if !(s.len() > 0 && is_ascii_digit(s[0])) {
        None
    } else if let Some((gaps, found)) = regex_split_found(INLINE_NUMBER@, s) {
        items_from_split(gaps, found)
    } else {
        None
    }
}

/// The inline items that a text split at the item numbers gives: `gaps` are the
/// texts between the matches `found`, one more than there are matches. `None`
/// unless there are more than one.
pub open spec fn items_from_split(gaps: Seq<Seq<char>>, found: Seq<Seq<char>>) -> Option<Seq<Seq<char>>> {
    if gaps.len() != found.len() + 1 {
        None
    } else {
        let (items, cur) = cut_pieces(gaps, found, found.len());
        let all = push_nonempty(items, trim_ws(cur));
        if all.len() > 1 {
            Some(all)
        } else {
            None
        }
    }
}

/// The first character of the text from gap `k` on.
fn first_char_from(gaps: &Vec<Vec<char>>, found: &Vec<Vec<char>>, k: usize) -> (c: Option<char>)
    requires
        gaps@.len() == found@.len() + 1,
        k <= found@.len(),
    ensures
        ({
            let rest = interleaved(gaps.deep_view(), found.deep_view(), k as int);
            match c {
                Some(ch) => rest.len() > 0 && rest[0] == ch,
                None => rest.len() == 0,
            }
        }),
    decreases found@.len() - k,
{
    let ghost gv = gaps.deep_view();
    let ghost fv = found.deep_view();
    assert(gv[k as int] == gaps@[k as int]@);
    if gaps[k].len() > 0 {
        return Some(gaps[k][0]);
    }
    if k == found.len() {
        return None;
    }
    assert(fv[k as int] == found@[k as int]@);
    if found[k].len() > 0 {
        return Some(found[k][0]);
    }
    assert(interleaved(gv, fv, k as int) =~= interleaved(gv, fv, k + 1));
    first_char_from(gaps, found, k + 1)
}

/// Adds the trimmed `cur` to `items` unless it is empty.
fn push_trimmed(items: &mut Vec<Vec<char>>, cur: &Vec<char>)
    ensures
        final(items).deep_view() == push_nonempty(old(items).deep_view(), trim_ws(cur@)),
{
    let (a, b) = trim_bounds(cur, 0, cur.len());
    assert(cur@.subrange(0, cur@.len() as int) =~= cur@);
    if a < b {
        push_text(items, chars_between(cur, a, b));
    }
}

/// The inline numbered definitions of the paragraph `para`.
fn inline_items_of(para: &Vec<char>) -> (r: Option<Vec<Vec<char>>>)
    ensures
        r.deep_view() == inline_items(para@),
{
    let (a, b) = trim_bounds(para, 0, para.len());
    assert(para@.subrange(0, para@.len() as int) =~= para@);
    let s = chars_between(para, a, b);
    if s.len() == 0 || !('0' <= s[0] && s[0] <= '9') {
        return None;
    }
    let text = string_from_chars(s.as_slice());
    match regex_split(INLINE_NUMBER, text.as_str()) {
        Some((gaps, found)) => items_from_pieces(&char_texts(&gaps), &char_texts(&found)),
        None => None,
    }
}

/// The inline items of the pieces of a text split at the item numbers.
fn items_from_pieces(gaps: &Vec<Vec<char>>, found: &Vec<Vec<char>>) -> (r: Option<Vec<Vec<char>>>)
    ensures
        r.deep_view() == items_from_split(gaps.deep_view(), found.deep_view()),
{
    if gaps.len() == 0 || gaps.len() - 1 != found.len() {
        return None;
    }
    let ghost gv = gaps.deep_view();
    let ghost fv = found.deep_view();
    let mut items: Vec<Vec<char>> = Vec::new();
    assert(gv[0] == gaps@[0]@);
    let mut cur = chars_between(&gaps[0], 0, gaps[0].len());
    assert(gaps@[0]@.subrange(0, gaps@[0]@.len() as int) =~= gaps@[0]@);
    let mut k: usize = 0;
    while k < found.len()
        invariant
            gaps@.len() == found@.len() + 1,
            gv == gaps.deep_view(),
            fv == found.deep_view(),
            k <= found@.len(),
            (items.deep_view(), cur@) == cut_pieces(gv, fv, k as nat),
        decreases found@.len() - k,
    {
        let next = first_char_from(gaps, found, k + 1);
        let kept = match next {
            Some(c) => !('0' <= c && c <= '9'),
            None => true,
        };
        assert(fv[k as int] == found@[k as int]@);
        assert(gv[k + 1] == gaps@[k + 1]@);
        if kept {
            push_trimmed(&mut items, &cur);
            let m = &found[k];
            let mut next_cur: Vec<char> = if m.len() > 0 {
                chars_between(m, 1, m.len())
            } else {
                Vec::new()
            };
            assert(m@.len() > 0 ==> m@.subrange(1, m@.len() as int) =~= m@.drop_first());
            assert(m@.len() == 0 ==> m@ =~= Seq::<char>::empty());
            push_chars(&mut next_cur, &gaps[k + 1]);
            cur = next_cur;
        } else {
            push_chars(&mut cur, &found[k]);
            push_chars(&mut cur, &gaps[k + 1]);
        }
        k = k + 1;
    }
    push_trimmed(&mut items, &cur);
    if items.len() > 1 {
        Some(items)
    } else {
        None
    }
}

/// The inline numbered items of a text split at the item numbers
/// ([`INLINE_NUMBER`]): `gaps` are the texts between the matches `found`.
pub fn inline_items_from_split(gaps: &Vec<String>, found: &Vec<String>) -> (r: Option<Vec<String>>)
    ensures
        r.deep_view() == items_from_split(gaps.deep_view(), found.deep_view()),
{
    match items_from_pieces(&char_texts(gaps), &char_texts(found)) {
        Some(items) => Some(string_texts(&items)),
        None => None,
    }
}

/// Splits a paragraph of inline numbered definitions (`1.foo 2.bar`) into its
/// items, leaving decimals such as `1.5` whole.
pub fn split_inline_numbered(para: &str) -> (r: Option<Vec<String>>)
    ensures
        r.deep_view() == inline_items(para@),
{
    let cs = chars_of(para);
    match inline_items_of(&cs) {
        Some(items) => Some(string_texts(&items)),
        None => None,
    }
}

/// `t` starts with the two characters `a` and `b`.
pub open spec fn starts_with2(t: Seq<char>, a: char, b: char) -> bool {
    t.len() >= 2 && t[0] == a && t[1] == b
}

/// `t` starts with a Markdown list marker: `* `, `- `, `+ ` or a number.
pub open spec fn is_list_marker(t: Seq<char>) -> bool {
    starts_with2(t, '*', ' ') || starts_with2(t, '-', ' ') || starts_with2(t, '+', ' ')
        || numbered_item(t)
}

/// The items written as Markdown list items, one per line.
pub open spec fn item_lines(items: Seq<Seq<char>>) -> Seq<char>
    decreases items.len(),
{
    if items.len() == 0 {
        seq![]
    } else {
        item_lines(items.drop_last()) + md_list_item(items.last()) + seq!['\n']
    }
}

/// The text written for the lines `ls`, and whether the last line written was blank.
pub open spec fn normalized_lines(ls: Seq<Seq<char>>) -> (Seq<char>, bool)
    decreases ls.len(),
{
    if ls.len() == 0 {
        (seq![], true)
    } else {
        let (out, prev_blank) = normalized_lines(ls.drop_last());
        let line = ls.last();
        let trimmed = trim_start_ws(line);
        if let Some(items) = inline_items(trimmed) {
            (out + (if prev_blank {
                seq![]
            } else {
                seq!['\n']
            }) + item_lines(items) + seq!['\n'], true)
        } else {
            (out + (if is_list_marker(trimmed) && !prev_blank {
                seq!['\n']
            } else {
                seq![]
            }) + line + seq!['\n'], trimmed.len() == 0)
        }
    }
}

/// The Markdown `md` with inline numbered definitions split into list items and a
/// blank line before each list that follows text.
pub open spec fn normalized(md: Seq<char>) -> Seq<char> {
    normalized_lines(lines_of(md)).0
}

/// Tidies html2text's Markdown: splits inline numbered definitions (`1.foo 2.bar`)
/// into numbered list items, and puts a blank line before each list marker that
/// follows text, so that the Markdown parser sees the lists.
pub fn normalize_lists(md: &str) -> (out: String)
    ensures
        out@ == normalized(md@),
{
    let text = chars_of(md);
    let ls = lines(&text);
    let ghost lv = ls.deep_view();
    let mut out: Vec<char> = Vec::new();
    let mut prev_blank = true;
    let mut i: usize = 0;
    while i < ls.len()
        invariant
            lv == ls.deep_view(),
            lv == lines_of(md@),
            i <= ls@.len(),
            (out@, prev_blank) == normalized_lines(lv.take(i as int)),
        decreases ls@.len() - i,
    {
        let line = &ls[i];
        assert(lv[i as int] == line@);
        assert(lv.take(i + 1).drop_last() =~= lv.take(i as int));
        let start = skip_leading_ws(line, 0, line.len());
        assert(line@.subrange(0, line@.len() as int) =~= line@);
        let trimmed = chars_between(line, start, line.len());
        match inline_items_of(&trimmed) {
            Some(items) => {
                if !prev_blank {
                    out.push('\n');
                }
                let ghost before = out@;
                let mut j: usize = 0;
                while j < items.len()
                    invariant
                        j <= items@.len(),
                        out@ == before + item_lines(items.deep_view().take(j as int)),
                    decreases items@.len() - j,
                {
                    let li = to_md_list_item(&items[j]);
                    push_chars(&mut out, &li);
                    out.push('\n');
                    assert(items.deep_view()[j as int] == items@[j as int]@);
                    assert(items.deep_view().take(j + 1).drop_last() =~= items.deep_view().take(
                        j as int,
                    ));
                    j = j + 1;
                }
                assert(items.deep_view().take(j as int) =~= items.deep_view());
                out.push('\n');
                prev_blank = true;
            },
            None => {
                let marker = (trimmed.len() >= 2 && (trimmed[0] == '*' || trimmed[0] == '-'
                    || trimmed[0] == '+') && trimmed[1] == ' ') || is_numbered_md_item(&trimmed);
                if marker && !prev_blank {
                    out.push('\n');
                }
                push_chars(&mut out, line);
                out.push('\n');
                prev_blank = trimmed.len() == 0;
            },
        }
        i = i + 1;
    }
    assert(lv.take(i as int) =~= lv);
    string_from_chars(out.as_slice())
}

} // verus!
