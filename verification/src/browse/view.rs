//! What the browser draws: the text of each row, the pop-up that confirms the
//! changes, and where a pop-up sits on the screen.
use vstd::prelude::*;
use crate::browse::rows::{RowModel, VisibleRow, holds_text};
use crate::registry::{DictEntry, DictEntryModel, entry_views};
use crate::registry::size::size_text;
use crate::text::{decimal, decimal_chars, push_chars, push_str, string_from_chars};

verus! {

/// A foreground colour of the browser.
#[derive(Debug, Clone, Copy, PartialEq, Eq, Structural)]
pub enum Tint {
    Cyan,
    Yellow,
    Red,
    DarkGray,
    Rgb(u8, u8, u8),
}

/// A piece of a line with its colour and weight.
pub struct Span {
    pub text: String,
    pub fg: Option<Tint>,
    pub bold: bool,
}

/// What a [`Span`] holds.
pub struct SpanModel {
    pub text: Seq<char>,
    pub fg: Option<Tint>,
    pub bold: bool,
}

impl View for Span {
    type V = SpanModel;

    open spec fn view(&self) -> SpanModel {
        SpanModel { text: self.text@, fg: self.fg, bold: self.bold }
    }
}

/// The models of a line of spans.
pub open spec fn span_models(s: Seq<Span>) -> Seq<SpanModel> {
    s.map_values(|x: Span| x@)
}

/// A span of `text` in the colour `fg`.
pub open spec fn styled(text: Seq<char>, fg: Option<Tint>, bold: bool) -> SpanModel {
    SpanModel { text, fg, bold }
}

/// `n` pairs of spaces: the indent of a row at depth `n`.
pub open spec fn indent(n: nat) -> Seq<char>
    decreases n,
{
    if n == 0 {
        seq![]
    } else {
        indent((n - 1) as nat) + seq![' ', ' ']
    }
}

/// The texts of `parts` joined by `sep`.
pub open spec fn joined(parts: Seq<Seq<char>>, sep: Seq<char>) -> Seq<char>
    decreases parts.len(),
{
    if parts.len() == 0 {
        seq![]
    } else if parts.len() == 1 {
        parts[0]
    } else {
        joined(parts.drop_last(), sep) + sep + parts.last()
    }
}

/// The categories of a dictionary: its category, where it has one.
pub open spec fn categories(e: DictEntryModel) -> Seq<Seq<char>> {
    if e.category.len() > 0 {
        seq![e.category]
    } else {
        seq![]
    }
}

/// The spans of a row: a category with its arrow, name and count of dictionaries,
/// or a dictionary with its check box, category (in search results), name, size
/// and a check mark where it is installed.
pub open spec fn row_spans(row: RowModel, es: Seq<DictEntryModel>, selected: Seq<Seq<char>>, installed: Seq<Seq<char>>) -> Seq<SpanModel> {
    match row {
        RowModel::Category { segment, full_path, depth, expanded, entry_count } => seq![
            styled(indent(depth as nat), None, false),
            styled(if expanded { "▼ "@ } else { "▶ "@ }, Some(Tint::Cyan), false),
            styled(segment, Some(Tint::Cyan), true),
            styled("  ("@ + decimal(entry_count as nat) + " dicts)"@, Some(Tint::Rgb(100, 100, 120)), false),
        ],
        RowModel::Entry { entry_idx, depth, show_category } => {
            let e = es[entry_idx];
            let head = seq![
                styled(indent(depth as nat), None, false),
                styled(if selected.contains(e.url) { "[x]"@ } else { "[ ]"@ }, Some(Tint::Yellow), false),
                styled("  "@, None, false),
            ];
            let cats = if show_category && categories(e).len() > 0 {
                seq![styled("["@ + joined(categories(e), ", "@) + "]  "@, Some(Tint::Rgb(120, 120, 140)), false)]
            } else {
                seq![]
            };
            let body = seq![
                styled(e.name, None, false),
                styled("  "@, None, false),
                styled(size_text(e.size), Some(Tint::Rgb(80, 180, 80)), false),
            ];
            let mark = if installed.contains(e.url) {
                seq![styled("  ✓"@, Some(Tint::Rgb(80, 220, 140)), true)]
            } else {
                seq![]
            };
            head + cats + body + mark
        },
    }
}

/// The text of a row's indent.
fn indent_of(depth: usize) -> (s: Vec<char>)
    ensures
        s@ == indent(depth as nat),
{
    let mut s: Vec<char> = Vec::new();
    let mut k: usize = 0;
    while k < depth
        invariant
            k <= depth,
            s@ == indent(k as nat),
        decreases depth - k,
    {
        s.push(' ');
        s.push(' ');
        k = k + 1;
    }
    s
}

fn span(text: Vec<char>, fg: Option<Tint>, bold: bool) -> (s: Span)
    ensures
        s@ == styled(text@, fg, bold),
{
    Span { text: string_from_chars(text.as_slice()), fg, bold }
}

fn text_of(s: &str) -> (t: Vec<char>)
    ensures
        t@ == s@,
{
    crate::text::chars_of(s)
}

fn push_span(line: &mut Vec<Span>, s: Span)
    ensures
        span_models(final(line)@) == span_models(old(line)@).push(s@),
{
    let ghost before = line@;
    line.push(s);
    assert(span_models(line@) =~= span_models(before).push(s@));
}

/// The spans of `row`.
pub fn make_list_item(row: &VisibleRow, entries: &[DictEntry], selected_urls: &Vec<String>, installed: &Vec<String>) -> (line: Vec<Span>)
    requires
        row@ matches RowModel::Entry { entry_idx, .. } ==> entry_idx < entries@.len(),
    ensures
        span_models(line@) == row_spans(
            row@,
            entry_views(entries@),
            selected_urls.deep_view(),
            installed.deep_view(),
        ),
{
    let mut line: Vec<Span> = Vec::new();
    match row {
        VisibleRow::Category { segment, full_path, depth, expanded, entry_count } => {
            push_span(&mut line, span(indent_of(*depth), None, false));
            let arrow = if *expanded {
                text_of("▼ ")
            } else {
                text_of("▶ ")
            };
            push_span(&mut line, span(arrow, Some(Tint::Cyan), false));
            push_span(&mut line, span(text_of(segment.as_str()), Some(Tint::Cyan), true));
            let mut count = text_of("  (");
            let digits = decimal_chars(*entry_count as u128);
            push_chars(&mut count, &digits);
            push_str(&mut count, " dicts)");
            push_span(&mut line, span(count, Some(Tint::Rgb(100, 100, 120)), false));
            assert(span_models(line@) =~= row_spans(
                row@,
                entry_views(entries@),
                selected_urls.deep_view(),
                installed.deep_view(),
            ));
        },
        VisibleRow::Entry { entry_idx, depth, show_category } => {
            let e = &entries[*entry_idx];
            let ghost em = entry_views(entries@)[*entry_idx as int];
            assert(em == e@);
            push_span(&mut line, span(indent_of(*depth), None, false));
            let check = if holds_text(selected_urls, e.url.as_str()) {
                text_of("[x]")
            } else {
                text_of("[ ]")
            };
            push_span(&mut line, span(check, Some(Tint::Yellow), false));
            push_span(&mut line, span(text_of("  "), None, false));
            let ghost head = span_models(line@);
            let cat = text_of(e.category.as_str());
            if *show_category && cat.len() > 0 {
                let mut c = text_of("[");
                push_chars(&mut c, &cat);
                push_str(&mut c, "]  ");
                push_span(&mut line, span(c, Some(Tint::Rgb(120, 120, 140)), false));
                assert(joined(categories(em), ", "@) =~= em.category);
            }
            let ghost with_cats = span_models(line@);
            push_span(&mut line, span(text_of(e.name.as_str()), None, false));
            push_span(&mut line, span(text_of("  "), None, false));
            let size = e.size_human();
            push_span(&mut line, span(text_of(size.as_str()), Some(Tint::Rgb(80, 180, 80)), false));
            let ghost with_body = span_models(line@);
            if holds_text(installed, e.url.as_str()) {
                push_span(&mut line, span(text_of("  ✓"), Some(Tint::Rgb(80, 220, 140)), true));
            }
            assert(span_models(line@) =~= row_spans(
                row@,
                entry_views(entries@),
                selected_urls.deep_view(),
                installed.deep_view(),
            ));
        },
    }
    line
}

/// A rectangle of the terminal, in cells.
#[derive(Debug, Clone, Copy, PartialEq, Eq, Structural)]
pub struct Rect {
    pub x: u16,
    pub y: u16,
    pub width: u16,
    pub height: u16,
}

/// `a - b`, or 0 where `b` is larger.
pub open spec fn sat_sub(a: u16, b: u16) -> int {
    if a >= b {
        a - b
    } else {
        0
    }
}

/// The smaller of `a` and `b`.
pub open spec fn min_u16(a: u16, b: u16) -> u16 {
    if a <= b {
        a
    } else {
        b
    }
}

/// A rectangle of `width` by `height` centred in `area`, cut down to it.
pub fn centered_rect(width: u16, height: u16, area: Rect) -> (r: Rect)
    requires
        area.x + sat_sub(area.width, width) / 2 <= u16::MAX,
        area.y + sat_sub(area.height, height) / 2 <= u16::MAX,
    ensures
        r.x == area.x + sat_sub(area.width, width) / 2,
        r.y == area.y + sat_sub(area.height, height) / 2,
        r.width == min_u16(width, area.width),
        r.height == min_u16(height, area.height),
{
    Rect {
        x: area.x + area.width.saturating_sub(width) / 2,
        y: area.y + area.height.saturating_sub(height) / 2,
        width: if width <= area.width {
            width
        } else {
            area.width
        },
        height: if height <= area.height {
            height
        } else {
            area.height
        },
    }
}

/// The height of the confirmation's content: a heading and a line per dictionary
/// for each non-empty list, and a blank line between the two lists.
pub open spec fn confirm_content_height(n_download: int, n_remove: int) -> int {
    (if n_download > 0 {
        1 + n_download
    } else {
        0
    }) + (if n_remove > 0 {
        (if n_download > 0 {
            1int
        } else {
            0
        }) + 1 + n_remove
    } else {
        0
    })
}

/// Where the confirmation pop-up sits in `area`: its content and border, at most 72
/// cells wide, centred, leaving a margin.
pub open spec fn confirm_popup_spec(n_download: int, n_remove: int, area: Rect) -> (int, int) {
    let h = confirm_content_height(n_download, n_remove) + 4;
    let popup_h = if h <= sat_sub(area.height, 2) {
        h
    } else {
        sat_sub(area.height, 2)
    };
    let popup_w = if 72 <= sat_sub(area.width, 4) {
        72
    } else {
        sat_sub(area.width, 4)
    };
    (popup_w, popup_h)
}

/// The rectangle of the confirmation pop-up for `n_download` dictionaries to fetch
/// and `n_remove` to delete.
pub fn confirm_popup(n_download: usize, n_remove: usize, area: Rect) -> (r: Rect)
    requires
        confirm_content_height(n_download as int, n_remove as int) + 4 <= u16::MAX,
        area.x as int + area.width <= u16::MAX,
        area.y as int + area.height <= u16::MAX,
    ensures
        ({
            let (w, h) = confirm_popup_spec(n_download as int, n_remove as int, area);
            &&& r.width == w
            &&& r.height == h
            &&& r.x == area.x + sat_sub(area.width, w as u16) / 2
            &&& r.y == area.y + sat_sub(area.height, h as u16) / 2
        }),
{
    let mut content_h: u16 = 0;
    if n_download > 0 {
        content_h = content_h + 1 + n_download as u16;
    }
    if n_remove > 0 {
        if n_download > 0 {
            content_h = content_h + 1;
        }
        content_h = content_h + 1 + n_remove as u16;
    }
    let full = content_h + 4;
    let room_h = area.height.saturating_sub(2);
    let popup_h = if full <= room_h {
        full
    } else {
        room_h
    };
    let room_w = area.width.saturating_sub(4);
    let popup_w: u16 = if 72 <= room_w {
        72
    } else {
        room_w
    };
    centered_rect(popup_w, popup_h, area)
}

/// A line of one span.
pub open spec fn one_span(text: Seq<char>, fg: Option<Tint>, bold: bool) -> Seq<SpanModel> {
    seq![styled(text, fg, bold)]
}

/// The lines listing the dictionaries to fetch, under their heading.
pub open spec fn download_lines(es: Seq<DictEntryModel>) -> Seq<Seq<SpanModel>> {
    seq![one_span("  Download ("@ + decimal(es.len()) + "):"@, Some(Tint::Cyan), true)] + Seq::new(
        es.len(),
        |i: int| seq![
            styled("    • "@, None, false),
            styled(es[i].name, None, false),
            styled("  "@, None, false),
            styled(size_text(es[i].size), Some(Tint::Rgb(80, 180, 80)), false),
        ],
    )
}

/// The lines listing the dictionaries to delete, under their heading.
pub open spec fn remove_lines(es: Seq<DictEntryModel>) -> Seq<Seq<SpanModel>> {
    seq![one_span("  Remove ("@ + decimal(es.len()) + "):"@, Some(Tint::Red), true)] + Seq::new(
        es.len(),
        |i: int| seq![
            styled("    • "@, None, false),
            styled(es[i].name, Some(Tint::Rgb(255, 100, 100)), false),
        ],
    )
}

/// The lines of the confirmation: the dictionaries to fetch, a blank line where
/// both lists are there, then those to delete; a list that is empty is left out
/// with its heading.
pub open spec fn confirm_lines_spec(down: Seq<DictEntryModel>, rem: Seq<DictEntryModel>) -> Seq<Seq<SpanModel>> {
    (if down.len() > 0 {
        download_lines(down)
    } else {
        seq![]
    }) + (if rem.len() > 0 {
        (if down.len() > 0 {
            seq![seq![]]
        } else {
            seq![]
        }) + remove_lines(rem)
    } else {
        seq![]
    })
}

/// The models of lines of spans.
pub open spec fn line_models(s: Seq<Vec<Span>>) -> Seq<Seq<SpanModel>> {
    s.map_values(|l: Vec<Span>| span_models(l@))
}

fn push_line(lines: &mut Vec<Vec<Span>>, line: Vec<Span>)
    ensures
        line_models(final(lines)@) == line_models(old(lines)@).push(span_models(line@)),
{
    let ghost before = lines@;
    let ghost lv = span_models(line@);
    lines.push(line);
    assert(line_models(lines@) =~= line_models(before).push(lv));
}

fn heading_line(label: &str, n: usize, fg: Tint) -> (line: Vec<Span>)
    ensures
        span_models(line@) == one_span(label@ + decimal(n as nat) + "):"@, Some(fg), true),
{
    let mut t = text_of(label);
    let digits = decimal_chars(n as u128);
    push_chars(&mut t, &digits);
    push_str(&mut t, "):");
    let mut line: Vec<Span> = Vec::new();
    push_span(&mut line, span(t, Some(fg), true));
    assert(span_models(line@) =~= one_span(label@ + decimal(n as nat) + "):"@, Some(fg), true));
    line
}

/// The lines of the confirmation pop-up.
pub fn confirm_lines(to_download: &[DictEntry], to_remove: &[DictEntry]) -> (lines: Vec<Vec<Span>>)
    ensures
        line_models(lines@) == confirm_lines_spec(entry_views(to_download@), entry_views(to_remove@)),
{
    let ghost down = entry_views(to_download@);
    let ghost rem = entry_views(to_remove@);
    let mut lines: Vec<Vec<Span>> = Vec::new();
    if to_download.len() > 0 {
        push_line(&mut lines, heading_line("  Download (", to_download.len(), Tint::Cyan));
        let mut i: usize = 0;
        while i < to_download.len()
            invariant
                down == entry_views(to_download@),
                i <= to_download@.len(),
                line_models(lines@) == download_lines(down).take(i + 1),
            decreases to_download@.len() - i,
        {
            let e = &to_download[i];
            let mut line: Vec<Span> = Vec::new();
            push_span(&mut line, span(text_of("    • "), None, false));
            push_span(&mut line, span(text_of(e.name.as_str()), None, false));
            push_span(&mut line, span(text_of("  "), None, false));
            let size = e.size_human();
            push_span(&mut line, span(text_of(size.as_str()), Some(Tint::Rgb(80, 180, 80)), false));
            assert(span_models(line@) =~= download_lines(down)[i + 1]);
            push_line(&mut lines, line);
            assert(download_lines(down).take(i + 2) =~= download_lines(down).take(i + 1).push(
                download_lines(down)[i + 1],
            ));
            i = i + 1;
        }
        assert(download_lines(down).take(i + 1) =~= download_lines(down));
    }
    let ghost first = line_models(lines@);
    if to_remove.len() > 0 {
        if to_download.len() > 0 {
            let blank: Vec<Span> = Vec::new();
            assert(span_models(blank@) =~= Seq::<SpanModel>::empty());
            push_line(&mut lines, blank);
        }
        let ghost gap = line_models(lines@);
        push_line(&mut lines, heading_line("  Remove (", to_remove.len(), Tint::Red));
        let mut i: usize = 0;
        while i < to_remove.len()
            invariant
                rem == entry_views(to_remove@),
                i <= to_remove@.len(),
                line_models(lines@) == gap + remove_lines(rem).take(i + 1),
            decreases to_remove@.len() - i,
        {
            let e = &to_remove[i];
            let mut line: Vec<Span> = Vec::new();
            push_span(&mut line, span(text_of("    • "), None, false));
            push_span(&mut line, span(text_of(e.name.as_str()), Some(Tint::Rgb(255, 100, 100)), false));
            assert(span_models(line@) =~= remove_lines(rem)[i + 1]);
            push_line(&mut lines, line);
            assert(remove_lines(rem).take(i + 2) =~= remove_lines(rem).take(i + 1).push(
                remove_lines(rem)[i + 1],
            ));
            i = i + 1;
        }
        assert(remove_lines(rem).take(i + 1) =~= remove_lines(rem));
    }
    assert(line_models(lines@) =~= confirm_lines_spec(down, rem));
    lines
}

/// The title of the browser: how many dictionaries are chosen, of how many.
pub open spec fn registry_title_spec(selected: nat, total: nat) -> Seq<char> {
    " yadict registry — "@ + decimal(selected) + " selected / "@ + decimal(total) + " total "@
}

/// The title of the browser.
pub fn registry_title(selected: usize, total: usize) -> (t: String)
    ensures
        t@ == registry_title_spec(selected as nat, total as nat),
{
    let mut t = text_of(" yadict registry — ");
    let a = decimal_chars(selected as u128);
    push_chars(&mut t, &a);
    push_str(&mut t, " selected / ");
    let b = decimal_chars(total as u128);
    push_chars(&mut t, &b);
    push_str(&mut t, " total ");
    string_from_chars(t.as_slice())
}

/// The search bar: the query behind `/` while searching, else how to start one.
pub open spec fn search_bar_spec(active: bool, query: Seq<char>) -> Seq<SpanModel> {
    if active {
        seq![
            styled(" / "@, Some(Tint::Yellow), false),
            styled(query, None, false),
            styled("▌"@, Some(Tint::Yellow), false),
        ]
    } else {
        seq![styled(" Press / to search"@, Some(Tint::DarkGray), false)]
    }
}

/// The spans of the search bar.
pub fn search_bar(active: bool, query: &str) -> (line: Vec<Span>)
    ensures
        span_models(line@) == search_bar_spec(active, query@),
{
    let mut line: Vec<Span> = Vec::new();
    if active {
        push_span(&mut line, span(text_of(" / "), Some(Tint::Yellow), false));
        push_span(&mut line, span(text_of(query), None, false));
        push_span(&mut line, span(text_of("▌"), Some(Tint::Yellow), false));
    } else {
        push_span(&mut line, span(text_of(" Press / to search"), Some(Tint::DarkGray), false));
    }
    assert(span_models(line@) =~= search_bar_spec(active, query@));
    line
}

/// The keys the browser takes, while searching and otherwise.
pub open spec fn key_hint_spec(searching: bool) -> Seq<char> {
    if searching {
        "  ESC: clear search  ↑↓/jk: move  SPACE: toggle  ENTER: download selected  q: quit"@
    } else {
        "  /: search  ↑↓/jk: move  l/h→←: expand  SPACE: toggle  a: all  ENTER: download  q: quit"@
    }
}

/// The line that lists the browser's keys.
pub fn key_hint(searching: bool) -> (h: String)
    ensures
        h@ == key_hint_spec(searching),
{
    if searching {
        string_from_chars(
            text_of(
                "  ESC: clear search  ↑↓/jk: move  SPACE: toggle  ENTER: download selected  q: quit",
            ).as_slice(),
        )
    } else {
        string_from_chars(
            text_of(
                "  /: search  ↑↓/jk: move  l/h→←: expand  SPACE: toggle  a: all  ENTER: download  q: quit",
            ).as_slice(),
        )
    }
}

} // verus!
