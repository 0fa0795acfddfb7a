//! Crawling the directory listing of the dictionary site.
use vstd::prelude::*;
use super::{DictEntry, DictEntryModel, entry_views};
use crate::text::{
    chars_of, chars_ends_with, ends_with, parse_i64, parsed_i64, push_str, regex_capture_groups,
    regex_captures, string_from_chars, string_from_utf8, trim_end_char, trim_end_char_of,
};

verus! {

/// The value of an ASCII hexadecimal digit.
pub open spec fn hex_value(b: u8) -> Option<u8> {
    if 0x30 <= b <= 0x39 {
        Some((b - 0x30) as u8)
    } else if 0x61 <= b <= 0x66 {
        Some((b - 0x61 + 10) as u8)
    } else if 0x41 <= b <= 0x46 {
        Some((b - 0x41 + 10) as u8)
    } else {
        None
    }
}

/// The byte that the two bytes after a `%` stand for: two hexadecimal digits.
pub open spec fn escaped_byte(b1: u8, b2: u8) -> Option<u8> {
    match (hex_value(b1), hex_value(b2)) {
        (Some(h1), Some(h2)) => Some((h1 * 16 + h2) as u8),
        _ => None,
    }
}

/// The bytes of `src` from `i` on with each decodable `%XX` escape replaced by its
/// byte; an escape must be followed by at least one more byte.
pub open spec fn unescaped_from(src: Seq<u8>, i: int) -> Seq<u8>
    decreases src.len() - i,
{
    if i < 0 || i >= src.len() {
        seq![]
    } else if src[i] == 0x25 && i + 2 < src.len() && escaped_byte(src[i + 1], src[i + 2]) is Some {
        seq![escaped_byte(src[i + 1], src[i + 2])->0] + unescaped_from(src, i + 3)
    } else {
        seq![src[i]] + unescaped_from(src, i + 1)
    }
}

/// The percent-decoding of `s`: its UTF-8 bytes unescaped, read back as UTF-8, or
/// `s` itself where they are not valid UTF-8.
pub open spec fn percent_decoded(s: Seq<char>) -> Seq<char> {
    let out = unescaped_from(vstd::utf8::encode_utf8(s), 0);
    if vstd::utf8::valid_utf8(out) {
        vstd::utf8::decode_utf8(out)
    } else {
        s
    }
}

/// The lowercase hexadecimal digit for `n` (below 16).
pub open spec fn lower_hex_digit(n: u8) -> u8 {
    if n < 10 {
        (0x30 + n) as u8
    } else {
        (0x61 + n - 10) as u8
    }
}

/// The uppercase hexadecimal digit for `n` (below 16).
pub open spec fn upper_hex_digit(n: u8) -> u8 {
    if n < 10 {
        (0x30 + n) as u8
    } else {
        (0x41 + n - 10) as u8
    }
}

/// `b` with an ASCII lowercase letter made uppercase.
pub open spec fn ascii_upper(b: u8) -> u8 {
    if 0x61 <= b <= 0x7a {
        (b - 0x20) as u8
    } else {
        b
    }
}

/// Every byte written as two hexadecimal digits, lowercase or uppercase, is read
/// back as that byte.
pub proof fn law_escape_reads_back_in_either_case(x: u8)
    ensures
        escaped_byte(lower_hex_digit(x / 16), lower_hex_digit(x % 16)) == Some(x),
        escaped_byte(upper_hex_digit(x / 16), upper_hex_digit(x % 16)) == Some(x),
{
    let h = x / 16;
    let l = x % 16;
    assert(hex_value(lower_hex_digit(h)) == Some(h));
    assert(hex_value(lower_hex_digit(l)) == Some(l));
    assert(hex_value(upper_hex_digit(h)) == Some(h));
    assert(hex_value(upper_hex_digit(l)) == Some(l));
    assert((h * 16 + l) as u8 == x);
}

/// Whether two bytes after a `%` make an escape, and which byte it stands for, does
/// not depend on the case of their letters.
pub proof fn law_escape_ignores_case(b1: u8, b2: u8)
    ensures
        escaped_byte(ascii_upper(b1), ascii_upper(b2)) == escaped_byte(b1, b2),
{
    assert(hex_value(ascii_upper(b1)) == hex_value(b1));
    assert(hex_value(ascii_upper(b2)) == hex_value(b2));
}

/// A `%` followed by the two hexadecimal digits of `x`, lowercase or uppercase,
/// with more text after them, is decoded as the byte `x`, and decoding goes on
/// after the escape.
pub proof fn law_escape_is_decoded(src: Seq<u8>, i: int, x: u8, lower: bool)
    requires
        0 <= i,
        i + 2 < src.len(),
        src[i] == 0x25,
        src[i + 1] == (if lower { lower_hex_digit(x / 16) } else { upper_hex_digit(x / 16) }),
        src[i + 2] == (if lower { lower_hex_digit(x % 16) } else { upper_hex_digit(x % 16) }),
    ensures
        unescaped_from(src, i) == seq![x] + unescaped_from(src, i + 3),
{
    law_escape_reads_back_in_either_case(x);
}

fn hex_digit(b: u8) -> (v: Option<u8>)
    ensures
        v == hex_value(b),
{
    if 0x30 <= b && b <= 0x39 {
        Some(b - 0x30)
    } else if 0x61 <= b && b <= 0x66 {
        Some(b - 0x61 + 10)
    } else if 0x41 <= b && b <= 0x46 {
        Some(b - 0x41 + 10)
    } else {
        None
    }
}

fn escaped(b1: u8, b2: u8) -> (v: Option<u8>)
    ensures
        v == escaped_byte(b1, b2),
{
    match (hex_digit(b1), hex_digit(b2)) {
        (Some(h1), Some(h2)) => Some(h1 * 16 + h2),
        _ => None,
    }
}

/// Percent-decodes a URL-encoded string into UTF-8.
pub fn percent_decode(s: &str) -> (d: String)
    ensures
        d@ == percent_decoded(s@),
{
    let src = s.as_bytes();
    let mut buf: Vec<u8> = Vec::new();
    let mut i: usize = 0;
    while i < src.len()
        invariant
            src@ == vstd::utf8::encode_utf8(s@),
            i <= src@.len(),
            buf@ + unescaped_from(src@, i as int) == unescaped_from(src@, 0),
        decreases src@.len() - i,
    {
        if src[i] == 0x25 && src.len() - i > 2 {
            match escaped(src[i + 1], src[i + 2]) {
                Some(b) => {
                    let ghost before = buf@;
                    buf.push(b);
                    assert(before + unescaped_from(src@, i as int) =~= buf@ + unescaped_from(
                        src@,
                        i + 3,
                    ));
                    i = i + 3;
                    continue;
                },
                None => {},
            }
        }
        let ghost before = buf@;
        buf.push(src[i]);
        assert(before + unescaped_from(src@, i as int) =~= buf@ + unescaped_from(src@, i + 1));
        i = i + 1;
    }
    assert(buf@ =~= unescaped_from(src@, 0));
    match string_from_utf8(buf) {
        Some(t) => t,
        None => s.to_owned(),
    }
}

/// Unescaping leaves a byte string without `%` unchanged.
pub proof fn lemma_unescaped_without_percent(src: Seq<u8>, i: int)
    requires
        0 <= i <= src.len(),
        forall|j: int| i <= j < src.len() ==> src[j] != 0x25,
    ensures
        unescaped_from(src, i) == src.skip(i),
    decreases src.len() - i,
{
    if i < src.len() {
        lemma_unescaped_without_percent(src, i + 1);
        assert(src.skip(i) =~= seq![src[i]] + src.skip(i + 1));
    } else {
        assert(src.skip(i) =~= Seq::<u8>::empty());
    }
}

proof fn lemma_scalar_percent_free(v: u32)
    requires
        vstd::utf8::is_scalar(v),
        v != 0x25,
    ensures
        forall|j: int| 0 <= j < vstd::utf8::encode_scalar(v).len() ==> vstd::utf8::encode_scalar(v)[j] != 0x25,
{
    let e = vstd::utf8::encode_scalar(v);
    assert(v <= 0x7f ==> ((v & 0x7f) as u8) as u32 == v) by (bit_vector);
    assert(forall|x: u8| #[trigger] (0xC0u8 | x) >= 0xC0) by (bit_vector);
    assert(forall|x: u8| #[trigger] (0xE0u8 | x) >= 0xE0) by (bit_vector);
    assert(forall|x: u8| #[trigger] (0xF0u8 | x) >= 0xF0) by (bit_vector);
    assert(forall|x: u8| #[trigger] (0x80u8 | x) >= 0x80) by (bit_vector);
}

proof fn lemma_encoded_percent_free(s: Seq<char>, j: int)
    requires
        !s.contains('%'),
        0 <= j < vstd::utf8::encode_utf8(s).len(),
    ensures
        vstd::utf8::encode_utf8(s)[j] != 0x25,
    decreases s.len(),
{
    if s.len() > 0 {
        let head = vstd::utf8::encode_scalar(s[0] as u32);
        vstd::utf8::char_is_scalar(s[0]);
        assert(s[0] != '%');
        assert((s[0] as u32) != 0x25) by {
            if (s[0] as u32) == 0x25 {
                vstd::utf8::char_u32_cast(s[0], 0x25);
                vstd::utf8::char_u32_cast('%', 0x25);
            }
        }
        lemma_scalar_percent_free(s[0] as u32);
        if j >= head.len() {
            assert forall|c: char| #[trigger] s.drop_first().contains(c) implies s.contains(c) by {
                let k = choose|k: int| 0 <= k < s.drop_first().len() && s.drop_first()[k] == c;
                assert(s[k + 1] == c);
            }
            lemma_encoded_percent_free(s.drop_first(), j - head.len());
        }
    }
}

/// Percent-decoding gives back unchanged any text that holds no `%`.
pub proof fn lemma_percent_decoded_without_escapes(s: Seq<char>)
    requires
        !s.contains('%'),
    ensures
        percent_decoded(s) == s,
{
    let bytes = vstd::utf8::encode_utf8(s);
    assert forall|j: int| 0 <= j < bytes.len() implies bytes[j] != 0x25 by {
        lemma_encoded_percent_free(s, j);
    }
    lemma_unescaped_without_percent(bytes, 0);
    assert(bytes.skip(0) =~= bytes);
    vstd::utf8::encode_utf8_valid_utf8(s);
    vstd::utf8::encode_utf8_decode_utf8(s);
}


/// The pieces of `s` between occurrences of `sep`, as `str::split` gives them.
pub open spec fn split_parts(s: Seq<char>, sep: char) -> Seq<Seq<char>>
    decreases s.len(),
{
    if s.len() == 0 {
        seq![seq![]]
    } else {
        let parts = split_parts(s.drop_last(), sep);
        if s.last() == sep {
            parts.push(seq![])
        } else {
            parts.update(parts.len() - 1, parts.last().push(s.last()))
        }
    }
}

pub proof fn lemma_split_parts_nonempty(s: Seq<char>, sep: char)
    ensures
        split_parts(s, sep).len() >= 1,
    decreases s.len(),
{
    if s.len() > 0 {
        lemma_split_parts_nonempty(s.drop_last(), sep);
    }
}

/// The percent-decodings of the non-empty pieces, in order.
pub open spec fn decoded_segments(parts: Seq<Seq<char>>) -> Seq<Seq<char>>
    decreases parts.len(),
{
    if parts.len() == 0 {
        seq![]
    } else {
        let prev = decoded_segments(parts.drop_last());
        if parts.last().len() > 0 {
            prev.push(percent_decoded(parts.last()))
        } else {
            prev
        }
    }
}

/// The pieces joined with `sep` between each two.
pub open spec fn join_with(parts: Seq<Seq<char>>, sep: Seq<char>) -> Seq<char>
    decreases parts.len(),
{
    if parts.len() == 0 {
        seq![]
    } else if parts.len() == 1 {
        parts[0]
    } else {
        join_with(parts.drop_last(), sep) + sep + parts.last()
    }
}

/// The human-readable category of a URL-encoded directory path: its non-empty
/// components, percent-decoded, joined with ` / `.
pub open spec fn category_of(path: Seq<char>) -> Seq<char> {
    join_with(decoded_segments(split_parts(path, '/')), " / "@)
}

/// Appends the decoding of the segment `cur` to `out`, after a separator unless it
/// is the first segment.
fn append_segment(out: &mut Vec<char>, count: usize, cur: &Vec<char>, Ghost(done): Ghost<Seq<Seq<char>>>)
    requires
        old(out)@ == join_with(decoded_segments(done), " / "@),
        count == decoded_segments(done).len(),
        cur@.len() > 0,
    ensures
        final(out)@ == join_with(decoded_segments(done.push(cur@)), " / "@),
{
    assert(done.push(cur@).drop_last() =~= done);
    let text = string_from_chars(cur.as_slice());
    let decoded = percent_decode(text.as_str());
    if count > 0 {
        push_str(out, " / ");
    }
    push_str(out, decoded.as_str());
    let ghost segs = decoded_segments(done);
    assert(decoded_segments(done.push(cur@)) == segs.push(percent_decoded(cur@)));
    assert(segs.push(percent_decoded(cur@)).drop_last() =~= segs);
    if count == 0 {
        assert(segs.push(percent_decoded(cur@)) =~= seq![percent_decoded(cur@)]);
    }
}

/// Derives a human-readable category from a URL-encoded path:
/// `/按词典语种来分类/英语/普通词典/` gives `按词典语种来分类 / 英语 / 普通词典`.
pub fn path_to_category(path: &str) -> (c: String)
    ensures
        c@ == category_of(path@),
{
    let cs = chars_of(path);
    let mut out: Vec<char> = Vec::new();
    let mut cur: Vec<char> = Vec::new();
    let mut count: usize = 0;
    let ghost mut done: Seq<Seq<char>> = seq![];
    let mut i: usize = 0;
    assert(cs@.take(0) =~= Seq::<char>::empty());
    while i < cs.len()
        invariant
            cs@ == path@,
            i <= cs@.len(),
            split_parts(cs@.take(i as int), '/') == done.push(cur@),
            out@ == join_with(decoded_segments(done), " / "@),
            count == decoded_segments(done).len(),
            count <= i,
        decreases cs@.len() - i,
    {
        let c = cs[i];
        let ghost t = cs@.take(i + 1);
        assert(t.drop_last() =~= cs@.take(i as int));
        assert(t.last() == c);
        if c == '/' {
            if cur.len() > 0 {
                append_segment(&mut out, count, &cur, Ghost(done));
                count = count + 1;
            }
            proof {
                assert(done.push(cur@).drop_last() =~= done);
                assert(done.push(cur@).last() == cur@);
                done = done.push(cur@);
            }
            cur = Vec::new();
            assert(split_parts(t, '/') =~= done.push(cur@));
        } else {
            let ghost old_cur = cur@;
            cur.push(c);
            assert(split_parts(t, '/') =~= done.push(cur@));
        }
        i = i + 1;
    }
    assert(cs@.take(i as int) =~= path@);
    if cur.len() > 0 {
        append_segment(&mut out, count, &cur, Ghost(done));
    } else {
        assert(done.push(cur@).drop_last() =~= done);
    }
    string_from_chars(out.as_slice())
}


// ── directory listings ──────────────────────────────────────────────────────

/// Rows of file or directory in a listing page.
pub open spec fn row_pattern() -> Seq<char> {
    "(?s)<tr class=\"file\">(.*?)</tr>"@
}

/// The relative link of a row.
pub open spec fn href_pattern() -> Seq<char> {
    "href=\"(\\./[^\"?#]+)\""@
}

/// The size of a row: -1 for directories, bytes for files.
pub open spec fn size_pattern() -> Seq<char> {
    "data-order=\"(-?\\d+)\""@
}

/// Group `g` of match `m` among `caps`, if there is such a match and the group
/// took part.
pub open spec fn group_of(caps: Option<Seq<Seq<Option<Seq<char>>>>>, m: int, g: int) -> Option<Seq<char>> {
    match caps {
        Some(cs) => if 0 <= m < cs.len() && 0 <= g < cs[m].len() {
            cs[m][g]
        } else {
            None
        },
        None => None,
    }
}

/// The row texts of a listing page.
pub open spec fn listing_rows(html: Seq<char>) -> Seq<Seq<Option<Seq<char>>>> {
    match regex_capture_groups(row_pattern(), html) {
        Some(cs) => cs,
        None => seq![],
    }
}

/// The size that the `data-order` text `order` declares, -1 where there is none
/// that parses.
pub open spec fn order_size(order: Option<Seq<char>>) -> i64 {
    match order {
        Some(t) => match parsed_i64(t) {
            Some(v) => v,
            None => -1i64,
        },
        None => -1i64,
    }
}

/// The declared size of a row, -1 where it has none that parses.
pub open spec fn row_size(row: Seq<char>) -> i64 {
    order_size(group_of(regex_capture_groups(size_pattern(), row), 0, 1))
}

/// What a row of the listing of `path` is.
pub enum RowKind {
    /// A subdirectory, by its URL-encoded path.
    Dir(Seq<char>),
    /// A dictionary file.
    File(DictEntryModel),
    /// Anything else.
    Skip,
}

/// The meaning of a row of the listing of `path` on the site `base_url` whose
/// link is `href` and whose `data-order` text is `order`: a link ending in `/` or
/// a negative size is a subdirectory; a positive size and a decoded name ending
/// in `.mdx` is a dictionary, named without that one extension.
pub open spec fn row_kind_of(
    base_url: Seq<char>,
    path: Seq<char>,
    href: Option<Seq<char>>,
    order: Option<Seq<char>>,
) -> RowKind {
    match href {
        None => RowKind::Skip,
        Some(href) => if href.len() < 2 {
            RowKind::Skip
        } else {
            let size = order_size(order);
            let rel = href.skip(2);
            let decoded = percent_decoded(rel);
            if href.last() == '/' || size < 0 {
                RowKind::Dir(path + rel)
            } else if ends_with(decoded, ".mdx"@) && size > 0 {
                RowKind::File(
                    DictEntryModel {
                        name: decoded.take(decoded.len() - 4),
                        url: trim_end_char(base_url, '/') + path + rel,
                        size: size as u64,
                        category: category_of(path),
                    },
                )
            } else {
                RowKind::Skip
            }
        },
    }
}

/// The meaning of the row text `row` of the listing of `path` on the site
/// `base_url`, by the link and the size that the patterns find in it.
pub open spec fn row_kind(base_url: Seq<char>, path: Seq<char>, row: Seq<char>) -> RowKind {
    row_kind_of(
        base_url,
        path,
        group_of(regex_capture_groups(href_pattern(), row), 0, 1),
        group_of(regex_capture_groups(size_pattern(), row), 0, 1),
    )
}

/// The dictionaries and subdirectories that the first `n` rows list.
pub open spec fn listing_upto(
    base_url: Seq<char>,
    path: Seq<char>,
    rows: Seq<Seq<Option<Seq<char>>>>,
    n: int,
) -> (Seq<DictEntryModel>, Seq<Seq<char>>)
    decreases n,
{
    if n <= 0 {
        (seq![], seq![])
    } else {
        let (files, dirs) = listing_upto(base_url, path, rows, n - 1);
        let r = rows[n - 1];
        if r.len() > 1 && r[1] is Some {
            match row_kind(base_url, path, r[1]->0) {
                RowKind::Dir(d) => (files, dirs.push(d)),
                RowKind::File(e) => (files.push(e), dirs),
                RowKind::Skip => (files, dirs),
            }
        } else {
            (files, dirs)
        }
    }
}

/// The dictionaries and subdirectories that the listing page `html` of `path`
/// on the site `base_url` shows, in page order.
pub open spec fn listing(base_url: Seq<char>, path: Seq<char>, html: Seq<char>) -> (
    Seq<DictEntryModel>,
    Seq<Seq<char>>,
) {
    listing_upto(base_url, path, listing_rows(html), listing_rows(html).len() as int)
}

fn first_group(caps: &Option<Vec<Vec<Option<String>>>>) -> (g: Option<String>)
    ensures
        g.deep_view() == group_of(caps.deep_view(), 0, 1),
{
    match caps {
        Some(cs) => {
            if cs.len() > 0 && cs[0].len() > 1 {
                assert(cs.deep_view()[0] == cs@[0].deep_view());
                assert(cs@[0].deep_view()[1] == cs@[0]@[1].deep_view());
                match &cs[0][1] {
                    Some(t) => Some(t.clone()),
                    None => None,
                }
            } else {
                None
            }
        },
        None => None,
    }
}

fn concat2(a: &str, b: &str) -> (s: String)
    ensures
        s@ == a@ + b@,
{
    let mut out: Vec<char> = Vec::new();
    push_str(&mut out, a);
    push_str(&mut out, b);
    string_from_chars(out.as_slice())
}

fn concat3(a: &str, b: &str, c: &str) -> (s: String)
    ensures
        s@ == a@ + b@ + c@,
{
    let mut out: Vec<char> = Vec::new();
    push_str(&mut out, a);
    push_str(&mut out, b);
    push_str(&mut out, c);
    string_from_chars(out.as_slice())
}

/// The dictionary or subdirectory that a row of the listing of `path` on the site
/// `base_url` gives, from the row's link `href` and its `data-order` text `order`
/// (`.0` a dictionary, `.1` a subdirectory, neither where the row is skipped).
pub fn row_from_groups(base_url: &str, path: &str, href: Option<String>, order: Option<String>) -> (r: (
    Option<DictEntry>,
    Option<String>,
))
    ensures
        match row_kind_of(base_url@, path@, href.deep_view(), order.deep_view()) {
            RowKind::Dir(d) => r.0 is None && (r.1 matches Some(x) && x@ == d),
            RowKind::File(e) => r.1 is None && (r.0 matches Some(x) && x@ == e),
            RowKind::Skip => r.0 is None && r.1 is None,
        },
{
    let href = match href {
        Some(h) => h,
        None => return (None, None),
    };
    let hc = chars_of(href.as_str());
    if hc.len() < 2 {
        return (None, None);
    }
    let size: i64 = match order {
        Some(t) => match parse_i64(t.as_str()) {
            Some(v) => v,
            None => -1,
        },
        None => -1,
    };
    let rel_chars = vstd::slice::slice_subrange(hc.as_slice(), 2, hc.len());
    assert(rel_chars@ =~= href@.skip(2));
    let rel = string_from_chars(rel_chars);
    let decoded = percent_decode(rel.as_str());
    if hc[hc.len() - 1] == '/' || size < 0 {
        let d = concat2(path, rel.as_str());
        return (None, Some(d));
    }
    let dc = chars_of(decoded.as_str());
    let suffix = chars_of(".mdx");
    proof {
        reveal_strlit(".mdx");
    }
    assert(suffix@.len() == 4);
    assert(dc@.take(dc@.len() as int) =~= dc@);
    if chars_ends_with(&dc, dc.len(), &suffix) && size > 0 {
        let name_chars = vstd::slice::slice_subrange(dc.as_slice(), 0, dc.len() - 4);
        assert(name_chars@ =~= dc@.take(dc@.len() - 4));
        let name = string_from_chars(name_chars);
        let base = trim_end_char_of(base_url, '/');
        let url = concat3(base.as_str(), path, rel.as_str());
        let category = path_to_category(path);
        let e = DictEntry { name, url, size: size as u64, category };
        (Some(e), None)
    } else {
        (None, None)
    }
}

fn classify_row(base_url: &str, path: &str, row: &str) -> (r: (Option<DictEntry>, Option<String>))
    ensures
        match row_kind(base_url@, path@, row@) {
            RowKind::Dir(d) => r.0 is None && (r.1 matches Some(x) && x@ == d),
            RowKind::File(e) => r.1 is None && (r.0 matches Some(x) && x@ == e),
            RowKind::Skip => r.0 is None && r.1 is None,
        },
{
    let href = first_group(&regex_captures("href=\"(\\./[^\"?#]+)\"", row));
    let order = first_group(&regex_captures("data-order=\"(-?\\d+)\"", row));
    row_from_groups(base_url, path, href, order)
}

/// Reads the dictionaries and subdirectories off the listing page `html` of the
/// directory `path` on the site `base_url`.
pub fn parse_listing(base_url: &str, path: &str, html: &str) -> (r: (Vec<DictEntry>, Vec<String>))
    ensures
        (entry_views(r.0@), r.1.deep_view()) == listing(base_url@, path@, html@),
{
    let rows: Vec<Vec<Option<String>>> = match regex_captures("(?s)<tr class=\"file\">(.*?)</tr>", html) {
        Some(cs) => cs,
        None => Vec::new(),
    };
    assert(rows.deep_view() =~= listing_rows(html@));
    listing_from_rows(base_url, path, &rows)
}

/// The dictionaries and subdirectories that the listing of `path` on the site
/// `base_url` gives, from the matches `rows` of its table rows (each: the whole
/// row, then its inner text).
pub fn listing_from_rows(base_url: &str, path: &str, rows: &Vec<Vec<Option<String>>>) -> (r: (
    Vec<DictEntry>,
    Vec<String>,
))
    ensures
        (entry_views(r.0@), r.1.deep_view()) == listing_upto(
            base_url@,
            path@,
            rows.deep_view(),
            rows@.len() as int,
        ),
{
    let mut files: Vec<DictEntry> = Vec::new();
    let mut dirs: Vec<String> = Vec::new();
    let mut i: usize = 0;
    while i < rows.len()
        invariant
            i <= rows@.len(),
            (entry_views(files@), dirs.deep_view()) == listing_upto(base_url@, path@, rows.deep_view(), i as int),
        decreases rows@.len() - i,
    {
        let r = &rows[i];
        assert(rows.deep_view()[i as int] == r.deep_view());
        if r.len() > 1 {
            assert(r.deep_view()[1] == r@[1].deep_view());
            match &r[1] {
                Some(text) => {
                    let (file, dir) = classify_row(base_url, path, text.as_str());
                    match file {
                        Some(e) => {
                            let ghost before = files@;
                            files.push(e);
                            assert(entry_views(files@) =~= entry_views(before).push(e@));
                        },
                        None => {},
                    }
                    match dir {
                        Some(d) => {
                            let ghost before = dirs.deep_view();
                            dirs.push(d);
                            assert(dirs.deep_view() =~= before.push(d@));
                        },
                        None => {},
                    }
                },
                None => {},
            }
        }
        i = i + 1;
    }
    (files, dirs)
}


// ── the crawl ───────────────────────────────────────────────────────────────

/// Directories deeper than this below the root are not listed.
pub const MAX_DEPTH: usize = 10;

/// A directory waiting to be listed.
pub struct PendingDir {
    pub path: String,
    pub depth: usize,
}

/// What the driver of a crawl is to do next.
pub enum CrawlStep {
    /// Fetch the listing page at `url`, of the directory `path`; where `announce`
    /// holds, first log the directory and pause politely.
    Fetch { url: String, path: String, announce: bool },
    /// Log the directory `path` and pause, then go on without listing it: it lies
    /// too deep.
    Skip { path: String },
    /// Every directory has been dealt with.
    Done,
}

/// A depth-first crawl of a site's directory listings, driven from outside: it
/// says which page to fetch next and is handed each page in turn.
pub struct Crawl {
    base_url: String,
    pending: Vec<PendingDir>,
    current: Option<PendingDir>,
    entries: Vec<DictEntry>,
}

/// What a [`Crawl`] holds: the site, the directories still to visit (the last is
/// next), the directory whose page is awaited, and the dictionaries found.
pub struct CrawlModel {
    pub base_url: Seq<char>,
    pub pending: Seq<(Seq<char>, usize)>,
    pub current: Option<(Seq<char>, usize)>,
    pub entries: Seq<DictEntryModel>,
}

pub open spec fn pending_view(p: PendingDir) -> (Seq<char>, usize) {
    (p.path@, p.depth)
}

impl Crawl {
    /// The directory being fetched is never deeper than [`MAX_DEPTH`].
    pub closed spec fn wf(&self) -> bool {
        self.current matches Some(p) ==> p.depth <= MAX_DEPTH
    }
}

impl View for Crawl {
    type V = CrawlModel;

    closed spec fn view(&self) -> CrawlModel {
        CrawlModel {
            base_url: self.base_url@,
            pending: self.pending@.map_values(|p: PendingDir| pending_view(p)),
            current: match self.current {
                Some(p) => Some(pending_view(p)),
                None => None,
            },
            entries: entry_views(self.entries@),
        }
    }
}

/// The subdirectories `dirs` of a directory at `depth`, in the order that puts the
/// first of them on top of the stack.
pub open spec fn pushed_dirs(dirs: Seq<Seq<char>>, depth: int) -> Seq<(Seq<char>, usize)> {
    Seq::new(dirs.len(), |k: int| (dirs[dirs.len() - 1 - k], (depth + 1) as usize))
}

/// Starts a crawl of the site `base_url` at its root directory.
pub fn crawl(base_url: &str) -> (c: Crawl)
    ensures
        c@.base_url == base_url@,
        c@.pending == seq![("/"@, 0usize)],
        c@.current is None,
        c@.entries.len() == 0,
        c.wf(),
{
    let mut pending: Vec<PendingDir> = Vec::new();
    pending.push(PendingDir { path: "/".to_owned(), depth: 0 });
    let c = Crawl { base_url: base_url.to_owned(), pending, current: None, entries: Vec::new() };
    assert(c@.pending =~= seq![("/"@, 0usize)]);
    c
}

impl Crawl {
    /// Takes the next directory off the stack and says what to do with it.
    pub fn next_step(&mut self) -> (step: CrawlStep)
        requires
            old(self)@.current is None,
            old(self).wf(),
        ensures
            final(self).wf(),
            final(self)@.base_url == old(self)@.base_url,
            final(self)@.entries == old(self)@.entries,
            old(self)@.pending.len() == 0 ==> step is Done && final(self)@ == old(self)@,
            old(self)@.pending.len() > 0 ==> final(self)@.pending == old(self)@.pending.drop_last(),
            old(self)@.pending.len() > 0 ==> {
                let (path, depth) = old(self)@.pending.last();
                if depth > MAX_DEPTH {
                    &&& step matches CrawlStep::Skip { path: p } && p@ == path
                    &&& final(self)@.current is None
                } else {
                    &&& step matches CrawlStep::Fetch { url, path: p, announce } && url@ == trim_end_char(
                        old(self)@.base_url,
                        '/',
                    ) + path && p@ == path && announce == (depth > 0)
                    &&& final(self)@.current == Some((path, depth))
                }
            },
    {
        if self.pending.len() == 0 {
            return CrawlStep::Done;
        }
        let ghost before = self@;
        let dir = self.pending.pop().unwrap();
        assert(self@.pending =~= before.pending.drop_last());
        assert(pending_view(dir) == before.pending.last());
        if dir.depth > MAX_DEPTH {
            CrawlStep::Skip { path: dir.path }
        } else {
            let base = trim_end_char_of(self.base_url.as_str(), '/');
            let url = concat2(base.as_str(), dir.path.as_str());
            let path = dir.path.clone();
            let announce = dir.depth > 0;
            self.current = Some(dir);
            CrawlStep::Fetch { url, path, announce }
        }
    }

    /// Takes in the listing page of the directory being fetched: its dictionaries
    /// join the ones found, and its subdirectories go on the stack so that the
    /// first of them is visited next.
    pub fn page_fetched(&mut self, html: &str)
        requires
            old(self)@.current is Some,
            old(self).wf(),
        ensures
            final(self).wf(),
            ({
                let (path, depth) = old(self)@.current->0;
                let (files, dirs) = listing(old(self)@.base_url, path, html@);
                &&& final(self)@.entries == old(self)@.entries + files
                &&& final(self)@.pending == old(self)@.pending + pushed_dirs(dirs, depth as int)
                &&& final(self)@.current is None
                &&& final(self)@.base_url == old(self)@.base_url
            }),
    {
        let ghost before = self@;
        let dir = match self.current.take() {
            Some(d) => d,
            None => return,
        };
        let (mut files, mut dirs) = parse_listing(self.base_url.as_str(), dir.path.as_str(), html);
        let ghost dseq = dirs.deep_view();
        let ghost cur = before.current->0;
        assert(pending_view(dir) == cur);
        let ghost fv = entry_views(files@);
        let ghost old_entries = self.entries@;
        let ghost listed = listing(before.base_url, cur.0, html@);
        assert(fv == listed.0 && dseq == listed.1);
        self.entries.append(&mut files);
        assert(entry_views(self.entries@) =~= entry_views(old_entries) + fv);
        let depth = dir.depth;
        let ghost base_pending = self@.pending;
        let ghost mut k: int = 0;
        while dirs.len() > 0
            invariant
                dirs.deep_view() == dseq.take(dseq.len() - k),
                0 <= k <= dseq.len(),
                self@.pending == base_pending + pushed_dirs(dseq, depth as int).take(k),
                self@.entries == before.entries + listing(before.base_url, cur.0, html@).0,
                self@.base_url == before.base_url,
                self@.current is None,
                depth <= MAX_DEPTH,
            decreases dirs@.len(),
        {
            let ghost dv = dirs.deep_view();
            let ghost raw = dirs@;
            assert(dv.len() == dseq.len() - k);
            let d = dirs.pop().unwrap();
            assert(d == raw.last());
            assert(dirs@ =~= raw.drop_last());
            assert(dv[dv.len() - 1] == raw[raw.len() - 1]@);
            assert(dirs.deep_view() =~= dv.drop_last());
            assert(dirs.deep_view() =~= dseq.take(dseq.len() - k - 1));
            assert(d@ == dseq[dseq.len() - 1 - k]);
            let ghost pv = self@.pending;
            self.pending.push(PendingDir { path: d, depth: depth + 1 });
            assert(self@.pending =~= pv.push((dseq[dseq.len() - 1 - k], (depth + 1) as usize)));
            assert(pushed_dirs(dseq, depth as int).take(k + 1) =~= pushed_dirs(dseq, depth as int).take(k).push(
                (dseq[dseq.len() - 1 - k], (depth + 1) as usize),
            ));
            proof {
                k = k + 1;
            }
        }
        assert(pushed_dirs(dseq, depth as int).take(k) =~= pushed_dirs(dseq, depth as int));
    }

    /// Gives up on the directory being fetched: its page could not be had.
    pub fn page_failed(&mut self)
        ensures
            final(self).wf(),
            final(self)@.current is None,
            final(self)@.pending == old(self)@.pending,
            final(self)@.entries == old(self)@.entries,
            final(self)@.base_url == old(self)@.base_url,
    {
        self.current = None;
    }

    /// The dictionaries found so far, in the order they were found.
    pub fn into_entries(self) -> (es: Vec<DictEntry>)
        ensures
            entry_views(es@) == self@.entries,
    {
        self.entries
    }
}

} // verus!
