//! Text helpers: character access, UTF-8 and the outside text codecs.
use vstd::prelude::*;
use encoding::Encoding;

verus! {

/// The characters of `s`, in order.
pub fn chars_of(s: &str) -> (cs: Vec<char>)
    ensures
        cs@ == s@,
{
    let mut cs: Vec<char> = Vec::new();
    for c in it: s.chars()
        invariant
            cs@ == it.seq().take(it.index() as int),
            it.seq() == s@,
    {
        cs.push(c);
    }
    cs
}

/// `String::from_iter` over the characters of `cs`: a string holding exactly them.
#[verifier::external_body]
pub fn string_from_chars(cs: &[char]) -> (s: String)
    ensures
        s@ == cs@,
{
    cs.iter().collect()
}

/// `String::from_utf8`: the string that `bytes` encode where they are valid UTF-8.
#[verifier::external_body]
pub fn string_from_utf8(bytes: Vec<u8>) -> (s: Option<String>)
    ensures
        s is Some <==> vstd::utf8::valid_utf8(bytes@),
        s matches Some(t) ==> t@ == vstd::utf8::decode_utf8(bytes@),
{
    String::from_utf8(bytes).ok()
}

/// The decoding of `raw` as UTF-16LE that fails on any malformed input.
pub uninterp spec fn utf16le_strict_decoded(raw: Seq<u8>) -> Option<Seq<char>>;

/// `encoding::all::UTF_16LE.decode(raw, DecoderTrap::Strict)`: `Some` with the named
/// decoding, `None` where the decoder reports an error.
#[verifier::external_body]
pub(crate) fn utf16le_decode_strict(raw: &[u8]) -> (text: Option<String>)
    ensures
        text matches Some(t) ==> utf16le_strict_decoded(raw@) == Some(t@),
        text is None ==> utf16le_strict_decoded(raw@) is None,
{
    encoding::all::UTF_16LE.decode(raw, encoding::DecoderTrap::Strict).ok()
}


/// Whether two strings hold the same characters.
pub fn str_eq(a: &str, b: &str) -> (same: bool)
    ensures
        same == (a@ == b@),
{
    let ac = chars_of(a);
    let bc = chars_of(b);
    if ac.len() != bc.len() {
        return false;
    }
    let mut i: usize = 0;
    while i < ac.len()
        invariant
            ac@ == a@,
            bc@ == b@,
            ac@.len() == bc@.len(),
            i <= ac@.len(),
            forall|j: int| 0 <= j < i ==> ac@[j] == bc@[j],
        decreases ac@.len() - i,
    {
        if ac[i] != bc[i] {
            return false;
        }
        i = i + 1;
    }
    assert(ac@ =~= bc@);
    true
}

/// Whether `c` has the Unicode `White_Space` property, as `char::is_whitespace`
/// documents it.
pub open spec fn is_unicode_whitespace(c: char) -> bool {
    ||| ('\u{9}' <= c && c <= '\u{d}')
    ||| c == ' '
    ||| c == '\u{85}'
    ||| c == '\u{a0}'
    ||| c == '\u{1680}'
    ||| ('\u{2000}' <= c && c <= '\u{200a}')
    ||| c == '\u{2028}'
    ||| c == '\u{2029}'
    ||| c == '\u{202f}'
    ||| c == '\u{205f}'
    ||| c == '\u{3000}'
}

pub fn is_whitespace(c: char) -> (w: bool)
    ensures
        w == is_unicode_whitespace(c),
{
    ('\u{9}' <= c && c <= '\u{d}') || c == ' ' || c == '\u{85}' || c == '\u{a0}' || c
        == '\u{1680}' || ('\u{2000}' <= c && c <= '\u{200a}') || c == '\u{2028}' || c
        == '\u{2029}' || c == '\u{202f}' || c == '\u{205f}' || c == '\u{3000}'
}

pub open spec fn is_ascii_digit(c: char) -> bool {
    '0' <= c && c <= '9'
}

/// The number that a sequence of ASCII decimal digits writes.
pub open spec fn digits_value(ds: Seq<char>) -> int
    decreases ds.len(),
{
    if ds.len() == 0 {
        0
    } else {
        digits_value(ds.drop_last()) * 10 + (ds.last() as int - '0' as int)
    }
}

pub open spec fn all_ascii_digits(ds: Seq<char>) -> bool {
    forall|i: int| 0 <= i < ds.len() ==> is_ascii_digit(#[trigger] ds[i])
}

/// What `str::parse::<u8>` gives for `x`: an optional `+`, then one or more ASCII
/// digits whose value fits in a byte.
pub open spec fn parsed_u8(x: Seq<char>) -> Option<u8> {
    let ds = if x.len() > 0 && x[0] == '+' { x.drop_first() } else { x };
    if ds.len() > 0 && all_ascii_digits(ds) && digits_value(ds) <= 255 {
        Some(digits_value(ds) as u8)
    } else {
        None
    }
}

pub proof fn lemma_digits_value_nonneg(ds: Seq<char>)
    requires
        all_ascii_digits(ds),
    ensures
        digits_value(ds) >= 0,
    decreases ds.len(),
{
    if ds.len() > 0 {
        lemma_digits_value_nonneg(ds.drop_last());
    }
}

/// Parses a byte value as `str::parse::<u8>` does.
pub fn parse_u8(x: &str) -> (v: Option<u8>)
    ensures
        v == parsed_u8(x@),
{
    let cs = chars_of(x);
    let start: usize = if cs.len() > 0 && cs[0] == '+' { 1 } else { 0 };
    let ghost ds = if x@.len() > 0 && x@[0] == '+' { x@.drop_first() } else { x@ };
    assert(ds =~= cs@.subrange(start as int, cs@.len() as int));
    if start >= cs.len() {
        return None;
    }
    let mut acc: u32 = 0;
    let mut i: usize = start;
    while i < cs.len()
        invariant
            cs@ == x@,
            start <= i <= cs@.len(),
            ds =~= cs@.subrange(start as int, cs@.len() as int),
            ds == (if x@.len() > 0 && x@[0] == '+' { x@.drop_first() } else { x@ }),
            all_ascii_digits(cs@.subrange(start as int, i as int)),
            acc <= 256,
            acc < 256 ==> acc == digits_value(cs@.subrange(start as int, i as int)),
            acc == 256 ==> digits_value(cs@.subrange(start as int, i as int)) > 255,
        decreases cs@.len() - i,
    {
        let c = cs[i];
        let ghost prefix = cs@.subrange(start as int, i as int);
        let ghost next = cs@.subrange(start as int, i + 1);
        assert(next.drop_last() =~= prefix);
        if !('0' <= c && c <= '9') {
            assert(ds[i - start] == c);
            assert(!is_ascii_digit(ds[i - start]));
            assert(!all_ascii_digits(ds));
            return None;
        }
        proof {
            lemma_digits_value_nonneg(prefix);
            assert forall|j: int| 0 <= j < next.len() implies is_ascii_digit(#[trigger] next[j]) by {
                if j < prefix.len() {
                    assert(next[j] == prefix[j]);
                }
            }
        }
        let d: u32 = (c as u32) - ('0' as u32);
        if acc < 256 {
            acc = acc * 10 + d;
            if acc > 256 {
                acc = 256;
            }
        }
        i = i + 1;
    }
    assert(cs@.subrange(start as int, i as int) =~= ds);
    if acc > 255 {
        None
    } else {
        Some(acc as u8)
    }
}


/// Why a legacy-encoding decode gave no text.
#[derive(Debug, Clone, Copy, PartialEq, Eq, Structural)]
pub enum DecodeFailure {
    /// The label names no WHATWG encoding.
    UnknownLabel,
    /// The decoder reported an error.
    Malformed,
}

/// Whether `label` names an encoding of the WHATWG Encoding standard.
pub uninterp spec fn whatwg_label_known(label: Seq<char>) -> bool;

/// The text that the encoding labelled `label` decodes from `raw` when malformed
/// input is skipped, `None` where its decoder still reports an error.
pub uninterp spec fn whatwg_decoded_lossy(label: Seq<char>, raw: Seq<u8>) -> Option<Seq<char>>;

/// The outcome of decoding `raw` in the encoding labelled `label`, skipping
/// malformed input.
pub open spec fn decoding(label: Seq<char>, raw: Seq<u8>) -> Result<Seq<char>, DecodeFailure> {
    if !whatwg_label_known(label) {
        Err(DecodeFailure::UnknownLabel)
    } else {
        match whatwg_decoded_lossy(label, raw) {
            Some(t) => Ok(t),
            None => Err(DecodeFailure::Malformed),
        }
    }
}

/// `encoding::label::encoding_from_whatwg_label(label)` and, for a known label, that
/// encoding's `decode(raw, DecoderTrap::Ignore)`. The two calls stand together
/// because the first returns a trait object that verified code cannot hold.
#[verifier::external_body]
pub(crate) fn whatwg_decode(label: &str, raw: &[u8]) -> (r: Result<String, DecodeFailure>)
    ensures
        (r matches Err(DecodeFailure::UnknownLabel)) <==> !whatwg_label_known(label@),
        r matches Ok(t) ==> whatwg_decoded_lossy(label@, raw@) == Some(t@),
        (r matches Err(DecodeFailure::Malformed)) ==> whatwg_decoded_lossy(label@, raw@) is None,
{
    match encoding::label::encoding_from_whatwg_label(label) {
        None => Err(DecodeFailure::UnknownLabel),
        Some(enc) => enc.decode(raw, encoding::DecoderTrap::Ignore).map_err(|_| DecodeFailure::Malformed),
    }
}

/// For each successive non-overlapping match of the regular expression `pattern`
/// in `haystack`, the text of each of its groups (group 0 first), `None` for a
/// group that did not take part; `None` as a whole where `pattern` does not compile.
pub uninterp spec fn regex_capture_groups(pattern: Seq<char>, haystack: Seq<char>) -> Option<
    Seq<Seq<Option<Seq<char>>>>,
>;

/// `regex::Regex::new(pattern)` and `Regex::captures_iter(haystack)`, each match
/// turned into the texts of its groups. The result is the named one.
#[verifier::external_body]
pub(crate) fn regex_captures(pattern: &str, haystack: &str) -> (caps: Option<Vec<Vec<Option<String>>>>)
    ensures
        caps.deep_view() == regex_capture_groups(pattern@, haystack@),
{
    let re = regex::Regex::new(pattern).ok()?;
    Some(
        re.captures_iter(haystack).map(
            |c| c.iter().map(|g| g.map(|m| m.as_str().to_string())).collect(),
        ).collect(),
    )
}

/// `gaps[k] + found[k] + gaps[k + 1] + ... + gaps[n]`: the text from gap `k` on,
/// where `found` holds the matches that the gaps lie between.
pub open spec fn interleaved(gaps: Seq<Seq<char>>, found: Seq<Seq<char>>, k: int) -> Seq<char>
    decreases found.len() - k,
{
    if k < 0 {
        seq![]
    } else if k >= found.len() {
        if k < gaps.len() {
            gaps[k]
        } else {
            seq![]
        }
    } else {
        gaps[k] + found[k] + interleaved(gaps, found, k + 1)
    }
}

/// For a pattern that compiles: the texts between the successive non-overlapping
/// matches of `pattern` in `haystack`, and the texts of those matches; `None` where
/// `pattern` does not compile.
pub uninterp spec fn regex_split_found(pattern: Seq<char>, haystack: Seq<char>) -> Option<
    (Seq<Seq<char>>, Seq<Seq<char>>),
>;

/// `regex::Regex::new(pattern)`, then `Regex::split(haystack)` and
/// `Regex::find_iter(haystack)`, each piece and match taken as text. The result is
/// the named one; as the crate's `Split` iterator yields the text before each match
/// and then the rest, there is one gap more than there are matches, and gaps and
/// matches taken in turn spell `haystack`.
#[verifier::external_body]
pub(crate) fn regex_split(pattern: &str, haystack: &str) -> (r: Option<(Vec<String>, Vec<String>)>)
    ensures
        r is Some <==> regex_split_found(pattern@, haystack@) is Some,
        r matches Some((gaps, found)) ==> {
            &&& regex_split_found(pattern@, haystack@) == Some((gaps.deep_view(), found.deep_view()))
            &&& gaps@.len() == found@.len() + 1
            &&& interleaved(gaps.deep_view(), found.deep_view(), 0) == haystack@
        },
{
    let re = regex::Regex::new(pattern).ok()?;
    let gaps = re.split(haystack).map(|g| g.to_string()).collect();
    let found = re.find_iter(haystack).map(|m| m.as_str().to_string()).collect();
    Some((gaps, found))
}

/// The full Unicode lowercase mapping of `s`.
pub uninterp spec fn lowercased(s: Seq<char>) -> Seq<char>;

/// `str::to_lowercase`: the named lowercase mapping of `s`; the empty string maps
/// to the empty string.
#[verifier::external_body]
pub fn to_lowercase(s: &str) -> (lower: String)
    ensures
        lower@ == lowercased(s@),
        s@.len() == 0 ==> lower@.len() == 0,
{
    s.to_lowercase()
}


/// What `str::parse::<i64>` gives for `x`: an optional sign, then one or more ASCII
/// digits whose signed value fits in 64 bits.
pub open spec fn parsed_i64(x: Seq<char>) -> Option<i64> {
    let neg = x.len() > 0 && x[0] == '-';
    let ds = if x.len() > 0 && (x[0] == '+' || x[0] == '-') { x.drop_first() } else { x };
    let v = if neg { -digits_value(ds) } else { digits_value(ds) };
    if ds.len() > 0 && all_ascii_digits(ds) && i64::MIN <= v <= i64::MAX {
        Some(v as i64)
    } else {
        None
    }
}

/// Parses a signed 64-bit value as `str::parse::<i64>` does.
pub fn parse_i64(x: &str) -> (v: Option<i64>)
    ensures
        v == parsed_i64(x@),
{
    let cs = chars_of(x);
    let neg = cs.len() > 0 && cs[0] == '-';
    let start: usize = if cs.len() > 0 && (cs[0] == '+' || cs[0] == '-') { 1 } else { 0 };
    let ghost ds = if x@.len() > 0 && (x@[0] == '+' || x@[0] == '-') { x@.drop_first() } else { x@ };
    assert(ds =~= cs@.subrange(start as int, cs@.len() as int));
    if start >= cs.len() {
        return None;
    }
    let cap: u64 = 0x8000_0000_0000_0001;
    let mut acc: u64 = 0;
    let mut i: usize = start;
    while i < cs.len()
        invariant
            cs@ == x@,
            start <= i <= cs@.len(),
            ds =~= cs@.subrange(start as int, cs@.len() as int),
            ds == (if x@.len() > 0 && (x@[0] == '+' || x@[0] == '-') { x@.drop_first() } else { x@ }),
            all_ascii_digits(cs@.subrange(start as int, i as int)),
            cap == 0x8000_0000_0000_0001u64,
            acc <= cap,
            acc < cap ==> acc == digits_value(cs@.subrange(start as int, i as int)),
            acc == cap ==> digits_value(cs@.subrange(start as int, i as int)) >= cap,
        decreases cs@.len() - i,
    {
        let c = cs[i];
        let ghost prefix = cs@.subrange(start as int, i as int);
        let ghost next = cs@.subrange(start as int, i + 1);
        assert(next.drop_last() =~= prefix);
        if !('0' <= c && c <= '9') {
            assert(ds[i - start] == c);
            assert(!is_ascii_digit(ds[i - start]));
            assert(!all_ascii_digits(ds));
            return None;
        }
        proof {
            lemma_digits_value_nonneg(prefix);
            assert forall|j: int| 0 <= j < next.len() implies is_ascii_digit(#[trigger] next[j]) by {
                if j < prefix.len() {
                    assert(next[j] == prefix[j]);
                }
            }
        }
        let d: u64 = (c as u64) - ('0' as u64);
        if acc < cap {
            if acc > (cap - d) / 10 {
                acc = cap;
            } else {
                acc = acc * 10 + d;
                if acc > cap {
                    acc = cap;
                }
            }
        }
        i = i + 1;
    }
    assert(cs@.subrange(start as int, i as int) =~= ds);
    if neg {
        if acc > 0x8000_0000_0000_0000 {
            None
        } else if acc == 0x8000_0000_0000_0000 {
            Some(i64::MIN)
        } else {
            Some(0 - (acc as i64))
        }
    } else {
        if acc > 0x7fff_ffff_ffff_ffff {
            None
        } else {
            Some(acc as i64)
        }
    }
}

/// `s` with every trailing `c` removed, as `str::trim_end_matches(c)` gives it.
pub open spec fn trim_end_char(s: Seq<char>, c: char) -> Seq<char>
    decreases s.len(),
{
    if s.len() > 0 && s.last() == c {
        trim_end_char(s.drop_last(), c)
    } else {
        s
    }
}

/// Whether `s` ends with `suffix`.
pub open spec fn ends_with(s: Seq<char>, suffix: Seq<char>) -> bool {
    suffix.len() <= s.len() && s.subrange(s.len() - suffix.len(), s.len() as int) == suffix
}

pub fn chars_ends_with(s: &Vec<char>, end: usize, suffix: &Vec<char>) -> (r: bool)
    requires
        end <= s@.len(),
    ensures
        r == ends_with(s@.take(end as int), suffix@),
{
    if suffix.len() > end {
        return false;
    }
    let base = end - suffix.len();
    let mut j: usize = 0;
    while j < suffix.len()
        invariant
            base + suffix@.len() == end,
            end <= s@.len(),
            j <= suffix@.len(),
            forall|k: int| 0 <= k < j ==> s@[base + k] == suffix@[k],
        decreases suffix@.len() - j,
    {
        if s[base + j] != suffix[j] {
            assert(s@.take(end as int).subrange(base as int, end as int)[j as int] == s@[base + j]);
            return false;
        }
        j = j + 1;
    }
    assert(s@.take(end as int).subrange(base as int, end as int) =~= suffix@);
    true
}

/// Removes every trailing `c` from `s`.
pub fn trim_end_char_of(s: &str, c: char) -> (t: String)
    ensures
        t@ == trim_end_char(s@, c),
{
    let cs = chars_of(s);
    let mut end: usize = cs.len();
    assert(cs@.take(end as int) =~= s@);
    while end > 0 && cs[end - 1] == c
        invariant
            cs@ == s@,
            end <= cs@.len(),
            trim_end_char(s@, c) == trim_end_char(cs@.take(end as int), c),
        decreases end,
    {
        assert(cs@.take(end as int).drop_last() =~= cs@.take(end - 1));
        end = end - 1;
    }
    let out = vstd::slice::slice_subrange(cs.as_slice(), 0, end);
    assert(out@ =~= cs@.take(end as int));
    string_from_chars(out)
}

/// The decimal digit character for `d` (0 to 9).
pub open spec fn digit_char(d: int) -> char {
    if d == 0 {
        '0'
    } else if d == 1 {
        '1'
    } else if d == 2 {
        '2'
    } else if d == 3 {
        '3'
    } else if d == 4 {
        '4'
    } else if d == 5 {
        '5'
    } else if d == 6 {
        '6'
    } else if d == 7 {
        '7'
    } else if d == 8 {
        '8'
    } else {
        '9'
    }
}

/// The decimal writing of `n`, without leading zeros.
pub open spec fn decimal(n: nat) -> Seq<char>
    decreases n,
{
    if n < 10 {
        seq![digit_char(n as int)]
    } else {
        decimal(n / 10).push(digit_char((n % 10) as int))
    }
}

fn digit(d: u128) -> (c: char)
    requires
        d < 10,
    ensures
        c == digit_char(d as int),
{
    if d == 0 {
        '0'
    } else if d == 1 {
        '1'
    } else if d == 2 {
        '2'
    } else if d == 3 {
        '3'
    } else if d == 4 {
        '4'
    } else if d == 5 {
        '5'
    } else if d == 6 {
        '6'
    } else if d == 7 {
        '7'
    } else if d == 8 {
        '8'
    } else {
        '9'
    }
}

/// Writes `n` in decimal.
pub fn decimal_chars(n: u128) -> (cs: Vec<char>)
    ensures
        cs@ == decimal(n as nat),
    decreases n,
{
    if n < 10 {
        let mut v: Vec<char> = Vec::new();
        v.push(digit(n));
        v
    } else {
        let mut v = decimal_chars(n / 10);
        v.push(digit(n % 10));
        v
    }
}

/// Appends the characters of `s` to `out`.
pub fn push_str(out: &mut Vec<char>, s: &str)
    ensures
        final(out)@ == old(out)@ + s@,
{
    let cs = chars_of(s);
    let mut i: usize = 0;
    let ghost start = out@;
    while i < cs.len()
        invariant
            cs@ == s@,
            i <= cs@.len(),
            out@ == start + cs@.take(i as int),
        decreases cs@.len() - i,
    {
        out.push(cs[i]);
        assert(cs@.take(i + 1) =~= cs@.take(i as int).push(cs@[i as int]));
        i = i + 1;
    }
    assert(cs@.take(i as int) =~= cs@);
}

/// Whether `needle` occurs in `hay` as a contiguous run.
pub open spec fn contains_chars(hay: Seq<char>, needle: Seq<char>) -> bool {
    exists|i: int|
        0 <= i && i + needle.len() <= hay.len() && #[trigger] hay.subrange(i, i + needle.len())
            == needle
}

fn matches_at(hay: &Vec<char>, needle: &Vec<char>, i: usize) -> (m: bool)
    requires
        i + needle@.len() <= hay@.len(),
    ensures
        m == (hay@.subrange(i as int, i + needle@.len()) == needle@),
{
    let _hay_len = hay.len();
    let mut j: usize = 0;
    while j < needle.len()
        invariant
            i + needle@.len() <= hay@.len(),
            hay@.len() <= usize::MAX,
            j <= needle@.len(),
            forall|k: int| 0 <= k < j ==> hay@[i + k] == needle@[k],
        decreases needle@.len() - j,
    {
        if hay[i + j] != needle[j] {
            assert(hay@.subrange(i as int, i + needle@.len())[j as int] != needle@[j as int]);
            return false;
        }
        j = j + 1;
    }
    assert(hay@.subrange(i as int, i + needle@.len()) =~= needle@);
    true
}

/// Whether `needle` occurs in `hay`, as `str::contains` decides it.
pub fn contains(hay: &str, needle: &str) -> (found: bool)
    ensures
        found == contains_chars(hay@, needle@),
{
    let h = chars_of(hay);
    let n = chars_of(needle);
    if n.len() > h.len() {
        return false;
    }
    if n.len() == 0 {
        assert(hay@.subrange(0int, 0int + needle@.len()) =~= needle@);
        return true;
    }
    let last = h.len() - n.len();
    let mut i: usize = 0;
    while i <= last
        invariant
            h@ == hay@,
            n@ == needle@,
            last + n@.len() == h@.len(),
            h@.len() <= usize::MAX,
            n@.len() > 0,
            i <= last + 1,
            forall|k: int| 0 <= k < i ==> #[trigger] h@.subrange(k, k + n@.len()) != n@,
        decreases last + 1 - i,
    {
        if matches_at(&h, &n, i) {
            assert(hay@.subrange(i as int, i + needle@.len()) == needle@);
            return true;
        }
        i = i + 1;
    }
    false
}

/// Whether `a` comes before `b` in lexicographic order of code points, which is
/// the byte order of their UTF-8 encodings.
pub open spec fn chars_lt(a: Seq<char>, b: Seq<char>) -> bool
    decreases a.len(),
{
    if a.len() == 0 {
        b.len() > 0
    } else if b.len() == 0 {
        false
    } else if a[0] != b[0] {
        a[0] < b[0]
    } else {
        chars_lt(a.drop_first(), b.drop_first())
    }
}

pub proof fn lemma_chars_lt_irreflexive(a: Seq<char>)
    ensures
        !chars_lt(a, a),
    decreases a.len(),
{
    if a.len() > 0 {
        lemma_chars_lt_irreflexive(a.drop_first());
    }
}

pub proof fn lemma_chars_lt_transitive(a: Seq<char>, b: Seq<char>, c: Seq<char>)
    requires
        chars_lt(a, b),
        chars_lt(b, c),
    ensures
        chars_lt(a, c),
    decreases a.len(),
{
    if a.len() > 0 && b.len() > 0 && c.len() > 0 && a[0] == b[0] && b[0] == c[0] {
        lemma_chars_lt_transitive(a.drop_first(), b.drop_first(), c.drop_first());
    }
}

pub proof fn lemma_chars_lt_total(a: Seq<char>, b: Seq<char>)
    ensures
        a != b ==> chars_lt(a, b) || chars_lt(b, a),
    decreases a.len(),
{
    if a.len() > 0 && b.len() > 0 && a[0] == b[0] {
        lemma_chars_lt_total(a.drop_first(), b.drop_first());
        if a.drop_first() == b.drop_first() {
            assert(a =~= seq![a[0]] + a.drop_first());
            assert(b =~= seq![b[0]] + b.drop_first());
        }
    } else if a.len() == 0 && b.len() == 0 {
        assert(a =~= b);
    }
}

/// Compares two strings by code point.
pub fn str_lt(a: &str, b: &str) -> (lt: bool)
    ensures
        lt == chars_lt(a@, b@),
{
    let ac = chars_of(a);
    let bc = chars_of(b);
    let mut i: usize = 0;
    assert(a@.skip(0) =~= a@);
    assert(b@.skip(0) =~= b@);
    while i < ac.len() && i < bc.len() && ac[i] == bc[i]
        invariant
            ac@ == a@,
            bc@ == b@,
            i <= ac@.len(),
            i <= bc@.len(),
            chars_lt(a@, b@) == chars_lt(a@.skip(i as int), b@.skip(i as int)),
        decreases ac@.len() - i,
    {
        assert(a@.skip(i as int).drop_first() =~= a@.skip(i + 1));
        assert(b@.skip(i as int).drop_first() =~= b@.skip(i + 1));
        i = i + 1;
    }
    if i == ac.len() {
        assert(a@.skip(i as int).len() == 0);
        i < bc.len()
    } else if i == bc.len() {
        assert(b@.skip(i as int).len() == 0);
        false
    } else {
        assert(a@.skip(i as int)[0] == ac@[i as int]);
        assert(b@.skip(i as int)[0] == bc@[i as int]);
        ac[i] < bc[i]
    }
}

/// Whether every `true` in `flags` comes before every `false`.
pub open spec fn is_partitioned(flags: Seq<bool>) -> bool {
    forall|i: int, j: int| 0 <= i < j < flags.len() && #[trigger] flags[j] ==> #[trigger] flags[i]
}

/// The first index of `flags` that holds `false`, or the length where none does.
/// Where the flags are partitioned (every `true` before every `false`), it is the
/// partition point.
pub open spec fn first_false(flags: Seq<bool>) -> int
    decreases flags.len(),
{
    if flags.len() == 0 || !flags[0] {
        0
    } else {
        1 + first_false(flags.drop_first())
    }
}

proof fn lemma_first_false(flags: Seq<bool>, r: int)
    requires
        0 <= r <= flags.len(),
        forall|i: int| 0 <= i < r ==> flags[i],
        r < flags.len() ==> !flags[r],
    ensures
        first_false(flags) == r,
    decreases r,
{
    if r > 0 {
        assert(flags[0]);
        lemma_first_false(flags.drop_first(), r - 1);
    }
}

/// The first index of `flags` that holds `false`: the partition point of
/// partitioned flags.
pub fn first_false_index(flags: &[bool]) -> (r: usize)
    ensures
        r == first_false(flags@),
        r <= flags@.len(),
        forall|i: int| 0 <= i < r ==> flags@[i],
        is_partitioned(flags@) ==> forall|i: int| r <= i < flags@.len() ==> !flags@[i],
{
    let mut r: usize = 0;
    while r < flags.len() && flags[r]
        invariant
            r <= flags@.len(),
            forall|i: int| 0 <= i < r ==> flags@[i],
        decreases flags@.len() - r,
    {
        r = r + 1;
    }
    proof {
        lemma_first_false(flags@, r as int);
    }
    r
}


/// `s` without its leading white space, as `str::trim_start` gives it.
pub open spec fn trim_start_ws(s: Seq<char>) -> Seq<char>
    decreases s.len(),
{
    if s.len() > 0 && is_unicode_whitespace(s[0]) {
        trim_start_ws(s.drop_first())
    } else {
        s
    }
}

/// `s` without its trailing white space, as `str::trim_end` gives it.
pub open spec fn trim_end_ws(s: Seq<char>) -> Seq<char>
    decreases s.len(),
{
    if s.len() > 0 && is_unicode_whitespace(s.last()) {
        trim_end_ws(s.drop_last())
    } else {
        s
    }
}

/// `s` without white space at either end, as `str::trim` gives it.
pub open spec fn trim_ws(s: Seq<char>) -> Seq<char> {
    trim_end_ws(trim_start_ws(s))
}

/// Where the text `s[lo..hi]` starts once its leading white space is skipped.
pub fn skip_leading_ws(s: &Vec<char>, lo: usize, hi: usize) -> (start: usize)
    requires
        lo <= hi <= s@.len(),
    ensures
        lo <= start <= hi,
        s@.subrange(start as int, hi as int) == trim_start_ws(s@.subrange(lo as int, hi as int)),
{
    let mut i = lo;
    while i < hi && is_whitespace(s[i])
        invariant
            lo <= i <= hi <= s@.len(),
            trim_start_ws(s@.subrange(lo as int, hi as int)) == trim_start_ws(
                s@.subrange(i as int, hi as int),
            ),
        decreases hi - i,
    {
        assert(s@.subrange(i as int, hi as int).drop_first() =~= s@.subrange(i + 1, hi as int));
        i = i + 1;
    }
    i
}

/// Where the text `s[lo..hi]` ends once its trailing white space is dropped.
pub fn drop_trailing_ws(s: &Vec<char>, lo: usize, hi: usize) -> (end: usize)
    requires
        lo <= hi <= s@.len(),
    ensures
        lo <= end <= hi,
        s@.subrange(lo as int, end as int) == trim_end_ws(s@.subrange(lo as int, hi as int)),
{
    let mut j = hi;
    while j > lo && is_whitespace(s[j - 1])
        invariant
            lo <= j <= hi <= s@.len(),
            trim_end_ws(s@.subrange(lo as int, hi as int)) == trim_end_ws(
                s@.subrange(lo as int, j as int),
            ),
        decreases j,
    {
        assert(s@.subrange(lo as int, j as int).drop_last() =~= s@.subrange(lo as int, j - 1));
        j = j - 1;
    }
    j
}

/// The bounds of `s[lo..hi]` once white space is dropped from both ends.
pub fn trim_bounds(s: &Vec<char>, lo: usize, hi: usize) -> (r: (usize, usize))
    requires
        lo <= hi <= s@.len(),
    ensures
        lo <= r.0 <= r.1 <= hi,
        s@.subrange(r.0 as int, r.1 as int) == trim_ws(s@.subrange(lo as int, hi as int)),
{
    let a = skip_leading_ws(s, lo, hi);
    let b = drop_trailing_ws(s, a, hi);
    (a, b)
}

/// The characters `s[lo..hi]`.
pub fn chars_between(s: &Vec<char>, lo: usize, hi: usize) -> (r: Vec<char>)
    requires
        lo <= hi <= s@.len(),
    ensures
        r@ == s@.subrange(lo as int, hi as int),
{
    let mut r: Vec<char> = Vec::new();
    let mut i = lo;
    while i < hi
        invariant
            lo <= i <= hi <= s@.len(),
            r@ == s@.subrange(lo as int, i as int),
        decreases hi - i,
    {
        r.push(s[i]);
        assert(s@.subrange(lo as int, i + 1) =~= s@.subrange(lo as int, i as int).push(s@[i as int]));
        i = i + 1;
    }
    r
}

/// A line without the carriage return that ended it before its line feed.
pub open spec fn strip_cr(line: Seq<char>) -> Seq<char> {
    if line.len() > 0 && line.last() == '\r' {
        line.drop_last()
    } else {
        line
    }
}

/// The lines that `s` has completed, and the start of the line it is in.
pub open spec fn line_split(s: Seq<char>) -> (Seq<Seq<char>>, Seq<char>)
    decreases s.len(),
{
    if s.len() == 0 {
        (seq![], seq![])
    } else {
        let (done, cur) = line_split(s.drop_last());
        if s.last() == '\n' {
            (done.push(strip_cr(cur)), seq![])
        } else {
            (done, cur.push(s.last()))
        }
    }
}

/// The lines of `s`, as `str::lines` gives them: split at each `\n`, a `\r` just
/// before it dropped, and no empty line after a final `\n`.
pub open spec fn lines_of(s: Seq<char>) -> Seq<Seq<char>> {
    let (done, cur) = line_split(s);
    if cur.len() == 0 {
        done
    } else {
        done.push(cur)
    }
}

/// The lines of `s`.
pub fn lines(s: &Vec<char>) -> (ls: Vec<Vec<char>>)
    ensures
        ls.deep_view() == lines_of(s@),
{
    let mut done: Vec<Vec<char>> = Vec::new();
    let mut cur: Vec<char> = Vec::new();
    let mut i: usize = 0;
    while i < s.len()
        invariant
            i <= s@.len(),
            (done.deep_view(), cur@) == line_split(s@.take(i as int)),
        decreases s@.len() - i,
    {
        assert(s@.take(i + 1).drop_last() =~= s@.take(i as int));
        if s[i] == '\n' {
            if cur.len() > 0 && cur[cur.len() - 1] == '\r' {
                cur.pop();
            }
            let line = cur;
            let ghost before = done.deep_view();
            let ghost prior = done@;
            let ghost line_view = line@;
            done.push(line);
            cur = Vec::new();
            assert(done.deep_view() =~= before.push(line_view)) by {
                assert forall|j: int| 0 <= j < done@.len() implies done.deep_view()[j]
                    == before.push(line_view)[j] by {
                    if j < before.len() {
                        assert(done@[j] == prior[j]);
                    }
                }
            }
        } else {
            cur.push(s[i]);
        }
        i = i + 1;
    }
    assert(s@.take(i as int) =~= s@);
    let ghost before = done.deep_view();
    let ghost prior = done@;
    let ghost last = cur@;
    if cur.len() > 0 {
        done.push(cur);
        assert(done.deep_view() =~= before.push(last)) by {
            assert forall|j: int| 0 <= j < done@.len() implies done.deep_view()[j] == before.push(
                last,
            )[j] by {
                if j < before.len() {
                    assert(done@[j] == prior[j]);
                }
            }
        }
    }
    done
}

/// Appends the characters of `s` to `out`.
pub fn push_chars(out: &mut Vec<char>, s: &Vec<char>)
    ensures
        final(out)@ == old(out)@ + s@,
{
    let ghost start = out@;
    let mut i: usize = 0;
    while i < s.len()
        invariant
            i <= s@.len(),
            out@ == start + s@.take(i as int),
        decreases s@.len() - i,
    {
        out.push(s[i]);
        assert(s@.take(i + 1) =~= s@.take(i as int).push(s@[i as int]));
        i = i + 1;
    }
    assert(s@.take(i as int) =~= s@);
}

/// Appends the text `x` to the texts `v`.
pub fn push_text(v: &mut Vec<Vec<char>>, x: Vec<char>)
    ensures
        final(v).deep_view() == old(v).deep_view().push(x@),
{
    let ghost before = v.deep_view();
    let ghost prior = v@;
    let ghost xv = x@;
    v.push(x);
    assert(v.deep_view() =~= before.push(xv)) by {
        assert forall|j: int| 0 <= j < v@.len() implies v.deep_view()[j] == before.push(xv)[j] by {
            if j < before.len() {
                assert(v@[j] == prior[j]);
            }
        }
    }
}

/// The characters of each string of `v`.
pub fn char_texts(v: &Vec<String>) -> (r: Vec<Vec<char>>)
    ensures
        r.deep_view() == v.deep_view(),
{
    let mut r: Vec<Vec<char>> = Vec::new();
    let mut i: usize = 0;
    while i < v.len()
        invariant
            i <= v@.len(),
            r.deep_view() == v.deep_view().take(i as int),
        decreases v@.len() - i,
    {
        push_text(&mut r, chars_of(v[i].as_str()));
        assert(v.deep_view().take(i + 1) =~= v.deep_view().take(i as int).push(v@[i as int]@));
        i = i + 1;
    }
    assert(v.deep_view().take(i as int) =~= v.deep_view());
    r
}

/// Each text of `v` as a string.
pub fn string_texts(v: &Vec<Vec<char>>) -> (r: Vec<String>)
    ensures
        r.deep_view() == v.deep_view(),
{
    let mut r: Vec<String> = Vec::new();
    let mut i: usize = 0;
    while i < v.len()
        invariant
            i <= v@.len(),
            r@.len() == i,
            r.deep_view() == v.deep_view().take(i as int),
        decreases v@.len() - i,
    {
        let ghost before = r.deep_view();
        let ghost prior = r@;
        let t = string_from_chars(v[i].as_slice());
        r.push(t);
        assert(r.deep_view() =~= v.deep_view().take(i + 1)) by {
            assert forall|j: int| 0 <= j < r@.len() implies r.deep_view()[j] == v.deep_view().take(
                i + 1,
            )[j] by {
                if j < i {
                    assert(r@[j] == prior[j]);
                }
            }
        }
        i = i + 1;
    }
    assert(v.deep_view().take(i as int) =~= v.deep_view());
    r
}

/// Where `sep` first occurs in `s`, or -1.
pub open spec fn first_occurrence(s: Seq<char>, sep: Seq<char>) -> int
    decreases s.len(),
{
    if s.len() < sep.len() {
        -1
    } else if s.take(sep.len() as int) == sep {
        0
    } else if s.len() == 0 {
        -1
    } else {
        let r = first_occurrence(s.drop_first(), sep);
        if r < 0 {
            -1
        } else {
            r + 1
        }
    }
}

/// The pieces of `s` between the occurrences of the non-empty `sep`, found from
/// the left, as `str::split(sep)` gives them.
pub open spec fn split_on(s: Seq<char>, sep: Seq<char>) -> Seq<Seq<char>>
    decreases s.len(),
{
    let i = first_occurrence(s, sep);
    if sep.len() == 0 || i < 0 || i + sep.len() > s.len() {
        seq![s]
    } else {
        seq![s.take(i)] + split_on(s.skip(i + sep.len()), sep)
    }
}

proof fn lemma_first_occurrence(s: Seq<char>, sep: Seq<char>, i: int)
    requires
        0 <= i <= s.len(),
        forall|j: int| 0 <= j < i ==> !(j + sep.len() <= s.len() && #[trigger] s.subrange(j, j + sep.len()) == sep),
        i + sep.len() <= s.len() ==> s.subrange(i, i + sep.len()) == sep,
        i + sep.len() > s.len() ==> i == s.len(),
    ensures
        first_occurrence(s, sep) == (if i + sep.len() <= s.len() { i } else { -1 }),
    decreases i,
{
    if i > 0 {
        let k = sep.len() as int;
        if s.len() >= sep.len() {
            assert(s.take(k) =~= s.subrange(0, 0 + k));
            assert(!(0 + k <= s.len() && s.subrange(0, 0 + k) == sep));
        }
        let t = s.drop_first();
        assert forall|j: int| 0 <= j < i - 1 implies !(j + sep.len() <= t.len() && #[trigger] t.subrange(
            j,
            j + sep.len(),
        ) == sep) by {
            if j + sep.len() <= t.len() {
                assert(t.subrange(j, j + sep.len()) =~= s.subrange(j + 1, j + 1 + sep.len()));
            }
        }
        if i + sep.len() <= s.len() {
            assert(t.subrange(i - 1, i - 1 + sep.len()) =~= s.subrange(i, i + sep.len()));
        }
        lemma_first_occurrence(t, sep, i - 1);
    } else {
        if sep.len() <= s.len() {
            assert(s.take(sep.len() as int) =~= s.subrange(0, sep.len() as int));
        }
    }
}

/// The pieces of `s` between the occurrences of the non-empty `sep`.
pub fn split_by(s: &Vec<char>, sep: &Vec<char>) -> (pieces: Vec<Vec<char>>)
    requires
        sep@.len() > 0,
    ensures
        pieces.deep_view() == split_on(s@, sep@),
{
    let mut pieces: Vec<Vec<char>> = Vec::new();
    let mut start: usize = 0;
    let mut i: usize = 0;
    assert(s@.subrange(0, s@.len() as int) =~= s@);
    while i < s.len()
        invariant
            sep@.len() > 0,
            start <= i <= s@.len(),
            split_on(s@, sep@) == pieces.deep_view() + split_on(s@.subrange(start as int, s@.len() as int), sep@),
            forall|j: int| start <= j < i ==> !(j + sep@.len() <= s@.len() && #[trigger] s@.subrange(j, j + sep@.len()) == sep@),
        decreases s@.len() - i,
    {
        if word_at_index(s, i, sep) {
            let ghost rest = s@.subrange(start as int, s@.len() as int);
            proof {
                assert forall|j: int| 0 <= j < i - start implies !(j + sep@.len() <= rest.len() && #[trigger] rest.subrange(
                    j,
                    j + sep@.len(),
                ) == sep@) by {
                    if j + sep@.len() <= rest.len() {
                        assert(rest.subrange(j, j + sep@.len()) =~= s@.subrange(start + j, start + j + sep@.len()));
                    }
                }
                assert(rest.subrange(i - start, i - start + sep@.len()) =~= s@.subrange(i as int, i + sep@.len()));
                lemma_first_occurrence(rest, sep@, i - start);
                assert(rest.take(i - start) =~= s@.subrange(start as int, i as int));
                assert(rest.skip(i - start + sep@.len()) =~= s@.subrange(i + sep@.len(), s@.len() as int));
            }
            let piece = chars_between(s, start, i);
            let ghost before = pieces.deep_view();
            push_text(&mut pieces, piece);
            assert(before + split_on(rest, sep@) =~= pieces.deep_view() + split_on(
                s@.subrange(i + sep@.len(), s@.len() as int),
                sep@,
            ));
            i = i + sep.len();
            start = i;
        } else {
            i = i + 1;
        }
    }
    let ghost rest = s@.subrange(start as int, s@.len() as int);
    proof {
        assert forall|j: int| 0 <= j < rest.len() implies !(j + sep@.len() <= rest.len() && #[trigger] rest.subrange(
            j,
            j + sep@.len(),
        ) == sep@) by {
            if j + sep@.len() <= rest.len() {
                assert(rest.subrange(j, j + sep@.len()) =~= s@.subrange(start + j, start + j + sep@.len()));
            }
        }
        lemma_first_occurrence(rest, sep@, rest.len() as int);
    }
    let last = chars_between(s, start, s.len());
    let ghost before = pieces.deep_view();
    push_text(&mut pieces, last);
    assert(pieces.deep_view() =~= before + split_on(rest, sep@));
    pieces
}

/// Whether the characters of `w` stand in `s` at `p`.
pub fn word_at_index(s: &Vec<char>, p: usize, w: &Vec<char>) -> (r: bool)
    ensures
        r == (p + w@.len() <= s@.len() && s@.subrange(p as int, p + w@.len()) == w@),
{
    if p > s.len() || w.len() > s.len() - p {
        return false;
    }
    let mut j: usize = 0;
    while j < w.len()
        invariant
            p + w@.len() <= s.len(),
            j <= w@.len(),
            forall|k: int| 0 <= k < j ==> s@[p + k] == w@[k],
        decreases w@.len() - j,
    {
        if s[p + j] != w[j] {
            assert(s@.subrange(p as int, p + w@.len())[j as int] != w@[j as int]);
            return false;
        }
        j = j + 1;
    }
    assert(s@.subrange(p as int, p + w@.len()) =~= w@);
    true
}

/// Whether the string `a` holds exactly the characters `b`.
pub fn str_eq_chars(a: &str, b: &Vec<char>) -> (same: bool)
    ensures
        same == (a@ == b@),
{
    let ac = chars_of(a);
    if ac.len() != b.len() {
        return false;
    }
    let mut i: usize = 0;
    while i < ac.len()
        invariant
            ac@ == a@,
            ac@.len() == b@.len(),
            i <= ac@.len(),
            forall|j: int| 0 <= j < i ==> ac@[j] == b@[j],
        decreases ac@.len() - i,
    {
        if ac[i] != b[i] {
            return false;
        }
        i = i + 1;
    }
    assert(ac@ =~= b@);
    true
}

} // verus!
