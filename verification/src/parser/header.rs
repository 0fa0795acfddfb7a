//! The dictionary header: a checksummed UTF-16LE text of `name="value"` attributes.
use vstd::prelude::*;
use super::{MdxError, Version};
use crate::bytes::{be_u32_at, le_u32_at, read_be_u32, read_le_u32};
use crate::codec::{adler32, adler32_of};
use crate::text::{
    chars_of, is_ascii_digit, is_unicode_whitespace, is_whitespace, parse_u8, parsed_u8,
    regex_capture_groups, regex_captures, str_eq, utf16le_decode_strict, utf16le_strict_decoded,
};

verus! {

/// The header attributes that the rest of the file depends on.
#[derive(Debug)]
pub struct Header {
    pub version: Version,
    pub encrypted: u8,
    pub encoding: String,
}

/// What a [`Header`] holds.
pub struct HeaderModel {
    pub version: Version,
    pub encrypted: u8,
    pub encoding: Seq<char>,
}

impl View for Header {
    type V = HeaderModel;

    open spec fn view(&self) -> HeaderModel {
        HeaderModel { version: self.version, encrypted: self.encrypted, encoding: self.encoding@ }
    }
}

/// The regular expression that finds `name="value"` attributes in the header text.
pub open spec fn attr_pattern() -> Seq<char> {
    "(\\w+)=\"((.|\\r\\n|[\\r\\n])*?)\""@
}

/// The groups of every attribute match in the header text.
pub open spec fn header_attrs(text: Seq<char>) -> Seq<Seq<Option<Seq<char>>>> {
    match regex_capture_groups(attr_pattern(), text) {
        Some(caps) => caps,
        None => seq![],
    }
}

/// The value of the last attribute named `key`: later attributes replace earlier ones.
pub open spec fn attr_lookup(caps: Seq<Seq<Option<Seq<char>>>>, key: Seq<char>) -> Option<Seq<char>>
    decreases caps.len(),
{
    if caps.len() == 0 {
        None
    } else {
        let c = caps.last();
        if c.len() > 2 && c[1] == Some(key) && c[2] is Some {
            c[2]
        } else {
            attr_lookup(caps.drop_last(), key)
        }
    }
}

/// The first character of `s` that is not white space.
pub open spec fn first_non_whitespace(s: Seq<char>) -> Option<char>
    decreases s.len(),
{
    if s.len() == 0 {
        None
    } else if !is_unicode_whitespace(s[0]) {
        Some(s[0])
    } else {
        first_non_whitespace(s.drop_first())
    }
}

/// The format generation named by the first digit of the engine version.
pub open spec fn version_from(v: Seq<char>) -> Result<Version, MdxError> {
    match first_non_whitespace(v) {
        None => Err(MdxError::InvalidVersion),
        Some(c) => if c == '1' {
            Ok(Version::V1)
        } else if c == '2' {
            Ok(Version::V2)
        } else if c == '3' {
            Ok(Version::V3)
        } else if is_ascii_digit(c) {
            Err(MdxError::UnsupportedVersion)
        } else {
            Err(MdxError::InvalidVersion)
        },
    }
}

/// The encryption flags: 1 for `Yes`, the byte value of a number, 0 otherwise.
pub open spec fn encrypted_from(v: Option<Seq<char>>) -> u8 {
    match v {
        None => 0,
        Some(x) => if x == "Yes"@ {
            1
        } else {
            match parsed_u8(x) {
                Some(b) => b,
                None => 0,
            }
        },
    }
}

/// The text encoding of keys and records, UTF-8 when the header names none.
pub open spec fn encoding_from(v: Option<Seq<char>>) -> Seq<char> {
    match v {
        Some(e) => e,
        None => "UTF-8"@,
    }
}

/// The header that the attribute matches `attrs` describe: the engine version
/// must name a format generation; the encryption flags and the encoding have
/// defaults.
pub open spec fn attrs_header(attrs: Seq<Seq<Option<Seq<char>>>>) -> Result<HeaderModel, MdxError> {
    match attr_lookup(attrs, "GeneratedByEngineVersion"@) {
        None => Err(MdxError::MissingVersion),
        Some(v) => match version_from(v) {
            Err(e) => Err(e),
            Ok(version) => Ok(
                HeaderModel {
                    version,
                    encrypted: encrypted_from(attr_lookup(attrs, "Encrypted"@)),
                    encoding: encoding_from(attr_lookup(attrs, "Encoding"@)),
                },
            ),
        },
    }
}

/// The header at the start of `s` and the position just after it: a big-endian
/// length, that many bytes of UTF-16LE text, and the text's little-endian Adler-32.
pub open spec fn spec_header(s: Seq<u8>) -> Result<(int, HeaderModel), MdxError> {
    if s.len() < 4 {
        Err(MdxError::Truncated)
    } else {
        let n = be_u32_at(s, 0);
        if s.len() < 4 + n + 4 {
            Err(MdxError::Truncated)
        } else {
            let info = s.subrange(4, 4 + n);
            if adler32_of(info) != le_u32_at(s, 4 + n) {
                Err(MdxError::HeaderChecksum)
            } else {
                match utf16le_strict_decoded(info) {
                    None => Err(MdxError::HeaderText),
                    Some(text) => match attrs_header(header_attrs(text)) {
                        Err(e) => Err(e),
                        Ok(h) => Ok((4 + n + 4, h)),
                    },
                }
            }
        }
    }
}

/// The value of the last attribute named `key` among `caps`.
fn find_attr(caps: &Vec<Vec<Option<String>>>, key: &str) -> (v: Option<String>)
    ensures
        v.deep_view() == attr_lookup(caps.deep_view(), key@),
{
    let mut i: usize = caps.len();
    assert(caps.deep_view().take(i as int) =~= caps.deep_view());
    while i > 0
        invariant
            i <= caps@.len(),
            attr_lookup(caps.deep_view(), key@) == attr_lookup(
                caps.deep_view().take(i as int),
                key@,
            ),
        decreases i,
    {
        let ghost t = caps.deep_view().take(i as int);
        assert(t.drop_last() =~= caps.deep_view().take(i - 1));
        assert(t.last() == caps[i - 1].deep_view());
        let c = &caps[i - 1];
        if c.len() > 2 {
            assert(c.deep_view()[1] == c@[1].deep_view());
            assert(c.deep_view()[2] == c@[2].deep_view());
            match (&c[1], &c[2]) {
                (Some(name), Some(value)) => {
                    if str_eq(name.as_str(), key) {
                        return Some(value.clone());
                    }
                },
                _ => {},
            }
        }
        i = i - 1;
    }
    assert(caps.deep_view().take(0) =~= Seq::<Seq<Option<Seq<char>>>>::empty());
    None
}

/// Reads the format generation from the engine version text.
fn version_of(v: &str) -> (r: Result<Version, MdxError>)
    ensures
        r == version_from(v@),
{
    let cs = chars_of(v);
    let mut i: usize = 0;
    assert(v@.skip(0) =~= v@);
    while i < cs.len() && is_whitespace(cs[i])
        invariant
            cs@ == v@,
            i <= cs@.len(),
            first_non_whitespace(v@) == first_non_whitespace(v@.skip(i as int)),
        decreases cs@.len() - i,
    {
        assert(v@.skip(i as int).drop_first() =~= v@.skip(i + 1));
        i = i + 1;
    }
    if i == cs.len() {
        assert(v@.skip(i as int).len() == 0);
        return Err(MdxError::InvalidVersion);
    }
    let c = cs[i];
    assert(v@.skip(i as int)[0] == c);
    if c == '1' {
        Ok(Version::V1)
    } else if c == '2' {
        Ok(Version::V2)
    } else if c == '3' {
        Ok(Version::V3)
    } else if '0' <= c && c <= '9' {
        Err(MdxError::UnsupportedVersion)
    } else {
        Err(MdxError::InvalidVersion)
    }
}

/// Reads the encryption flags from the `Encrypted` attribute.
fn encrypted_of(v: &Option<String>) -> (flags: u8)
    ensures
        flags == encrypted_from(v.deep_view()),
{
    match v {
        None => 0,
        Some(x) => {
            if str_eq(x.as_str(), "Yes") {
                1
            } else {
                match parse_u8(x.as_str()) {
                    Some(b) => b,
                    None => 0,
                }
            }
        },
    }
}

/// Parses the header at the start of `data`.
pub fn parse_header(data: &[u8]) -> (r: Result<(usize, Header), MdxError>)
    ensures
        r matches Err(e) ==> e != MdxError::LzoUnavailable,
        r matches Ok((p, h)) ==> spec_header(data@) == Ok::<(int, HeaderModel), MdxError>((p as int, h@)),
        r matches Err(e) ==> spec_header(data@) == Err::<(int, HeaderModel), MdxError>(e),
        r matches Ok((p, h)) ==> p <= data@.len(),
{
    let len = data.len();
    if len < 4 {
        return Err(MdxError::Truncated);
    }
    let n: usize = read_be_u32(data, 0) as usize;
    if len - 4 < n || len - 4 - n < 4 {
        return Err(MdxError::Truncated);
    }
    let info = vstd::slice::slice_subrange(data, 4, 4 + n);
    let checksum = read_le_u32(data, 4 + n);
    if adler32(info) != checksum {
        return Err(MdxError::HeaderChecksum);
    }
    let text = match utf16le_decode_strict(info) {
        Some(t) => t,
        None => return Err(MdxError::HeaderText),
    };
    let caps: Vec<Vec<Option<String>>> = match regex_captures(
        "(\\w+)=\"((.|\\r\\n|[\\r\\n])*?)\"",
        text.as_str(),
    ) {
        Some(c) => c,
        None => Vec::new(),
    };
    assert(caps.deep_view() =~= header_attrs(text@));
    match header_from_attrs(&caps) {
        Ok(h) => Ok((4 + n + 4, h)),
        Err(e) => Err(e),
    }
}

/// The header that the attribute matches `caps` describe (each match: the whole
/// text, the name, the value).
pub fn header_from_attrs(caps: &Vec<Vec<Option<String>>>) -> (r: Result<Header, MdxError>)
    ensures
        r matches Ok(h) ==> attrs_header(caps.deep_view()) == Ok::<HeaderModel, MdxError>(h@),
        r matches Err(e) ==> attrs_header(caps.deep_view()) == Err::<HeaderModel, MdxError>(e),
        r matches Err(e) ==> e != MdxError::LzoUnavailable,
{
    let version_text = match find_attr(caps, "GeneratedByEngineVersion") {
        Some(v) => v,
        None => return Err(MdxError::MissingVersion),
    };
    let version = match version_of(version_text.as_str()) {
        Ok(v) => v,
        Err(e) => return Err(e),
    };
    let encrypted = encrypted_of(&find_attr(caps, "Encrypted"));
    let encoding = match find_attr(caps, "Encoding") {
        Some(e) => e,
        None => "UTF-8".to_owned(),
    };
    Ok(Header { version, encrypted, encoding })
}

} // verus!
