//! Turning a dictionary's HTML definition into coloured terminal text: HTML to
//! Markdown (html2text), Markdown tidied, parsed (comrak) and written out with
//! terminal colours (crossterm).
pub mod ansi;
pub mod markdown;
pub mod tree;
pub mod xml;

use vstd::prelude::*;
use ansi::Styles;
use markdown::{normalize_lists, normalized};
use tree::{render_document, rendered};
use xml::{document_of, read_commonmark_xml};

verus! {

/// The width that html2text lays text out to: wide enough that no paragraph is
/// wrapped.
pub const TEXT_WIDTH: usize = 10_000;

#[verifier::external_type_specification]
#[verifier::external_body]
pub struct ExHtmlError(html2text::Error);

/// The text that html2text makes of `html` laid out to `width` columns; `None`
/// where it reports an error.
pub uninterp spec fn html_text(html: Seq<char>, width: usize) -> Option<Seq<char>>;

/// `html2text::from_read(html.as_bytes(), width)`: the named text, or the crate's
/// error.
#[verifier::external_body]
fn html_to_text(html: &str, width: usize) -> (r: Result<String, html2text::Error>)
    ensures
        match r {
            Ok(t) => html_text(html@, width) == Some(t@),
            Err(_) => html_text(html@, width) is None,
        },
{
    html2text::from_read(html.as_bytes(), width)
}

/// The CommonMark XML that comrak writes for the Markdown `md` parsed with its
/// default options.
pub uninterp spec fn commonmark_xml(md: Seq<char>) -> Seq<char>;

/// `comrak::markdown_to_commonmark_xml(md, &Options::default())`: the named XML.
#[verifier::external_body]
fn markdown_to_xml(md: &str) -> (xml: String)
    ensures
        xml@ == commonmark_xml(md@),
{
    comrak::markdown_to_commonmark_xml(md, &comrak::Options::default())
}

/// Why a definition could not be rendered.
#[derive(Debug, Clone, Copy, PartialEq, Eq, Structural)]
pub enum RenderError {
    /// html2text could not read the HTML.
    Html,
    /// comrak's XML for the Markdown could not be read back.
    Markdown,
}

/// The terminal text of the HTML definition `content`, coloured with `st`: the
/// HTML as html2text lays it out, tidied by [`normalized`], parsed by comrak and
/// written out by [`rendered`].
pub open spec fn rendered_html(content: Seq<char>, st: Styles) -> Result<Seq<char>, RenderError> {
    match html_text(content, TEXT_WIDTH) {
        None => Err(RenderError::Html),
        Some(md) => match document_of(commonmark_xml(normalized(md))) {
            None => Err(RenderError::Markdown),
            Some(doc) => Ok(rendered(doc, st)),
        },
    }
}

/// The HTML definition `content` as html2text lays it out as Markdown to `width`
/// columns.
pub fn html_to_markdown(content: &str, width: usize) -> (r: Result<String, RenderError>)
    ensures
        match r {
            Ok(t) => html_text(content@, width) == Some(t@),
            Err(e) => e == RenderError::Html && html_text(content@, width) is None,
        },
{
    match html_to_text(content, width) {
        Ok(t) => Ok(t),
        Err(_) => Err(RenderError::Html),
    }
}

/// Renders the HTML definition `content` as terminal text coloured with `st`.
pub fn render_with(content: &str, st: &Styles) -> (r: Result<String, RenderError>)
    ensures
        match r {
            Ok(text) => rendered_html(content@, *st) == Ok::<Seq<char>, RenderError>(text@),
            Err(e) => rendered_html(content@, *st) == Err::<Seq<char>, RenderError>(e),
        },
{
    let md = match html_to_text(content, TEXT_WIDTH) {
        Ok(md) => md,
        Err(_) => {
            return Err(RenderError::Html);
        },
    };
    let tidy = normalize_lists(md.as_str());
    let xml = markdown_to_xml(tidy.as_str());
    match read_commonmark_xml(xml.as_str()) {
        Some(doc) => Ok(render_document(&doc, st)),
        None => Err(RenderError::Markdown),
    }
}

/// A way of turning a definition into terminal text.
pub trait Render {
    fn render(&self, content: &str) -> Result<String, RenderError>;
}

/// The rendering that the command line uses: Markdown with terminal colours.
pub struct DefaultRender {
    styles: Styles,
}

impl DefaultRender {
    /// The colour codes this rendering writes.
    pub closed spec fn styles(&self) -> Styles {
        self.styles
    }

    /// A rendering with the colour codes of the terminal library in this process.
    pub fn new() -> (r: DefaultRender)
        ensures
            r.styles().from_crossterm(),
    {
        DefaultRender { styles: Styles::from_terminal() }
    }
}

impl Default for DefaultRender {
    fn default() -> (r: DefaultRender)
        ensures
            r.styles().from_crossterm(),
    {
        DefaultRender::new()
    }
}

impl Render for DefaultRender {
    /// The terminal text of the HTML definition `content`.
    fn render(&self, content: &str) -> (r: Result<String, RenderError>)
        ensures
            match r {
                Ok(text) => rendered_html(content@, self.styles()) == Ok::<Seq<char>, RenderError>(
                    text@,
                ),
                Err(e) => rendered_html(content@, self.styles()) == Err::<Seq<char>, RenderError>(e),
            },
    {
        render_with(content, &self.styles)
    }
}

/// The rule printed between two definitions: sixty box-drawing dashes in grey.
pub open spec fn divider() -> Seq<char> {
    "\x1b[38;5;240m"@ + tree::repeat_char('─', 60) + "\x1b[0m"@
}

/// The definitions one after another, a line with the divider between each two.
pub open spec fn joined_definitions(defs: Seq<Seq<char>>) -> Seq<char>
    decreases defs.len(),
{
    if defs.len() == 0 {
        seq![]
    } else if defs.len() == 1 {
        defs[0]
    } else {
        joined_definitions(defs.drop_last()) + seq!['\n'] + divider() + seq!['\n'] + defs.last()
    }
}

/// The text printed for the definitions found for a word.
pub fn join_definitions(defs: &Vec<String>) -> (text: String)
    ensures
        text@ == joined_definitions(defs.deep_view()),
{
    let ghost dv = defs.deep_view();
    let mut rule = crate::text::chars_of("\x1b[38;5;240m");
    let mut k: usize = 0;
    let ghost head = rule@;
    while k < 60
        invariant
            k <= 60,
            rule@ == head + tree::repeat_char('─', k as nat),
        decreases 60 - k,
    {
        rule.push('─');
        assert(tree::repeat_char('─', (k + 1) as nat) =~= tree::repeat_char('─', k as nat).push('─'));
        k = k + 1;
    }
    crate::text::push_str(&mut rule, "\x1b[0m");
    let mut out: Vec<char> = Vec::new();
    let mut i: usize = 0;
    while i < defs.len()
        invariant
            dv == defs.deep_view(),
            rule@ == divider(),
            i <= defs@.len(),
            out@ == joined_definitions(dv.take(i as int)),
        decreases defs@.len() - i,
    {
        assert(dv.take(i + 1).drop_last() =~= dv.take(i as int));
        assert(dv[i as int] == defs@[i as int]@);
        if i > 0 {
            out.push('\n');
            crate::text::push_chars(&mut out, &rule);
            out.push('\n');
        }
        crate::text::push_str(&mut out, defs[i].as_str());
        i = i + 1;
    }
    assert(dv.take(i as int) =~= dv);
    crate::text::string_from_chars(out.as_slice())
}

} // verus!
