//! The terminal escape codes that the rendering colours its text with.
use vstd::prelude::*;
use crate::text::decimal;
use crossterm::style::{Attribute, Color, ResetColor, SetAttribute, SetForegroundColor};
use std::fmt::Write;

verus! {

/// The start of every escape code: ESC and `[`.
pub open spec fn csi() -> Seq<char> {
    seq!['\u{1b}', '[']
}

/// The code that sets the foreground to the colour `(r, g, b)`.
pub open spec fn ansi_fg(r: u8, g: u8, b: u8) -> Seq<char> {
    csi() + seq!['3', '8', ';', '2', ';'] + decimal(r as nat) + seq![';'] + decimal(g as nat)
        + seq![';'] + decimal(b as nat) + seq!['m']
}

/// The colour code as crossterm writes it when colour is switched off (`NO_COLOR`).
pub open spec fn ansi_fg_disabled() -> Seq<char> {
    csi() + seq!['m']
}

/// The text attributes that the rendering uses.
#[derive(Debug, Clone, Copy)]
pub enum TextAttribute {
    Bold,
    Italic,
    Underlined,
}

/// The SGR number of an attribute.
pub open spec fn sgr(a: TextAttribute) -> char {
    match a {
        TextAttribute::Bold => '1',
        TextAttribute::Italic => '3',
        TextAttribute::Underlined => '4',
    }
}

/// The code that sets `a`.
pub open spec fn ansi_attr(a: TextAttribute) -> Seq<char> {
    csi() + seq![sgr(a), 'm']
}

/// The code that resets both the colour and the attributes.
pub open spec fn ansi_reset() -> Seq<char> {
    csi() + seq!['0', 'm'] + csi() + seq!['0', 'm']
}

/// crossterm's `SetForegroundColor(Color::Rgb { r, g, b })` written into a string.
/// crossterm leaves the colour out where the environment sets `NO_COLOR` (it reads
/// the variable once per process), and writes nothing at all on a Windows console
/// without ANSI support, where it makes a console call instead; where that call
/// fails, the write reports an error and no code is given. Which of the three
/// comes out is not stated.
#[verifier::external_body]
fn fg(r: u8, g: u8, b: u8) -> (code: String)
    ensures
        code@ == ansi_fg(r, g, b) || code@ == ansi_fg_disabled() || code@.len() == 0,
{
    let mut out = String::new();
    match write!(out, "{}", SetForegroundColor(Color::Rgb { r, g, b })) {
        Ok(()) => out,
        Err(_) => String::new(),
    }
}

/// crossterm's `SetAttribute(a)` written into a string: the attribute's SGR code,
/// or nothing on a Windows console without ANSI support (or where the write
/// reports an error).
#[verifier::external_body]
fn atr(a: TextAttribute) -> (code: String)
    ensures
        code@ == ansi_attr(a) || code@.len() == 0,
{
    let attribute = match a {
        TextAttribute::Bold => Attribute::Bold,
        TextAttribute::Italic => Attribute::Italic,
        TextAttribute::Underlined => Attribute::Underlined,
    };
    let mut out = String::new();
    match write!(out, "{}", SetAttribute(attribute)) {
        Ok(()) => out,
        Err(_) => String::new(),
    }
}

/// crossterm's `ResetColor` followed by `SetAttribute(Attribute::Reset)`, written
/// into a string; nothing on a Windows console without ANSI support, and nothing
/// where the console call that stands in for the code there fails.
#[verifier::external_body]
fn rst() -> (code: String)
    ensures
        code@ == ansi_reset() || code@.len() == 0,
{
    let mut out = String::new();
    match write!(out, "{}{}", ResetColor, SetAttribute(Attribute::Reset)) {
        Ok(()) => out,
        Err(_) => String::new(),
    }
}

/// The codes that the rendering writes, each as the terminal library gave it.
pub struct Styles {
    pub heading1: String,
    pub heading2: String,
    pub heading3: String,
    pub heading_other: String,
    pub strong: String,
    pub emph: String,
    pub code: String,
    pub rule: String,
    pub quote: String,
    pub link: String,
    pub number: String,
    pub bullet: String,
    pub bold: String,
    pub italic: String,
    pub underlined: String,
    pub reset: String,
}

/// `code` is one of the forms that crossterm writes for the colour `(r, g, b)`.
pub open spec fn is_fg(code: Seq<char>, r: u8, g: u8, b: u8) -> bool {
    code == ansi_fg(r, g, b) || code == ansi_fg_disabled() || code.len() == 0
}

/// `code` is one of the forms that crossterm writes for the attribute `a`.
pub open spec fn is_attr(code: Seq<char>, a: TextAttribute) -> bool {
    code == ansi_attr(a) || code.len() == 0
}

impl Styles {
    /// Each code holds the colour or attribute that the rendering gives its element.
    pub open spec fn from_crossterm(self) -> bool {
        &&& is_fg(self.heading1@, 255, 215, 0)
        &&& is_fg(self.heading2@, 255, 110, 60)
        &&& is_fg(self.heading3@, 230, 200, 70)
        &&& is_fg(self.heading_other@, 180, 155, 230)
        &&& is_fg(self.strong@, 255, 200, 120)
        &&& is_fg(self.emph@, 80, 210, 235)
        &&& is_fg(self.code@, 80, 220, 140)
        &&& is_fg(self.rule@, 70, 70, 80)
        &&& is_fg(self.quote@, 120, 100, 220)
        &&& is_fg(self.link@, 100, 100, 130)
        &&& is_fg(self.number@, 150, 150, 180)
        &&& is_fg(self.bullet@, 60, 180, 255)
        &&& is_attr(self.bold@, TextAttribute::Bold)
        &&& is_attr(self.italic@, TextAttribute::Italic)
        &&& is_attr(self.underlined@, TextAttribute::Underlined)
        &&& (self.reset@ == ansi_reset() || self.reset@.len() == 0)
    }

    /// The codes as the terminal library writes them in this process.
    pub fn from_terminal() -> (st: Styles)
        ensures
            st.from_crossterm(),
    {
        Styles {
            heading1: fg(255, 215, 0),
            heading2: fg(255, 110, 60),
            heading3: fg(230, 200, 70),
            heading_other: fg(180, 155, 230),
            strong: fg(255, 200, 120),
            emph: fg(80, 210, 235),
            code: fg(80, 220, 140),
            rule: fg(70, 70, 80),
            quote: fg(120, 100, 220),
            link: fg(100, 100, 130),
            number: fg(150, 150, 180),
            bullet: fg(60, 180, 255),
            bold: atr(TextAttribute::Bold),
            italic: atr(TextAttribute::Italic),
            underlined: atr(TextAttribute::Underlined),
            reset: rst(),
        }
    }
}

} // verus!
