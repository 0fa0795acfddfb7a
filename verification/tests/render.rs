use yadict::render::ansi::Styles;
use yadict::render::markdown::{
    is_numbered_md_item, normalize_lists, split_inline_numbered, to_md_list_item,
};
use yadict::render::tree::{render_document, MdKind, MdNode};
use yadict::render::xml::read_commonmark_xml;
use yadict::render::{join_definitions, render_with, DefaultRender, Render, RenderError};
use yadict::text::lines;

fn chars(s: &str) -> Vec<char> {
    s.chars().collect()
}

fn text(v: &[char]) -> String {
    v.iter().collect()
}

fn styles(mark: bool) -> Styles {
    let m = |s: &str| if mark { s.to_string() } else { String::new() };
    Styles {
        heading1: m("<H1>"),
        heading2: m("<H2>"),
        heading3: m("<H3>"),
        heading_other: m("<H>"),
        strong: m("<S>"),
        emph: m("<E>"),
        code: m("<C>"),
        rule: m("<RULE>"),
        quote: m("<Q>"),
        link: m("<L>"),
        number: m("<N>"),
        bullet: m("<BU>"),
        bold: m("<B>"),
        italic: m("<I>"),
        underlined: m("<U>"),
        reset: m("<R>"),
    }
}

fn node(kind: MdKind, children: Vec<MdNode>) -> MdNode {
    MdNode { kind, children }
}

fn txt(s: &str) -> MdNode {
    node(MdKind::Text(s.to_string()), vec![])
}

fn para(s: &str) -> MdNode {
    node(MdKind::Paragraph, vec![txt(s)])
}

#[test]
fn inline_numbered_definitions_are_split() {
    assert_eq!(
        split_inline_numbered("1.foo 2.bar"),
        Some(vec!["1.foo".to_string(), "2.bar".to_string()])
    );
    assert_eq!(
        split_inline_numbered("  1.a  2.b 3.c  "),
        Some(vec!["1.a".to_string(), "2.b".to_string(), "3.c".to_string()])
    );
}

#[test]
fn decimals_and_plain_text_are_not_split() {
    assert_eq!(split_inline_numbered("1.5 kg 2.3"), None);
    assert_eq!(split_inline_numbered("hello 1.a 2.b"), None);
    assert_eq!(split_inline_numbered("1.only"), None);
    assert_eq!(split_inline_numbered(""), None);
}

#[test]
fn unicode_digits_count_as_item_numbers() {
    // `\d` takes any Unicode decimal digit, such as the full-width ones.
    assert_eq!(
        split_inline_numbered("1.甲 ２.乙"),
        Some(vec!["1.甲".to_string(), "２.乙".to_string()])
    );
}

#[test]
fn list_items_get_a_space_after_their_number() {
    assert_eq!(text(&to_md_list_item(&chars("1.foo"))), "1. foo");
    assert_eq!(text(&to_md_list_item(&chars("12.   bar"))), "12. bar");
    assert_eq!(text(&to_md_list_item(&chars("a.b"))), "a.b");
    assert_eq!(text(&to_md_list_item(&chars("nodot"))), "nodot");
    assert_eq!(text(&to_md_list_item(&chars(".x"))), ". x");
}

#[test]
fn numbered_markdown_items_are_recognised() {
    assert!(is_numbered_md_item(&chars("1. x")));
    assert!(is_numbered_md_item(&chars("1) x")));
    assert!(is_numbered_md_item(&chars("12. ")));
    assert!(!is_numbered_md_item(&chars("1.x")));
    assert!(!is_numbered_md_item(&chars("a. x")));
    assert!(!is_numbered_md_item(&chars("1.")));
    assert!(!is_numbered_md_item(&chars("")));
}

#[test]
fn lines_split_like_str_lines() {
    let split = |s: &str| -> Vec<String> { lines(&chars(s)).iter().map(|l| text(l)).collect() };
    assert_eq!(split("a\r\nb\n\nc"), vec!["a", "b", "", "c"]);
    assert_eq!(split("a\n"), vec!["a"]);
    assert_eq!(split(""), Vec::<String>::new());
    assert_eq!(split("x\r"), vec!["x\r"]);
    for s in ["one\ntwo", "\n\n", "a\r\n\r\nb\r", "tail\n"] {
        assert_eq!(split(s), s.lines().collect::<Vec<_>>());
    }
}

#[test]
fn lists_after_text_get_a_blank_line() {
    assert_eq!(normalize_lists("Title\n* a\n* b\n"), "Title\n\n* a\n\n* b\n");
    assert_eq!(normalize_lists("* a\n"), "* a\n");
    assert_eq!(normalize_lists("text\n- x\n+ y"), "text\n\n- x\n\n+ y\n");
}

#[test]
fn inline_definitions_become_a_numbered_list() {
    assert_eq!(normalize_lists("1.foo 2.bar"), "1. foo\n2. bar\n\n");
    assert_eq!(normalize_lists("x\n1.foo 2.bar\ny"), "x\n\n1. foo\n2. bar\n\ny\n");
}

#[test]
fn tree_renders_headings_and_emphasis() {
    let doc = node(
        MdKind::Other,
        vec![
            node(MdKind::Heading(1), vec![txt("T")]),
            node(MdKind::Heading(2), vec![txt("U")]),
            node(
                MdKind::Paragraph,
                vec![
                    txt("a "),
                    node(MdKind::Strong, vec![txt("b")]),
                    node(MdKind::SoftBreak, vec![]),
                    node(MdKind::Emph, vec![txt("c")]),
                    node(MdKind::LineBreak, vec![]),
                    node(MdKind::Code("d".to_string()), vec![]),
                    node(MdKind::Html, vec![]),
                ],
            ),
        ],
    );
    assert_eq!(
        render_document(&doc, &styles(true)),
        "<H1><B><U>T<R>\n<H2><B>U<R>\na <S><B>b<R> <E><I>c<R>\n<C>d<R>\n"
    );
    assert_eq!(render_document(&doc, &styles(false)), "T\nU\na b c\nd\n");
}

#[test]
fn tree_renders_blocks() {
    let doc = node(
        MdKind::Other,
        vec![
            node(MdKind::CodeBlock("a\nb\n".to_string()), vec![]),
            node(MdKind::ThematicBreak, vec![]),
            node(MdKind::BlockQuote, vec![para("q")]),
            node(
                MdKind::Paragraph,
                vec![
                    node(MdKind::Link("u".to_string()), vec![txt("t")]),
                    node(MdKind::Link(String::new()), vec![txt("v")]),
                ],
            ),
        ],
    );
    let rule: String = "─".repeat(60);
    assert_eq!(
        render_document(&doc, &styles(true)),
        format!("<C>    a\n    b\n<R><RULE>{}<R>\n<Q>│<R> q\nt<L> (u)<R>v\n", rule)
    );
}

#[test]
fn tree_renders_lists() {
    let item = |s: &str| node(MdKind::Other, vec![para(s)]);
    let loose = node(MdKind::Other, vec![para("p1"), para("p2")]);
    let doc = node(
        MdKind::Other,
        vec![
            node(MdKind::List { ordered: true, start: 3 }, vec![item("x"), item("y")]),
            node(MdKind::List { ordered: false, start: 1 }, vec![item("z"), loose]),
        ],
    );
    assert_eq!(
        render_document(&doc, &styles(true)),
        "<N>3.<R> x\n<N>4.<R> y\n<BU>›<R> z\n<BU>›<R> p1\np2\n"
    );
}

#[test]
fn commonmark_xml_is_read_back() {
    let xml = "<?xml version=\"1.0\" encoding=\"UTF-8\"?>\n\
<!DOCTYPE document SYSTEM \"CommonMark.dtd\">\n\
<document xmlns=\"http://commonmark.org/xml/1.0\">\n\
  <heading level=\"2\">\n\
    <text xml:space=\"preserve\">Ti &amp; tle</text>\n\
  </heading>\n\
  <paragraph>\n\
    <text xml:space=\"preserve\">Hello </text>\n\
    <strong>\n\
      <text xml:space=\"preserve\">world &lt;3&gt;</text>\n\
    </strong>\n\
    <softbreak />\n\
    <link destination=\"http://x/?a=1&amp;b=&quot;2&quot;\" title=\"\">\n\
      <text xml:space=\"preserve\">l</text>\n\
    </link>\n\
  </paragraph>\n\
  <list type=\"ordered\" start=\"7\" delim=\"period\" tight=\"true\">\n\
    <item>\n\
      <paragraph>\n\
        <text xml:space=\"preserve\">seven</text>\n\
      </paragraph>\n\
    </item>\n\
  </list>\n\
  <thematic_break />\n\
</document>\n";
    let doc = read_commonmark_xml(xml).expect("readable");
    let rule: String = "─".repeat(60);
    assert_eq!(
        render_document(&doc, &styles(true)),
        format!(
            "<H2><B>Ti & tle<R>\nHello <S><B>world <3><R> l<L> (http://x/?a=1&b=\"2\")<R>\n<N>7.<R> seven\n<RULE>{}<R>\n",
            rule
        )
    );
}

#[test]
fn broken_xml_is_refused() {
    assert!(read_commonmark_xml("<document>\n  <paragraph>\n").is_none());
    assert!(read_commonmark_xml("no xml at all").is_none());
    assert!(read_commonmark_xml("<text xml:space=\"preserve\">a &bogus; b</text>").is_none());
}

#[test]
fn html_definitions_render_as_plain_text_without_styles() {
    let out = render_with("<p>Hello <b>world</b></p>", &styles(false)).unwrap();
    assert_eq!(out, "Hello world\n");
}

#[test]
fn html_lists_render_with_numbers_and_bullets() {
    let out = render_with("<ol><li>one</li><li>two</li></ol>", &styles(false)).unwrap();
    assert_eq!(out, "1. one\n2. two\n");
    let out = render_with("<ul><li>x</li></ul>", &styles(false)).unwrap();
    assert_eq!(out, "› x\n");
}

#[test]
fn html_with_styles_is_coloured() {
    let out = render_with("<ul><li>x</li></ul>", &styles(true)).unwrap();
    assert_eq!(out, "<BU>›<R> x\n");
}

#[test]
fn line_breaks_inside_a_paragraph_become_spaces() {
    let out = render_with("<p>a<br>b</p>", &styles(false)).unwrap();
    assert_eq!(out, "a b\n");
}

#[test]
fn default_render_renders_html() {
    let r = DefaultRender::new();
    let out: Result<String, RenderError> = r.render("<p>Hello <b>world</b></p>");
    let out = out.unwrap();
    assert!(out.contains("Hello"));
    assert!(out.contains("world"));
    assert!(!out.contains("<b>"));
}

#[test]
fn terminal_styles_are_ansi_codes() {
    let st = Styles::from_terminal();
    assert!(st.bold == "\x1b[1m" || st.bold.is_empty());
    assert!(st.italic == "\x1b[3m" || st.italic.is_empty());
    assert!(st.underlined == "\x1b[4m" || st.underlined.is_empty());
    assert!(st.reset == "\x1b[0m\x1b[0m" || st.reset.is_empty());
    assert!(
        st.heading1 == "\x1b[38;2;255;215;0m" || st.heading1 == "\x1b[m" || st.heading1.is_empty()
    );
    assert!(
        st.bullet == "\x1b[38;2;60;180;255m" || st.bullet == "\x1b[m" || st.bullet.is_empty()
    );
}

#[test]
fn definitions_are_joined_by_dividers() {
    let rule = format!("\x1b[38;5;240m{}\x1b[0m", "─".repeat(60));
    assert_eq!(join_definitions(&vec![]), "");
    assert_eq!(join_definitions(&vec!["a".to_string()]), "a");
    assert_eq!(
        join_definitions(&vec!["a".to_string(), "b".to_string(), "c".to_string()]),
        format!("a\n{rule}\nb\n{rule}\nc")
    );
}
