use yadict::parser::header::header_from_attrs;
use yadict::parser::{MdxError, Version};
use yadict::registry::crawler::{listing_from_rows, row_from_groups};
use yadict::render::markdown::inline_items_from_split;
use yadict::text::first_false_index;

fn s(t: &str) -> String {
    t.to_string()
}

fn attr(name: &str, value: &str) -> Vec<Option<String>> {
    vec![Some(format!("{}=\"{}\"", name, value)), Some(s(name)), Some(s(value)), None]
}

#[test]
fn a_header_is_read_from_its_attributes() {
    let caps = vec![
        attr("GeneratedByEngineVersion", "2.0"),
        attr("Encrypted", "2"),
        attr("Encoding", "GBK"),
        attr("Encoding", "UTF-16"),
    ];
    let h = header_from_attrs(&caps).expect("the header is whole");
    assert_eq!(h.version, Version::V2);
    assert_eq!(h.encrypted, 2);
    assert_eq!(h.encoding, "UTF-16");
    let h = header_from_attrs(&vec![attr("GeneratedByEngineVersion", " 1.2"), attr("Encrypted", "Yes")]).unwrap();
    assert_eq!(h.version, Version::V1);
    assert_eq!(h.encrypted, 1);
    assert_eq!(h.encoding, "UTF-8");
}

#[test]
fn header_attribute_errors() {
    assert_eq!(header_from_attrs(&vec![]).err(), Some(MdxError::MissingVersion));
    assert_eq!(header_from_attrs(&vec![attr("GeneratedByEngineVersion", "9")]).err(), Some(MdxError::UnsupportedVersion));
    assert_eq!(header_from_attrs(&vec![attr("GeneratedByEngineVersion", "v2")]).err(), Some(MdxError::InvalidVersion));
}

#[test]
fn rows_are_read_from_their_link_and_size() {
    let (file, dir) = row_from_groups("https://h/", "/%E8%8B%B1/", Some(s("./A%20B.mdx")), Some(s("12")));
    assert!(dir.is_none());
    let e = file.expect("a dictionary");
    assert_eq!(e.name, "A B");
    assert_eq!(e.url, "https://h/%E8%8B%B1/A%20B.mdx");
    assert_eq!(e.size, 12);
    assert_eq!(e.category, "英");
    let (file, dir) = row_from_groups("https://h/", "/", Some(s("./sub/")), Some(s("-1")));
    assert!(file.is_none());
    assert_eq!(dir, Some(s("/sub/")));
    let (file, dir) = row_from_groups("https://h/", "/", Some(s("./x.mdx")), None);
    assert!(file.is_none());
    assert_eq!(dir, Some(s("/x.mdx")));
    for (href, order) in [(None, Some(s("5"))), (Some(s("./x.mdx")), Some(s("0"))), (Some(s("./x.txt")), Some(s("5")))] {
        let (file, dir) = row_from_groups("https://h/", "/", href, order);
        assert!(file.is_none() && dir.is_none());
    }
}

#[test]
fn a_listing_is_read_from_its_rows() {
    let rows = vec![
        vec![Some(s("<tr>..</tr>")), Some(s(r#"<a href="./d/">d</a><td data-order="-1">"#))],
        vec![Some(s("<tr>..</tr>")), Some(s(r#"<a href="./x.mdx">x</a><td data-order="3">"#))],
        vec![Some(s("<tr>..</tr>")), None],
    ];
    let (files, dirs) = listing_from_rows("https://h", "/", &rows);
    assert_eq!(dirs, vec![s("/d/")]);
    assert_eq!(files.len(), 1);
    assert_eq!(files[0].name, "x");
    assert_eq!(files[0].url, "https://h/x.mdx");
}

#[test]
fn inline_items_are_cut_at_item_numbers() {
    let gaps = vec![s("1.foo"), s("bar"), s("5 more")];
    let found = vec![s(" 2."), s(" 1.")];
    assert_eq!(inline_items_from_split(&gaps, &found), Some(vec![s("1.foo"), s("2.bar 1.5 more")]));
    assert_eq!(inline_items_from_split(&vec![s("1.foo")], &vec![]), None);
    assert_eq!(inline_items_from_split(&vec![s("a")], &vec![s(" 1.")]), None);
}

#[test]
fn the_first_false_flag_is_the_partition_point() {
    assert_eq!(first_false_index(&[true, true, false, false]), 2);
    assert_eq!(first_false_index(&[true, true]), 2);
    assert_eq!(first_false_index(&[]), 0);
    assert_eq!(first_false_index(&[false, true]), 0);
}
