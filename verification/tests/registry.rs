use yadict::registry::crawler::{crawl, parse_listing, path_to_category, percent_decode, CrawlStep};
use yadict::registry::{dedup_by_url, DictEntry, MdictOrgRegistry, Registry};

fn entry(name: &str, url: &str, size: u64, category: &str) -> DictEntry {
    DictEntry { name: name.to_string(), url: url.to_string(), size, category: category.to_string() }
}

fn float_size(size: u64) -> String {
    const KIB: u64 = 1024;
    const MIB: u64 = 1024 * KIB;
    const GIB: u64 = 1024 * MIB;
    match size {
        0 => "?".to_string(),
        s if s >= GIB => format!("{:.1} GiB", s as f64 / GIB as f64),
        s if s >= MIB => format!("{:.1} MiB", s as f64 / MIB as f64),
        s => format!("{:.0} KiB", s as f64 / KIB as f64),
    }
}

#[test]
fn sizes_read_as_the_float_formatting_gives_them() {
    let mut sizes: Vec<u64> = vec![
        0, 1, 511, 512, 513, 1023, 1024, 1535, 1536, 1537, 2048, 2559, 2560, 2561,
        1024 * 1024 - 1, 1024 * 1024, 1024 * 1024 + 1, 1_572_864, 1_624_000, 104_857_599,
        1024 * 1024 * 1024 - 1, 1024 * 1024 * 1024, 5_000_000_000, u64::MAX, u64::MAX - 1,
        (1u64 << 53) + 1, 9_007_199_254_740_993, 123_456_789_012_345,
    ];
    let mut x: u64 = 0x9e37_79b9_7f4a_7c15;
    for _ in 0..20_000 {
        x ^= x << 13;
        x ^= x >> 7;
        x ^= x << 17;
        sizes.push(x >> (x % 64));
        sizes.push(x % (1 << 32));
        sizes.push(x % (1 << 22));
    }
    for s in sizes {
        let e = entry("d", "u", s, "");
        assert_eq!(e.size_human(), float_size(s), "size {}", s);
    }
}

#[test]
fn size_examples() {
    assert_eq!(entry("d", "u", 0, "").size_human(), "?");
    assert_eq!(entry("d", "u", 1536, "").size_human(), "2 KiB");
    assert_eq!(entry("d", "u", 2560, "").size_human(), "2 KiB");
    assert_eq!(entry("d", "u", 1_572_864, "").size_human(), "1.5 MiB");
    assert_eq!(entry("d", "u", 3 * 1024 * 1024 * 1024, "").size_human(), "3.0 GiB");
}

#[test]
fn percent_escapes_are_decoded() {
    assert_eq!(percent_decode("%E8%8B%B1%E8%AF%AD"), "英语");
    assert_eq!(percent_decode("a%20b"), "a b");
    assert_eq!(percent_decode("plain"), "plain");
    assert_eq!(percent_decode("%zz"), "%zz");
    assert_eq!(percent_decode("a%2"), "a%2");
    assert_eq!(percent_decode("%41"), "A");
    assert_eq!(percent_decode("%+1"), "%+1");
    assert_eq!(percent_decode("%-1x"), "%-1x");
    // Bytes that are no UTF-8 leave the text as it was.
    assert_eq!(percent_decode("%FF"), "%FF");
}

#[test]
fn paths_become_categories() {
    assert_eq!(path_to_category("/按词典语种来分类/英语/普通词典/"), "按词典语种来分类 / 英语 / 普通词典");
    assert_eq!(path_to_category("/%E8%8B%B1%E8%AF%AD/x/"), "英语 / x");
    assert_eq!(path_to_category("/"), "");
}

const PAGE: &str = r#"<table>
<tr class="file"><td><a href="./sub%20dir/">sub dir</a></td><td data-order="-1">-</td></tr>
<tr class="file"><td><a href="./Oxford%20Dict.mdx">Oxford</a></td><td data-order="2048">2 KiB</td></tr>
<tr class="file"><td><a href="./readme.txt">readme</a></td><td data-order="10">10 B</td></tr>
<tr class="file"><td><a href="./empty.mdx">e</a></td><td data-order="0">0</td></tr>
<tr class="file"><td><a href="../up/">up</a></td><td data-order="-1">-</td></tr>
</table>"#;

#[test]
fn listing_pages_give_dictionaries_and_subdirectories() {
    let (files, dirs) = parse_listing("https://mdx.mdict.org/", "/%E8%8B%B1/", PAGE);
    assert_eq!(dirs, vec!["/%E8%8B%B1/sub%20dir/"]);
    assert_eq!(files.len(), 1);
    assert_eq!(files[0].name, "Oxford Dict");
    assert_eq!(files[0].url, "https://mdx.mdict.org/%E8%8B%B1/Oxford%20Dict.mdx");
    assert_eq!(files[0].size, 2048);
    assert_eq!(files[0].category, "英");
}

#[test]
fn the_crawl_walks_the_directories_depth_first() {
    let mut c = crawl("https://mdx.mdict.org/");
    match c.next_step() {
        CrawlStep::Fetch { url, path, announce } => {
            assert_eq!(url, "https://mdx.mdict.org/");
            assert_eq!(path, "/");
            assert!(!announce);
        }
        _ => panic!("the root is fetched first"),
    }
    c.page_fetched(
        r#"<tr class="file"><a href="./a/"></a><td data-order="-1"></td></tr>
<tr class="file"><a href="./b/"></a><td data-order="-1"></td></tr>
<tr class="file"><a href="./top.mdx"></a><td data-order="5"></td></tr>"#,
    );
    match c.next_step() {
        CrawlStep::Fetch { url, path, announce } => {
            assert_eq!(url, "https://mdx.mdict.org/a/");
            assert_eq!(path, "/a/");
            assert!(announce);
        }
        _ => panic!("the first subdirectory is next"),
    }
    c.page_failed();
    match c.next_step() {
        CrawlStep::Fetch { path, .. } => assert_eq!(path, "/b/"),
        _ => panic!("then the second"),
    }
    c.page_fetched(r#"<tr class="file"><a href="./in.mdx"></a><td data-order="7"></td></tr>"#);
    assert!(matches!(c.next_step(), CrawlStep::Done));
    let es = c.into_entries();
    let names: Vec<&str> = es.iter().map(|e| e.name.as_str()).collect();
    assert_eq!(names, vec!["top", "in"]);
    assert_eq!(es[1].category, "b");
    assert_eq!(es[1].url, "https://mdx.mdict.org/b/in.mdx");
}

#[test]
fn too_deep_directories_are_skipped() {
    let mut c = crawl("https://x/");
    let mut fetched = 0;
    loop {
        match c.next_step() {
            CrawlStep::Fetch { .. } => {
                fetched += 1;
                c.page_fetched(r#"<tr class="file"><a href="./d/"></a><td data-order="-1"></td></tr>"#);
            }
            CrawlStep::Skip { path } => {
                assert_eq!(path.matches("d/").count(), 11);
            }
            CrawlStep::Done => break,
        }
    }
    assert_eq!(fetched, 11);
}

#[test]
fn refreshing_keeps_one_entry_per_url_sorted() {
    let mut reg = MdictOrgRegistry::new("/home/u", None);
    assert_eq!(reg.cache_path(), "/home/u/registry.json");
    assert!(reg.is_stale());
    reg.refresh_from(vec![
        entry("B", "u/b", 1, "x"),
        entry("A", "u/a", 2, "y"),
        entry("B2", "u/b", 3, "z"),
    ]);
    let names: Vec<&str> = reg.entries().iter().map(|e| e.name.as_str()).collect();
    assert_eq!(names, vec!["A", "B"]);
    assert!(!reg.is_stale());
}

#[test]
fn dedup_keeps_the_first_of_each_url() {
    let out = dedup_by_url(vec![entry("1", "c", 1, ""), entry("2", "a", 1, ""), entry("3", "c", 1, ""), entry("4", "a", 1, "")]);
    let names: Vec<&str> = out.iter().map(|e| e.name.as_str()).collect();
    assert_eq!(names, vec!["2", "1"]);
}

#[test]
fn search_ignores_case_over_name_and_category() {
    let reg = MdictOrgRegistry::new(
        "/h/",
        Some(vec![entry("Longman", "u1", 1, "English"), entry("汉语", "u2", 1, "Chinese")]),
    );
    assert_eq!(reg.cache_path(), "/h/registry.json");
    let found: Vec<&str> = reg.search("LONG").iter().map(|e| e.name.as_str()).collect();
    assert_eq!(found, vec!["Longman"]);
    let found: Vec<&str> = reg.search("chin").iter().map(|e| e.name.as_str()).collect();
    assert_eq!(found, vec!["汉语"]);
    assert!(reg.search("zzz").is_empty());
    assert_eq!(reg.search("").len(), 2);
}

#[test]
fn only_one_mdx_extension_is_taken_off_the_name() {
    let page = r#"<tr class="file"><td><a href="./x.mdx.mdx">x</a></td><td data-order="5">5 B</td></tr>"#;
    let (files, dirs) = parse_listing("https://mdx.mdict.org/", "/", page);
    assert!(dirs.is_empty());
    assert_eq!(files.len(), 1);
    assert_eq!(files[0].name, "x.mdx");
    assert_eq!(files[0].url, "https://mdx.mdict.org/x.mdx.mdx");
}
