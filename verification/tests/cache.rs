use yadict::cache::{cache_candidates, cache_line, remove_path};

const INDEX: &str = "u1\t/a/x.mdx\nu2\t/a/y.mdx\nu1\t/b/x.mdx\nbroken\n";

#[test]
fn candidates_are_the_paths_recorded_for_the_url() {
    assert_eq!(cache_candidates(INDEX, "u1"), vec!["/a/x.mdx", "/b/x.mdx"]);
    assert_eq!(cache_candidates(INDEX, "u2"), vec!["/a/y.mdx"]);
    assert!(cache_candidates(INDEX, "u3").is_empty());
    assert!(cache_candidates("", "u1").is_empty());
}

#[test]
fn a_record_is_one_tab_separated_line() {
    assert_eq!(cache_line("https://x/a.mdx", "/home/u/a.mdx"), "https://x/a.mdx\t/home/u/a.mdx\n");
}

#[test]
fn removing_a_path_keeps_the_other_lines() {
    assert_eq!(remove_path(INDEX, "/a/x.mdx"), "u2\t/a/y.mdx\nu1\t/b/x.mdx\nbroken\n");
    // Paths are compared component by component.
    assert_eq!(remove_path(INDEX, "/a//x.mdx"), "u2\t/a/y.mdx\nu1\t/b/x.mdx\nbroken\n");
    assert_eq!(remove_path(INDEX, "/nowhere"), INDEX);
    assert_eq!(remove_path("u\t/p\n", "/p"), "");
    assert_eq!(remove_path("", "/p"), "");
}

#[test]
fn a_recorded_path_is_found_again() {
    let mut index = String::from("u1\t/a/x.mdx\n");
    index.push_str(&cache_line("u1", "/c/z.mdx"));
    index.push_str(&cache_line("u9", "/d/w.mdx"));
    assert_eq!(cache_candidates(&index, "u1"), vec!["/a/x.mdx", "/c/z.mdx"]);
    assert_eq!(cache_candidates(&index, "u9"), vec!["/d/w.mdx"]);
}

#[test]
fn a_removed_path_is_not_found_again() {
    let after = remove_path(INDEX, "/b/x.mdx");
    assert_eq!(cache_candidates(&after, "u1"), vec!["/a/x.mdx"]);
    let after = remove_path(&after, "/a/x.mdx");
    assert!(cache_candidates(&after, "u1").is_empty());
    assert_eq!(cache_candidates(&after, "u2"), vec!["/a/y.mdx"]);
}

#[test]
fn a_recorded_path_is_the_one_found_when_earlier_ones_are_gone() {
    let mut content = String::from("u\t/old\nv\t/other\n");
    content.push_str(&cache_line("u", "/new"));
    let present = ["/new", "/other"];
    let found = cache_candidates(&content, "u").into_iter().find(|p| present.contains(&p.as_str()));
    assert_eq!(found, Some("/new".to_string()));
}
