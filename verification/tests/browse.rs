use yadict::browse::rows::{filter_entries, flatten_tree, VisibleRow};
use yadict::browse::select::{confirm_key, plan_changes, Browser, Key, Outcome};
use yadict::browse::tree::{build_category_tree, count_tree_entries, category_segments_of, insert_into_tree};
use yadict::browse::view::{
    centered_rect, confirm_lines, confirm_popup, key_hint, make_list_item, registry_title,
    search_bar, Rect, Span, Tint,
};
use yadict::registry::DictEntry;

fn entry(name: &str, url: &str, size: u64, category: &str) -> DictEntry {
    DictEntry { name: name.to_string(), url: url.to_string(), size, category: category.to_string() }
}

fn sample() -> Vec<DictEntry> {
    vec![
        entry("Alpha", "u0", 2048, "English / Dict"),
        entry("Beta", "u1", 0, "English"),
        entry("Gamma", "u2", 3 * 1024 * 1024, ""),
    ]
}

fn strings(v: &[&str]) -> Vec<String> {
    v.iter().map(|s| s.to_string()).collect()
}

fn texts(line: &[Span]) -> Vec<String> {
    line.iter().map(|s| s.text.clone()).collect()
}

fn describe(row: &VisibleRow) -> String {
    match row {
        VisibleRow::Category { segment, full_path, depth, expanded, entry_count } => {
            format!("C {segment}|{full_path}|{depth}|{expanded}|{entry_count}")
        }
        VisibleRow::Entry { entry_idx, depth, show_category } => {
            format!("E {entry_idx}|{depth}|{show_category}")
        }
    }
}

fn describe_all(rows: &[VisibleRow]) -> Vec<String> {
    rows.iter().map(describe).collect()
}

#[test]
fn category_segments_split_on_slashes() {
    let segs = |s: &str| -> Vec<String> {
        category_segments_of(s).iter().map(|v| v.iter().collect()).collect()
    };
    assert_eq!(segs("English / Dict"), vec!["English", "Dict"]);
    assert_eq!(segs(""), vec!["(uncategorized)"]);
    assert_eq!(segs(" / "), vec!["(uncategorized)"]);
    assert_eq!(segs("a /  / b"), vec!["a", "b"]);
}

#[test]
fn the_tree_files_each_dictionary_under_its_category() {
    let es = sample();
    let tree = build_category_tree(&es);
    assert_eq!(tree.len(), 2);
    assert_eq!(tree[0].segment, "English");
    assert_eq!(tree[0].full_path, "English");
    assert_eq!(tree[0].entry_indices, vec![1]);
    assert_eq!(tree[0].children.len(), 1);
    assert_eq!(tree[0].children[0].segment, "Dict");
    assert_eq!(tree[0].children[0].full_path, "English / Dict");
    assert_eq!(tree[0].children[0].entry_indices, vec![0]);
    assert_eq!(tree[1].segment, "(uncategorized)");
    assert_eq!(tree[1].entry_indices, vec![2]);
    assert_eq!(count_tree_entries(&tree[0]), 2);
    assert_eq!(count_tree_entries(&tree[1]), 1);
}

#[test]
fn flattening_shows_expanded_categories_only() {
    let es = sample();
    let tree = build_category_tree(&es);
    let mut rows = Vec::new();
    flatten_tree(&tree, 0, &strings(&["English"]), &mut rows);
    assert_eq!(
        describe_all(&rows),
        vec![
            "C English|English|0|true|2",
            "C Dict|English / Dict|1|false|1",
            "E 1|1|false",
            "C (uncategorized)|(uncategorized)|0|false|1",
        ]
    );
    let mut none = Vec::new();
    flatten_tree(&tree, 0, &vec![], &mut none);
    assert_eq!(describe_all(&none).len(), 2);
}

#[test]
fn search_filters_by_name_and_category_ignoring_case() {
    let es = sample();
    assert_eq!(describe_all(&filter_entries(&es, "AMM")), vec!["E 2|0|true"]);
    assert_eq!(describe_all(&filter_entries(&es, "dict")), vec!["E 0|0|true"]);
    assert_eq!(describe_all(&filter_entries(&es, "english")), vec!["E 0|0|true", "E 1|0|true"]);
    assert!(filter_entries(&es, "zzz").is_empty());
}

#[test]
fn rows_are_drawn_as_spans() {
    let es = sample();
    let cat = VisibleRow::Category {
        segment: "English".to_string(),
        full_path: "English".to_string(),
        depth: 1,
        expanded: true,
        entry_count: 2,
    };
    let line = make_list_item(&cat, &es, &vec![], &vec![]);
    assert_eq!(texts(&line), vec!["  ", "▼ ", "English", "  (2 dicts)"]);
    assert_eq!(line[1].fg, Some(Tint::Cyan));
    assert!(line[2].bold);
    assert_eq!(line[3].fg, Some(Tint::Rgb(100, 100, 120)));

    let row = VisibleRow::Entry { entry_idx: 0, depth: 2, show_category: false };
    let line = make_list_item(&row, &es, &strings(&["u0"]), &strings(&["u1"]));
    assert_eq!(texts(&line), vec!["    ", "[x]", "  ", "Alpha", "  ", "2 KiB"]);
    assert_eq!(line[1].fg, Some(Tint::Yellow));

    let row = VisibleRow::Entry { entry_idx: 1, depth: 0, show_category: true };
    let line = make_list_item(&row, &es, &vec![], &strings(&["u1"]));
    assert_eq!(texts(&line), vec!["", "[ ]", "  ", "[English]  ", "Beta", "  ", "?", "  ✓"]);
    assert!(line[7].bold);

    let row = VisibleRow::Entry { entry_idx: 2, depth: 0, show_category: true };
    let line = make_list_item(&row, &es, &vec![], &vec![]);
    assert_eq!(texts(&line), vec!["", "[ ]", "  ", "Gamma", "  ", "3.0 MiB"]);
}

fn rows_of(b: &mut Browser) -> Vec<String> {
    b.refresh_rows();
    describe_all(b.rows())
}

#[test]
fn the_browser_opens_with_top_categories_expanded() {
    let mut b = Browser::new(sample(), strings(&["u1"]));
    assert_eq!(
        rows_of(&mut b),
        vec![
            "C English|English|0|true|2",
            "C Dict|English / Dict|1|false|1",
            "E 1|1|false",
            "C (uncategorized)|(uncategorized)|0|true|1",
            "E 2|1|false",
        ]
    );
    assert_eq!(b.cursor(), Some(0));
    assert_eq!(b.selected(), &strings(&["u1"]));
}

#[test]
fn keys_move_expand_and_choose() {
    let mut b = Browser::new(sample(), strings(&["u1"]));
    rows_of(&mut b);
    assert!(matches!(b.handle_key(Key::Down), Outcome::Continue));
    assert_eq!(b.cursor(), Some(1));
    b.handle_key(Key::Right);
    let rows = rows_of(&mut b);
    assert_eq!(rows[1], "C Dict|English / Dict|1|true|1");
    assert_eq!(rows[2], "E 0|2|false");
    b.handle_key(Key::Char('j'));
    assert_eq!(b.cursor(), Some(2));
    b.handle_key(Key::Char(' '));
    assert_eq!(b.selected(), &strings(&["u1", "u0"]));
    assert_eq!(b.cursor(), Some(3));
    b.handle_key(Key::Char('k'));
    b.handle_key(Key::Char(' '));
    assert_eq!(b.selected(), &strings(&["u1"]));
    b.handle_key(Key::PageDown);
    assert_eq!(b.cursor(), Some(5));
    b.handle_key(Key::PageUp);
    assert_eq!(b.cursor(), Some(0));
    b.handle_key(Key::Up);
    assert_eq!(b.cursor(), Some(0));
    b.handle_key(Key::Char(' '));
    assert_eq!(rows_of(&mut b), vec!["C English|English|0|false|2", "C (uncategorized)|(uncategorized)|0|true|1", "E 2|1|false"]);
    match b.handle_key(Key::Enter) {
        Outcome::Confirm(urls) => assert_eq!(urls, strings(&["u1"])),
        _ => panic!("enter confirms"),
    }
    assert!(matches!(b.handle_key(Key::Char('q')), Outcome::Cancel));
}

#[test]
fn collapse_and_select_all() {
    let mut b = Browser::new(sample(), vec![]);
    rows_of(&mut b);
    b.handle_key(Key::Char('a'));
    assert_eq!(b.selected(), &strings(&["u1", "u2"]));
    b.handle_key(Key::Char('a'));
    assert!(b.selected().is_empty());
    b.handle_key(Key::Left);
    assert_eq!(rows_of(&mut b).len(), 3);
}

#[test]
fn searching_filters_and_esc_returns_to_the_tree() {
    let mut b = Browser::new(sample(), vec![]);
    rows_of(&mut b);
    b.handle_key(Key::Char('/'));
    assert!(b.searching());
    for c in "amm".chars() {
        b.handle_key(Key::Char(c));
    }
    assert_eq!(b.query(), "amm");
    assert_eq!(rows_of(&mut b), vec!["E 2|0|true"]);
    b.handle_key(Key::Char(' '));
    assert_eq!(b.selected(), &strings(&["u2"]));
    b.handle_key(Key::Backspace);
    assert_eq!(b.query(), "am");
    // `j` and `k` move the cursor rather than type.
    b.handle_key(Key::Char('j'));
    assert_eq!(b.query(), "am");
    b.handle_key(Key::Esc);
    assert!(!b.searching());
    assert_eq!(b.query(), "");
    assert_eq!(rows_of(&mut b).len(), 5);
}

#[test]
fn paging_keeps_the_cursor_on_the_search_results() {
    let mut b = Browser::new(sample(), vec![]);
    rows_of(&mut b);
    for _ in 0..4 {
        b.handle_key(Key::Down);
    }
    assert_eq!(b.cursor(), Some(4));
    b.handle_key(Key::Char('/'));
    b.handle_key(Key::Char('e'));
    rows_of(&mut b);
    b.handle_key(Key::PageDown);
    assert_eq!(b.cursor(), Some(1));
    b.handle_key(Key::Backspace);
    b.handle_key(Key::Char('a'));
    b.handle_key(Key::Char('l'));
    b.handle_key(Key::Char('p'));
    assert_eq!(rows_of(&mut b), vec!["E 0|0|true"]);
    assert_eq!(b.cursor(), Some(0));
}

#[test]
fn the_confirmation_answers() {
    assert_eq!(confirm_key(Key::Enter), Some(true));
    assert_eq!(confirm_key(Key::Char('y')), Some(true));
    assert_eq!(confirm_key(Key::Esc), Some(false));
    assert_eq!(confirm_key(Key::Char('n')), Some(false));
    assert_eq!(confirm_key(Key::Char('q')), Some(false));
    assert_eq!(confirm_key(Key::Char('x')), None);
    assert_eq!(confirm_key(Key::Down), None);
}

#[test]
fn changes_are_planned_from_the_choice() {
    let es = sample();
    let (fetch, delete) = plan_changes(&es, &strings(&["u0", "u1"]), &strings(&["u1", "u2"]));
    assert_eq!(fetch, vec![0]);
    assert_eq!(delete, vec![2]);
    let (fetch, delete) = plan_changes(&es, &strings(&["u1"]), &strings(&["u1"]));
    assert!(fetch.is_empty() && delete.is_empty());
}

#[test]
fn pop_ups_are_centred() {
    let area = Rect { x: 0, y: 0, width: 80, height: 24 };
    assert_eq!(centered_rect(10, 4, area), Rect { x: 35, y: 10, width: 10, height: 4 });
    assert_eq!(centered_rect(100, 30, area), Rect { x: 0, y: 0, width: 80, height: 24 });
    let shifted = Rect { x: 5, y: 2, width: 20, height: 10 };
    assert_eq!(centered_rect(6, 3, shifted), Rect { x: 12, y: 5, width: 6, height: 3 });
    assert_eq!(confirm_popup(2, 1, area), Rect { x: 4, y: 7, width: 72, height: 10 });
    assert_eq!(confirm_popup(0, 1, area), Rect { x: 4, y: 9, width: 72, height: 6 });
    let small = Rect { x: 0, y: 0, width: 40, height: 8 };
    assert_eq!(confirm_popup(9, 9, small), Rect { x: 2, y: 1, width: 36, height: 6 });
}

#[test]
fn the_confirmation_lists_both_kinds_of_change() {
    let es = sample();
    let lines = confirm_lines(&es[0..1], &es[2..3]);
    let all: Vec<Vec<String>> = lines.iter().map(|l| texts(l)).collect();
    assert_eq!(
        all,
        vec![
            vec!["  Download (1):".to_string()],
            strings(&["    • ", "Alpha", "  ", "2 KiB"]),
            vec![],
            vec!["  Remove (1):".to_string()],
            strings(&["    • ", "Gamma"]),
        ]
    );
    assert_eq!(lines[0][0].fg, Some(Tint::Cyan));
    assert_eq!(lines[3][0].fg, Some(Tint::Red));
    let only_remove = confirm_lines(&[], &es[1..2]);
    assert_eq!(texts(&only_remove[0]), vec!["  Remove (1):"]);
    assert_eq!(only_remove.len(), 2);
}

#[test]
fn the_title_and_search_bar() {
    assert_eq!(registry_title(3, 10), " yadict registry — 3 selected / 10 total ");
    assert_eq!(texts(&search_bar(true, "ab")), vec![" / ", "ab", "▌"]);
    assert_eq!(texts(&search_bar(false, "ab")), vec![" Press / to search"]);
    assert!(key_hint(true).contains("ESC: clear search"));
    assert!(key_hint(false).contains("a: all"));
}

#[test]
fn choosing_twice_leaves_the_choice_as_it_was() {
    let mut b = Browser::new(sample(), strings(&["u1"]));
    rows_of(&mut b);
    b.handle_key(Key::Down);
    b.handle_key(Key::Down);
    assert_eq!(b.cursor(), Some(2));
    b.handle_key(Key::Char(' '));
    assert!(b.selected().is_empty());
    b.handle_key(Key::Up);
    b.handle_key(Key::Char(' '));
    assert_eq!(b.selected(), &strings(&["u1"]));
}

#[test]
fn no_change_plans_nothing() {
    let es = sample();
    let (fetch, delete) = plan_changes(&es, &strings(&["u2", "u0"]), &strings(&["u0", "u2"]));
    assert!(fetch.is_empty());
    assert!(delete.is_empty());
}

#[test]
fn filing_into_an_existing_category_adds_no_sibling() {
    let mut nodes = Vec::new();
    let segs = category_segments_of("a / b");
    insert_into_tree(&mut nodes, &segs, 0, &Vec::new(), 0);
    insert_into_tree(&mut nodes, &category_segments_of("c"), 0, &Vec::new(), 1);
    insert_into_tree(&mut nodes, &segs, 0, &Vec::new(), 2);
    let names: Vec<&str> = nodes.iter().map(|n| n.segment.as_str()).collect();
    assert_eq!(names, vec!["a", "c"]);
    assert_eq!(nodes[0].children.len(), 1);
    assert_eq!(nodes[0].children[0].full_path, "a / b");
    assert_eq!(nodes[0].children[0].entry_indices, vec![0, 2]);
    assert_eq!(nodes[1].entry_indices, vec![1]);
    let total: usize = nodes.iter().map(count_tree_entries).sum();
    assert_eq!(total, 3);
}
