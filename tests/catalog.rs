use list_selector::catalog::{is_list_file, Catalog, Target};
use list_selector::record::parse_selection;

fn strings(v: &[&str]) -> Vec<String> {
    v.iter().map(|s| s.to_string()).collect()
}

fn names(c: &Catalog) -> Vec<String> {
    c.entries().iter().map(|e| e.name.clone()).collect()
}

fn flags(c: &Catalog) -> Vec<bool> {
    c.entries().iter().map(|e| e.selected).collect()
}

#[test]
fn aggregate_list_is_left_out() {
    let dir = strings(&["list-b.txt", "list-ultimate.txt", "list-a.txt"]);
    let c = Catalog::build(&dir, &Vec::new());
    assert_eq!(names(&c), strings(&["list-a.txt", "list-b.txt"]));
    assert_eq!(c.len(), 4);
    assert_eq!(c.cursor(), 0);
}

#[test]
fn prior_selection_is_merged() {
    let dir = strings(&["list-a.txt", "list-b.txt"]);
    let c = Catalog::build(&dir, &strings(&["list-b.txt"]));
    assert_eq!(names(&c), strings(&["list-a.txt", "list-b.txt"]));
    assert_eq!(flags(&c), vec![false, true]);
}

#[test]
fn catalog_has_matching_files_and_two_actions() {
    let dir = strings(&[
        "list-z.txt",
        "notes.txt",
        "list-m.txt",
        "list-.txt",
        "list-a.md",
        "selected.txt",
        "list-c.txt",
        "list-ultimate.txt",
    ]);
    let mut c = Catalog::build(&dir, &Vec::new());
    assert_eq!(names(&c), strings(&["list-.txt", "list-c.txt", "list-m.txt", "list-z.txt"]));
    assert_eq!(c.len(), 6);
    for _ in 0..4 {
        c.move_down();
    }
    assert_eq!(c.target(), Target::Save);
    c.move_down();
    assert_eq!(c.target(), Target::Cancel);
}

#[test]
fn empty_directory_gives_only_actions() {
    let c = Catalog::build(&Vec::new(), &strings(&["list-a.txt"]));
    assert_eq!(c.len(), 2);
    assert!(c.entries().is_empty());
    assert_eq!(c.target(), Target::Save);
}

#[test]
fn repeated_names_are_listed_once() {
    let dir = strings(&["list-b.txt", "list-a.txt", "list-b.txt"]);
    let c = Catalog::build(&dir, &Vec::new());
    assert_eq!(names(&c), strings(&["list-a.txt", "list-b.txt"]));
}

#[test]
fn names_sort_by_code_point() {
    let dir = strings(&["list-b.txt", "list-B.txt", "list-ab.txt", "list-a.txt", "list-я.txt"]);
    let c = Catalog::build(&dir, &Vec::new());
    assert_eq!(
        names(&c),
        strings(&["list-B.txt", "list-a.txt", "list-ab.txt", "list-b.txt", "list-я.txt"])
    );
}

#[test]
fn unmatched_record_lines_are_ignored() {
    let dir = strings(&["list-a.txt"]);
    let c = Catalog::build(&dir, &strings(&["garbage", "", "list-a.txt ", "list-x.txt"]));
    assert_eq!(flags(&c), vec![false]);
}

#[test]
fn cursor_stays_in_range() {
    let dir = strings(&["list-a.txt", "list-b.txt"]);
    let mut c = Catalog::build(&dir, &Vec::new());
    for _ in 0..5 {
        c.move_up();
        assert_eq!(c.cursor(), 0);
    }
    for _ in 0..10 {
        c.move_down();
    }
    assert_eq!(c.cursor(), 3);
    c.move_up();
    assert_eq!(c.cursor(), 2);
}

#[test]
fn toggle_twice_restores() {
    let dir = strings(&["list-a.txt", "list-b.txt"]);
    let mut c = Catalog::build(&dir, &strings(&["list-a.txt"]));
    c.toggle(0);
    assert_eq!(flags(&c), vec![false, false]);
    c.toggle(0);
    assert_eq!(flags(&c), vec![true, false]);
    c.toggle(1);
    c.toggle(1);
    assert_eq!(flags(&c), vec![true, false]);
}

#[test]
fn saved_names_follow_catalog_order() {
    let dir = strings(&["list-c.txt", "list-a.txt", "list-b.txt"]);
    let mut c = Catalog::build(&dir, &Vec::new());
    c.toggle(2);
    c.toggle(0);
    assert_eq!(c.saved_names(), strings(&["list-a.txt", "list-c.txt"]));
    assert_eq!(c.selection_text(), "list-a.txt\nlist-c.txt\n");
}

#[test]
fn save_then_reload_keeps_selection() {
    let dir = strings(&["list-d.txt", "list-a.txt", "list-c.txt", "list-b.txt"]);
    let mut c = Catalog::build(&dir, &strings(&["list-d.txt"]));
    c.toggle(1);
    c.toggle(2);
    let text = c.selection_text();
    let reloaded = Catalog::build(&dir, &parse_selection(&text));
    assert_eq!(names(&reloaded), names(&c));
    assert_eq!(flags(&reloaded), vec![false, true, true, true]);
}

#[test]
fn empty_save_reloads_with_nothing_selected() {
    let dir = strings(&["list-a.txt", "list-b.txt"]);
    let c = Catalog::build(&dir, &Vec::new());
    let text = c.selection_text();
    assert_eq!(text, "");
    assert!(parse_selection(&text).is_empty());
    let reloaded = Catalog::build(&dir, &parse_selection(&text));
    assert_eq!(flags(&reloaded), vec![false, false]);
}

#[test]
fn list_file_rule() {
    assert!(is_list_file("list-a.txt"));
    assert!(is_list_file("list-.txt"));
    assert!(!is_list_file("list-ultimate.txt"));
    assert!(!is_list_file("list-a.TXT"));
    assert!(!is_list_file("List-a.txt"));
    assert!(!is_list_file("list.txt"));
    assert!(!is_list_file("a-list-b.txt"));
    assert!(!is_list_file(""));
}
