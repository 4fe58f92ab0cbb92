use list_selector::record::{parse_selection, selection_record};
use list_selector::render::{row, CANCEL_LABEL, SAVE_LABEL};
use list_selector::catalog::Catalog;
use list_selector::text::{has_prefix, has_suffix, name_less, same_text};

fn strings(v: &[&str]) -> Vec<String> {
    v.iter().map(|s| s.to_string()).collect()
}

#[test]
fn lines_like_str_lines() {
    for text in ["", "a", "a\n", "\n", "a\r\nb", "a\n\nb\n", "x\r", "x\r\r\n", "\r\n\r\n", "я\nб"] {
        let expected: Vec<String> = text.lines().map(String::from).collect();
        assert_eq!(parse_selection(text), expected, "{:?}", text);
    }
    assert_eq!(parse_selection("list-a.txt\r\nlist-b.txt\n"), strings(&["list-a.txt", "list-b.txt"]));
}

#[test]
fn record_has_one_line_per_name() {
    assert_eq!(selection_record(&strings(&["list-a.txt", "list-c.txt"])), "list-a.txt\nlist-c.txt\n");
    assert_eq!(selection_record(&Vec::new()), "");
    let names = strings(&["list-a.txt", "", "list-я.txt"]);
    assert_eq!(parse_selection(&selection_record(&names)), names);
}

#[test]
fn rows_are_formatted() {
    assert_eq!(row(true, true, "list-a.txt"), "> [*] list-a.txt");
    assert_eq!(row(false, false, "list-b.txt"), "  [ ] list-b.txt");
    assert_eq!(row(false, true, ""), "  [*] ");
}

#[test]
fn frame_draws_every_position() {
    let c = Catalog::build(&strings(&["list-b.txt", "list-a.txt"]), &strings(&["list-b.txt"]));
    let f = c.frame(true);
    assert!(f.clear);
    assert_eq!(f.highlight, 0);
    assert_eq!(
        f.rows,
        vec![
            "> [ ] list-a.txt".to_string(),
            "  [*] list-b.txt".to_string(),
            format!("  [ ] {}", SAVE_LABEL),
            format!("  [ ] {}", CANCEL_LABEL),
        ]
    );
    assert_eq!(f.rows[2], "  [ ] СОХРАНИТЬ СПИСОК");
    assert_eq!(f.rows[3], "  [ ] ОТМЕНА");
    let mut c = c;
    c.move_down();
    c.move_down();
    c.move_down();
    let g = c.frame(false);
    assert!(!g.clear);
    assert_eq!(g.highlight, 3);
    assert_eq!(g.rows[3], "> [ ] ОТМЕНА");
    assert_eq!(g.rows[0], "  [ ] list-a.txt");
}

#[test]
fn text_helpers() {
    assert!(name_less("list-a.txt", "list-b.txt"));
    assert!(!name_less("list-b.txt", "list-a.txt"));
    assert!(!name_less("abc", "abc"));
    assert!(name_less("ab", "abc"));
    assert!(name_less("Z", "a"));
    assert!(name_less("z", "я"));
    assert!(has_prefix("list-a.txt", "list-"));
    assert!(!has_prefix("lis", "list-"));
    assert!(has_suffix("list-a.txt", ".txt"));
    assert!(!has_suffix("list-a.txt.bak", ".txt"));
    assert!(same_text("abc", "abc"));
    assert!(!same_text("abc", "abd"));
    assert!(!same_text("abc", "ab"));
}
