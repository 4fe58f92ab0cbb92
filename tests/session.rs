use list_selector::catalog::{Catalog, Target};
use list_selector::session::{Action, Key, KeyInput};

fn strings(v: &[&str]) -> Vec<String> {
    v.iter().map(|s| s.to_string()).collect()
}

fn press(key: Key) -> KeyInput {
    KeyInput { key, control_only: false, press: true }
}

fn flags(c: &Catalog) -> Vec<bool> {
    c.entries().iter().map(|e| e.selected).collect()
}

fn sample() -> Catalog {
    Catalog::build(&strings(&["list-a.txt", "list-b.txt"]), &strings(&["list-b.txt"]))
}

#[test]
fn arrows_move_and_redraw() {
    let mut c = sample();
    assert_eq!(c.handle_key(press(Key::Up)), Action::Redraw);
    assert_eq!(c.cursor(), 0);
    assert_eq!(c.handle_key(press(Key::Down)), Action::Redraw);
    assert_eq!(c.cursor(), 1);
    for _ in 0..5 {
        c.handle_key(press(Key::Down));
    }
    assert_eq!(c.cursor(), 3);
}

#[test]
fn space_and_enter_toggle_entries() {
    let mut c = sample();
    assert_eq!(c.handle_key(press(Key::Char(' '))), Action::Redraw);
    assert_eq!(flags(&c), vec![true, true]);
    assert_eq!(c.handle_key(press(Key::Enter)), Action::Redraw);
    assert_eq!(flags(&c), vec![false, true]);
}

#[test]
fn enter_on_save_asks_for_write() {
    let mut c = sample();
    c.handle_key(press(Key::Down));
    c.handle_key(press(Key::Down));
    assert_eq!(c.target(), Target::Save);
    assert_eq!(c.handle_key(press(Key::Enter)), Action::Save);
    assert_eq!(c.selection_text(), "list-b.txt\n");
}

#[test]
fn cancel_at_every_position_writes_nothing() {
    for start in 0..4 {
        let mut c = sample();
        for _ in 0..start {
            c.handle_key(press(Key::Down));
        }
        let ctrl_c = KeyInput { key: Key::Char('c'), control_only: true, press: true };
        assert_eq!(c.handle_key(ctrl_c), Action::Quit);
        assert_eq!(flags(&c), vec![false, true]);
        assert_eq!(c.cursor(), start);
    }
    let mut c = sample();
    for _ in 0..3 {
        c.handle_key(press(Key::Down));
    }
    assert_eq!(c.target(), Target::Cancel);
    assert_eq!(c.handle_key(press(Key::Char(' '))), Action::Cancel);
    assert_eq!(flags(&c), vec![false, true]);
}

#[test]
fn other_keys_and_releases_are_ignored() {
    let mut c = sample();
    assert_eq!(c.handle_key(press(Key::Char('c'))), Action::Ignore);
    assert_eq!(c.handle_key(press(Key::Char('x'))), Action::Ignore);
    assert_eq!(c.handle_key(press(Key::Other)), Action::Ignore);
    let release = KeyInput { key: Key::Down, control_only: false, press: false };
    assert_eq!(c.handle_key(release), Action::Ignore);
    assert_eq!(c.cursor(), 0);
    let space_release = KeyInput { key: Key::Char(' '), control_only: false, press: false };
    assert_eq!(c.handle_key(space_release), Action::Ignore);
    assert_eq!(flags(&c), vec![false, true]);
}

#[test]
fn control_space_still_toggles() {
    let mut c = sample();
    let k = KeyInput { key: Key::Char(' '), control_only: true, press: true };
    assert_eq!(c.handle_key(k), Action::Redraw);
    assert_eq!(flags(&c), vec![true, true]);
}
