use ted::buffer::Motions;
use ted::editor::{Editor, EditorAction, EditorModes, KeyEvent};

#[test]
fn editor_starts_in_normal_mode() {
    let e = Editor::new();
    assert_eq!(e.mode, EditorModes::Normal);
}

#[test]
fn i_enters_insert_mode() {
    let mut e = Editor::new();
    let a = e.handle_key(KeyEvent::Char('i'));
    assert_eq!(a, EditorAction::SetInsert);
    assert_eq!(e.mode, EditorModes::Insert);
}

#[test]
fn escape_returns_to_normal_mode() {
    let mut e = Editor::new();
    e.handle_key(KeyEvent::Char('i'));
    let a = e.handle_key(KeyEvent::Escape);
    assert_eq!(a, EditorAction::SetNormal);
    assert_eq!(e.mode, EditorModes::Normal);
}

#[test]
fn characters_edit_in_insert_mode() {
    let mut e = Editor::new();
    e.handle_key(KeyEvent::Char('i'));
    assert_eq!(e.handle_key(KeyEvent::Char('x')), EditorAction::Edit('x'));
    assert_eq!(e.handle_key(KeyEvent::Char('i')), EditorAction::Edit('i'));
    assert_eq!(e.mode, EditorModes::Insert);
}

#[test]
fn hjkl_move_in_normal_mode() {
    let mut e = Editor::new();
    assert_eq!(e.handle_key(KeyEvent::Char('h')), EditorAction::Move(Motions::Left));
    assert_eq!(e.handle_key(KeyEvent::Char('j')), EditorAction::Move(Motions::Down));
    assert_eq!(e.handle_key(KeyEvent::Char('k')), EditorAction::Move(Motions::Up));
    assert_eq!(e.handle_key(KeyEvent::Char('l')), EditorAction::Move(Motions::Right));
}

#[test]
fn arrows_move_in_any_mode() {
    let mut e = Editor::new();
    assert_eq!(e.handle_key(KeyEvent::Up), EditorAction::Move(Motions::Up));
    e.handle_key(KeyEvent::Char('i'));
    assert_eq!(e.handle_key(KeyEvent::Down), EditorAction::Move(Motions::Down));
    assert_eq!(e.handle_key(KeyEvent::Left), EditorAction::Move(Motions::Left));
    assert_eq!(e.handle_key(KeyEvent::Right), EditorAction::Move(Motions::Right));
}

#[test]
fn quit_and_idle() {
    let mut e = Editor::new();
    assert_eq!(e.handle_key(KeyEvent::CtrlQuit), EditorAction::Quit);
    assert_eq!(e.handle_key(KeyEvent::Char('z')), EditorAction::Idle);
    assert_eq!(e.mode, EditorModes::Normal);
}
