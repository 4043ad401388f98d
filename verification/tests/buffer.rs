use ted::buffer::{Buffer, Motions, Repaint};

const BACKSPACE: char = '\u{7f}';

fn cv(s: &str) -> Vec<char> {
    s.chars().collect()
}

fn open(s: &str, height: u16) -> Buffer {
    Buffer::new(&cv(s), 80, height)
}

fn doc(b: &Buffer) -> String {
    b.save().into_iter().collect()
}

fn window_values(b: &Buffer) -> Vec<String> {
    b.segment.nodes.iter().map(|n| n.value.iter().collect()).collect()
}

#[test]
fn open_places_cursor_at_top_left() {
    let b = open("ab\ncd\n", 10);
    assert_eq!(b.cursor.x, 1);
    assert_eq!(b.cursor.vertical_x, 1);
    assert_eq!(b.cursor.relative_y, 1);
    assert_eq!(b.cursor.absolute_y, 1);
    assert_eq!(b.lines, 2);
    assert_eq!(doc(&b), "ab\ncd\n");
}

#[test]
fn window_is_clipped_to_the_viewport() {
    let b = open("l1\nl2\nl3\nl4\nl5\n", 3);
    assert_eq!(b.segment.cap, 2);
    assert_eq!(window_values(&b), vec!["l1\n".to_string(), "l2\n".to_string()]);
}

#[test]
fn right_clamps_at_the_line_end() {
    let mut b = open("ab\nlonger line\n", 10);
    for _ in 0..10 {
        b.motion(Motions::Right);
    }
    // "ab\n" has columns 1..=3; the cursor never leaves the line
    assert_eq!(b.cursor.x, 3);
}

#[test]
fn left_floors_at_column_one() {
    let mut b = open("ab\n", 10);
    let r = b.motion(Motions::Left);
    assert_eq!(b.cursor.x, 1);
    assert_eq!(r, Repaint::Position);
}

#[test]
fn up_at_the_first_line_stays() {
    let mut b = open("ab\ncd\n", 10);
    b.motion(Motions::Up);
    assert_eq!(b.cursor.absolute_y, 1);
}

#[test]
fn down_at_the_last_line_stays() {
    let mut b = open("ab\ncd\n", 10);
    b.motion(Motions::Down);
    b.motion(Motions::Down);
    b.motion(Motions::Down);
    assert_eq!(b.cursor.absolute_y, 2);
}

#[test]
fn down_past_the_viewport_scrolls() {
    let mut b = open("l1\nl2\nl3\nl4\n", 3);
    assert_eq!(b.motion(Motions::Down), Repaint::Position);
    assert_eq!(b.motion(Motions::Down), Repaint::Full);
    assert_eq!(b.cursor.absolute_y, 3);
    assert_eq!(window_values(&b), vec!["l2\n".to_string(), "l3\n".to_string()]);
    assert_eq!(b.motion(Motions::Up), Repaint::Position);
    assert_eq!(b.motion(Motions::Up), Repaint::Full);
    assert_eq!(b.cursor.absolute_y, 1);
    assert_eq!(window_values(&b), vec!["l1\n".to_string(), "l2\n".to_string()]);
}

#[test]
fn sticky_column_is_restored_after_a_short_line() {
    let mut b = open("abcdefghijkl\nab\nabcdefghijkl\n", 10);
    for _ in 0..9 {
        b.motion(Motions::Right);
    }
    assert_eq!(b.cursor.x, 10);
    b.motion(Motions::Down);
    // the short line has three columns; the target column is remembered
    assert_eq!(b.cursor.x, 3);
    assert_eq!(b.cursor.vertical_x, 10);
    b.motion(Motions::Down);
    assert_eq!(b.cursor.x, 10);
}

#[test]
fn typing_inserts_at_the_cursor_and_commits() {
    let mut b = open("ab\ncd\n", 10);
    b.motion(Motions::Right);
    let r = b.edit('X');
    assert_eq!(r, Repaint::Line);
    assert_eq!(doc(&b), "aXb\ncd\n");
    assert_eq!(b.cursor.x, 3);
    assert_eq!(window_values(&b), vec!["aXb\n".to_string(), "cd\n".to_string()]);
    // offsets of later records follow the edit
    assert_eq!(b.segment.nodes[1].offset, 4);
}

#[test]
fn typing_on_an_empty_document_creates_the_first_line() {
    let mut b = open("", 10);
    assert_eq!(b.lines, 0);
    let r = b.edit('a');
    assert_eq!(r, Repaint::Full);
    assert_eq!(doc(&b), "a");
    assert_eq!(b.lines, 1);
    assert_eq!(b.cursor.x, 2);
    b.edit('b');
    assert_eq!(doc(&b), "ab");
}

#[test]
fn scenario_return_at_line_start() {
    // cursor at line 1 col 1, Return on "ab\n"
    let mut b = open("ab\n", 10);
    let r = b.edit('\r');
    assert_eq!(r, Repaint::Full);
    assert_eq!(doc(&b), "\nab\n");
    assert_eq!(b.lines, 2);
    assert_eq!(window_values(&b), vec!["\n".to_string(), "ab\n".to_string()]);
    assert_eq!(b.cursor.absolute_y, 2);
    assert_eq!(b.cursor.x, 1);
}

#[test]
fn return_mid_line_splits_it() {
    let mut b = open("abcd\n", 10);
    b.motion(Motions::Right);
    b.motion(Motions::Right);
    b.edit('\r');
    assert_eq!(doc(&b), "ab\ncd\n");
    assert_eq!(b.lines, 2);
    assert_eq!(window_values(&b), vec!["ab\n".to_string(), "cd\n".to_string()]);
    assert_eq!(b.cursor.absolute_y, 2);
    assert_eq!(b.cursor.x, 1);
}

#[test]
fn return_at_the_end_of_an_unterminated_line_terminates_it() {
    let mut b = open("ab", 10);
    b.motion(Motions::Right);
    b.motion(Motions::Right);
    assert_eq!(b.cursor.x, 3);
    b.edit('\r');
    assert_eq!(doc(&b), "ab\n");
    assert_eq!(b.lines, 1);
}

#[test]
fn scenario_backspace_merges_lines() {
    // cursor at line 2 col 1; line 1 is "ab", line 2 is "cd"
    let mut b = open("ab\ncd", 10);
    b.motion(Motions::Down);
    assert_eq!(b.cursor.absolute_y, 2);
    assert_eq!(b.cursor.x, 1);
    let r = b.edit(BACKSPACE);
    assert_eq!(r, Repaint::Full);
    assert_eq!(doc(&b), "abcd");
    assert_eq!(b.lines, 1);
    assert_eq!(window_values(&b), vec!["abcd".to_string()]);
    assert_eq!(b.cursor.absolute_y, 1);
    // the cursor lands at the merge point: the old length of "ab"
    assert_eq!(b.cursor.x, 2);
}

#[test]
fn backspace_mid_line_deletes_to_the_left() {
    let mut b = open("abcd\n", 10);
    b.motion(Motions::Right);
    b.motion(Motions::Right);
    assert_eq!(b.cursor.x, 3);
    let r = b.edit(BACKSPACE);
    assert_eq!(r, Repaint::Line);
    assert_eq!(doc(&b), "acd\n");
    assert_eq!(b.cursor.x, 2);
}

#[test]
fn backspace_at_document_start_is_a_no_op() {
    let mut b = open("ab\n", 10);
    let r = b.edit(BACKSPACE);
    assert_eq!(r, Repaint::Position);
    assert_eq!(doc(&b), "ab\n");
    assert_eq!(b.cursor.x, 1);
}

#[test]
fn backspace_merge_keeps_later_offsets_right() {
    let mut b = open("ab\ncd\nef\n", 10);
    b.motion(Motions::Down);
    b.edit(BACKSPACE);
    assert_eq!(doc(&b), "abcd\nef\n");
    assert_eq!(b.lines, 2);
    assert_eq!(window_values(&b), vec!["abcd\n".to_string(), "ef\n".to_string()]);
    assert_eq!(b.segment.nodes[1].offset, 5);
}

#[test]
fn edits_survive_scrolling_and_saving() {
    let mut b = open("l1\nl2\nl3\nl4\n", 3);
    b.edit('X');
    b.motion(Motions::Left);
    b.motion(Motions::Down);
    b.motion(Motions::Down);
    b.motion(Motions::Down);
    b.edit('Y');
    assert_eq!(doc(&b), "Xl1\nl2\nl3\nYl4\n");
}

#[test]
fn save_returns_the_whole_document() {
    let b = open("ab\ncd", 10);
    assert_eq!(doc(&b), "ab\ncd");
}

#[test]
fn columns_count_code_points() {
    let mut b = open("äb\n", 10);
    b.motion(Motions::Right);
    b.edit('X');
    assert_eq!(doc(&b), "äXb\n");
    assert_eq!(b.cursor.x, 3);
}

#[test]
fn backspace_merges_across_the_window_top() {
    // scroll until the window starts below line 1, return to its top row,
    // and merge from there: the window shifts back first
    let mut b = open("l1\nl2\nl3\nl4\n", 3);
    b.motion(Motions::Down);
    b.motion(Motions::Down);
    b.motion(Motions::Up);
    assert_eq!(b.cursor.absolute_y, 2);
    assert_eq!(b.cursor.relative_y, 1);
    let r = b.edit(BACKSPACE);
    assert_eq!(r, Repaint::Full);
    assert_eq!(doc(&b), "l1l2\nl3\nl4\n");
    assert_eq!(b.lines, 3);
    assert_eq!(b.cursor.absolute_y, 1);
    assert_eq!(b.cursor.x, 2);
    assert_eq!(window_values(&b), vec!["l1l2\n".to_string(), "l3\n".to_string()]);
}

#[test]
fn backspace_deletes_the_last_character_of_the_document() {
    let mut b = open("", 10);
    b.edit('a');
    assert_eq!(doc(&b), "a");
    let r = b.edit(BACKSPACE);
    assert_eq!(r, Repaint::Full);
    assert_eq!(doc(&b), "");
    assert_eq!(b.lines, 0);
    assert_eq!(b.cursor.x, 1);
    assert_eq!(b.cursor.absolute_y, 1);
    // the buffer is usable again afterwards
    b.edit('b');
    assert_eq!(doc(&b), "b");
}

#[test]
fn backspace_removes_an_emptied_final_line() {
    let mut b = open("ab\nx", 10);
    b.motion(Motions::Down);
    b.motion(Motions::Right);
    assert_eq!(b.cursor.absolute_y, 2);
    assert_eq!(b.cursor.x, 2);
    let r = b.edit(BACKSPACE);
    assert_eq!(r, Repaint::Full);
    assert_eq!(doc(&b), "ab\n");
    assert_eq!(b.lines, 1);
    assert_eq!(b.cursor.absolute_y, 1);
    // the cursor lands at the end of the previous line
    assert_eq!(b.cursor.x, 3);
    assert_eq!(window_values(&b), vec!["ab\n".to_string()]);
}
