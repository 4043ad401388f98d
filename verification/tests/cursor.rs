use ted::cursor::Cursor;

fn at(x: u16, vx: u16, rel: u16, abs: u16) -> Cursor {
    Cursor { x, vertical_x: vx, relative_y: rel, absolute_y: abs }
}

#[test]
fn move_up_floors_at_one() {
    let mut c = at(3, 3, 1, 1);
    c.move_up();
    assert_eq!(c.relative_y, 1);
    assert_eq!(c.absolute_y, 1);
    let mut c2 = at(3, 3, 4, 9);
    c2.move_up();
    assert_eq!(c2.relative_y, 3);
    assert_eq!(c2.absolute_y, 8);
}

#[test]
fn move_down_stops_at_the_viewport_bottom() {
    let mut c = at(1, 1, 1, 1);
    c.move_down(4);
    assert_eq!(c.relative_y, 2);
    assert_eq!(c.absolute_y, 2);
    c.move_down(4);
    assert_eq!(c.relative_y, 3);
    c.move_down(4);
    // the viewport has rows 1..=3: the row sticks while the line advances
    assert_eq!(c.relative_y, 3);
    assert_eq!(c.absolute_y, 4);
}

#[test]
fn move_left_floors_at_one() {
    let mut c = at(2, 2, 1, 1);
    c.move_left();
    assert_eq!(c.x, 1);
    c.move_left();
    assert_eq!(c.x, 1);
}

#[test]
fn move_right_and_set_x() {
    let mut c = at(1, 1, 1, 1);
    c.move_right();
    assert_eq!(c.x, 2);
    c.set_x(7);
    assert_eq!(c.x, 7);
    assert_eq!(c.vertical_x, 1);
}
