use ted::segment::{Segment, SegmentError, SegmentNode};

fn cv(s: &str) -> Vec<char> {
    s.chars().collect()
}

fn window(lines: &[&str]) -> Segment {
    let mut seg = Segment::new(lines.len());
    let mut off = 0;
    for (i, l) in lines.iter().enumerate() {
        let v = cv(l);
        let n = v.len();
        seg.new_b(v, i + 1, off);
        off += n;
    }
    seg
}

#[test]
fn construct_segment_joins_values_exactly() {
    let seg = window(&["ab\n", "cd\n", "ef"]);
    let joined: String = seg.construct_segment().into_iter().collect();
    assert_eq!(joined, "ab\ncd\nef");
}

#[test]
fn get_line_finds_a_cached_line() {
    let seg = window(&["ab\n", "cd\n"]);
    let node = seg.get_line(2).unwrap();
    let v: String = node.value.iter().collect();
    assert_eq!(v, "cd\n");
    assert_eq!(node.offset, 3);
}

#[test]
fn get_line_outside_the_window_fails() {
    let seg = window(&["ab\n", "cd\n"]);
    assert_eq!(seg.get_line(3).unwrap_err(), SegmentError::LineNotFound);
    assert_eq!(seg.get_line(0).unwrap_err(), SegmentError::LineNotFound);
}

#[test]
fn update_at_replaces_value_keeping_number_and_offset() {
    let mut seg = window(&["ab\n", "cd\n"]);
    seg.update_at(2, &cv("xyz\n"));
    let node = seg.get_line(2).unwrap();
    let v: String = node.value.iter().collect();
    assert_eq!(v, "xyz\n");
    assert_eq!(node.line_number, 2);
    assert_eq!(node.offset, 3);
}

#[test]
fn update_at_outside_the_window_is_a_no_op() {
    let mut seg = window(&["ab\n"]);
    seg.update_at(5, &cv("zz\n"));
    let joined: String = seg.construct_segment().into_iter().collect();
    assert_eq!(joined, "ab\n");
}

#[test]
fn insert_at_shifts_renumbers_and_rechains() {
    let mut seg = window(&["ab\n", "cd\n", "ef\n"]);
    // capacity 3 is already reached: the tail record is dropped
    seg.insert_at(2, &cv("new\n"));
    assert_eq!(seg.nodes.len(), 3);
    let vals: Vec<String> = seg.nodes.iter().map(|n| n.value.iter().collect()).collect();
    assert_eq!(vals, vec!["ab\n".to_string(), "new\n".to_string(), "cd\n".to_string()]);
    let nums: Vec<usize> = seg.nodes.iter().map(|n| n.line_number).collect();
    assert_eq!(nums, vec![1, 2, 3]);
    let offs: Vec<usize> = seg.nodes.iter().map(|n| n.offset).collect();
    assert_eq!(offs, vec![0, 3, 7]);
}

#[test]
fn insert_at_with_room_grows_the_window() {
    let mut seg = Segment::new(4);
    seg.new_b(cv("ab\n"), 1, 0);
    seg.new_b(cv("cd\n"), 2, 3);
    seg.insert_at(3, &cv("ef\n"));
    assert_eq!(seg.nodes.len(), 3);
    assert_eq!(seg.nodes[2].line_number, 3);
    assert_eq!(seg.nodes[2].offset, 6);
}

#[test]
fn insert_at_outside_the_window_is_a_no_op() {
    let mut seg = window(&["ab\n", "cd\n"]);
    seg.insert_at(9, &cv("zz\n"));
    assert_eq!(seg.nodes.len(), 2);
}

#[test]
fn remove_at_renumbers_the_tail() {
    let mut seg = window(&["ab\n", "cd\n", "ef\n"]);
    seg.remove_at(2);
    assert_eq!(seg.nodes.len(), 2);
    let vals: Vec<String> = seg.nodes.iter().map(|n| n.value.iter().collect()).collect();
    assert_eq!(vals, vec!["ab\n".to_string(), "ef\n".to_string()]);
    let nums: Vec<usize> = seg.nodes.iter().map(|n| n.line_number).collect();
    assert_eq!(nums, vec![1, 2]);
    let offs: Vec<usize> = seg.nodes.iter().map(|n| n.offset).collect();
    assert_eq!(offs, vec![0, 3]);
}

#[test]
fn push_and_pop_at_both_ends() {
    let mut seg = Segment::new(4);
    seg.add_b(SegmentNode::new(cv("b\n"), 2, 2));
    seg.add_f(SegmentNode::new(cv("a\n"), 1, 0));
    seg.new_b(cv("c\n"), 3, 4);
    assert_eq!(seg.front().unwrap().line_number, 1);
    assert_eq!(seg.back().unwrap().line_number, 3);
    seg.pop_f();
    assert_eq!(seg.front().unwrap().line_number, 2);
    seg.pop_b();
    assert_eq!(seg.back().unwrap().line_number, 2);
    seg.pop_f();
    assert!(seg.front().is_none());
    seg.pop_b();
    assert!(seg.back().is_none());
}

#[test]
fn rechain_recomputes_offsets_from_the_anchor() {
    let mut seg = Segment::new(3);
    seg.new_b(cv("ab\n"), 4, 10);
    seg.new_b(cv("cde\n"), 5, 0);
    seg.new_b(cv("f"), 6, 0);
    seg.rechain();
    let offs: Vec<usize> = seg.nodes.iter().map(|n| n.offset).collect();
    assert_eq!(offs, vec![10, 13, 17]);
}
