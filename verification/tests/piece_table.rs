use ted::piece_table::PieceTable;

fn cv(s: &str) -> Vec<char> {
    s.chars().collect()
}

fn text_of(pt: &PieceTable) -> String {
    pt.get_string().into_iter().collect()
}

#[test]
fn new_get_string_round_trip() {
    for s in ["", "a", "ab\ncd\n", "ab\ncd", "\n\n\n", "héllo wörld\n"] {
        let pt = PieceTable::new(&cv(s));
        assert_eq!(text_of(&pt), s);
    }
}

#[test]
fn insert_in_the_middle() {
    let mut pt = PieceTable::new(&cv("abcd"));
    pt.insert(&cv("XY"), 2);
    assert_eq!(text_of(&pt), "abXYcd");
}

#[test]
fn insert_at_start() {
    let mut pt = PieceTable::new(&cv("abcd"));
    pt.insert(&cv(">>"), 0);
    assert_eq!(text_of(&pt), ">>abcd");
}

#[test]
fn insert_at_end_of_document() {
    let mut pt = PieceTable::new(&cv("abcd"));
    pt.insert(&cv("!"), 4);
    assert_eq!(text_of(&pt), "abcd!");
}

#[test]
fn insert_empty_text_is_a_no_op() {
    let mut pt = PieceTable::new(&cv("abcd"));
    pt.insert(&cv(""), 2);
    assert_eq!(text_of(&pt), "abcd");
}

#[test]
fn insert_past_the_end_is_a_no_op() {
    let mut pt = PieceTable::new(&cv("abcd"));
    pt.insert(&cv("X"), 5);
    assert_eq!(text_of(&pt), "abcd");
}

#[test]
fn insert_into_empty_document() {
    let mut pt = PieceTable::new(&cv(""));
    pt.insert(&cv("hi"), 0);
    assert_eq!(text_of(&pt), "hi");
}

#[test]
fn repeated_inserts_splice_correctly() {
    let mut pt = PieceTable::new(&cv("ad"));
    pt.insert(&cv("c"), 1);
    pt.insert(&cv("b"), 1);
    pt.insert(&cv("e"), 4);
    assert_eq!(text_of(&pt), "abcde");
}

#[test]
fn delete_char_in_the_middle() {
    let mut pt = PieceTable::new(&cv("abcd"));
    pt.delete_char(1);
    assert_eq!(text_of(&pt), "acd");
}

#[test]
fn delete_char_after_insert() {
    let mut pt = PieceTable::new(&cv("abcd"));
    pt.insert(&cv("XY"), 2);
    pt.delete_char(2);
    assert_eq!(text_of(&pt), "abYcd");
}

#[test]
fn delete_char_past_the_end_is_a_no_op() {
    let mut pt = PieceTable::new(&cv("abcd"));
    pt.delete_char(4);
    assert_eq!(text_of(&pt), "abcd");
}

#[test]
fn get_lines_returns_each_line_with_terminator() {
    let pt = PieceTable::new(&cv("ab\ncd\nef"));
    let seg = pt.get_lines(1, 3);
    assert_eq!(seg.nodes.len(), 3);
    let vals: Vec<String> = seg.nodes.iter().map(|n| n.value.iter().collect()).collect();
    assert_eq!(vals, vec!["ab\n".to_string(), "cd\n".to_string(), "ef".to_string()]);
    let nums: Vec<usize> = seg.nodes.iter().map(|n| n.line_number).collect();
    assert_eq!(nums, vec![1, 2, 3]);
    let offs: Vec<usize> = seg.nodes.iter().map(|n| n.offset).collect();
    assert_eq!(offs, vec![0, 3, 6]);
}

#[test]
fn get_lines_middle_range() {
    let pt = PieceTable::new(&cv("one\ntwo\nthree\nfour\n"));
    let seg = pt.get_lines(2, 3);
    assert_eq!(seg.nodes.len(), 2);
    let vals: Vec<String> = seg.nodes.iter().map(|n| n.value.iter().collect()).collect();
    assert_eq!(vals, vec!["two\n".to_string(), "three\n".to_string()]);
    assert_eq!(seg.nodes[0].offset, 4);
}

#[test]
fn get_lines_clamps_to_document() {
    let pt = PieceTable::new(&cv("ab\ncd\n"));
    let seg = pt.get_lines(0, 10);
    assert_eq!(seg.nodes.len(), 2);
    let seg2 = pt.get_lines(5, 9);
    assert_eq!(seg2.nodes.len(), 0);
}

#[test]
fn get_lines_sees_committed_inserts() {
    let mut pt = PieceTable::new(&cv("ab\ncd\n"));
    pt.insert(&cv("X"), 1);
    let seg = pt.get_lines(1, 2);
    let vals: Vec<String> = seg.nodes.iter().map(|n| n.value.iter().collect()).collect();
    assert_eq!(vals, vec!["aXb\n".to_string(), "cd\n".to_string()]);
    assert_eq!(seg.nodes[1].offset, 4);
}

#[test]
fn scenario_initial_window_and_next_line_at_end() {
    // document "ab\ncd\n", window capacity 2
    let pt = PieceTable::new(&cv("ab\ncd\n"));
    let mut seg = pt.get_lines(1, 2);
    assert_eq!(seg.cap, 2);
    assert_eq!(seg.nodes.len(), 2);
    let vals: Vec<String> = seg.nodes.iter().map(|n| n.value.iter().collect()).collect();
    assert_eq!(vals, vec!["ab\n".to_string(), "cd\n".to_string()]);
    assert_eq!(seg.nodes[0].line_number, 1);
    assert_eq!(seg.nodes[1].line_number, 2);
    // there is no line 3: scrolling forward changes nothing
    pt.next_line(&mut seg);
    assert_eq!(seg.nodes.len(), 2);
    assert_eq!(seg.nodes[0].line_number, 1);
    assert_eq!(seg.nodes[1].line_number, 2);
}

#[test]
fn scrolling_keeps_numbers_contiguous_and_size_bounded() {
    let pt = PieceTable::new(&cv("l1\nl2\nl3\nl4\nl5\n"));
    let mut seg = pt.get_lines(1, 2);
    let cap = seg.cap;
    for _ in 0..8 {
        pt.next_line(&mut seg);
        assert!(seg.nodes.len() <= cap);
        for w in seg.nodes.windows(2) {
            assert_eq!(w[1].line_number, w[0].line_number + 1);
        }
    }
    assert_eq!(seg.nodes[0].line_number, 4);
    assert_eq!(seg.nodes[1].line_number, 5);
    for _ in 0..8 {
        pt.prev_line(&mut seg);
        assert!(seg.nodes.len() <= cap);
        for w in seg.nodes.windows(2) {
            assert_eq!(w[1].line_number, w[0].line_number + 1);
        }
    }
    assert_eq!(seg.nodes[0].line_number, 1);
    assert_eq!(seg.nodes[1].line_number, 2);
}

#[test]
fn prev_line_at_top_is_a_no_op() {
    let pt = PieceTable::new(&cv("ab\ncd\n"));
    let mut seg = pt.get_lines(1, 1);
    pt.prev_line(&mut seg);
    assert_eq!(seg.nodes.len(), 1);
    assert_eq!(seg.nodes[0].line_number, 1);
}

#[test]
fn next_line_refetches_from_the_table() {
    let pt = PieceTable::new(&cv("ab\ncd\nef\n"));
    let mut seg = pt.get_lines(1, 2);
    pt.next_line(&mut seg);
    let vals: Vec<String> = seg.nodes.iter().map(|n| n.value.iter().collect()).collect();
    assert_eq!(vals, vec!["cd\n".to_string(), "ef\n".to_string()]);
    assert_eq!(seg.nodes[1].offset, 6);
}

#[test]
fn doc_len_matches_the_document() {
    let mut pt = PieceTable::new(&cv("ab\ncd"));
    assert_eq!(pt.doc_len(), 5);
    pt.insert(&cv("XY"), 2);
    assert_eq!(pt.doc_len(), 7);
    pt.delete_char(0);
    assert_eq!(pt.doc_len(), 6);
}

#[test]
fn scrolling_reads_edited_lines_across_pieces() {
    let mut pt = PieceTable::new(&cv("ab\ncd\nef\n"));
    pt.insert(&cv("XY"), 1);
    let mut seg = pt.get_lines(2, 3);
    pt.prev_line(&mut seg);
    let vals: Vec<String> = seg.nodes.iter().map(|n| n.value.iter().collect()).collect();
    assert_eq!(vals, vec!["aXYb\n".to_string(), "cd\n".to_string()]);
    assert_eq!(seg.nodes[0].offset, 0);
    assert_eq!(seg.nodes[1].offset, 5);
    pt.next_line(&mut seg);
    let vals2: Vec<String> = seg.nodes.iter().map(|n| n.value.iter().collect()).collect();
    assert_eq!(vals2, vec!["cd\n".to_string(), "ef\n".to_string()]);
    pt.next_line(&mut seg);
    let vals3: Vec<String> = seg.nodes.iter().map(|n| n.value.iter().collect()).collect();
    assert_eq!(vals3, vec!["cd\n".to_string(), "ef\n".to_string()]);
}
