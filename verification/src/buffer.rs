//! The buffer: one piece table, one segment, one cursor, and the rules
//! that tie motions and edits together.
//!
//! Every mutation keeps the cached window a true image of the document:
//! each cached record carries the right text, line number and offset, so
//! that an edit committed "at the record's cached offset" lands exactly
//! where the cursor stands.

use crate::cursor::Cursor;
use crate::piece_table::{find_line_end, push_span, PieceTable};
use crate::segment::{lemma_matching_extent, values_text, Segment, SegmentError, SegmentNode};
use crate::segment::{lemma_chained_offsets_match, lemma_values_text_update, values_match};
use crate::text::{lemma_edit_insert_char, lemma_edit_insert_newline, lemma_line_start_congruent, lemma_lines_single};
use crate::segment::lemma_values_text_skip;
use crate::text::{content_len, line_count, line_start, lines_of};
use crate::text::{lemma_line_count_le_len, lemma_line_subrange, lemma_lines_shape, lemma_lines_skip};
use crate::text::lemma_first_line_len_bounds;
use crate::text::first_line_len;
use vstd::prelude::*;

verus! {

/// The four cursor motions.
#[derive(Clone, Copy, PartialEq, Eq, Debug)]
pub enum Motions {
    Up,
    Down,
    Left,
    Right,
}

/// What a buffer operation obliges the caller to repaint.
#[derive(Clone, Copy, PartialEq, Eq, Debug)]
pub enum Repaint {
    /// The whole viewport changed.
    Full,
    /// Only the current line changed.
    Line,
    /// Only the cursor position changed.
    Position,
}

/// Whether `c` is the backspace control character, in either of its two
/// common encodings.
pub open spec fn is_backspace(c: char) -> bool {
    c == '\u{7f}' || c == '\u{8}'
}

/// Whether `c` asks for a line break.
pub open spec fn is_return(c: char) -> bool {
    c == '\r' || c == '\n'
}

/// The effective column that a remembered target column yields on `line`:
/// the target, clamped to one past the line's content.
pub open spec fn eff_col(vx: int, line: Seq<char>) -> int {
    if vx <= content_len(line) + 1 {
        vx
    } else {
        content_len(line) + 1
    }
}

/// Number of lines of `text`.
pub fn count_lines(text: &Vec<char>) -> (n: usize)
    ensures
        n == line_count(text@),
{
    let ghost tx = text@;
    proof {
        lemma_line_count_le_len(tx);
    }
    let len = text.len();
    let mut count: usize = 0;
    let mut pos: usize = 0;
    while pos < len
        invariant
            text@ == tx,
            len == tx.len(),
            line_count(tx) <= tx.len(),
            count <= line_count(tx),
            pos == line_start(tx, count as int),
            pos <= len,
        decreases len - pos,
    {
        proof {
            lemma_lines_skip(tx, count as int);
            assert(tx.skip(pos as int).len() > 0);
            assert(lines_of(tx).skip(count as int).len() >= 1);
            assert(count < line_count(tx));
        }
        let end = find_line_end(text, pos);
        proof {
            let s = tx.skip(pos as int);
            lemma_first_line_len_bounds(s);
            assert(lines_of(s)[0] == s.take(first_line_len(s) as int));
            assert(lines_of(s)[0] == lines_of(tx).skip(count as int)[0]);
            assert(lines_of(tx)[count as int].len() == first_line_len(s));
            assert(end == line_start(tx, count + 1));
        }
        pos = end;
        count = count + 1;
    }
    proof {
        lemma_lines_skip(tx, count as int);
        assert(tx.skip(pos as int).len() == 0);
        assert(lines_of(tx).skip(count as int).len() == 0);
    }
    count
}

/// One past the content of `v`: the last column the cursor can stand on.
fn line_max_col(v: &Vec<char>) -> (m: usize)
    requires
        v@.len() < usize::MAX,
    ensures
        m == content_len(v@) + 1,
{
    let n = v.len();
    if n > 0 && v[n - 1] == '\n' {
        n
    } else {
        n + 1
    }
}

/// When the window has room and the document a line below it, read that
/// line in place from the pieces and append its record.
fn refill_tail(data: &PieceTable, segment: &mut Segment)
    requires
        data.wf(),
        old(segment).wf(),
        old(segment).matches_text(data.text()),
    ensures
        final(segment).cap == old(segment).cap,
        final(segment).wf(),
        final(segment).matches_text(data.text()),
        (old(segment).nodes@.len() == 0 || old(segment).nodes@.len() >= old(segment).cap
            || old(segment).end_line() > line_count(data.text())) ==> final(segment).nodes@ == old(
            segment,
        ).nodes@,
        (old(segment).nodes@.len() > 0 && old(segment).nodes@.len() < old(segment).cap && old(
            segment,
        ).end_line() <= line_count(data.text())) ==> ({
            &&& final(segment).nodes@.len() == old(segment).nodes@.len() + 1
            &&& final(segment).nodes@.take(old(segment).nodes@.len() as int) == old(segment).nodes@
            &&& final(segment).nodes@.last().line_number == old(segment).end_line()
        }),
{
    if segment.nodes.len() == 0 {
        return ;
    }
    if segment.nodes.len() >= segment.cap {
        return ;
    }
    let ghost tx = data.text();
    let (bln, boff, blen) = match segment.back() {
        Some(n) => (n.line_number, n.offset, n.value.len()),
        None => {
            return ;
        },
    };
    proof {
        lemma_line_count_le_len(tx);
        let lk = segment.nodes@.len() - 1;
        assert(segment.nodes@[lk] == segment.nodes@.last());
        assert(boff == line_start(tx, bln - 1));
        assert(blen == lines_of(tx)[bln - 1].len());
        assert(boff + blen == line_start(tx, bln as int));
        lemma_lines_skip(tx, bln as int);
    }
    let total = data.doc_len();
    let start = boff + blen;
    if start >= total {
        proof {
            assert(tx.skip(start as int).len() == 0);
            assert(lines_of(tx).skip(bln as int).len() == 0);
            assert(line_count(tx) <= bln);
        }
        return ;
    }
    proof {
        assert(tx.skip(start as int).len() > 0);
        assert(lines_of(tx).skip(bln as int).len() >= 1);
        assert(bln < line_count(tx));
    }
    let v = data.read_line_at(start);
    proof {
        let s = tx.skip(start as int);
        lemma_first_line_len_bounds(s);
        assert(lines_of(s)[0] == s.take(first_line_len(s) as int));
        assert(lines_of(s)[0] == lines_of(tx).skip(bln as int)[0]);
        assert(lines_of(tx)[bln as int].len() == first_line_len(s));
        assert(s.take(first_line_len(s) as int) =~= tx.subrange(
            start as int,
            start + first_line_len(s),
        ));
        assert(v@ == lines_of(tx)[bln as int]);
    }
    let node = SegmentNode::new(v, bln + 1, start);
    let ghost n0 = segment.nodes@;
    segment.add_b(node);
    proof {
        assert(segment.nodes@.take(n0.len() as int) =~= n0);
        assert forall|k: int| 0 <= k < segment.nodes@.len() implies (#[trigger]
        segment.nodes@[k]).line_number == segment.first_line() + k by {
            if k < n0.len() {
                assert(segment.nodes@[k] == n0[k]);
            }
        }
        assert forall|k: int| 0 <= k < segment.nodes@.len() implies {
            let nd = #[trigger] segment.nodes@[k];
            &&& 1 <= nd.line_number <= line_count(tx)
            &&& nd.value@ == lines_of(tx)[nd.line_number - 1]
            &&& nd.offset == line_start(tx, nd.line_number - 1)
        } by {
            if k < n0.len() {
                assert(segment.nodes@[k] == n0[k]);
            }
        }
    }
}

/// The buffer: document storage, viewport cache, cursor, and a cached
/// record of the cursor's line.
pub struct Buffer {
    pub data: PieceTable,
    pub lines: usize,
    pub cursor: Cursor,
    pub segment: Segment,
    pub current_line: Result<SegmentNode, SegmentError>,
    pub height: u16,
    pub width: u16,
}

impl Buffer {
    /// The document being edited.
    pub open spec fn text(self) -> Seq<char> {
        self.data.text()
    }

    /// The record cached for the cursor's line.
    pub open spec fn cur(self) -> SegmentNode {
        self.current_line->Ok_0
    }

    /// Everything the buffer maintains: a well-formed table; a window
    /// that is a true image of the document, reaches the viewport's
    /// capacity or the document's end, and holds the cursor's line; a
    /// cursor inside its line; and a line count that is the document's.
    pub open spec fn inv(self) -> bool {
        &&& self.data.wf()
        &&& self.segment.wf()
        &&& self.segment.matches_text(self.text())
        &&& self.lines == line_count(self.text())
        &&& self.height >= 2
        &&& self.segment.cap == self.height - 1
        &&& (if self.lines == 0 {
            &&& self.segment.nodes@.len() == 0
            &&& self.current_line is Err
            &&& self.cursor.x == 1
            &&& self.cursor.vertical_x == 1
            &&& self.cursor.relative_y == 1
            &&& self.cursor.absolute_y == 1
        } else {
            &&& self.segment.nodes@.len() > 0
            &&& (self.segment.nodes@.len() == self.segment.cap || self.segment.end_line()
                == self.lines + 1)
            &&& self.segment.first_line() <= self.cursor.absolute_y < self.segment.end_line()
            &&& self.cursor.relative_y as int == self.cursor.absolute_y - self.segment.first_line()
                + 1
            &&& self.current_line is Ok
            &&& self.cur().line_number == self.cursor.absolute_y
            &&& self.cur().value@ == lines_of(self.text())[self.cursor.absolute_y - 1]
            &&& self.cur().offset == line_start(self.text(), self.cursor.absolute_y - 1)
            &&& 1 <= self.cursor.x
            &&& self.cursor.x <= content_len(lines_of(self.text())[self.cursor.absolute_y - 1]) + 1
            &&& 1 <= self.cursor.vertical_x
        })
    }

    /// The cursor-bounds law: under the buffer invariant — which every
    /// motion and edit preserves — the column stays between 1 and one
    /// past the current line's content, and the document line never
    /// drops below 1.
    pub proof fn lemma_cursor_in_line(self)
        requires
            self.inv(),
        ensures
            1 <= self.cursor.x,
            self.lines > 0 ==> self.cursor.x <= content_len(
                lines_of(self.text())[self.cursor.absolute_y - 1],
            ) + 1,
            self.cursor.absolute_y >= 1,
            1 <= self.cursor.relative_y < self.height,
    {
    }

    /// A buffer opened over `text` with a viewport of `height` rows, one
    /// of which is the status row, and the cursor at the top left.
    pub fn new(text: &Vec<char>, width: u16, height: u16) -> (r: Buffer)
        requires
            text@.len() < usize::MAX,
            height >= 2,
        ensures
            r.inv(),
            r.text() == text@,
            r.lines == line_count(text@),
            r.height == height,
            r.width == width,
            r.cursor.x == 1 && r.cursor.vertical_x == 1,
            r.cursor.relative_y == 1 && r.cursor.absolute_y == 1,
    {
        let data = PieceTable::new(text);
        let lines = count_lines(text);
        let segment = data.get_lines(1, (height - 1) as usize);
        let current_line = match segment.get_line(1) {
            Ok(node) => Ok(node.duplicate()),
            Err(e) => Err(e),
        };
        let cursor = Cursor { x: 1, vertical_x: 1, relative_y: 1, absolute_y: 1 };
        let b = Buffer { data, lines, cursor, segment, current_line, height, width };
        proof {
            lemma_lines_shape(b.text());
            if lines > 0 {
                assert(b.segment.nodes@[0].line_number == 1);
                assert(b.cur().value@ == lines_of(b.text())[0]);
                assert(content_len(lines_of(b.text())[0]) >= 0);
            }
        }
        b
    }

    /// The whole document, for the persistence collaborator.
    pub fn save(&self) -> (r: Vec<char>)
        requires
            self.inv(),
        ensures
            r@ == self.text(),
    {
        self.data.get_string()
    }

    /// Refresh the cached record of the cursor's line, and derive the
    /// effective column from the remembered target column.
    fn update_cur_line(&mut self)
        requires
            old(self).data.wf(),
            old(self).segment.wf(),
            old(self).segment.matches_text(old(self).data.text()),
            old(self).segment.contains_line(old(self).cursor.absolute_y as int),
            old(self).cursor.vertical_x >= 1,
        ensures
            final(self).data == old(self).data,
            final(self).segment == old(self).segment,
            final(self).lines == old(self).lines,
            final(self).height == old(self).height,
            final(self).width == old(self).width,
            final(self).cursor.absolute_y == old(self).cursor.absolute_y,
            final(self).cursor.relative_y == old(self).cursor.relative_y,
            final(self).cursor.vertical_x == old(self).cursor.vertical_x,
            final(self).current_line is Ok,
            final(self).cur().line_number == old(self).cursor.absolute_y,
            final(self).cur().value@ == lines_of(old(self).data.text())[old(self).cursor.absolute_y - 1],
            final(self).cur().offset == line_start(old(self).data.text(), old(self).cursor.absolute_y - 1),
            final(self).cursor.x as int == eff_col(old(self).cursor.vertical_x as int, lines_of(
                old(self).data.text(),
            )[old(self).cursor.absolute_y - 1]),
    {
        let ghost tx = self.data.text();
        let node = match self.segment.get_line(self.cursor.absolute_y as usize) {
            Ok(n) => n.duplicate(),
            Err(_) => {
                proof {
                    assert(false);
                }
                SegmentNode::new(Vec::new(), 1, 0)
            },
        };
        proof {
            let ln = node.line_number as int;
            lemma_line_subrange(tx, ln - 1);
            assert(node.value@.len() <= tx.len());
        }
        let maxc = line_max_col(&node.value);
        let vx = self.cursor.vertical_x;
        let newx: u16 = if (vx as usize) <= maxc {
            vx
        } else {
            maxc as u16
        };
        self.cursor.set_x(newx);
        self.current_line = Ok(node);
    }

    /// A printable character: split the current record's text at the
    /// cursor column, reinsert the character, write the record back, and
    /// commit the same change to the piece table at the record's cached
    /// offset, before anything could rescan.
    fn edit_printable(&mut self, item: char) -> (r: Repaint)
        requires
            old(self).inv(),
            old(self).text().len() + 1 < usize::MAX,
            item != '\n' && item != '\r' && item != '\u{7f}' && item != '\u{8}',
        ensures
            final(self).inv(),
            final(self).height == old(self).height,
            final(self).width == old(self).width,
            old(self).lines == 0 ==> ({
                &&& final(self).text() == seq![item]
                &&& final(self).lines == 1
                &&& final(self).cursor.x == 2 && final(self).cursor.vertical_x == 2
                &&& final(self).cursor.absolute_y == 1 && final(self).cursor.relative_y == 1
                &&& r == Repaint::Full
            }),
            old(self).lines > 0 && old(self).cursor.x < u16::MAX ==> ({
                let pos = old(self).cur().offset + old(self).cursor.x - 1;
                &&& final(self).text() == old(self).text().take(pos) + seq![item] + old(self).text().skip(pos)
                &&& final(self).lines == old(self).lines
                &&& final(self).cursor.x == old(self).cursor.x + 1
                &&& final(self).cursor.vertical_x == final(self).cursor.x
                &&& final(self).cursor.absolute_y == old(self).cursor.absolute_y
                &&& final(self).cursor.relative_y == old(self).cursor.relative_y
                &&& r == Repaint::Line
            }),
            old(self).lines > 0 && old(self).cursor.x == u16::MAX ==> ({
                &&& final(self).text() == old(self).text()
                &&& final(self).lines == old(self).lines
                &&& final(self).cursor == old(self).cursor
                &&& r == Repaint::Position
            }),
    {
        if self.lines == 0 {
            let mut ins: Vec<char> = Vec::new();
            ins.push(item);
            assert(ins@ =~= seq![item]);
            let ghost t0 = self.text();
            proof {
                lemma_lines_shape(t0);
                assert(t0.len() == 0);
            }
            self.data.insert(&ins, 0);
            proof {
                assert(t0.take(0) =~= Seq::<char>::empty());
                assert(t0.skip(0) =~= t0);
                assert(self.data.text() =~= seq![item]);
                lemma_lines_single(self.data.text());
                assert(line_count(self.data.text()) == 1);
            }
            self.lines = 1;
            let cp = (self.height - 1) as usize;
            self.segment = self.data.get_lines(1, cp);
            let node = match self.segment.get_line(1) {
                Ok(n) => n.duplicate(),
                Err(_) => {
                    proof {
                        assert(false);
                    }
                    SegmentNode::new(Vec::new(), 1, 0)
                },
            };
            self.current_line = Ok(node);
            self.cursor.set_x(2);
            self.cursor.vertical_x = 2;
            proof {
                assert(lines_of(self.data.text())[0] == seq![item]);
                assert(content_len(seq![item]) == 1);
            }
            return Repaint::Full;
        }
        if self.cursor.x == u16::MAX {
            return Repaint::Position;
        }
        let node = match &self.current_line {
            Ok(n) => n.duplicate(),
            Err(_) => {
                proof {
                    assert(false);
                }
                SegmentNode::new(Vec::new(), 1, 0)
            },
        };
        let ghost t0 = self.text();
        let ghost n0 = self.cursor.absolute_y - 1;
        let x = self.cursor.x;
        let j = (x - 1) as usize;
        proof {
            lemma_lines_shape(t0);
            let widx = self.cursor.absolute_y - self.segment.first_line();
            assert(self.segment.nodes@[widx].line_number == self.cursor.absolute_y);
            assert(1 <= self.cursor.absolute_y <= line_count(t0));
            lemma_line_subrange(t0, n0);
            assert(j <= content_len(node.value@));
            assert(node.offset + node.value@.len() <= t0.len());
        }
        let mut v: Vec<char> = Vec::new();
        push_span(&mut v, &node.value, 0, j);
        v.push(item);
        let nlen = node.value.len();
        push_span(&mut v, &node.value, j, nlen - j);
        proof {
            assert(node.value@.subrange(0, j as int) =~= node.value@.take(j as int));
            assert(node.value@.subrange(j as int, node.value@.len() as int) =~= node.value@.skip(
                j as int,
            ));
            assert(v@ =~= node.value@.take(j as int) + seq![item] + node.value@.skip(j as int));
        }
        let pos = node.offset + j;
        let mut ins: Vec<char> = Vec::new();
        ins.push(item);
        assert(ins@ =~= seq![item]);
        let ghost segpre = self.segment;
        proof {
            lemma_matching_extent(segpre, t0);
        }
        self.data.insert(&ins, pos);
        let ghost t1 = self.data.text();
        proof {
            lemma_edit_insert_char(t0, n0, j as int, item);
            assert(t1 == t0.take(pos as int) + seq![item] + t0.skip(pos as int));
            assert(lines_of(t1) == lines_of(t0).update(n0, v@));
            assert(line_count(t1) == line_count(t0));
        }
        let ln = self.cursor.absolute_y as usize;
        self.segment.update_at(ln, &v);
        proof {
            let idx = ln - segpre.first_line();
            lemma_values_text_update(segpre.nodes@, idx, self.segment.nodes@[idx]);
            assert(segpre.nodes@.skip(0) =~= segpre.nodes@);
            assert(self.segment.nodes@ =~= segpre.nodes@.update(idx, self.segment.nodes@[idx]));
            assert(values_text(self.segment.nodes@).len() == values_text(segpre.nodes@).len() + 1);
            assert(self.segment.nodes@[0].offset + values_text(self.segment.nodes@).len()
                <= usize::MAX);
        }
        self.segment.rechain();
        proof {
            assert forall|k: int| 0 <= k < self.segment.nodes@.len() implies {
                let nd = #[trigger] self.segment.nodes@[k];
                &&& 1 <= nd.line_number <= line_count(t1)
                &&& nd.value@ == lines_of(t1)[nd.line_number - 1]
            } by {
                let idx = ln - segpre.first_line();
                assert(segpre.nodes@[k].line_number == segpre.first_line() + k);
                if k == idx {
                    assert(self.segment.nodes@[k].value@ == v@);
                } else {
                    assert(self.segment.nodes@[k].value@ == segpre.nodes@[k].value@);
                    assert(lines_of(t1)[segpre.nodes@[k].line_number - 1] == lines_of(t0)[
                        segpre.nodes@[k].line_number - 1]);
                }
            }
            assert(values_match(self.segment, t1));
            assert forall|i: int| 0 <= i < self.segment.first_line() - 1 implies lines_of(t1)[i]
                == lines_of(t0)[i] by {}
            lemma_line_start_congruent(t0, t1, self.segment.first_line() - 1);
            assert(self.segment.nodes@[0].offset == line_start(t1, self.segment.first_line() - 1));
            lemma_chained_offsets_match(self.segment, t1);
        }
        self.current_line = Ok(
            SegmentNode { value: v, line_number: node.line_number, offset: node.offset },
        );
        self.cursor.move_right();
        let nx = self.cursor.x;
        self.cursor.vertical_x = nx;
        proof {
            assert(lines_of(t1)[n0] == lines_of(t0).update(n0, lines_of(t1)[n0])[n0]);
            assert(content_len(lines_of(t1)[n0]) == content_len(lines_of(t0)[n0]) + 1);
            assert forall|i: int| 0 <= i < n0 implies lines_of(t1)[i] == lines_of(t0)[i] by {}
            lemma_line_start_congruent(t0, t1, n0);
        }
        Repaint::Line
    }

    /// Return: split the current line at the cursor column, or, at the
    /// very end of an unterminated final line, terminate it; either way
    /// the newline is committed to the piece table at the record's
    /// cached offset.
    fn edit_return(&mut self) -> (r: Repaint)
        requires
            old(self).inv(),
            old(self).text().len() + 1 < usize::MAX,
        ensures
            final(self).inv(),
            final(self).height == old(self).height,
            final(self).width == old(self).width,
            old(self).lines == 0 ==> ({
                &&& final(self).text() == seq!['\n']
                &&& final(self).lines == 1
                &&& final(self).cursor == old(self).cursor
                &&& r == Repaint::Full
            }),
            old(self).lines > 0 ==> ({
                let pos = old(self).cur().offset + old(self).cursor.x - 1;
                let lnv = lines_of(old(self).text())[old(self).cursor.absolute_y - 1];
                &&& final(self).text() == old(self).text().take(pos) + seq!['\n'] + old(self).text().skip(pos)
                &&& (old(self).cursor.x <= lnv.len() ==> ({
                    &&& final(self).lines == old(self).lines + 1
                    &&& final(self).cursor.x == 1
                    &&& final(self).cursor.vertical_x == 1
                    &&& final(self).cursor.absolute_y == (if old(self).cursor.absolute_y
                        < u16::MAX {
                        old(self).cursor.absolute_y + 1
                    } else {
                        old(self).cursor.absolute_y as int
                    })
                }))
                &&& (old(self).cursor.x > lnv.len() ==> ({
                    &&& final(self).lines == old(self).lines
                    &&& final(self).cursor == old(self).cursor
                }))
                &&& r == Repaint::Full
            }),
    {
        if self.lines == 0 {
            let mut ins: Vec<char> = Vec::new();
            ins.push('\n');
            assert(ins@ =~= seq!['\n']);
            let ghost t0 = self.text();
            proof {
                lemma_lines_shape(t0);
                assert(t0.len() == 0);
            }
            self.data.insert(&ins, 0);
            proof {
                assert(t0.take(0) =~= Seq::<char>::empty());
                assert(t0.skip(0) =~= t0);
                assert(self.data.text() =~= seq!['\n']);
                lemma_lines_single(self.data.text());
            }
            self.lines = 1;
            let cp = (self.height - 1) as usize;
            self.segment = self.data.get_lines(1, cp);
            let node = match self.segment.get_line(1) {
                Ok(n) => n.duplicate(),
                Err(_) => {
                    proof {
                        assert(false);
                    }
                    SegmentNode::new(Vec::new(), 1, 0)
                },
            };
            self.current_line = Ok(node);
            proof {
                assert(lines_of(self.data.text())[0] == seq!['\n']);
                assert(content_len(seq!['\n']) == 0);
            }
            return Repaint::Full;
        }
        let nlen = match &self.current_line {
            Ok(n) => n.value.len(),
            Err(_) => {
                proof {
                    assert(false);
                }
                0
            },
        };
        if ((self.cursor.x - 1) as usize) < nlen {
            self.split_current_line()
        } else {
            self.terminate_final_line()
        }
    }

    /// Step the cursor down onto the line below, scrolling when needed;
    /// used after a split, when the target column is 1.
    fn drop_to_next_line(&mut self)
        requires
            old(self).inv(),
            old(self).cursor.vertical_x == 1,
            old(self).cursor.x == 1,
        ensures
            final(self).inv(),
            final(self).text() == old(self).text(),
            final(self).lines == old(self).lines,
            final(self).height == old(self).height,
            final(self).width == old(self).width,
            final(self).cursor.x == 1,
            final(self).cursor.vertical_x == 1,
            final(self).cursor.absolute_y == (if old(self).lines > 0 && (old(
                self,
            ).cursor.absolute_y as int) < old(self).lines && old(self).cursor.absolute_y
                < u16::MAX {
                old(self).cursor.absolute_y + 1
            } else {
                old(self).cursor.absolute_y as int
            }),
    {
        self.motion(Motions::Down);
    }

    /// The two-record case of Return: the text before the cursor keeps
    /// the current record with a fresh terminator, the rest becomes a new
    /// record one line down, and the cursor follows it.
    #[verifier::rlimit(100)]
    fn split_current_line(&mut self) -> (r: Repaint)
        requires
            old(self).inv(),
            old(self).text().len() + 1 < usize::MAX,
            old(self).lines > 0,
            old(self).cursor.x as int <= lines_of(old(self).text())[old(self).cursor.absolute_y
                - 1].len(),
        ensures
            final(self).inv(),
            final(self).height == old(self).height,
            final(self).width == old(self).width,
            ({
                let pos = old(self).cur().offset + old(self).cursor.x - 1;
                &&& final(self).text() == old(self).text().take(pos) + seq!['\n'] + old(self).text().skip(pos)
                &&& final(self).lines == old(self).lines + 1
                &&& final(self).cursor.x == 1
                &&& final(self).cursor.vertical_x == 1
                &&& final(self).cursor.absolute_y == (if old(self).cursor.absolute_y < u16::MAX {
                    old(self).cursor.absolute_y + 1
                } else {
                    old(self).cursor.absolute_y as int
                })
                &&& r == Repaint::Full
            }),
    {
        let node = match &self.current_line {
            Ok(n) => n.duplicate(),
            Err(_) => {
                proof {
                    assert(false);
                }
                SegmentNode::new(Vec::new(), 1, 0)
            },
        };
        let ghost t0 = self.text();
        let ghost n0 = self.cursor.absolute_y - 1;
        let x = self.cursor.x;
        let j = (x - 1) as usize;
        proof {
            lemma_lines_shape(t0);
            lemma_line_count_le_len(t0);
            let widx = self.cursor.absolute_y - self.segment.first_line();
            assert(self.segment.nodes@[widx].line_number == self.cursor.absolute_y);
            assert(1 <= self.cursor.absolute_y <= line_count(t0));
            lemma_line_subrange(t0, n0);
            assert(j <= content_len(node.value@));
            assert(node.offset + node.value@.len() <= t0.len());
        }
        let pos = node.offset + j;
        let mut ins: Vec<char> = Vec::new();
        ins.push('\n');
        assert(ins@ =~= seq!['\n']);
        let ghost segpre = self.segment;
        proof {
            lemma_matching_extent(segpre, t0);
        }
        self.data.insert(&ins, pos);
        let ghost t1 = self.data.text();
        proof {
            lemma_edit_insert_newline(t0, n0, j as int);
            assert(t1 == t0.take(pos as int) + seq!['\n'] + t0.skip(pos as int));
        }
        let nlen = node.value.len();
        let ln = self.cursor.absolute_y as usize;

        let mut head: Vec<char> = Vec::new();
        push_span(&mut head, &node.value, 0, j);
        head.push('\n');
        let mut tail: Vec<char> = Vec::new();
        push_span(&mut tail, &node.value, j, nlen - j);
        proof {
            assert(node.value@.subrange(0, j as int) =~= node.value@.take(j as int));
            assert(head@ =~= node.value@.take(j as int).push('\n'));
            assert(node.value@.subrange(j as int, nlen as int) =~= node.value@.skip(j as int));
            assert(tail@ =~= node.value@.skip(j as int));
            assert(lines_of(t1) == lines_of(t0).take(n0) + seq![head@, tail@] + lines_of(
                t0,
            ).skip(n0 + 1));
            assert(line_count(t1) == line_count(t0) + 1);
            assert forall|m: int| 0 <= m < n0 implies lines_of(t1)[m] == lines_of(t0)[m] by {
                assert(lines_of(t1)[m] == lines_of(t0).take(n0)[m]);
            }
            assert(lines_of(t1)[n0] == head@);
            assert(lines_of(t1)[n0 + 1] == tail@);
            assert forall|m: int| n0 + 2 <= m < line_count(t1) implies lines_of(t1)[m]
                == lines_of(t0)[m - 1] by {
                assert(lines_of(t1)[m] == lines_of(t0).skip(n0 + 1)[m - n0 - 2]);
            }
        }
        self.segment.update_at(ln, &head);
        let ghost segmid = self.segment;
        proof {
            let widx = ln - segpre.first_line();
            lemma_values_text_update(segpre.nodes@, widx, segmid.nodes@[widx]);
            assert(segmid.nodes@ =~= segpre.nodes@.update(widx, segmid.nodes@[widx]));
            assert(segpre.nodes@.skip(0) =~= segpre.nodes@);
            assert(values_text(segmid.nodes@).len() == values_text(segpre.nodes@).len()
                - node.value@.len() + head@.len());
            assert(segmid.nodes@[0].offset + values_text(segmid.nodes@).len() + tail@.len()
                <= usize::MAX);
            assert forall|k: int| 0 <= k < segmid.nodes@.len() implies (#[trigger]
            segmid.nodes@[k]).offset + segmid.nodes@[k].value@.len() <= usize::MAX by {
                lemma_values_text_skip(segpre.nodes@, k);
                assert(segpre.nodes@[k].offset + values_text(segpre.nodes@.skip(k)).len()
                    <= t0.len());
                if k == widx {
                    assert(segmid.nodes@[k].offset == segpre.nodes@[k].offset);
                    assert(head@.len() <= node.value@.len() + 1);
                } else {
                    assert(segmid.nodes@[k] == segpre.nodes@[k]);
                }
            }
            assert(segmid.nodes@.len() > 0 ==> segmid.nodes@.last().line_number < usize::MAX);
        }
        let ln2 = ln + 1;
        self.segment.insert_at(ln2, &tail);
        proof {
            let widx = ln - segpre.first_line();
            let idx2 = widx + 1;
            assert(ln2 - segmid.first_line() == idx2);
            assert forall|k: int| 0 <= k < self.segment.nodes@.len() implies {
                let nd = #[trigger] self.segment.nodes@[k];
                &&& 1 <= nd.line_number <= line_count(t1)
                &&& nd.value@ == lines_of(t1)[nd.line_number - 1]
            } by {
                let nd = self.segment.nodes@[k];
                if k < idx2 {
                    assert(nd.value@ == segmid.nodes@[k].value@);
                    assert(nd.line_number == segmid.nodes@[k].line_number);
                    if k == widx {
                        assert(nd.value@ == head@);
                    } else {
                        assert(segmid.nodes@[k] == segpre.nodes@[k]);
                        assert(segpre.nodes@[k].line_number == segpre.first_line() + k);
                        assert(nd.line_number - 1 < n0);
                    }
                } else if k == idx2 {
                    assert(nd.value@ == tail@);
                    assert(nd.line_number == ln2);
                } else {
                    assert(nd.value@ == segmid.nodes@[k - 1].value@);
                    assert(nd.line_number == segmid.nodes@[k - 1].line_number + 1);
                    assert(segmid.nodes@[k - 1] == segpre.nodes@[k - 1]);
                    assert(segpre.nodes@[k - 1].line_number == segpre.first_line() + k - 1);
                    assert(nd.line_number - 1 >= n0 + 2);
                    assert(lines_of(t1)[nd.line_number - 1] == lines_of(t0)[nd.line_number
                        - 2]);
                }
            }
            assert(values_match(self.segment, t1));
            assert forall|i: int| 0 <= i < self.segment.first_line() - 1 implies lines_of(t1)[i]
                == lines_of(t0)[i] by {}
            lemma_line_start_congruent(t0, t1, self.segment.first_line() - 1);
            assert(self.segment.nodes@[0].offset == line_start(
                t1,
                self.segment.first_line() - 1,
            ));
            lemma_chained_offsets_match(self.segment, t1);
        }
        self.lines = self.lines + 1;
        self.current_line = Ok(
            SegmentNode { value: head, line_number: node.line_number, offset: node.offset },
        );
        self.cursor.set_x(1);
        self.cursor.vertical_x = 1;
        proof {
            assert forall|i: int| 0 <= i < n0 implies lines_of(t1)[i] == lines_of(t0)[i] by {}
            lemma_line_start_congruent(t0, t1, n0);
            assert(self.inv());
        }
        self.drop_to_next_line();
        return Repaint::Full;
    }

    /// The one-record case of Return: at the very end of an unterminated
    /// final line the newline merely terminates that line.
    #[verifier::rlimit(100)]
    fn terminate_final_line(&mut self) -> (r: Repaint)
        requires
            old(self).inv(),
            old(self).text().len() + 1 < usize::MAX,
            old(self).lines > 0,
            old(self).cursor.x as int > lines_of(old(self).text())[old(self).cursor.absolute_y
                - 1].len(),
        ensures
            final(self).inv(),
            final(self).height == old(self).height,
            final(self).width == old(self).width,
            ({
                let pos = old(self).cur().offset + old(self).cursor.x - 1;
                &&& final(self).text() == old(self).text().take(pos) + seq!['\n'] + old(self).text().skip(pos)
                &&& final(self).lines == old(self).lines
                &&& final(self).cursor == old(self).cursor
                &&& r == Repaint::Full
            }),
    {
        let node = match &self.current_line {
            Ok(n) => n.duplicate(),
            Err(_) => {
                proof {
                    assert(false);
                }
                SegmentNode::new(Vec::new(), 1, 0)
            },
        };
        let ghost t0 = self.text();
        let ghost n0 = self.cursor.absolute_y - 1;
        let x = self.cursor.x;
        let j = (x - 1) as usize;
        proof {
            lemma_lines_shape(t0);
            lemma_line_count_le_len(t0);
            let widx = self.cursor.absolute_y - self.segment.first_line();
            assert(self.segment.nodes@[widx].line_number == self.cursor.absolute_y);
            assert(1 <= self.cursor.absolute_y <= line_count(t0));
            lemma_line_subrange(t0, n0);
            assert(j <= content_len(node.value@));
            assert(node.offset + node.value@.len() <= t0.len());
        }
        let pos = node.offset + j;
        let mut ins: Vec<char> = Vec::new();
        ins.push('\n');
        assert(ins@ =~= seq!['\n']);
        let ghost segpre = self.segment;
        proof {
            lemma_matching_extent(segpre, t0);
        }
        self.data.insert(&ins, pos);
        let ghost t1 = self.data.text();
        proof {
            lemma_edit_insert_newline(t0, n0, j as int);
            assert(t1 == t0.take(pos as int) + seq!['\n'] + t0.skip(pos as int));
        }
        let nlen = node.value.len();
        let ln = self.cursor.absolute_y as usize;
        let mut head: Vec<char> = Vec::new();
        push_span(&mut head, &node.value, 0, nlen);
        head.push('\n');
        proof {
            assert(node.value@.subrange(0, nlen as int) =~= node.value@);
            assert(head@ =~= node.value@.push('\n'));
            assert(lines_of(t1) == lines_of(t0).update(n0, head@));
            assert(line_count(t1) == line_count(t0));
        }
        self.segment.update_at(ln, &head);
        proof {
            let widx = ln - segpre.first_line();
            lemma_values_text_update(segpre.nodes@, widx, self.segment.nodes@[widx]);
            assert(self.segment.nodes@ =~= segpre.nodes@.update(
                widx,
                self.segment.nodes@[widx],
            ));
            assert(segpre.nodes@.skip(0) =~= segpre.nodes@);
            assert(values_text(self.segment.nodes@).len() == values_text(segpre.nodes@).len()
                + 1);
            assert(self.segment.nodes@[0].offset + values_text(self.segment.nodes@).len()
                <= usize::MAX);
        }
        self.segment.rechain();
        proof {
            let widx = ln - segpre.first_line();
            assert forall|k: int| 0 <= k < self.segment.nodes@.len() implies {
                let nd = #[trigger] self.segment.nodes@[k];
                &&& 1 <= nd.line_number <= line_count(t1)
                &&& nd.value@ == lines_of(t1)[nd.line_number - 1]
            } by {
                assert(segpre.nodes@[k].line_number == segpre.first_line() + k);
                if k == widx {
                    assert(self.segment.nodes@[k].value@ == head@);
                } else {
                    assert(self.segment.nodes@[k].value@ == segpre.nodes@[k].value@);
                    assert(lines_of(t1)[segpre.nodes@[k].line_number - 1] == lines_of(t0)[
                        segpre.nodes@[k].line_number - 1]);
                }
            }
            assert(values_match(self.segment, t1));
            assert forall|i: int| 0 <= i < self.segment.first_line() - 1 implies lines_of(t1)[i]
                == lines_of(t0)[i] by {}
            lemma_line_start_congruent(t0, t1, self.segment.first_line() - 1);
            assert(self.segment.nodes@[0].offset == line_start(
                t1,
                self.segment.first_line() - 1,
            ));
            lemma_chained_offsets_match(self.segment, t1);
        }
        self.current_line = Ok(
            SegmentNode { value: head, line_number: node.line_number, offset: node.offset },
        );
        proof {
            assert forall|i: int| 0 <= i < n0 implies lines_of(t1)[i] == lines_of(t0)[i] by {}
            lemma_line_start_congruent(t0, t1, n0);
            assert(content_len(head@) == node.value@.len());
        }
        return Repaint::Full;
    }

    /// Merge the current line onto the end of the previous one: both
    /// lines are fetched from the table, the deleted terminator is
    /// committed to it, the window is rebuilt over the renumbered lines
    /// (shifted back one line when the previous line was not cached),
    /// and the cursor moves up to the merge point.
    #[verifier::rlimit(100)]
    fn merge_previous(&mut self) -> (r: Repaint)
        requires
            old(self).inv(),
            old(self).lines > 0,
            old(self).cursor.x <= 1,
            old(self).cursor.absolute_y > 1,
        ensures
            final(self).inv(),
            final(self).height == old(self).height,
            final(self).width == old(self).width,
            ({
                let s = old(self).cur().offset;
                let prev = lines_of(old(self).text())[old(self).cursor.absolute_y - 2];
                &&& final(self).text() == old(self).text().take(s - 1) + old(self).text().skip(
                    s as int,
                )
                &&& final(self).lines == old(self).lines - 1
                &&& final(self).cursor.absolute_y == old(self).cursor.absolute_y - 1
                &&& final(self).cursor.relative_y == (if old(self).cursor.relative_y > 1 {
                    old(self).cursor.relative_y - 1
                } else {
                    1
                })
                &&& final(self).cursor.x as int == (if prev.len() - 1 < 1 {
                    1
                } else if prev.len() - 1 > u16::MAX {
                    u16::MAX as int
                } else {
                    prev.len() - 1
                })
                &&& final(self).cursor.vertical_x == final(self).cursor.x
                &&& r == Repaint::Full
            }),
    {
        let node = match &self.current_line {
            Ok(n) => n.duplicate(),
            Err(_) => {
                proof {
                    assert(false);
                }
                SegmentNode::new(Vec::new(), 1, 0)
            },
        };
        let ghost t0 = self.text();
        let ghost n0 = self.cursor.absolute_y - 1;
        let abs = self.cursor.absolute_y as usize;
        proof {
            lemma_lines_shape(t0);
            lemma_line_count_le_len(t0);
            let widx = self.cursor.absolute_y - self.segment.first_line();
            assert(self.segment.nodes@[widx].line_number == self.cursor.absolute_y);
            assert(1 <= self.cursor.absolute_y <= line_count(t0));
        }
        let two = self.data.get_lines(abs - 1, abs);
        proof {
            assert(two.nodes@.len() == 2);
            assert(two.nodes@[0].line_number == abs - 1);
        }
        let prev = two.nodes[0].duplicate();
        proof {
            assert(prev.value@ == lines_of(t0)[n0 - 1]);
            assert(prev.value@.last() == '\n');
            assert(prev.value@.len() >= 1);
            assert(prev.offset == line_start(t0, n0 - 1));
            assert(node.offset == line_start(t0, n0 - 1) + lines_of(t0)[n0 - 1].len());
            assert(node.offset >= 1);
            lemma_line_subrange(t0, n0);
            assert(node.offset < t0.len());
        }
        let plen = prev.value.len();
        let mut merged: Vec<char> = Vec::new();
        push_span(&mut merged, &prev.value, 0, plen - 1);
        let clen = node.value.len();
        push_span(&mut merged, &node.value, 0, clen);
        proof {
            assert(prev.value@.subrange(0, plen - 1) =~= prev.value@.drop_last());
            assert(node.value@.subrange(0, clen as int) =~= node.value@);
            assert(merged@ =~= prev.value@.drop_last() + node.value@);
        }
        let dpos = node.offset - 1;
        self.data.delete_char(dpos);
        let ghost t1 = self.data.text();
        proof {
            crate::text::lemma_edit_merge_lines(t0, n0 - 1);
            assert(t1 == t0.take(dpos as int) + t0.skip(dpos + 1));
            assert(lines_of(t1) == lines_of(t0).take(n0 - 1).push(merged@) + lines_of(t0).skip(
                n0 + 1,
            ));
            assert(line_count(t1) == line_count(t0) - 1);
            assert(lines_of(t1)[n0 - 1] == merged@);
        }
        let first = self.segment.nodes[0].line_number;
        let new_first = if first < abs {
            first
        } else {
            abs - 1
        };
        let cp = (self.height - 1) as usize;
        proof {
            assert(new_first <= abs - 1);
            assert(abs - 1 <= new_first + cp - 1);
            assert(abs - 1 <= line_count(t1));
        }
        self.segment = self.data.get_lines(new_first, new_first + cp - 1);
        proof {
            assert(self.segment.nodes@.len() > 0);
            assert(self.segment.first_line() == new_first);
            assert(self.segment.contains_line(abs - 1));
        }
        let node2 = match self.segment.get_line(abs - 1) {
            Ok(n) => n.duplicate(),
            Err(_) => {
                proof {
                    assert(false);
                }
                SegmentNode::new(Vec::new(), 1, 0)
            },
        };
        self.current_line = Ok(node2);
        self.lines = self.lines - 1;
        self.cursor.move_up();
        let newx: u16 = if plen - 1 < 1 {
            1
        } else if plen - 1 > u16::MAX as usize {
            u16::MAX
        } else {
            (plen - 1) as u16
        };
        self.cursor.set_x(newx);
        self.cursor.vertical_x = newx;
        proof {
            assert(content_len(merged@) >= plen - 1);
        }
        Repaint::Full
    }

    /// Backspace on the only character of the final, unterminated line:
    /// the character leaves the table and the emptied line's record
    /// leaves the window; the cursor moves up to the end of the previous
    /// line, or back to the top left when the document becomes empty.
    #[verifier::rlimit(100)]
    fn delete_final_line(&mut self) -> (r: Repaint)
        requires
            old(self).inv(),
            old(self).lines > 0,
            old(self).cursor.x > 1,
            lines_of(old(self).text())[old(self).cursor.absolute_y - 1].len() == 1,
        ensures
            final(self).inv(),
            final(self).height == old(self).height,
            final(self).width == old(self).width,
            ({
                let pos = old(self).cur().offset + old(self).cursor.x - 2;
                &&& final(self).text() == old(self).text().take(pos) + old(self).text().skip(
                    pos + 1,
                )
                &&& final(self).lines == old(self).lines - 1
                &&& (old(self).lines == 1 ==> (final(self).cursor.x == 1 && final(self).cursor.vertical_x == 1 && final(self).cursor.relative_y == 1 && final(self).cursor.absolute_y == 1))
                &&& (old(self).lines > 1 ==> ({
                    let prev = lines_of(old(self).text())[old(self).cursor.absolute_y - 2];
                    &&& final(self).cursor.absolute_y == old(self).cursor.absolute_y - 1
                    &&& final(self).cursor.relative_y == (if old(self).cursor.relative_y > 1 {
                        old(self).cursor.relative_y - 1
                    } else {
                        1
                    })
                    &&& final(self).cursor.x as int == (if prev.len() > u16::MAX {
                        u16::MAX as int
                    } else {
                        prev.len() as int
                    })
                    &&& final(self).cursor.vertical_x == final(self).cursor.x
                }))
                &&& r == Repaint::Full
            }),
    {
        let node = match &self.current_line {
            Ok(n) => n.duplicate(),
            Err(_) => {
                proof {
                    assert(false);
                }
                SegmentNode::new(Vec::new(), 1, 0)
            },
        };
        let ghost t0 = self.text();
        let ghost n0 = self.cursor.absolute_y - 1;
        let abs = self.cursor.absolute_y as usize;
        proof {
            lemma_lines_shape(t0);
            lemma_line_count_le_len(t0);
            let widx = self.cursor.absolute_y - self.segment.first_line();
            assert(self.segment.nodes@[widx].line_number == self.cursor.absolute_y);
            assert(1 <= self.cursor.absolute_y <= line_count(t0));
            assert(node.value@.len() == 1);
            // a single character under a cursor past column 1 carries no
            // terminator, so this is the document's final line
            assert(node.value@.last() != '\n');
            assert(n0 == line_count(t0) - 1);
            assert(self.cursor.x == 2);
            lemma_line_subrange(t0, n0);
        }
        let dpos = node.offset;
        self.data.delete_char(dpos);
        let ghost t1 = self.data.text();
        proof {
            crate::text::lemma_edit_delete_char(t0, n0, 0);
            assert(t1 == t0.take(dpos as int) + t0.skip(dpos + 1));
            assert(lines_of(t1) == lines_of(t0).take(n0));
            assert(line_count(t1) == n0);
        }
        let cp = (self.height - 1) as usize;
        if self.lines == 1 {
            proof {
                assert(line_count(t1) == 0);
                lemma_lines_shape(t1);
            }
            self.segment = self.data.get_lines(1, cp);
            self.current_line = Err(SegmentError::LineNotFound);
            self.lines = 0;
            self.cursor.set_x(1);
            self.cursor.vertical_x = 1;
            self.cursor.relative_y = 1;
            self.cursor.absolute_y = 1;
            return Repaint::Full;
        }
        let first = self.segment.nodes[0].line_number;
        let new_first = if first < abs {
            first
        } else {
            abs - 1
        };
        proof {
            assert(new_first <= abs - 1);
            assert(abs - 1 <= new_first + cp - 1);
            assert(abs - 1 <= line_count(t1));
            assert forall|i: int| 0 <= i < n0 implies lines_of(t1)[i] == lines_of(t0)[i] by {
                assert(lines_of(t1)[i] == lines_of(t0).take(n0)[i]);
            }
        }
        self.segment = self.data.get_lines(new_first, new_first + cp - 1);
        proof {
            assert(self.segment.nodes@.len() > 0);
            assert(self.segment.first_line() == new_first);
            assert(self.segment.contains_line(abs - 1));
        }
        let node2 = match self.segment.get_line(abs - 1) {
            Ok(n) => n.duplicate(),
            Err(_) => {
                proof {
                    assert(false);
                }
                SegmentNode::new(Vec::new(), 1, 0)
            },
        };
        let p2len = node2.value.len();
        proof {
            assert(node2.value@ == lines_of(t1)[n0 - 1]);
            assert(lines_of(t1)[n0 - 1] == lines_of(t0)[n0 - 1]);
            assert(lines_of(t0)[n0 - 1].last() == '\n');
            assert(content_len(node2.value@) == p2len - 1);
            assert(p2len >= 1);
        }
        self.current_line = Ok(node2);
        self.lines = self.lines - 1;
        self.cursor.move_up();
        let newx: u16 = if p2len > u16::MAX as usize {
            u16::MAX
        } else {
            p2len as u16
        };
        self.cursor.set_x(newx);
        self.cursor.vertical_x = newx;
        Repaint::Full
    }

    /// Backspace. At the very start of the document nothing happens. At
    /// column 1 of any later line the current line is merged onto the
    /// end of the previous one, scrolling first when that line is not
    /// cached; otherwise the character left of the cursor leaves the
    /// record and the table, removing the final line when its only
    /// character goes.
    #[verifier::rlimit(50)]
    fn edit_backspace(&mut self) -> (r: Repaint)
        requires
            old(self).inv(),
        ensures
            final(self).inv(),
            final(self).height == old(self).height,
            final(self).width == old(self).width,
            (old(self).lines == 0 || (old(self).cursor.x <= 1 && old(self).cursor.absolute_y <= 1))
                ==> ({
                &&& final(self).text() == old(self).text()
                &&& final(self).lines == old(self).lines
                &&& final(self).cursor == old(self).cursor
                &&& r == Repaint::Position
            }),
            (old(self).lines > 0 && old(self).cursor.x <= 1 && old(self).cursor.absolute_y > 1)
                ==> ({
                let s = old(self).cur().offset;
                let prev = lines_of(old(self).text())[old(self).cursor.absolute_y - 2];
                &&& final(self).text() == old(self).text().take(s - 1) + old(self).text().skip(
                    s as int,
                )
                &&& final(self).lines == old(self).lines - 1
                &&& final(self).cursor.absolute_y == old(self).cursor.absolute_y - 1
                &&& final(self).cursor.relative_y == (if old(self).cursor.relative_y > 1 {
                    old(self).cursor.relative_y - 1
                } else {
                    1
                })
                &&& final(self).cursor.x as int == (if prev.len() - 1 < 1 {
                    1
                } else if prev.len() - 1 > u16::MAX {
                    u16::MAX as int
                } else {
                    prev.len() - 1
                })
                &&& final(self).cursor.vertical_x == final(self).cursor.x
                &&& r == Repaint::Full
            }),
            (old(self).lines > 0 && old(self).cursor.x > 1) ==> ({
                let lnv = lines_of(old(self).text())[old(self).cursor.absolute_y - 1];
                let pos = old(self).cur().offset + old(self).cursor.x - 2;
                &&& final(self).text() == old(self).text().take(pos) + old(self).text().skip(
                    pos + 1,
                )
                &&& (lnv.len() == 1 ==> ({
                    &&& final(self).lines == old(self).lines - 1
                    &&& (old(self).lines == 1 ==> (final(self).cursor.x == 1 && final(self).cursor.absolute_y == 1))
                    &&& (old(self).lines > 1 ==> ({
                        let prev = lines_of(old(self).text())[old(self).cursor.absolute_y - 2];
                        &&& final(self).cursor.absolute_y == old(self).cursor.absolute_y - 1
                        &&& final(self).cursor.x as int == (if prev.len() > u16::MAX {
                            u16::MAX as int
                        } else {
                            prev.len() as int
                        })
                    }))
                    &&& r == Repaint::Full
                }))
                &&& (lnv.len() != 1 ==> ({
                    &&& final(self).lines == old(self).lines
                    &&& final(self).cursor.x == old(self).cursor.x - 1
                    &&& final(self).cursor.vertical_x == final(self).cursor.x
                    &&& final(self).cursor.absolute_y == old(self).cursor.absolute_y
                    &&& final(self).cursor.relative_y == old(self).cursor.relative_y
                    &&& r == Repaint::Line
                }))
            }),
    {
        if self.lines == 0 {
            return Repaint::Position;
        }
        let x = self.cursor.x;
        if x <= 1 {
            if self.cursor.absolute_y <= 1 {
                return Repaint::Position;
            }
            return self.merge_previous();
        }
        let node = match &self.current_line {
            Ok(n) => n.duplicate(),
            Err(_) => {
                proof {
                    assert(false);
                }
                SegmentNode::new(Vec::new(), 1, 0)
            },
        };
        let ghost t0 = self.text();
        let ghost n0 = self.cursor.absolute_y - 1;
        proof {
            lemma_lines_shape(t0);
            lemma_line_count_le_len(t0);
            let widx = self.cursor.absolute_y - self.segment.first_line();
            assert(self.segment.nodes@[widx].line_number == self.cursor.absolute_y);
            assert(1 <= self.cursor.absolute_y <= line_count(t0));
            lemma_line_subrange(t0, n0);
            assert(node.offset + node.value@.len() <= t0.len());
        }
        let ghost segpre = self.segment;
        proof {
            lemma_matching_extent(segpre, t0);
            assert(segpre.nodes@.skip(0) =~= segpre.nodes@);
        }
        let nlen = node.value.len();
        if nlen == 1 {
            proof {
                assert(lines_of(t0)[n0].len() == 1);
            }
            return self.delete_final_line();
        }
        let j = (x - 2) as usize;
        proof {
            assert(j < content_len(node.value@));
        }
        let mut v: Vec<char> = Vec::new();
        push_span(&mut v, &node.value, 0, j);
        push_span(&mut v, &node.value, j + 1, nlen - j - 1);
        proof {
            assert(node.value@.subrange(0, j as int) =~= node.value@.take(j as int));
            assert(node.value@.subrange(j + 1, nlen as int) =~= node.value@.skip(j + 1));
            assert(v@ =~= node.value@.take(j as int) + node.value@.skip(j + 1));
            assert(v@.len() == nlen - 1 >= 1);
        }
        let pos = node.offset + j;
        self.data.delete_char(pos);
        let ghost t1 = self.data.text();
        proof {
            crate::text::lemma_edit_delete_char(t0, n0, j as int);
            assert(t1 == t0.take(pos as int) + t0.skip(pos + 1));
            assert(lines_of(t1) == lines_of(t0).update(n0, v@));
            assert(line_count(t1) == line_count(t0));
        }
        let ln = self.cursor.absolute_y as usize;
        self.segment.update_at(ln, &v);
        proof {
            let widx = ln - segpre.first_line();
            lemma_values_text_update(segpre.nodes@, widx, self.segment.nodes@[widx]);
            assert(self.segment.nodes@ =~= segpre.nodes@.update(widx, self.segment.nodes@[widx]));
            assert(values_text(self.segment.nodes@).len() == values_text(segpre.nodes@).len() - 1);
            assert(self.segment.nodes@[0].offset + values_text(self.segment.nodes@).len()
                <= usize::MAX);
        }
        self.segment.rechain();
        proof {
            let widx = ln - segpre.first_line();
            assert forall|k: int| 0 <= k < self.segment.nodes@.len() implies {
                let nd = #[trigger] self.segment.nodes@[k];
                &&& 1 <= nd.line_number <= line_count(t1)
                &&& nd.value@ == lines_of(t1)[nd.line_number - 1]
            } by {
                assert(segpre.nodes@[k].line_number == segpre.first_line() + k);
                if k == widx {
                    assert(self.segment.nodes@[k].value@ == v@);
                } else {
                    assert(self.segment.nodes@[k].value@ == segpre.nodes@[k].value@);
                    assert(lines_of(t1)[segpre.nodes@[k].line_number - 1] == lines_of(t0)[
                        segpre.nodes@[k].line_number - 1]);
                }
            }
            assert(values_match(self.segment, t1));
            assert forall|i: int| 0 <= i < self.segment.first_line() - 1 implies lines_of(t1)[i]
                == lines_of(t0)[i] by {}
            lemma_line_start_congruent(t0, t1, self.segment.first_line() - 1);
            assert(self.segment.nodes@[0].offset == line_start(t1, self.segment.first_line() - 1));
            lemma_chained_offsets_match(self.segment, t1);
        }
        self.current_line = Ok(
            SegmentNode { value: v, line_number: node.line_number, offset: node.offset },
        );
        self.cursor.move_left();
        let nx = self.cursor.x;
        self.cursor.vertical_x = nx;
        proof {
            assert forall|i: int| 0 <= i < n0 implies lines_of(t1)[i] == lines_of(t0)[i] by {}
            lemma_line_start_congruent(t0, t1, n0);
            assert(content_len(lines_of(t1)[n0]) == content_len(lines_of(t0)[n0]) - 1);
        }
        Repaint::Line
    }

    /// One keystroke of editing, in three input classes: Backspace
    /// deletes or merges, Return splits the line, and any other character
    /// is inserted at the cursor. Every change is committed to the piece
    /// table at the current record's cached offset before anything could
    /// rescan the document.
    pub fn edit(&mut self, item: char) -> (r: Repaint)
        requires
            old(self).inv(),
            old(self).text().len() + 1 < usize::MAX,
        ensures
            final(self).inv(),
            final(self).height == old(self).height,
            final(self).width == old(self).width,
            is_backspace(item) && (old(self).lines == 0 || (old(self).cursor.x <= 1 && old(self).cursor.absolute_y <= 1)) ==> ({
                &&& final(self).text() == old(self).text()
                &&& final(self).lines == old(self).lines
                &&& final(self).cursor == old(self).cursor
                &&& r == Repaint::Position
            }),
            is_backspace(item) && (old(self).lines > 0 && old(self).cursor.x <= 1 && old(self).cursor.absolute_y > 1) ==> ({
                let s = old(self).cur().offset;
                let prev = lines_of(old(self).text())[old(self).cursor.absolute_y - 2];
                &&& final(self).text() == old(self).text().take(s - 1) + old(self).text().skip(
                    s as int,
                )
                &&& final(self).lines == old(self).lines - 1
                &&& final(self).cursor.absolute_y == old(self).cursor.absolute_y - 1
                &&& final(self).cursor.x as int == (if prev.len() - 1 < 1 {
                    1
                } else if prev.len() - 1 > u16::MAX {
                    u16::MAX as int
                } else {
                    prev.len() - 1
                })
                &&& r == Repaint::Full
            }),
            is_backspace(item) && old(self).lines > 0 && old(self).cursor.x > 1 ==> ({
                let lnv = lines_of(old(self).text())[old(self).cursor.absolute_y - 1];
                let pos = old(self).cur().offset + old(self).cursor.x - 2;
                &&& final(self).text() == old(self).text().take(pos) + old(self).text().skip(
                    pos + 1,
                )
                &&& (lnv.len() == 1 ==> ({
                    &&& final(self).lines == old(self).lines - 1
                    &&& (old(self).lines == 1 ==> (final(self).cursor.x == 1 && final(self).cursor.absolute_y == 1))
                    &&& (old(self).lines > 1 ==> ({
                        let prev = lines_of(old(self).text())[old(self).cursor.absolute_y - 2];
                        &&& final(self).cursor.absolute_y == old(self).cursor.absolute_y - 1
                        &&& final(self).cursor.x as int == (if prev.len() > u16::MAX {
                            u16::MAX as int
                        } else {
                            prev.len() as int
                        })
                    }))
                    &&& r == Repaint::Full
                }))
                &&& (lnv.len() != 1 ==> ({
                    &&& final(self).lines == old(self).lines
                    &&& final(self).cursor.x == old(self).cursor.x - 1
                    &&& final(self).cursor.absolute_y == old(self).cursor.absolute_y
                    &&& r == Repaint::Line
                }))
            }),
            is_return(item) && old(self).lines == 0 ==> ({
                &&& final(self).text() == seq!['\n']
                &&& final(self).lines == 1
                &&& final(self).cursor == old(self).cursor
                &&& r == Repaint::Full
            }),
            is_return(item) && old(self).lines > 0 ==> ({
                let pos = old(self).cur().offset + old(self).cursor.x - 1;
                let lnv = lines_of(old(self).text())[old(self).cursor.absolute_y - 1];
                &&& final(self).text() == old(self).text().take(pos) + seq!['\n'] + old(self).text().skip(pos)
                &&& (old(self).cursor.x <= lnv.len() ==> ({
                    &&& final(self).lines == old(self).lines + 1
                    &&& final(self).cursor.x == 1
                    &&& final(self).cursor.absolute_y == (if old(self).cursor.absolute_y
                        < u16::MAX {
                        old(self).cursor.absolute_y + 1
                    } else {
                        old(self).cursor.absolute_y as int
                    })
                }))
                &&& (old(self).cursor.x > lnv.len() ==> ({
                    &&& final(self).lines == old(self).lines
                    &&& final(self).cursor == old(self).cursor
                }))
                &&& r == Repaint::Full
            }),
            !is_backspace(item) && !is_return(item) && old(self).lines == 0 ==> ({
                &&& final(self).text() == seq![item]
                &&& final(self).lines == 1
                &&& final(self).cursor.x == 2
                &&& final(self).cursor.absolute_y == 1
                &&& r == Repaint::Full
            }),
            !is_backspace(item) && !is_return(item) && old(self).lines > 0 && old(self).cursor.x
                < u16::MAX ==> ({
                let pos = old(self).cur().offset + old(self).cursor.x - 1;
                &&& final(self).text() == old(self).text().take(pos) + seq![item] + old(self).text().skip(pos)
                &&& final(self).lines == old(self).lines
                &&& final(self).cursor.x == old(self).cursor.x + 1
                &&& final(self).cursor.absolute_y == old(self).cursor.absolute_y
                &&& r == Repaint::Line
            }),
    {
        if item == '\u{7f}' || item == '\u{8}' {
            self.edit_backspace()
        } else if item == '\r' || item == '\n' {
            self.edit_return()
        } else {
            self.edit_printable(item)
        }
    }

    /// Apply one motion. Vertical motion scrolls the window first when the
    /// cursor sits on its edge, and clamps at the document's ends; the
    /// sticky target column is read on vertical motion and written on
    /// deliberate horizontal motion. The result says whether the whole
    /// viewport or only the cursor indicator must be repainted.
    pub fn motion(&mut self, motion: Motions) -> (r: Repaint)
        requires
            old(self).inv(),
        ensures
            final(self).inv(),
            final(self).text() == old(self).text(),
            final(self).lines == old(self).lines,
            final(self).height == old(self).height,
            final(self).width == old(self).width,
            motion == Motions::Left ==> ({
                &&& final(self).cursor.absolute_y == old(self).cursor.absolute_y
                &&& final(self).cursor.relative_y == old(self).cursor.relative_y
                &&& final(self).cursor.x == (if old(self).cursor.x > 1 {
                    old(self).cursor.x - 1
                } else {
                    1
                })
                &&& final(self).cursor.vertical_x == final(self).cursor.x
                &&& r == Repaint::Position
            }),
            motion == Motions::Right ==> ({
                let can = old(self).lines > 0 && old(self).cursor.x < u16::MAX
                    && (old(self).cursor.x as int) < content_len(lines_of(old(self).text())[old(self).cursor.absolute_y - 1]) + 1;
                &&& final(self).cursor.absolute_y == old(self).cursor.absolute_y
                &&& final(self).cursor.relative_y == old(self).cursor.relative_y
                &&& final(self).cursor.x == (if can {
                    old(self).cursor.x + 1
                } else {
                    old(self).cursor.x as int
                })
                &&& final(self).cursor.vertical_x == final(self).cursor.x
                &&& r == Repaint::Position
            }),
            motion == Motions::Down ==> ({
                let can = old(self).lines > 0 && (old(self).cursor.absolute_y as int) < old(self).lines && old(self).cursor.absolute_y < u16::MAX;
                &&& final(self).cursor.absolute_y == (if can {
                    old(self).cursor.absolute_y + 1
                } else {
                    old(self).cursor.absolute_y as int
                })
                &&& final(self).cursor.vertical_x == old(self).cursor.vertical_x
                &&& (can ==> final(self).cursor.x as int == eff_col(
                    old(self).cursor.vertical_x as int,
                    lines_of(old(self).text())[old(self).cursor.absolute_y as int],
                ))
                &&& (!can ==> final(self).cursor.x == old(self).cursor.x)
                &&& final(self).cursor.relative_y == (if can && old(self).cursor.relative_y + 1
                    < old(self).height {
                    old(self).cursor.relative_y + 1
                } else {
                    old(self).cursor.relative_y as int
                })
                &&& r == (if can && old(self).cursor.relative_y + 1 >= old(self).height {
                    Repaint::Full
                } else {
                    Repaint::Position
                })
            }),
            motion == Motions::Up ==> ({
                let can = old(self).lines > 0 && old(self).cursor.absolute_y > 1;
                &&& final(self).cursor.absolute_y == (if can {
                    old(self).cursor.absolute_y - 1
                } else {
                    old(self).cursor.absolute_y as int
                })
                &&& final(self).cursor.vertical_x == old(self).cursor.vertical_x
                &&& (can ==> final(self).cursor.x as int == eff_col(
                    old(self).cursor.vertical_x as int,
                    lines_of(old(self).text())[old(self).cursor.absolute_y - 2],
                ))
                &&& (!can ==> final(self).cursor.x == old(self).cursor.x)
                &&& final(self).cursor.relative_y == (if can && old(self).cursor.relative_y > 1 {
                    old(self).cursor.relative_y - 1
                } else {
                    old(self).cursor.relative_y as int
                })
                &&& r == (if can && old(self).cursor.relative_y <= 1 {
                    Repaint::Full
                } else {
                    Repaint::Position
                })
            }),
    {
        match motion {
            Motions::Down => {
                if self.lines == 0 || self.cursor.absolute_y as usize >= self.lines
                    || self.cursor.absolute_y == u16::MAX {
                    return Repaint::Position;
                }
                let mut scrolled = false;
                if self.cursor.relative_y + 1 >= self.height {
                    proof {
                        assert(self.cursor.absolute_y as int == self.segment.end_line() - 1);
                        lemma_line_count_le_len(self.text());
                    }
                    self.data.next_line(&mut self.segment);
                    scrolled = true;
                }
                self.cursor.move_down(self.height);
                self.update_cur_line();
                if scrolled {
                    Repaint::Full
                } else {
                    Repaint::Position
                }
            },
            Motions::Up => {
                if self.lines == 0 || self.cursor.absolute_y <= 1 {
                    return Repaint::Position;
                }
                let mut scrolled = false;
                if self.cursor.relative_y <= 1 {
                    proof {
                        assert(self.cursor.absolute_y as int == self.segment.first_line());
                    }
                    self.data.prev_line(&mut self.segment);
                    refill_tail(&self.data, &mut self.segment);
                    scrolled = true;
                }
                self.cursor.move_up();
                self.update_cur_line();
                if scrolled {
                    Repaint::Full
                } else {
                    Repaint::Position
                }
            },
            Motions::Left => {
                self.cursor.move_left();
                let x = self.cursor.x;
                self.cursor.vertical_x = x;
                Repaint::Position
            },
            Motions::Right => {
                let mut can = false;
                match &self.current_line {
                    Ok(node) => {
                        proof {
                            assert(self.lines != 0);
                            assert(*node == self.cur());
                            let idx = self.cursor.absolute_y - self.segment.first_line();
                            assert(self.segment.nodes@[idx].line_number == self.cursor.absolute_y);
                            let ln = node.line_number as int;
                            assert(1 <= ln <= line_count(self.data.text()));
                            lemma_line_subrange(self.data.text(), ln - 1);
                        }
                        let maxc = line_max_col(&node.value);
                        if self.cursor.x < u16::MAX && (self.cursor.x as usize) < maxc {
                            can = true;
                        }
                    },
                    Err(_) => {},
                }
                if can {
                    self.cursor.move_right();
                }
                let x = self.cursor.x;
                self.cursor.vertical_x = x;
                Repaint::Position
            },
        }
    }
}

} // verus!
