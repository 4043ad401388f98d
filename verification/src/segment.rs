//! The segment: a capacity-bounded cache of the visible lines.
//!
//! Each cached line is a [`SegmentNode`] holding the line's text (with its
//! terminator), its 1-based document line number, and the document offset of
//! its first character. A well-formed segment keeps strictly increasing,
//! contiguous line numbers and never grows past its capacity.

use crate::text::{line_count, line_start, lines_of};
use vstd::prelude::*;

verus! {

/// Failure of a window lookup: the requested line is not cached.
#[derive(Clone, Copy, PartialEq, Eq, Debug)]
pub enum SegmentError {
    LineNotFound,
}

/// One cached line: its text, document line number, and the document offset
/// at which the line starts.
#[derive(Debug)]
pub struct SegmentNode {
    pub value: Vec<char>,
    pub line_number: usize,
    pub offset: usize,
}

/// Concatenation of the cached line values, in order.
pub open spec fn values_text(nodes: Seq<SegmentNode>) -> Seq<char>
    decreases nodes.len(),
{
    if nodes.len() == 0 {
        Seq::empty()
    } else {
        nodes[0].value@ + values_text(nodes.skip(1))
    }
}

pub proof fn lemma_values_text_skip(nodes: Seq<SegmentNode>, i: int)
    requires
        0 <= i < nodes.len(),
    ensures
        values_text(nodes.skip(i)) == nodes[i].value@ + values_text(nodes.skip(i + 1)),
{
    assert(nodes.skip(i).skip(1) =~= nodes.skip(i + 1));
    assert(nodes.skip(i)[0] == nodes[i]);
}

pub proof fn lemma_values_text_push(nodes: Seq<SegmentNode>, n: SegmentNode)
    ensures
        values_text(nodes.push(n)) == values_text(nodes) + n.value@,
    decreases nodes.len(),
{
    if nodes.len() == 0 {
        assert(nodes.push(n).skip(1) =~= Seq::<SegmentNode>::empty());
        assert(values_text(nodes.push(n).skip(1)) == Seq::<char>::empty());
        assert(nodes.push(n)[0] == n);
        assert(values_text(nodes.push(n)) =~= n.value@);
        assert(values_text(nodes) + n.value@ =~= n.value@);
    } else {
        assert(nodes.push(n).skip(1) =~= nodes.skip(1).push(n));
        lemma_values_text_push(nodes.skip(1), n);
        assert(nodes[0].value@ + (values_text(nodes.skip(1)) + n.value@) =~= (nodes[0].value@
            + values_text(nodes.skip(1))) + n.value@);
        assert(nodes.push(n)[0] == nodes[0]);
    }
}

pub proof fn lemma_values_text_split(nodes: Seq<SegmentNode>, i: int)
    requires
        0 <= i <= nodes.len(),
    ensures
        values_text(nodes) == values_text(nodes.take(i)) + values_text(nodes.skip(i)),
    decreases i,
{
    if i == 0 {
        assert(nodes.take(0) =~= Seq::<SegmentNode>::empty());
        assert(nodes.skip(0) =~= nodes);
        assert(values_text(nodes.take(0)) + values_text(nodes) =~= values_text(nodes));
    } else {
        lemma_values_text_split(nodes, i - 1);
        lemma_values_text_skip(nodes, i - 1);
        lemma_values_text_push(nodes.take(i - 1), nodes[i - 1]);
        assert(nodes.take(i - 1).push(nodes[i - 1]) =~= nodes.take(i));
        assert(values_text(nodes.take(i - 1)) + (nodes[i - 1].value@ + values_text(nodes.skip(i)))
            =~= (values_text(nodes.take(i - 1)) + nodes[i - 1].value@) + values_text(
            nodes.skip(i),
        ));
    }
}

pub proof fn lemma_values_text_concat(a: Seq<SegmentNode>, b: Seq<SegmentNode>)
    ensures
        values_text(a + b) == values_text(a) + values_text(b),
    decreases a.len(),
{
    if a.len() == 0 {
        assert(a + b =~= b);
        assert(values_text(a) + values_text(b) =~= values_text(b));
    } else {
        assert((a + b).skip(1) =~= a.skip(1) + b);
        lemma_values_text_concat(a.skip(1), b);
        assert((a + b)[0] == a[0]);
        assert(a[0].value@ + (values_text(a.skip(1)) + values_text(b)) =~= (a[0].value@
            + values_text(a.skip(1))) + values_text(b));
    }
}

/// Two windows with the same line texts spell the same text, whatever
/// their numbers and offsets.
pub proof fn lemma_values_text_congruent(a: Seq<SegmentNode>, b: Seq<SegmentNode>)
    requires
        a.len() == b.len(),
        forall|k: int| 0 <= k < a.len() ==> (#[trigger] a[k]).value@ == b[k].value@,
    ensures
        values_text(a) == values_text(b),
    decreases a.len(),
{
    if a.len() > 0 {
        assert forall|k: int| 0 <= k < a.skip(1).len() implies (#[trigger] a.skip(1)[k]).value@
            == b.skip(1)[k].value@ by {
            assert(a.skip(1)[k] == a[k + 1]);
            assert(b.skip(1)[k] == b[k + 1]);
        }
        lemma_values_text_congruent(a.skip(1), b.skip(1));
    }
}

/// Replacing one record rewrites the cached text at just that slot.
pub proof fn lemma_values_text_update(s: Seq<SegmentNode>, i: int, n: SegmentNode)
    requires
        0 <= i < s.len(),
    ensures
        values_text(s.update(i, n)) == values_text(s.take(i)) + n.value@ + values_text(
            s.skip(i + 1),
        ),
        values_text(s) == values_text(s.take(i)) + s[i].value@ + values_text(s.skip(i + 1)),
{
    lemma_values_text_split(s, i);
    lemma_values_text_skip(s, i);
    assert(values_text(s) =~= values_text(s.take(i)) + s[i].value@ + values_text(s.skip(i + 1)));
    let u = s.update(i, n);
    assert(u.take(i) =~= s.take(i));
    assert(u.skip(i + 1) =~= s.skip(i + 1));
    assert(u[i] == n);
    lemma_values_text_split(u, i);
    lemma_values_text_skip(u, i);
    assert(values_text(u) =~= values_text(s.take(i)) + n.value@ + values_text(s.skip(i + 1)));
}

/// The weaker half of a matching window: each record carries the right
/// text and line number, while its offset may be stale.
pub open spec fn values_match(seg: Segment, text: Seq<char>) -> bool {
    forall|k: int|
        0 <= k < seg.nodes@.len() ==> {
            let node = #[trigger] seg.nodes@[k];
            &&& 1 <= node.line_number <= line_count(text)
            &&& node.value@ == lines_of(text)[node.line_number - 1]
        }
}

/// A window with the right texts, the right anchor offset, and offsets
/// chained from record to record is a true image of the document.
pub proof fn lemma_chained_offsets_match(seg: Segment, text: Seq<char>)
    requires
        seg.wf(),
        values_match(seg, text),
        seg.nodes@.len() > 0 ==> seg.nodes@[0].offset == line_start(text, seg.first_line() - 1),
        forall|k: int|
            1 <= k < seg.nodes@.len() ==> (#[trigger] seg.nodes@[k]).offset == seg.nodes@[k
                - 1].offset + seg.nodes@[k - 1].value@.len(),
    ensures
        seg.matches_text(text),
{
    assert forall|k: int| 0 <= k < seg.nodes@.len() implies {
        let node = #[trigger] seg.nodes@[k];
        &&& 1 <= node.line_number <= line_count(text)
        &&& node.value@ == lines_of(text)[node.line_number - 1]
        &&& node.offset == line_start(text, node.line_number - 1)
    } by {
        lemma_chained_offsets_aux(seg, text, k);
    }
}

proof fn lemma_chained_offsets_aux(seg: Segment, text: Seq<char>, k: int)
    requires
        seg.wf(),
        values_match(seg, text),
        0 <= k < seg.nodes@.len(),
        seg.nodes@[0].offset == line_start(text, seg.first_line() - 1),
        forall|j: int|
            1 <= j < seg.nodes@.len() ==> (#[trigger] seg.nodes@[j]).offset == seg.nodes@[j
                - 1].offset + seg.nodes@[j - 1].value@.len(),
    ensures
        seg.nodes@[k].offset == line_start(text, seg.nodes@[k].line_number - 1),
    decreases k,
{
    if k > 0 {
        lemma_chained_offsets_aux(seg, text, k - 1);
        let prev = seg.nodes@[k - 1];
        assert(prev.line_number == seg.first_line() + k - 1);
        assert(seg.nodes@[k].line_number == prev.line_number + 1);
        assert(prev.offset + prev.value@.len() == line_start(text, prev.line_number - 1)
            + lines_of(text)[prev.line_number - 1].len());
        assert(line_start(text, prev.line_number as int) == line_start(text, prev.line_number - 1)
            + lines_of(text)[prev.line_number - 1].len());
    }
}

/// The window-shape law: in a well-formed window — as every window
/// construction and scroll step ensures — the line numbers are strictly
/// increasing by exactly one, and the window never exceeds its capacity.
pub proof fn lemma_window_shape(seg: Segment)
    requires
        seg.wf(),
    ensures
        seg.nodes@.len() <= seg.cap,
        forall|k: int|
            0 <= k < seg.nodes@.len() - 1 ==> (#[trigger] seg.nodes@[k + 1]).line_number
                == seg.nodes@[k].line_number + 1,
{
    assert forall|k: int| 0 <= k < seg.nodes@.len() - 1 implies (#[trigger] seg.nodes@[k
        + 1]).line_number == seg.nodes@[k].line_number + 1 by {
        assert(seg.nodes@[k].line_number == seg.first_line() + k);
    }
}

/// Over a matching window, a record's offset plus the cached text from it
/// on never runs past the document's end.
pub proof fn lemma_matching_extent(seg: Segment, text: Seq<char>)
    requires
        seg.wf(),
        seg.matches_text(text),
    ensures
        forall|k: int|
            0 <= k < seg.nodes@.len() ==> (#[trigger] seg.nodes@[k]).offset + values_text(
                seg.nodes@.skip(k),
            ).len() <= text.len(),
{
    assert forall|k: int| 0 <= k < seg.nodes@.len() implies (#[trigger] seg.nodes@[k]).offset
        + values_text(seg.nodes@.skip(k)).len() <= text.len() by {
        lemma_matching_extent_aux(seg, text, k);
    }
}

proof fn lemma_matching_extent_aux(seg: Segment, text: Seq<char>, k: int)
    requires
        seg.wf(),
        seg.matches_text(text),
        0 <= k < seg.nodes@.len(),
    ensures
        seg.nodes@[k].offset + values_text(seg.nodes@.skip(k)).len() == line_start(
            text,
            seg.nodes@.last().line_number as int,
        ),
        line_start(text, seg.nodes@.last().line_number as int) <= text.len(),
    decreases seg.nodes@.len() - k,
{
    lemma_values_text_skip(seg.nodes@, k);
    let node = seg.nodes@[k];
    let n = node.line_number as int;
    assert(node.offset + node.value@.len() == line_start(text, n));
    if k == seg.nodes@.len() - 1 {
        assert(seg.nodes@.skip(k + 1).len() == 0);
        assert(values_text(seg.nodes@.skip(k + 1)) == Seq::<char>::empty());
        crate::text::lemma_lines_skip(text, n);
    } else {
        lemma_matching_extent_aux(seg, text, k + 1);
        assert(seg.nodes@[k + 1].line_number == node.line_number + 1);
        assert(seg.nodes@[k + 1].offset == line_start(text, n));
    }
}

impl SegmentNode {
    pub fn new(v: Vec<char>, ln: usize, ofst: usize) -> (r: SegmentNode)
        ensures
            r.value@ == v@,
            r.line_number == ln,
            r.offset == ofst,
    {
        SegmentNode { value: v, line_number: ln, offset: ofst }
    }

    /// A fresh node with the same text, line number and offset.
    pub fn duplicate(&self) -> (r: SegmentNode)
        ensures
            r.value@ == self.value@,
            r.line_number == self.line_number,
            r.offset == self.offset,
    {
        let mut v: Vec<char> = Vec::new();
        let mut i: usize = 0;
        while i < self.value.len()
            invariant
                i <= self.value@.len(),
                v@ == self.value@.take(i as int),
            decreases self.value@.len() - i,
        {
            v.push(self.value[i]);
            i = i + 1;
            assert(v@ =~= self.value@.take(i as int));
        }
        assert(v@ =~= self.value@);
        SegmentNode { value: v, line_number: self.line_number, offset: self.offset }
    }
}

/// The viewport cache of visible lines.
#[derive(Debug)]
pub struct Segment {
    pub nodes: Vec<SegmentNode>,
    pub cap: usize,
}

impl Segment {
    /// Line number of the first cached line.
    pub open spec fn first_line(self) -> int {
        self.nodes@[0].line_number as int
    }

    /// Line number just past the last cached line.
    pub open spec fn end_line(self) -> int {
        self.first_line() + self.nodes@.len()
    }

    /// Line numbers start at 1 and run contiguously, and the window never
    /// exceeds its capacity.
    pub open spec fn wf(self) -> bool {
        &&& self.nodes@.len() <= self.cap
        &&& (self.nodes@.len() > 0 ==> self.nodes@[0].line_number >= 1)
        &&& forall|k: int|
            0 <= k < self.nodes@.len() ==> (#[trigger] self.nodes@[k]).line_number
                == self.first_line() + k
    }

    /// Whether line `ln` is cached.
    pub open spec fn contains_line(self, ln: int) -> bool {
        self.nodes@.len() > 0 && self.first_line() <= ln < self.end_line()
    }

    /// Every cached node is the true record of its line in `text`: right
    /// value, right line number, right starting offset.
    pub open spec fn matches_text(self, text: Seq<char>) -> bool {
        forall|k: int|
            0 <= k < self.nodes@.len() ==> {
                let node = #[trigger] self.nodes@[k];
                &&& 1 <= node.line_number <= line_count(text)
                &&& node.value@ == lines_of(text)[node.line_number - 1]
                &&& node.offset == line_start(text, node.line_number - 1)
            }
    }

    pub fn new(cp: usize) -> (r: Segment)
        ensures
            r.cap == cp,
            r.nodes@.len() == 0,
            r.wf(),
    {
        Segment { nodes: Vec::new(), cap: cp }
    }

    /// The cached lines joined back into one text, exactly as stored.
    pub fn construct_segment(&self) -> (r: Vec<char>)
        ensures
            r@ == values_text(self.nodes@),
    {
        let mut r: Vec<char> = Vec::new();
        let mut i: usize = 0;
        assert(self.nodes@.skip(0) =~= self.nodes@);
        assert(r@ + values_text(self.nodes@) =~= values_text(self.nodes@));
        while i < self.nodes.len()
            invariant
                i <= self.nodes@.len(),
                r@ + values_text(self.nodes@.skip(i as int)) == values_text(self.nodes@),
            decreases self.nodes@.len() - i,
        {
            proof {
                lemma_values_text_skip(self.nodes@, i as int);
            }
            let node = &self.nodes[i];
            assert(r@ + self.nodes@[i as int].value@.skip(0) + values_text(
                self.nodes@.skip(i as int + 1),
            ) =~= r@ + (self.nodes@[i as int].value@ + values_text(self.nodes@.skip(i as int + 1))));
            let mut j: usize = 0;
            while j < node.value.len()
                invariant
                    j <= self.nodes@[i as int].value@.len(),
                    i < self.nodes@.len(),
                    node == &self.nodes[i as int],
                    r@ + self.nodes@[i as int].value@.skip(j as int) + values_text(
                        self.nodes@.skip(i as int + 1),
                    ) == values_text(self.nodes@),
                decreases self.nodes@[i as int].value@.len() - j,
            {
                let ghost r_prev = r@;
                r.push(node.value[j]);
                j = j + 1;
                assert(r@ + self.nodes@[i as int].value@.skip(j as int) =~= r_prev
                    + self.nodes@[i as int].value@.skip(j - 1));
            }
            assert(r@ + self.nodes@[i as int].value@.skip(j as int) =~= r@);
            i = i + 1;
        }
        assert(values_text(self.nodes@.skip(self.nodes@.len() as int)) =~= Seq::<char>::empty());
        assert(r@ + values_text(self.nodes@.skip(self.nodes@.len() as int)) =~= r@);
        r
    }

    /// Binary search for the cached index of line `ln`.
    fn get_line_idx(&self, ln: usize) -> (r: Result<usize, SegmentError>)
        requires
            self.wf(),
        ensures
            match r {
                Ok(idx) => self.contains_line(ln as int) && idx == ln - self.first_line(),
                Err(e) => e == SegmentError::LineNotFound && !self.contains_line(ln as int),
            },
    {
        let mut lo: usize = 0;
        let mut hi: usize = self.nodes.len();
        while lo < hi
            invariant
                self.wf(),
                lo <= hi <= self.nodes@.len(),
                forall|k: int| 0 <= k < lo ==> (#[trigger] self.nodes@[k]).line_number < ln,
                forall|k: int|
                    hi <= k < self.nodes@.len() ==> (#[trigger] self.nodes@[k]).line_number > ln,
            decreases hi - lo,
        {
            let mid = lo + (hi - lo) / 2;
            let m = self.nodes[mid].line_number;
            if m == ln {
                return Ok(mid);
            } else if m < ln {
                lo = mid + 1;
            } else {
                hi = mid;
            }
        }
        proof {
            if self.contains_line(ln as int) {
                let idx0 = ln - self.first_line();
                assert(self.nodes@[idx0].line_number == self.first_line() + idx0);
                assert(false);
            }
        }
        Err(SegmentError::LineNotFound)
    }

    /// Look a cached line up by its document line number.
    pub fn get_line(&self, ln: usize) -> (r: Result<&SegmentNode, SegmentError>)
        requires
            self.wf(),
        ensures
            match r {
                Ok(node) => self.contains_line(ln as int) && *node == self.nodes@[ln
                    - self.first_line()],
                Err(e) => e == SegmentError::LineNotFound && !self.contains_line(ln as int),
            },
    {
        match self.get_line_idx(ln) {
            Ok(idx) => Ok(&self.nodes[idx]),
            Err(e) => Err(e),
        }
    }

    /// Replace the text of cached line `ln` in place, preserving its number
    /// and offset; a line outside the window is left untouched.
    pub fn update_at(&mut self, ln: usize, val: &Vec<char>)
        requires
            old(self).wf(),
        ensures
            final(self).cap == old(self).cap,
            final(self).wf(),
            final(self).nodes@.len() == old(self).nodes@.len(),
            !old(self).contains_line(ln as int) ==> final(self).nodes@ == old(self).nodes@,
            old(self).contains_line(ln as int) ==> {
                let idx = ln - old(self).first_line();
                &&& forall|k: int|
                    0 <= k < old(self).nodes@.len() && k != idx ==> final(self).nodes@[k] == old(self).nodes@[k]
                &&& final(self).nodes@[idx].value@ == val@
                &&& final(self).nodes@[idx].line_number == ln
                &&& final(self).nodes@[idx].offset == old(self).nodes@[idx].offset
            },
    {
        let idx = match self.get_line_idx(ln) {
            Ok(i) => i,
            Err(_) => {
                return ;
            },
        };
        let mut v: Vec<char> = Vec::new();
        let mut j: usize = 0;
        while j < val.len()
            invariant
                j <= val@.len(),
                v@ == val@.take(j as int),
            decreases val@.len() - j,
        {
            v.push(val[j]);
            j = j + 1;
            assert(v@ =~= val@.take(j as int));
        }
        assert(v@ =~= val@);
        self.nodes[idx].value = v;
    }

    pub fn add_b(&mut self, n: SegmentNode)
        ensures
            final(self).cap == old(self).cap,
            final(self).nodes@ == old(self).nodes@.push(n),
    {
        self.nodes.push(n);
    }

    pub fn add_f(&mut self, n: SegmentNode)
        ensures
            final(self).cap == old(self).cap,
            final(self).nodes@ == old(self).nodes@.insert(0, n),
    {
        self.nodes.insert(0, n);
    }

    pub fn new_b(&mut self, v: Vec<char>, ln: usize, ofst: usize)
        ensures
            final(self).cap == old(self).cap,
            final(self).nodes@.len() == old(self).nodes@.len() + 1,
            final(self).nodes@.take(old(self).nodes@.len() as int) == old(self).nodes@,
            final(self).nodes@.last().value@ == v@,
            final(self).nodes@.last().line_number == ln,
            final(self).nodes@.last().offset == ofst,
    {
        let n = SegmentNode::new(v, ln, ofst);
        self.add_b(n);
        assert(self.nodes@.take(old(self).nodes@.len() as int) =~= old(self).nodes@);
    }

    pub fn new_f(&mut self, v: Vec<char>, ln: usize, ofst: usize)
        ensures
            final(self).cap == old(self).cap,
            final(self).nodes@.len() == old(self).nodes@.len() + 1,
            final(self).nodes@.skip(1) == old(self).nodes@,
            final(self).nodes@[0].value@ == v@,
            final(self).nodes@[0].line_number == ln,
            final(self).nodes@[0].offset == ofst,
    {
        let n = SegmentNode::new(v, ln, ofst);
        self.add_f(n);
        assert(self.nodes@.skip(1) =~= old(self).nodes@);
    }

    pub fn back(&self) -> (r: Option<&SegmentNode>)
        ensures
            match r {
                Some(n) => self.nodes@.len() > 0 && *n == self.nodes@.last(),
                None => self.nodes@.len() == 0,
            },
    {
        if self.nodes.len() > 0 {
            Some(&self.nodes[self.nodes.len() - 1])
        } else {
            None
        }
    }

    pub fn front(&self) -> (r: Option<&SegmentNode>)
        ensures
            match r {
                Some(n) => self.nodes@.len() > 0 && *n == self.nodes@[0],
                None => self.nodes@.len() == 0,
            },
    {
        if self.nodes.len() > 0 {
            Some(&self.nodes[0])
        } else {
            None
        }
    }

    /// Recompute every record's offset from its predecessor's end, with
    /// the first record's offset as the anchor.
    pub fn rechain(&mut self)
        requires
            old(self).nodes@.len() > 0 ==> old(self).nodes@[0].offset + values_text(
                old(self).nodes@,
            ).len() <= usize::MAX,
        ensures
            final(self).cap == old(self).cap,
            final(self).nodes@.len() == old(self).nodes@.len(),
            forall|k: int|
                0 <= k < old(self).nodes@.len() ==> ((#[trigger] final(self).nodes@[k]).value@
                    == old(self).nodes@[k].value@ && final(self).nodes@[k].line_number == old(self).nodes@[k].line_number),
            old(self).nodes@.len() > 0 ==> final(self).nodes@[0].offset == old(self).nodes@[0].offset,
            forall|k: int|
                1 <= k < old(self).nodes@.len() ==> (#[trigger] final(self).nodes@[k]).offset
                    == final(self).nodes@[k - 1].offset + final(self).nodes@[k - 1].value@.len(),
    {
        if self.nodes.len() == 0 {
            return ;
        }
        let mut j: usize = 1;
        proof {
            assert(old(self).nodes@.take(0) =~= Seq::<SegmentNode>::empty());
        }
        let ghost mut acc: int = 0;
        while j < self.nodes.len()
            invariant
                1 <= j <= self.nodes@.len(),
                self.nodes@.len() == old(self).nodes@.len(),
                self.cap == old(self).cap,
                old(self).nodes@.len() > 0,
                old(self).nodes@[0].offset + values_text(old(self).nodes@).len() <= usize::MAX,
                forall|k: int|
                    0 <= k < old(self).nodes@.len() ==> ((#[trigger] self.nodes@[k]).value@ == old(self).nodes@[k].value@ && self.nodes@[k].line_number == old(self).nodes@[k].line_number),
                self.nodes@[0].offset == old(self).nodes@[0].offset,
                forall|k: int|
                    1 <= k < j ==> (#[trigger] self.nodes@[k]).offset == self.nodes@[k - 1].offset
                        + self.nodes@[k - 1].value@.len(),
                acc == values_text(old(self).nodes@.take(j - 1)).len(),
                self.nodes@[j - 1].offset == old(self).nodes@[0].offset + acc,
            decreases self.nodes@.len() - j,
        {
            proof {
                lemma_values_text_push(old(self).nodes@.take(j - 1), old(self).nodes@[j - 1]);
                assert(old(self).nodes@.take(j - 1).push(old(self).nodes@[j - 1]) =~= old(self).nodes@.take(j as int));
                lemma_values_text_split(old(self).nodes@, j as int);
                assert(values_text(old(self).nodes@.take(j as int)).len() <= values_text(
                    old(self).nodes@,
                ).len());
            }
            let prev_off = self.nodes[j - 1].offset;
            let prev_len = self.nodes[j - 1].value.len();
            self.nodes[j].offset = prev_off + prev_len;
            proof {
                acc = acc + old(self).nodes@[j - 1].value@.len();
            }
            j = j + 1;
        }
    }

    /// Insert a record as line `ln`, shifting the records from `ln` on up
    /// by one line and re-deriving their offsets from their predecessors;
    /// the last record is dropped when the window would outgrow its
    /// capacity. A target outside `[first, end]` is ignored.
    pub fn insert_at(&mut self, ln: usize, val: &Vec<char>)
        requires
            old(self).wf(),
            old(self).nodes@.len() > 0 ==> old(self).nodes@.last().line_number < usize::MAX,
            old(self).nodes@.len() > 0 ==> old(self).nodes@[0].offset + values_text(
                old(self).nodes@,
            ).len() + val@.len() <= usize::MAX,
            forall|k: int|
                0 <= k < old(self).nodes@.len() ==> (#[trigger] old(self).nodes@[k]).offset + old(self).nodes@[k].value@.len() <= usize::MAX,
        ensures
            final(self).cap == old(self).cap,
            final(self).wf(),
            (old(self).nodes@.len() == 0 || ln < old(self).first_line() || ln > old(self).end_line()) ==> final(self).nodes@ == old(self).nodes@,
            (old(self).nodes@.len() > 0 && old(self).first_line() <= ln <= old(self).end_line())
                ==> ({
                let idx = ln - old(self).first_line();
                &&& final(self).nodes@.len() == (if old(self).nodes@.len() < old(self).cap {
                    old(self).nodes@.len() + 1
                } else {
                    old(self).cap as nat
                })
                &&& (forall|k: int|
                    0 <= k < idx && k < final(self).nodes@.len() ==> ((#[trigger] final(self).nodes@[k]).value@ == old(self).nodes@[k].value@
                        && final(self).nodes@[k].line_number == old(self).nodes@[k].line_number))
                &&& (idx < final(self).nodes@.len() ==> (final(self).nodes@[idx].value@ == val@
                    && final(self).nodes@[idx].line_number == ln))
                &&& (forall|k: int|
                    idx < k < final(self).nodes@.len() ==> ((#[trigger] final(self).nodes@[k]).value@ == old(self).nodes@[k - 1].value@
                        && final(self).nodes@[k].line_number == old(self).nodes@[k - 1].line_number
                        + 1))
                &&& final(self).nodes@[0].offset == old(self).nodes@[0].offset
                &&& (forall|k: int|
                    1 <= k < final(self).nodes@.len() ==> (#[trigger] final(self).nodes@[k]).offset
                        == final(self).nodes@[k - 1].offset + final(self).nodes@[k - 1].value@.len())
            }),
    {
        if self.nodes.len() == 0 {
            return ;
        }
        let first = self.nodes[0].line_number;
        if ln < first {
            return ;
        }
        let idx = ln - first;
        if idx > self.nodes.len() {
            return ;
        }
        let off = if idx == 0 {
            self.nodes[0].offset
        } else {
            let po = self.nodes[idx - 1].offset;
            let pl = self.nodes[idx - 1].value.len();
            po + pl
        };
        let mut v: Vec<char> = Vec::new();
        let mut cj: usize = 0;
        while cj < val.len()
            invariant
                cj <= val@.len(),
                v@ == val@.take(cj as int),
            decreases val@.len() - cj,
        {
            v.push(val[cj]);
            cj = cj + 1;
            assert(v@ =~= val@.take(cj as int));
        }
        assert(v@ =~= val@);
        let node = SegmentNode { value: v, line_number: ln, offset: off };
        let ghost base = self.nodes@;
        self.nodes.insert(idx, node);
        proof {
            assert(self.nodes@ == base.insert(idx as int, node));
            assert(self.nodes@[idx as int] == node);
            assert forall|k: int| 0 <= k < idx implies self.nodes@[k] == base[k] by {
                assert(base.insert(idx as int, node)[k] == base[k]);
            }
            assert forall|k: int| idx < k < self.nodes@.len() implies self.nodes@[k] == base[k
                - 1] by {
                assert(base.insert(idx as int, node)[k] == base[k - 1]);
            }
        }
        let mut j: usize = idx + 1;
        while j < self.nodes.len()
            invariant
                idx < j <= self.nodes@.len(),
                idx <= base.len(),
                self.nodes@.len() == base.len() + 1,
                self.cap == old(self).cap,
                forall|k: int|
                    0 <= k <= idx ==> #[trigger] self.nodes@[k] == base.insert(idx as int, node)[k],
                forall|k: int|
                    j <= k < self.nodes@.len() ==> #[trigger] self.nodes@[k] == base[k - 1],
                forall|k: int|
                    idx < k < j ==> ((#[trigger] self.nodes@[k]).value@ == base[k - 1].value@
                        && self.nodes@[k].line_number == base[k - 1].line_number + 1
                        && self.nodes@[k].offset == base[k - 1].offset),
                forall|k: int|
                    0 <= k < base.len() ==> (#[trigger] base[k]).line_number < usize::MAX,
            decreases self.nodes@.len() - j,
        {
            let n0 = self.nodes[j].line_number;
            self.nodes[j].line_number = n0 + 1;
            j = j + 1;
        }
        if self.nodes.len() > self.cap {
            self.nodes.pop();
        }
        proof {
            let cur = self.nodes@;
            let ins = base.insert(idx as int, node);
            assert(cur.len() <= ins.len());
            assert forall|k: int| 0 <= k < cur.len() implies (#[trigger] cur[k]).value@
                == ins.take(cur.len() as int)[k].value@ by {
                if k <= idx {
                    assert(cur[k] == ins[k]);
                } else {
                    assert(cur[k].value@ == base[k - 1].value@);
                    assert(ins[k] == base[k - 1]);
                }
            }
            lemma_values_text_congruent(cur, ins.take(cur.len() as int));
            lemma_values_text_split(ins, cur.len() as int);
            assert(ins =~= base.take(idx as int).push(node) + base.skip(idx as int));
            lemma_values_text_concat(base.take(idx as int).push(node), base.skip(idx as int));
            lemma_values_text_push(base.take(idx as int), node);
            lemma_values_text_split(base, idx as int);
            assert(values_text(ins).len() == values_text(base).len() + val@.len());
            assert(cur[0].offset == base[0].offset);
            assert(cur[0].offset + values_text(cur).len() <= usize::MAX);
        }
        self.rechain();
    }

    /// Remove the record of line `ln`, shifting the later records down one
    /// line and re-deriving their offsets. A line outside the window is
    /// ignored.
    pub fn remove_at(&mut self, ln: usize)
        requires
            old(self).wf(),
            old(self).nodes@.len() > 0 ==> old(self).nodes@[0].offset + values_text(
                old(self).nodes@,
            ).len() <= usize::MAX,
            (old(self).contains_line(ln as int) && ln == old(self).first_line() && old(
                self,
            ).nodes@.len() > 1) ==> old(self).nodes@[1].offset + values_text(
                old(self).nodes@.skip(1),
            ).len() <= usize::MAX,
        ensures
            final(self).cap == old(self).cap,
            final(self).wf(),
            !old(self).contains_line(ln as int) ==> final(self).nodes@ == old(self).nodes@,
            old(self).contains_line(ln as int) ==> ({
                let idx = ln - old(self).first_line();
                &&& final(self).nodes@.len() == old(self).nodes@.len() - 1
                &&& (forall|k: int|
                    0 <= k < idx ==> ((#[trigger] final(self).nodes@[k]).value@ == old(self).nodes@[k].value@ && final(self).nodes@[k].line_number == old(self).nodes@[k].line_number))
                &&& (forall|k: int|
                    idx <= k < final(self).nodes@.len() ==> ((#[trigger] final(self).nodes@[k]).value@ == old(self).nodes@[k + 1].value@
                        && final(self).nodes@[k].line_number == old(self).nodes@[k + 1].line_number
                        - 1))
                &&& (final(self).nodes@.len() > 0 && idx > 0 ==> final(self).nodes@[0].offset
                    == old(self).nodes@[0].offset)
                &&& (forall|k: int|
                    1 <= k < final(self).nodes@.len() ==> (#[trigger] final(self).nodes@[k]).offset
                        == final(self).nodes@[k - 1].offset + final(self).nodes@[k - 1].value@.len())
            }),
    {
        let idx = match self.get_line_idx(ln) {
            Ok(i) => i,
            Err(_) => {
                return ;
            },
        };
        let ghost base = self.nodes@;
        self.nodes.remove(idx);
        proof {
            assert(self.nodes@ == base.remove(idx as int));
            assert forall|k: int| 0 <= k < idx implies self.nodes@[k] == base[k] by {
                assert(base.remove(idx as int)[k] == base[k]);
            }
            assert forall|k: int| idx <= k < self.nodes@.len() implies self.nodes@[k] == base[k
                + 1] by {
                assert(base.remove(idx as int)[k] == base[k + 1]);
            }
        }
        let mut j: usize = idx;
        while j < self.nodes.len()
            invariant
                idx <= j <= self.nodes@.len(),
                idx < base.len(),
                self.nodes@.len() == base.len() - 1,
                self.cap == old(self).cap,
                forall|k: int| 0 <= k < idx ==> #[trigger] self.nodes@[k] == base[k],
                forall|k: int|
                    j <= k < self.nodes@.len() ==> #[trigger] self.nodes@[k] == base[k + 1],
                forall|k: int|
                    idx <= k < j ==> ((#[trigger] self.nodes@[k]).value@ == base[k + 1].value@
                        && self.nodes@[k].line_number == base[k + 1].line_number - 1
                        && self.nodes@[k].offset == base[k + 1].offset),
                forall|k: int|
                    0 <= k < base.len() ==> (#[trigger] base[k]).line_number == base[0].line_number
                        + k,
                base[0].line_number >= 1,
            decreases self.nodes@.len() - j,
        {
            let n0 = self.nodes[j].line_number;
            self.nodes[j].line_number = n0 - 1;
            j = j + 1;
        }
        proof {
            let cur = self.nodes@;
            let rem = base.remove(idx as int);
            assert forall|k: int| 0 <= k < cur.len() implies (#[trigger] cur[k]).value@
                == rem[k].value@ by {
                if k < idx {
                    assert(cur[k] == base[k]);
                    assert(rem[k] == base[k]);
                } else {
                    assert(cur[k].value@ == base[k + 1].value@);
                    assert(rem[k] == base[k + 1]);
                }
            }
            lemma_values_text_congruent(cur, rem);
            assert(rem =~= base.take(idx as int) + base.skip(idx + 1));
            lemma_values_text_concat(base.take(idx as int), base.skip(idx + 1));
            if cur.len() > 0 {
                if idx == 0 {
                    assert(base.take(0) =~= Seq::<SegmentNode>::empty());
                    assert(rem =~= base.skip(1));
                    assert(cur[0].offset == base[1].offset);
                } else {
                    lemma_values_text_split(base, idx as int);
                    lemma_values_text_skip(base, idx as int);
                    assert(values_text(rem).len() <= values_text(base).len());
                    assert(cur[0].offset == base[0].offset);
                }
                assert(cur[0].offset + values_text(cur).len() <= usize::MAX);
            }
        }
        self.rechain();
    }

    /// Drop the first cached line, if any.
    pub fn pop_f(&mut self)
        ensures
            final(self).cap == old(self).cap,
            old(self).nodes@.len() > 0 ==> final(self).nodes@ == old(self).nodes@.skip(1),
            old(self).nodes@.len() == 0 ==> final(self).nodes@ == old(self).nodes@,
    {
        if self.nodes.len() > 0 {
            self.nodes.remove(0);
            assert(self.nodes@ =~= old(self).nodes@.skip(1));
        }
    }

    /// Drop the last cached line, if any.
    pub fn pop_b(&mut self)
        ensures
            final(self).cap == old(self).cap,
            old(self).nodes@.len() > 0 ==> final(self).nodes@ == old(self).nodes@.take(
                old(self).nodes@.len() - 1,
            ),
            old(self).nodes@.len() == 0 ==> final(self).nodes@ == old(self).nodes@,
    {
        if self.nodes.len() > 0 {
            self.nodes.pop();
            assert(self.nodes@ =~= old(self).nodes@.take(old(self).nodes@.len() - 1));
        }
    }
}

} // verus!
