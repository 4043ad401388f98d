//! The piece table: document storage over two append-only buffers.
//!
//! The document is the concatenation of the spans that the pieces reference,
//! in order. The *original* buffer holds the text as it was opened and is
//! never written again; every insertion is appended to the *added* buffer
//! and spliced in as a new piece.

use crate::segment::{Segment, SegmentNode};
use crate::text::lemma_lines_shape;
use crate::text::{first_line_len, line_count, line_start, lines_of};
use crate::text::lemma_line_count_le_len;
use crate::text::{lemma_first_line_len_at, lemma_first_line_len_no_newline, lemma_lines_skip};
use crate::text::lemma_first_line_len_bounds;
use vstd::prelude::*;

verus! {

/// Which backing buffer a piece references.
#[derive(Clone, Copy, Debug)]
pub enum Source {
    Original,
    Add,
}

/// A reference into one backing buffer: source, start offset, length.
#[derive(Clone, Copy, Debug)]
pub struct Piece {
    pub source: Source,
    pub offset: usize,
    pub length: usize,
}

/// The span of text a piece references.
pub open spec fn piece_span(p: Piece, orig: Seq<char>, add: Seq<char>) -> Seq<char> {
    match p.source {
        Source::Original => orig.subrange(p.offset as int, p.offset + p.length),
        Source::Add => add.subrange(p.offset as int, p.offset + p.length),
    }
}

/// The piece stays inside its backing buffer.
pub open spec fn piece_wf(p: Piece, orig: Seq<char>, add: Seq<char>) -> bool {
    match p.source {
        Source::Original => p.offset + p.length <= orig.len(),
        Source::Add => p.offset + p.length <= add.len(),
    }
}

pub open spec fn pieces_wf(ps: Seq<Piece>, orig: Seq<char>, add: Seq<char>) -> bool {
    forall|i: int| 0 <= i < ps.len() ==> piece_wf(#[trigger] ps[i], orig, add)
}

/// Concatenation of the spans of `ps`, in order: the document they spell.
pub open spec fn pieces_text(ps: Seq<Piece>, orig: Seq<char>, add: Seq<char>) -> Seq<char>
    decreases ps.len(),
{
    if ps.len() == 0 {
        Seq::empty()
    } else {
        piece_span(ps[0], orig, add) + pieces_text(ps.skip(1), orig, add)
    }
}

pub proof fn lemma_pieces_text_skip(ps: Seq<Piece>, orig: Seq<char>, add: Seq<char>, i: int)
    requires
        0 <= i < ps.len(),
    ensures
        pieces_text(ps.skip(i), orig, add) == piece_span(ps[i], orig, add) + pieces_text(
            ps.skip(i + 1),
            orig,
            add,
        ),
{
    assert(ps.skip(i).skip(1) =~= ps.skip(i + 1));
    assert(ps.skip(i)[0] == ps[i]);
}

pub proof fn lemma_pieces_text_push(ps: Seq<Piece>, orig: Seq<char>, add: Seq<char>, p: Piece)
    ensures
        pieces_text(ps.push(p), orig, add) == pieces_text(ps, orig, add) + piece_span(
            p,
            orig,
            add,
        ),
    decreases ps.len(),
{
    if ps.len() == 0 {
        assert(ps.push(p).skip(1) =~= Seq::<Piece>::empty());
        assert(pieces_text(ps.push(p).skip(1), orig, add) == Seq::<char>::empty());
        assert(ps.push(p)[0] == p);
        assert(pieces_text(ps.push(p), orig, add) =~= piece_span(p, orig, add));
        assert(pieces_text(ps, orig, add) + piece_span(p, orig, add) =~= piece_span(p, orig, add));
    } else {
        assert(ps.push(p).skip(1) =~= ps.skip(1).push(p));
        lemma_pieces_text_push(ps.skip(1), orig, add, p);
        assert(ps.push(p)[0] == ps[0]);
        assert(piece_span(ps[0], orig, add) + (pieces_text(ps.skip(1), orig, add) + piece_span(
            p,
            orig,
            add,
        )) =~= (piece_span(ps[0], orig, add) + pieces_text(ps.skip(1), orig, add)) + piece_span(
            p,
            orig,
            add,
        ));
    }
}

pub proof fn lemma_pieces_text_split(ps: Seq<Piece>, orig: Seq<char>, add: Seq<char>, i: int)
    requires
        0 <= i <= ps.len(),
    ensures
        pieces_text(ps, orig, add) == pieces_text(ps.take(i), orig, add) + pieces_text(
            ps.skip(i),
            orig,
            add,
        ),
    decreases i,
{
    if i == 0 {
        assert(ps.take(0) =~= Seq::<Piece>::empty());
        assert(ps.skip(0) =~= ps);
        assert(pieces_text(ps.take(0), orig, add) + pieces_text(ps, orig, add) =~= pieces_text(
            ps,
            orig,
            add,
        ));
    } else {
        lemma_pieces_text_split(ps, orig, add, i - 1);
        lemma_pieces_text_skip(ps, orig, add, i - 1);
        lemma_pieces_text_push(ps.take(i - 1), orig, add, ps[i - 1]);
        assert(ps.take(i - 1).push(ps[i - 1]) =~= ps.take(i));
        assert(pieces_text(ps.take(i - 1), orig, add) + (piece_span(ps[i - 1], orig, add)
            + pieces_text(ps.skip(i), orig, add)) =~= (pieces_text(ps.take(i - 1), orig, add)
            + piece_span(ps[i - 1], orig, add)) + pieces_text(ps.skip(i), orig, add));
    }
}

/// Extending the added buffer never changes what existing pieces spell.
pub proof fn lemma_pieces_text_add_append(
    ps: Seq<Piece>,
    orig: Seq<char>,
    add: Seq<char>,
    extra: Seq<char>,
)
    requires
        pieces_wf(ps, orig, add),
    ensures
        pieces_wf(ps, orig, add + extra),
        pieces_text(ps, orig, add + extra) == pieces_text(ps, orig, add),
    decreases ps.len(),
{
    if ps.len() > 0 {
        assert(piece_wf(ps[0], orig, add));
        assert(piece_span(ps[0], orig, add + extra) =~= piece_span(ps[0], orig, add));
        assert forall|i: int| 0 <= i < ps.skip(1).len() implies piece_wf(
            #[trigger] ps.skip(1)[i],
            orig,
            add,
        ) by {
            assert(ps.skip(1)[i] == ps[i + 1]);
        }
        lemma_pieces_text_add_append(ps.skip(1), orig, add, extra);
    }
}

/// The ordered sequence of pieces whose concatenated spans are the document.
#[derive(Debug)]
pub struct PieceTable {
    pub original: Vec<char>,
    pub add: Vec<char>,
    pub pieces: Vec<Piece>,
}

impl PieceTable {
    /// The document this table spells.
    pub open spec fn text(self) -> Seq<char> {
        pieces_text(self.pieces@, self.original@, self.add@)
    }

    /// Every piece stays inside its buffer, and the document leaves room
    /// for at least one more character.
    pub open spec fn wf(self) -> bool {
        &&& pieces_wf(self.pieces@, self.original@, self.add@)
        &&& self.text().len() < usize::MAX
    }

    /// A table spelling exactly `buffer`: the original buffer holds the
    /// text, the added buffer is empty, and a single original-tagged
    /// piece spans the whole of it.
    pub fn new(buffer: &Vec<char>) -> (r: PieceTable)
        requires
            buffer@.len() < usize::MAX,
        ensures
            r.wf(),
            r.text() == buffer@,
            r.original@ == buffer@,
            r.add@ == Seq::<char>::empty(),
            r.pieces@.len() == 1,
            r.pieces@[0].source is Original,
            r.pieces@[0].offset == 0,
            r.pieces@[0].length == buffer@.len(),
    {
        let mut original: Vec<char> = Vec::new();
        let mut i: usize = 0;
        while i < buffer.len()
            invariant
                i <= buffer@.len(),
                original@ == buffer@.take(i as int),
            decreases buffer@.len() - i,
        {
            original.push(buffer[i]);
            i = i + 1;
            assert(original@ =~= buffer@.take(i as int));
        }
        assert(original@ =~= buffer@);
        let mut pieces: Vec<Piece> = Vec::new();
        pieces.push(Piece { source: Source::Original, offset: 0, length: buffer.len() });
        let r = PieceTable { original, add: Vec::new(), pieces };
        proof {
            assert(r.pieces@.skip(1) =~= Seq::<Piece>::empty());
            assert(pieces_text(r.pieces@.skip(1), r.original@, r.add@) == Seq::<char>::empty());
            assert(piece_span(r.pieces@[0], r.original@, r.add@) =~= buffer@);
            assert(r.text() =~= buffer@);
        }
        r
    }

    /// Splice `items` into the document at document offset `offset`. The
    /// text is appended to the added buffer; the piece containing the
    /// offset is split into an unmodified prefix, a new piece referencing
    /// the added text, and an unmodified suffix. An offset exactly at the
    /// end of the document appends a piece instead. Empty text, or an
    /// offset past the end, leaves the document unchanged.
    #[verifier::rlimit(50)]
    pub fn insert(&mut self, items: &Vec<char>, offset: usize)
        requires
            old(self).wf(),
            old(self).text().len() + items@.len() < usize::MAX,
        ensures
            final(self).wf(),
            final(self).original@ == old(self).original@,
            items@.len() == 0 ==> final(self).add@ == old(self).add@,
            items@.len() > 0 ==> final(self).add@ == old(self).add@ + items@,
            items@.len() == 0 ==> final(self).text() == old(self).text(),
            items@.len() > 0 && offset <= old(self).text().len() ==> final(self).text() == old(
                self,
            ).text().take(offset as int) + items@ + old(self).text().skip(offset as int),
            items@.len() > 0 && offset > old(self).text().len() ==> final(self).text() == old(
                self,
            ).text(),
    {
        if items.len() == 0 {
            return ;
        }
        let ghost t = old(self).text();
        let ghost orig = self.original@;
        let add_off = self.add.len();
        let orig_n = self.original.len();
        let mut j: usize = 0;
        assert(self.add@ =~= old(self).add@ + items@.take(0));
        while j < items.len()
            invariant
                j <= items@.len(),
                self.add@ == old(self).add@ + items@.take(j as int),
                self.original@ == old(self).original@,
                self.pieces@ == old(self).pieces@,
            decreases items@.len() - j,
        {
            self.add.push(items[j]);
            j = j + 1;
            assert(self.add@ =~= old(self).add@ + items@.take(j as int));
        }
        assert(self.add@ =~= old(self).add@ + items@);
        let add_n = self.add.len();
        let ghost addb = self.add@;
        proof {
            lemma_pieces_text_add_append(old(self).pieces@, orig, old(self).add@, items@);
            assert(pieces_text(self.pieces@, orig, addb) == t);
        }
        let mut new_pieces: Vec<Piece> = Vec::new();
        let mut doc_pos: usize = 0;
        let mut found = false;
        let mut i: usize = 0;
        proof {
            assert(self.pieces@.take(0) =~= Seq::<Piece>::empty());
            assert(pieces_text(new_pieces@, orig, addb) == Seq::<char>::empty());
            assert(t.take(0) =~= Seq::<char>::empty());
        }
        while i < self.pieces.len()
            invariant
                i <= self.pieces@.len(),
                self.original@ == orig,
                self.add@ == addb,
                self.pieces@ == old(self).pieces@,
                pieces_wf(self.pieces@, orig, addb),
                pieces_text(self.pieces@, orig, addb) == t,
                t.len() + items@.len() < usize::MAX,
                items@.len() > 0,
                addb == old(self).add@ + items@,
                add_off == old(self).add@.len(),
                add_n == addb.len(),
                orig_n == orig.len(),
                pieces_wf(new_pieces@, orig, addb),
                doc_pos == pieces_text(self.pieces@.take(i as int), orig, addb).len(),
                doc_pos <= t.len(),
                !found ==> offset >= doc_pos,
                !found ==> pieces_text(new_pieces@, orig, addb) == t.take(doc_pos as int),
                found ==> offset <= doc_pos,
                found ==> pieces_text(new_pieces@, orig, addb) == t.take(offset as int) + items@
                    + t.subrange(offset as int, doc_pos as int),
            decreases self.pieces@.len() - i,
        {
            let p = self.pieces[i];
            proof {
                lemma_pieces_text_split(self.pieces@, orig, addb, i as int);
                lemma_pieces_text_skip(self.pieces@, orig, addb, i as int);
                assert(piece_wf(self.pieces@[i as int], orig, addb));
                assert(piece_span(p, orig, addb).len() == p.length);
                assert(pieces_text(self.pieces@.take(i as int), orig, addb) =~= t.take(
                    doc_pos as int,
                ));
                assert(doc_pos + p.length <= t.len());
                assert(pieces_text(self.pieces@.skip(i as int), orig, addb) =~= t.skip(
                    doc_pos as int,
                ));
                assert(piece_span(p, orig, addb) =~= t.subrange(doc_pos as int, doc_pos
                    + p.length));
            }
            let ghost np0 = new_pieces@;
            if !found && doc_pos <= offset && offset < doc_pos + p.length {
                found = true;
                let within = offset - doc_pos;
                let pb = Piece { source: p.source, offset: p.offset, length: within };
                let pn = Piece { source: Source::Add, offset: add_off, length: items.len() };
                let pa = Piece {
                    source: p.source,
                    offset: p.offset + within,
                    length: p.length - within,
                };
                proof {
                    assert(piece_wf(pb, orig, addb));
                    assert(piece_wf(pn, orig, addb));
                    assert(piece_wf(pa, orig, addb));
                    assert(piece_span(pb, orig, addb) =~= t.subrange(doc_pos as int,
                    offset as int));
                    assert(piece_span(pa, orig, addb) =~= t.subrange(offset as int, doc_pos
                        + p.length));
                    assert(piece_span(pn, orig, addb) =~= items@);
                }
                if within > 0 {
                    new_pieces.push(pb);
                    proof {
                        lemma_pieces_text_push(np0, orig, addb, pb);
                    }
                }
                let ghost np1 = new_pieces@;
                new_pieces.push(pn);
                proof {
                    lemma_pieces_text_push(np1, orig, addb, pn);
                }
                let ghost np2 = new_pieces@;
                new_pieces.push(pa);
                proof {
                    lemma_pieces_text_push(np2, orig, addb, pa);
                    assert(t.take(doc_pos as int) + t.subrange(doc_pos as int, offset as int) =~=
                    t.take(offset as int));
                    assert(pieces_text(new_pieces@, orig, addb) =~= t.take(offset as int) + items@
                        + t.subrange(offset as int, doc_pos + p.length));
                }
            } else {
                new_pieces.push(p);
                proof {
                    lemma_pieces_text_push(np0, orig, addb, p);
                    if found {
                        assert(pieces_text(new_pieces@, orig, addb) =~= t.take(offset as int)
                            + items@ + t.subrange(offset as int, doc_pos + p.length));
                    } else {
                        assert(pieces_text(new_pieces@, orig, addb) =~= t.take(doc_pos
                            + p.length));
                    }
                }
            }
            proof {
                lemma_pieces_text_push(self.pieces@.take(i as int), orig, addb,
                self.pieces@[i as int]);
                assert(self.pieces@.take(i as int).push(self.pieces@[i as int]) =~=
                self.pieces@.take(i as int + 1));
            }
            doc_pos = doc_pos + p.length;
            i = i + 1;
        }
        proof {
            assert(self.pieces@.take(self.pieces@.len() as int) =~= self.pieces@);
            assert(doc_pos == t.len());
        }
        if !found {
            if offset == doc_pos {
                let pn = Piece { source: Source::Add, offset: add_off, length: items.len() };
                let ghost np0 = new_pieces@;
                new_pieces.push(pn);
                found = true;
                proof {
                    lemma_pieces_text_push(np0, orig, addb, pn);
                    assert(piece_wf(pn, orig, addb));
                    assert(piece_span(pn, orig, addb) =~= items@);
                    assert(t.take(t.len() as int) =~= t);
                    assert(t.subrange(offset as int, t.len() as int) =~= t.skip(offset as int));
                    assert(t.skip(t.len() as int) =~= Seq::<char>::empty());
                    assert(pieces_text(new_pieces@, orig, addb) =~= t.take(offset as int) + items@
                        + t.skip(offset as int));
                }
            }
        }
        self.pieces = new_pieces;
        proof {
            if found {
                assert(t.subrange(offset as int, t.len() as int) =~= t.skip(offset as int));
                assert(self.text() == t.take(offset as int) + items@ + t.skip(offset as int));
                assert(self.text().len() == t.len() + items@.len());
            } else {
                assert(t.take(t.len() as int) =~= t);
            }
        }
    }

    /// Remove the one character at document offset `offset`: the piece
    /// holding it is split into the references before and after it. An
    /// offset at or past the end of the document leaves it unchanged.
    #[verifier::rlimit(50)]
    pub fn delete_char(&mut self, offset: usize)
        requires
            old(self).wf(),
        ensures
            final(self).wf(),
            final(self).original@ == old(self).original@,
            final(self).add@ == old(self).add@,
            offset < old(self).text().len() ==> final(self).text() == old(self).text().take(
                offset as int,
            ) + old(self).text().skip(offset + 1),
            offset >= old(self).text().len() ==> final(self).text() == old(self).text(),
    {
        let ghost t = self.text();
        let ghost orig = self.original@;
        let ghost addb = self.add@;
        let orig_n = self.original.len();
        let add_n = self.add.len();
        let mut new_pieces: Vec<Piece> = Vec::new();
        let mut doc_pos: usize = 0;
        let mut found = false;
        let mut i: usize = 0;
        proof {
            assert(self.pieces@.take(0) =~= Seq::<Piece>::empty());
            assert(t.take(0) =~= Seq::<char>::empty());
        }
        while i < self.pieces.len()
            invariant
                i <= self.pieces@.len(),
                self.original@ == orig,
                self.add@ == addb,
                self.pieces@ == old(self).pieces@,
                pieces_wf(self.pieces@, orig, addb),
                pieces_text(self.pieces@, orig, addb) == t,
                t == old(self).text(),
                t.len() < usize::MAX,
                orig_n == orig.len(),
                add_n == addb.len(),
                pieces_wf(new_pieces@, orig, addb),
                doc_pos == pieces_text(self.pieces@.take(i as int), orig, addb).len(),
                doc_pos <= t.len(),
                !found ==> offset >= doc_pos,
                !found ==> pieces_text(new_pieces@, orig, addb) == t.take(doc_pos as int),
                found ==> offset < doc_pos,
                found ==> pieces_text(new_pieces@, orig, addb) == t.take(offset as int)
                    + t.subrange(offset + 1, doc_pos as int),
            decreases self.pieces@.len() - i,
        {
            let p = self.pieces[i];
            proof {
                lemma_pieces_text_split(self.pieces@, orig, addb, i as int);
                lemma_pieces_text_skip(self.pieces@, orig, addb, i as int);
                assert(piece_wf(self.pieces@[i as int], orig, addb));
                assert(piece_span(p, orig, addb).len() == p.length);
                assert(pieces_text(self.pieces@.take(i as int), orig, addb) =~= t.take(
                    doc_pos as int,
                ));
                assert(doc_pos + p.length <= t.len());
                assert(pieces_text(self.pieces@.skip(i as int), orig, addb) =~= t.skip(
                    doc_pos as int,
                ));
                assert(piece_span(p, orig, addb) =~= t.subrange(doc_pos as int, doc_pos
                    + p.length));
            }
            let ghost np0 = new_pieces@;
            if !found && doc_pos <= offset && offset < doc_pos + p.length {
                found = true;
                let within = offset - doc_pos;
                let pb = Piece { source: p.source, offset: p.offset, length: within };
                let pa = Piece {
                    source: p.source,
                    offset: p.offset + within + 1,
                    length: p.length - within - 1,
                };
                proof {
                    assert(piece_wf(pb, orig, addb));
                    assert(piece_wf(pa, orig, addb));
                    assert(piece_span(pb, orig, addb) =~= t.subrange(doc_pos as int,
                    offset as int));
                    assert(piece_span(pa, orig, addb) =~= t.subrange(offset + 1, doc_pos
                        + p.length));
                }
                if within > 0 {
                    new_pieces.push(pb);
                    proof {
                        lemma_pieces_text_push(np0, orig, addb, pb);
                    }
                }
                let ghost np1 = new_pieces@;
                if p.length - within > 1 {
                    new_pieces.push(pa);
                    proof {
                        lemma_pieces_text_push(np1, orig, addb, pa);
                    }
                }
                proof {
                    assert(t.take(doc_pos as int) + t.subrange(doc_pos as int, offset as int) =~=
                    t.take(offset as int));
                    if p.length - within > 1 {
                        assert(pieces_text(new_pieces@, orig, addb) =~= t.take(offset as int)
                            + t.subrange(offset + 1, doc_pos + p.length));
                    } else {
                        assert(t.subrange(offset + 1, doc_pos + p.length) =~= Seq::<
                            char,
                        >::empty());
                        assert(pieces_text(new_pieces@, orig, addb) =~= t.take(offset as int)
                            + t.subrange(offset + 1, doc_pos + p.length));
                    }
                }
            } else {
                new_pieces.push(p);
                proof {
                    lemma_pieces_text_push(np0, orig, addb, p);
                    if found {
                        assert(pieces_text(new_pieces@, orig, addb) =~= t.take(offset as int)
                            + t.subrange(offset + 1, doc_pos + p.length));
                    } else {
                        assert(pieces_text(new_pieces@, orig, addb) =~= t.take(doc_pos
                            + p.length));
                    }
                }
            }
            proof {
                lemma_pieces_text_push(self.pieces@.take(i as int), orig, addb,
                self.pieces@[i as int]);
                assert(self.pieces@.take(i as int).push(self.pieces@[i as int]) =~=
                self.pieces@.take(i as int + 1));
            }
            doc_pos = doc_pos + p.length;
            i = i + 1;
        }
        proof {
            assert(self.pieces@.take(self.pieces@.len() as int) =~= self.pieces@);
            assert(doc_pos == t.len());
        }
        self.pieces = new_pieces;
        proof {
            if found {
                assert(t.subrange(offset + 1, t.len() as int) =~= t.skip(offset + 1));
                assert(self.text() == t.take(offset as int) + t.skip(offset + 1));
            } else {
                assert(t.take(t.len() as int) =~= t);
            }
        }
    }

    /// The whole document, spelled out for persistence.
    pub fn get_string(&self) -> (r: Vec<char>)
        requires
            self.wf(),
        ensures
            r@ == self.text(),
    {
        let mut r: Vec<char> = Vec::new();
        let mut i: usize = 0;
        assert(self.pieces@.skip(0) =~= self.pieces@);
        assert(r@ + self.text() =~= self.text());
        while i < self.pieces.len()
            invariant
                self.wf(),
                i <= self.pieces@.len(),
                r@ + pieces_text(self.pieces@.skip(i as int), self.original@, self.add@)
                    == self.text(),
            decreases self.pieces@.len() - i,
        {
            proof {
                lemma_pieces_text_skip(self.pieces@, self.original@, self.add@, i as int);
                assert(piece_wf(self.pieces@[i as int], self.original@, self.add@));
            }
            let p = self.pieces[i];
            let ghost before = r@;
            match p.source {
                Source::Original => {
                    push_span(&mut r, &self.original, p.offset, p.length);
                },
                Source::Add => {
                    push_span(&mut r, &self.add, p.offset, p.length);
                },
            }
            proof {
                assert(r@ == before + piece_span(self.pieces@[i as int], self.original@,
                self.add@));
                assert(r@ + pieces_text(self.pieces@.skip(i as int + 1), self.original@, self.add@)
                    =~= before + pieces_text(self.pieces@.skip(i as int), self.original@,
                self.add@));
            }
            i = i + 1;
        }
        assert(pieces_text(self.pieces@.skip(self.pieces@.len() as int), self.original@, self.add@)
            == Seq::<char>::empty());
        assert(r@ + pieces_text(self.pieces@.skip(self.pieces@.len() as int), self.original@,
        self.add@) =~= r@);
        r
    }
}

/// Character `base + w` of the document is character `w` of piece `i`'s
/// span, where `base` is the length of the text the earlier pieces spell.
proof fn lemma_piece_char(ps: Seq<Piece>, orig: Seq<char>, add: Seq<char>, i: int, w: int)
    requires
        pieces_wf(ps, orig, add),
        0 <= i < ps.len(),
        0 <= w < ps[i].length,
    ensures
        pieces_text(ps.take(i), orig, add).len() + w < pieces_text(ps, orig, add).len(),
        pieces_text(ps, orig, add)[pieces_text(ps.take(i), orig, add).len() + w] == piece_span(
            ps[i],
            orig,
            add,
        )[w],
{
    lemma_pieces_text_split(ps, orig, add, i);
    lemma_pieces_text_skip(ps, orig, add, i);
    let base = pieces_text(ps.take(i), orig, add).len() as int;
    assert(piece_wf(ps[i], orig, add));
    assert(piece_span(ps[i], orig, add).len() == ps[i].length);
    assert(pieces_text(ps.skip(i), orig, add)[w] == piece_span(ps[i], orig, add)[w]);
    assert(pieces_text(ps, orig, add)[base + w] == pieces_text(ps.skip(i), orig, add)[w]);
}

/// Capacity allocated for a window over lines `from ..= to`.
pub open spec fn window_cap(from: int, to: int) -> int {
    if from <= to {
        if to - from + 1 <= usize::MAX {
            to - from + 1
        } else {
            usize::MAX as int
        }
    } else {
        0
    }
}

impl PieceTable {
    /// Collect the records of lines `from ..= to` (1-based; a `from` of 0
    /// is treated as 1): each line in range that the document has yields
    /// one record with its text, its number, and its starting offset.
    #[verifier::rlimit(50)]
    pub fn get_lines(&self, from: usize, to: usize) -> (r: Segment)
        requires
            self.wf(),
        ensures
            r.wf(),
            r.matches_text(self.text()),
            r.cap == window_cap(from as int, to as int),
            ({
                let lo: int = if from > 1 {
                    from as int
                } else {
                    1
                };
                let hi: int = if to <= line_count(self.text()) {
                    to as int
                } else {
                    line_count(self.text()) as int
                };
                &&& r.nodes@.len() == (if hi >= lo {
                    hi - lo + 1
                } else {
                    0
                })
                &&& (forall|k: int|
                    0 <= k < r.nodes@.len() ==> (#[trigger] r.nodes@[k]).line_number == lo + k)
            }),
    {
        let cp: usize = if from <= to {
            if to - from < usize::MAX {
                to - from + 1
            } else {
                usize::MAX
            }
        } else {
            0
        };
        let text = self.get_string();
        let n = text.len();
        let ghost tx = self.text();
        proof {
            lemma_line_count_le_len(tx);
        }
        let lo: usize = if from > 1 {
            from
        } else {
            1
        };
        let mut seg = Segment::new(cp);
        let mut line_no: usize = 1;
        let mut pos: usize = 0;
        while line_no < lo && pos < n
            invariant
                text@ == tx,
                n == tx.len(),
                tx.len() < usize::MAX,
                line_count(tx) <= tx.len(),
                1 <= line_no <= lo,
                pos == line_start(tx, line_no - 1),
                pos <= n,
                line_no - 1 <= line_count(tx),
            decreases lo - line_no,
        {
            proof {
                lemma_lines_skip(tx, line_no - 1);
                assert(tx.skip(pos as int).len() > 0);
                assert(lines_of(tx).skip(line_no - 1).len() >= 1);
                assert(line_no - 1 < line_count(tx));
            }
            let end = find_line_end(&text, pos);
            proof {
                let s = tx.skip(pos as int);
                lemma_first_line_len_bounds(s);
                assert(lines_of(s)[0] == s.take(first_line_len(s) as int));
                assert(lines_of(s)[0] == lines_of(tx).skip(line_no - 1)[0]);
                assert(lines_of(tx)[line_no - 1].len() == first_line_len(s));
                assert(end == line_start(tx, line_no as int));
            }
            pos = end;
            line_no = line_no + 1;
        }
        while line_no <= to && pos < n
            invariant
                text@ == tx,
                n == tx.len(),
                tx.len() < usize::MAX,
                line_count(tx) <= tx.len(),
                1 <= line_no,
                1 <= lo,
                from <= lo,
                lo as int == (if from > 1 {
                    from as int
                } else {
                    1
                }),
                cp as int == window_cap(from as int, to as int),
                seg.cap == cp,
                line_no < lo ==> (pos == n && seg.nodes@.len() == 0),
                line_no >= lo ==> line_no - lo == seg.nodes@.len(),
                line_no <= lo || line_no <= to + 1,
                pos == line_start(tx, line_no - 1),
                pos <= n,
                line_no - 1 <= line_count(tx),
                seg.wf(),
                seg.matches_text(tx),
                forall|k: int|
                    0 <= k < seg.nodes@.len() ==> (#[trigger] seg.nodes@[k]).line_number == lo + k,
            decreases to + 1 - line_no,
        {
            proof {
                lemma_lines_skip(tx, line_no - 1);
                assert(tx.skip(pos as int).len() > 0);
                assert(lines_of(tx).skip(line_no - 1).len() >= 1);
                assert(line_no - 1 < line_count(tx));
            }
            let end = find_line_end(&text, pos);
            proof {
                let s = tx.skip(pos as int);
                lemma_first_line_len_bounds(s);
                assert(lines_of(s)[0] == s.take(first_line_len(s) as int));
                assert(lines_of(s)[0] == lines_of(tx).skip(line_no - 1)[0]);
                assert(lines_of(tx)[line_no - 1].len() == first_line_len(s));
                assert(end == line_start(tx, line_no as int));
                assert(s.take(first_line_len(s) as int) =~= tx.subrange(pos as int, end as int));
                assert(lines_of(tx)[line_no - 1] == tx.subrange(pos as int, end as int));
            }
            let v = copy_range(&text, pos, end);
            let ghost nodes0 = seg.nodes@;
            seg.new_b(v, line_no, pos);
            proof {
                assert forall|k: int| 0 <= k < seg.nodes@.len() implies (#[trigger] seg.nodes@[
                k]).line_number == lo + k by {
                    if k < nodes0.len() {
                        assert(seg.nodes@.take(nodes0.len() as int)[k] == seg.nodes@[k]);
                    } else {
                        assert(seg.nodes@[k] == seg.nodes@.last());
                    }
                }
                assert forall|k: int| 0 <= k < seg.nodes@.len() implies {
                    let node = #[trigger] seg.nodes@[k];
                    &&& 1 <= node.line_number <= line_count(tx)
                    &&& node.value@ == lines_of(tx)[node.line_number - 1]
                    &&& node.offset == line_start(tx, node.line_number - 1)
                } by {
                    if k < nodes0.len() {
                        assert(seg.nodes@.take(nodes0.len() as int)[k] == seg.nodes@[k]);
                        assert(nodes0[k] == seg.nodes@[k]);
                    } else {
                        assert(seg.nodes@[k] == seg.nodes@.last());
                    }
                }
            }
            pos = end;
            line_no = line_no + 1;
        }
        proof {
            if pos == n {
                lemma_lines_skip(tx, line_no - 1);
                assert(tx.skip(pos as int).len() == 0);
                assert(lines_of(tx).skip(line_no - 1).len() == 0);
                assert(line_count(tx) == line_no - 1);
            }
        }
        seg
    }

    /// Length of the document: the piece lengths summed.
    pub fn doc_len(&self) -> (n: usize)
        requires
            self.wf(),
        ensures
            n == self.text().len(),
    {
        let ghost tx = self.text();
        let mut n: usize = 0;
        let mut i: usize = 0;
        proof {
            assert(self.pieces@.take(0) =~= Seq::<Piece>::empty());
        }
        while i < self.pieces.len()
            invariant
                self.wf(),
                tx == self.text(),
                i <= self.pieces@.len(),
                n == pieces_text(self.pieces@.take(i as int), self.original@, self.add@).len(),
                n <= tx.len(),
            decreases self.pieces@.len() - i,
        {
            proof {
                lemma_pieces_text_split(self.pieces@, self.original@, self.add@, i as int);
                lemma_pieces_text_skip(self.pieces@, self.original@, self.add@, i as int);
                lemma_pieces_text_push(self.pieces@.take(i as int), self.original@, self.add@,
                self.pieces@[i as int]);
                assert(self.pieces@.take(i as int).push(self.pieces@[i as int]) =~=
                self.pieces@.take(i as int + 1));
                assert(n + self.pieces@[i as int].length <= tx.len());
            }
            n = n + self.pieces[i].length;
            i = i + 1;
        }
        proof {
            assert(self.pieces@.take(self.pieces@.len() as int) =~= self.pieces@);
        }
        n
    }

    /// Character `w` of piece `i`'s span, read from its backing buffer.
    fn piece_char(&self, i: usize, w: usize) -> (c: char)
        requires
            self.wf(),
            i < self.pieces@.len(),
            w < self.pieces@[i as int].length,
        ensures
            c == piece_span(self.pieces@[i as int], self.original@, self.add@)[w as int],
    {
        let on = self.original.len();
        let an = self.add.len();
        let p = self.pieces[i];
        proof {
            assert(piece_wf(self.pieces@[i as int], self.original@, self.add@));
        }
        match p.source {
            Source::Original => self.original[p.offset + w],
            Source::Add => self.add[p.offset + w],
        }
    }

    /// The line that starts at document offset `start`: everything up to
    /// and including the next newline, or to the document's end, read
    /// piece by piece without touching the rest of the document.
    pub(crate) fn read_line_at(&self, start: usize) -> (v: Vec<char>)
        requires
            self.wf(),
            start < self.text().len(),
        ensures
            v@ == self.text().subrange(
                start as int,
                start + first_line_len(self.text().skip(start as int)),
            ),
            v@.len() >= 1,
    {
        let ghost tx = self.text();
        let mut i: usize = 0;
        let mut base: usize = 0;
        proof {
            assert(self.pieces@.take(0) =~= Seq::<Piece>::empty());
        }
        while i < self.pieces.len() && self.pieces[i].length <= start - base
            invariant
                self.wf(),
                tx == self.text(),
                i <= self.pieces@.len(),
                base == pieces_text(self.pieces@.take(i as int), self.original@, self.add@).len(),
                base <= start,
                start < tx.len(),
            decreases self.pieces@.len() - i,
        {
            proof {
                lemma_pieces_text_push(self.pieces@.take(i as int), self.original@, self.add@,
                self.pieces@[i as int]);
                assert(self.pieces@.take(i as int).push(self.pieces@[i as int]) =~=
                self.pieces@.take(i as int + 1));
            }
            base = base + self.pieces[i].length;
            i = i + 1;
        }
        proof {
            if i == self.pieces@.len() {
                assert(self.pieces@.take(self.pieces@.len() as int) =~= self.pieces@);
                assert(false);
            }
        }
        let mut w: usize = start - base;
        let mut pos: usize = start;
        let mut v: Vec<char> = Vec::new();
        proof {
            assert(v@ =~= tx.subrange(start as int, start as int));
        }
        while i < self.pieces.len()
            invariant
                self.wf(),
                tx == self.text(),
                i <= self.pieces@.len(),
                base == pieces_text(self.pieces@.take(i as int), self.original@, self.add@).len(),
                i < self.pieces@.len() ==> (w <= self.pieces@[i as int].length && pos == base + w),
                i == self.pieces@.len() ==> pos == tx.len(),
                start <= pos <= tx.len(),
                v@ == tx.subrange(start as int, pos as int),
                forall|q: int| start <= q < pos ==> tx[q] != '\n',
            decreases self.pieces@.len() - i,
        {
            let p = self.pieces[i];
            while w < p.length
                invariant
                    self.wf(),
                    tx == self.text(),
                    i < self.pieces@.len(),
                    p == self.pieces@[i as int],
                    base == pieces_text(
                        self.pieces@.take(i as int),
                        self.original@,
                        self.add@,
                    ).len(),
                    w <= p.length,
                    pos == base + w,
                    pos <= tx.len(),
                    start <= pos,
                    v@ == tx.subrange(start as int, pos as int),
                    forall|q: int| start <= q < pos ==> tx[q] != '\n',
                decreases p.length - w,
            {
                proof {
                    lemma_piece_char(self.pieces@, self.original@, self.add@, i as int, w as int);
                }
                let c = self.piece_char(i, w);
                proof {
                    assert(c == tx[pos as int]);
                }
                let ghost v0 = v@;
                v.push(c);
                pos = pos + 1;
                w = w + 1;
                proof {
                    assert(v@ =~= tx.subrange(start as int, pos as int));
                }
                if c == '\n' {
                    proof {
                        let s = tx.skip(start as int);
                        assert(s[pos - 1 - start] == tx[pos - 1]);
                        assert forall|m: int| 0 <= m < pos - 1 - start implies s[m] != '\n' by {
                            assert(s[m] == tx[m + start]);
                        }
                        lemma_first_line_len_at(s, pos - 1 - start);
                    }
                    return v;
                }
            }
            proof {
                lemma_pieces_text_push(self.pieces@.take(i as int), self.original@, self.add@,
                self.pieces@[i as int]);
                assert(self.pieces@.take(i as int).push(self.pieces@[i as int]) =~=
                self.pieces@.take(i as int + 1));
                if i + 1 == self.pieces@.len() {
                    assert(self.pieces@.take(self.pieces@.len() as int) =~= self.pieces@);
                }
            }
            base = base + p.length;
            w = 0;
            i = i + 1;
        }
        proof {
            let s = tx.skip(start as int);
            assert forall|m: int| 0 <= m < s.len() implies s[m] != '\n' by {
                assert(s[m] == tx[m + start]);
            }
            lemma_first_line_len_no_newline(s);
        }
        v
    }

    /// The start of the line that holds position `end - 1`: scan backward
    /// over the pieces to just past the previous newline, or to the
    /// document's start.
    fn find_line_start(&self, end: usize) -> (r: usize)
        requires
            self.wf(),
            1 <= end <= self.text().len(),
        ensures
            r <= end - 1,
            forall|q: int| r <= q < end - 1 ==> self.text()[q] != '\n',
            r == 0 || self.text()[r - 1] == '\n',
    {
        let ghost tx = self.text();
        let mut i: usize = 0;
        let mut base: usize = 0;
        proof {
            assert(self.pieces@.take(0) =~= Seq::<Piece>::empty());
        }
        while i < self.pieces.len() && self.pieces[i].length <= (end - 1) - base
            invariant
                self.wf(),
                tx == self.text(),
                i <= self.pieces@.len(),
                base == pieces_text(self.pieces@.take(i as int), self.original@, self.add@).len(),
                base <= end - 1,
                end <= tx.len(),
                1 <= end,
            decreases self.pieces@.len() - i,
        {
            proof {
                lemma_pieces_text_push(self.pieces@.take(i as int), self.original@, self.add@,
                self.pieces@[i as int]);
                assert(self.pieces@.take(i as int).push(self.pieces@[i as int]) =~=
                self.pieces@.take(i as int + 1));
            }
            base = base + self.pieces[i].length;
            i = i + 1;
        }
        proof {
            if i == self.pieces@.len() {
                assert(self.pieces@.take(self.pieces@.len() as int) =~= self.pieces@);
                assert(false);
            }
        }
        let mut cur: usize = end - 1;
        while cur > 0
            invariant
                self.wf(),
                tx == self.text(),
                i < self.pieces@.len(),
                base == pieces_text(self.pieces@.take(i as int), self.original@, self.add@).len(),
                cur <= base + self.pieces@[i as int].length,
                cur <= end - 1,
                end <= tx.len(),
                forall|q: int| cur <= q < end - 1 ==> tx[q] != '\n',
            decreases cur,
        {
            while cur - 1 < base
                invariant
                    self.wf(),
                    tx == self.text(),
                    i < self.pieces@.len(),
                    base == pieces_text(
                        self.pieces@.take(i as int),
                        self.original@,
                        self.add@,
                    ).len(),
                    cur >= 1,
                    cur <= base + self.pieces@[i as int].length,
                decreases i,
            {
                proof {
                    if i == 0 {
                        assert(base == 0);
                        assert(false);
                    }
                    lemma_pieces_text_push(self.pieces@.take(i as int - 1), self.original@,
                    self.add@, self.pieces@[i as int - 1]);
                    assert(self.pieces@.take(i as int - 1).push(self.pieces@[i as int - 1]) =~=
                    self.pieces@.take(i as int));
                }
                i = i - 1;
                base = base - self.pieces[i].length;
            }
            proof {
                lemma_piece_char(self.pieces@, self.original@, self.add@, i as int, cur - 1
                    - base);
            }
            let c = self.piece_char(i, cur - 1 - base);
            proof {
                assert(c == tx[cur - 1]);
            }
            if c == '\n' {
                return cur;
            }
            cur = cur - 1;
        }
        cur
    }

    /// Shift the window one line forward: drop its first record and
    /// append the record of the line after its last, read in place from
    /// the pieces at the cached end offset. Without such a next line the
    /// window stays as it is.
    pub fn next_line(&self, segment: &mut Segment)
        requires
            self.wf(),
            old(segment).wf(),
            old(segment).matches_text(self.text()),
        ensures
            final(segment).cap == old(segment).cap,
            final(segment).wf(),
            final(segment).matches_text(self.text()),
            old(segment).nodes@.len() == 0 ==> final(segment).nodes@ == old(segment).nodes@,
            old(segment).nodes@.len() > 0 && old(segment).nodes@.last().line_number + 1
                > line_count(self.text()) ==> final(segment).nodes@ == old(segment).nodes@,
            old(segment).nodes@.len() > 0 && old(segment).nodes@.last().line_number + 1
                <= line_count(self.text()) ==> {
                let b = old(segment).nodes@.last().line_number as int;
                &&& final(segment).nodes@.len() == old(segment).nodes@.len()
                &&& (forall|k: int|
                    0 <= k < old(segment).nodes@.len() - 1 ==> final(segment).nodes@[k] == old(segment).nodes@[k + 1])
                &&& final(segment).nodes@.last().line_number == b + 1
                &&& final(segment).nodes@.last().value@ == lines_of(self.text())[b]
                &&& final(segment).nodes@.last().offset == line_start(self.text(), b)
            },
    {
        let ghost tx = self.text();
        let (bln, boff, blen) = match segment.back() {
            Some(node) => (node.line_number, node.offset, node.value.len()),
            None => {
                return ;
            },
        };
        proof {
            lemma_line_count_le_len(tx);
            let lk = segment.nodes@.len() - 1;
            assert(segment.nodes@[lk] == segment.nodes@.last());
            assert(boff == line_start(tx, bln - 1));
            assert(blen == lines_of(tx)[bln - 1].len());
            assert(boff + blen == line_start(tx, bln as int));
            lemma_lines_skip(tx, bln as int);
        }
        let total = self.doc_len();
        let start = boff + blen;
        if start >= total {
            proof {
                assert(tx.skip(start as int).len() == 0);
                assert(lines_of(tx).skip(bln as int).len() == 0);
                assert(line_count(tx) <= bln);
            }
            return ;
        }
        proof {
            assert(tx.skip(start as int).len() > 0);
            assert(lines_of(tx).skip(bln as int).len() >= 1);
            assert(bln < line_count(tx));
        }
        let v = self.read_line_at(start);
        proof {
            let s = tx.skip(start as int);
            lemma_first_line_len_bounds(s);
            assert(lines_of(s)[0] == s.take(first_line_len(s) as int));
            assert(lines_of(s)[0] == lines_of(tx).skip(bln as int)[0]);
            assert(lines_of(tx)[bln as int].len() == first_line_len(s));
            assert(s.take(first_line_len(s) as int) =~= tx.subrange(
                start as int,
                start + first_line_len(s),
            ));
            assert(v@ == lines_of(tx)[bln as int]);
        }
        let node = SegmentNode::new(v, bln + 1, start);
        let ghost nodes0 = segment.nodes@;
        segment.pop_f();
        segment.add_b(node);
        proof {
            assert(segment.nodes@ == nodes0.skip(1).push(node));
            assert forall|k: int| 0 <= k < segment.nodes@.len() implies (#[trigger]
            segment.nodes@[k]).line_number == segment.first_line() + k by {
                if k < nodes0.len() - 1 {
                    assert(segment.nodes@[k] == nodes0[k + 1]);
                }
            }
            assert forall|k: int| 0 <= k < segment.nodes@.len() implies {
                let nd = #[trigger] segment.nodes@[k];
                &&& 1 <= nd.line_number <= line_count(tx)
                &&& nd.value@ == lines_of(tx)[nd.line_number - 1]
                &&& nd.offset == line_start(tx, nd.line_number - 1)
            } by {
                if k < nodes0.len() - 1 {
                    assert(segment.nodes@[k] == nodes0[k + 1]);
                }
            }
        }
    }

    /// Shift the window one line back: drop its last record and prepend
    /// the record of the line before its first, found by scanning back
    /// to the previous newline and reading one line in place. At the top
    /// of the document the window stays as it is.
    pub fn prev_line(&self, segment: &mut Segment)
        requires
            self.wf(),
            old(segment).wf(),
            old(segment).matches_text(self.text()),
        ensures
            final(segment).cap == old(segment).cap,
            final(segment).wf(),
            final(segment).matches_text(self.text()),
            old(segment).nodes@.len() == 0 ==> final(segment).nodes@ == old(segment).nodes@,
            old(segment).nodes@.len() > 0 && old(segment).nodes@[0].line_number <= 1 ==> final(segment).nodes@ == old(segment).nodes@,
            old(segment).nodes@.len() > 0 && old(segment).nodes@[0].line_number > 1 ==> {
                let f = old(segment).nodes@[0].line_number as int;
                &&& final(segment).nodes@.len() == old(segment).nodes@.len()
                &&& (forall|k: int|
                    1 <= k < old(segment).nodes@.len() ==> final(segment).nodes@[k] == old(segment).nodes@[k - 1])
                &&& final(segment).nodes@[0].line_number == f - 1
                &&& final(segment).nodes@[0].value@ == lines_of(self.text())[f - 2]
                &&& final(segment).nodes@[0].offset == line_start(self.text(), f - 2)
            },
    {
        let ghost tx = self.text();
        let (fln, foff) = match segment.front() {
            Some(node) => (node.line_number, node.offset),
            None => {
                return ;
            },
        };
        if fln <= 1 {
            return ;
        }
        let ghost m = fln - 2;
        proof {
            lemma_line_count_le_len(tx);
            assert(segment.nodes@[0].line_number == fln);
            assert(foff == line_start(tx, fln - 1));
            lemma_lines_shape(tx);
            crate::text::lemma_line_decompose(tx, m);
            assert(foff == line_start(tx, m) + lines_of(tx)[m].len());
            assert(1 <= foff <= tx.len());
        }
        let s0 = self.find_line_start(foff);
        proof {
            let ls = line_start(tx, m);
            let ln = lines_of(tx)[m];
            assert(ln == tx.subrange(ls, ls + ln.len()));
            if s0 < ls {
                assert(ls >= 1);
                assert(tx.take(ls).last() == tx[ls - 1]);
                assert(tx[ls - 1] == '\n');
                assert(ls - 1 < foff - 1);
                assert(false);
            }
            if s0 > ls {
                assert(tx[s0 - 1] == '\n');
                assert(ls <= s0 - 1 < foff - 1);
                assert(ln[s0 - 1 - ls] == tx[s0 - 1]);
                assert(ln[s0 - 1 - ls] != '\n');
                assert(false);
            }
            assert(s0 == ls);
            lemma_lines_skip(tx, m);
        }
        let v = self.read_line_at(s0);
        proof {
            let s = tx.skip(s0 as int);
            lemma_first_line_len_bounds(s);
            assert(lines_of(s)[0] == s.take(first_line_len(s) as int));
            assert(lines_of(s)[0] == lines_of(tx).skip(m)[0]);
            assert(lines_of(tx)[m].len() == first_line_len(s));
            assert(s.take(first_line_len(s) as int) =~= tx.subrange(
                s0 as int,
                s0 + first_line_len(s),
            ));
            assert(v@ == lines_of(tx)[m]);
        }
        let node = SegmentNode::new(v, fln - 1, s0);
        let ghost nodes0 = segment.nodes@;
        segment.pop_b();
        segment.add_f(node);
        proof {
            assert(segment.nodes@ == nodes0.take(nodes0.len() - 1).insert(0, node));
            assert(segment.nodes@[0] == node);
            assert forall|k: int| 1 <= k < segment.nodes@.len() implies segment.nodes@[k]
                == nodes0[k - 1] by {
                assert(segment.nodes@[k] == nodes0.take(nodes0.len() - 1)[k - 1]);
            }
            assert forall|k: int| 0 <= k < segment.nodes@.len() implies (#[trigger]
            segment.nodes@[k]).line_number == segment.first_line() + k by {
                if k >= 1 {
                    assert(segment.nodes@[k] == nodes0[k - 1]);
                }
            }
            assert forall|k: int| 0 <= k < segment.nodes@.len() implies {
                let nd = #[trigger] segment.nodes@[k];
                &&& 1 <= nd.line_number <= line_count(tx)
                &&& nd.value@ == lines_of(tx)[nd.line_number - 1]
                &&& nd.offset == line_start(tx, nd.line_number - 1)
            } by {
                if k >= 1 {
                    assert(segment.nodes@[k] == nodes0[k - 1]);
                }
            }
        }
    }
}

/// Find the end (exclusive) of the line that starts at `start`: just past
/// the first newline at or after it, or the end of the text.
pub(crate) fn find_line_end(text: &Vec<char>, start: usize) -> (end: usize)
    requires
        start < text@.len(),
    ensures
        start < end <= text@.len(),
        end - start == first_line_len(text@.skip(start as int)),
{
    let n = text.len();
    let mut i = start;
    while i < n
        invariant
            start <= i <= n,
            n == text@.len(),
            forall|m: int| start <= m < i ==> text@[m] != '\n',
        decreases n - i,
    {
        if text[i] == '\n' {
            proof {
                let s = text@.skip(start as int);
                assert(s[i - start] == text@[i as int]);
                assert forall|m: int| 0 <= m < i - start implies s[m] != '\n' by {
                    assert(s[m] == text@[m + start]);
                }
                lemma_first_line_len_at(s, i - start);
            }
            return i + 1;
        }
        i = i + 1;
    }
    proof {
        let s = text@.skip(start as int);
        assert forall|m: int| 0 <= m < s.len() implies s[m] != '\n' by {
            assert(s[m] == text@[m + start]);
        }
        lemma_first_line_len_no_newline(s);
    }
    n
}

/// Copy `text[from .. to]` out as a fresh vector.
fn copy_range(text: &Vec<char>, from: usize, to: usize) -> (r: Vec<char>)
    requires
        from <= to <= text@.len(),
    ensures
        r@ == text@.subrange(from as int, to as int),
{
    let mut r: Vec<char> = Vec::new();
    push_span(&mut r, text, from, to - from);
    assert(r@ =~= text@.subrange(from as int, to as int));
    r
}

/// Append `buf[offset .. offset + length]` to `r`.
pub(crate) fn push_span(r: &mut Vec<char>, buf: &Vec<char>, offset: usize, length: usize)
    requires
        offset + length <= buf@.len(),
    ensures
        final(r)@ == old(r)@ + buf@.subrange(offset as int, offset + length),
{
    let n = buf.len();
    let mut j: usize = 0;
    assert(r@ =~= old(r)@ + buf@.subrange(offset as int, offset as int));
    while j < length
        invariant
            j <= length,
            offset + length <= buf@.len() <= usize::MAX,
            r@ == old(r)@ + buf@.subrange(offset as int, offset + j),
        decreases length - j,
    {
        let ghost prev = r@;
        r.push(buf[offset + j]);
        j = j + 1;
        assert(r@ =~= old(r)@ + buf@.subrange(offset as int, offset + j));
    }
}

} // verus!
