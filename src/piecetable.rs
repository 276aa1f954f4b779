//! The piece table: a document held as an ordered sequence of pieces over
//! an original buffer and an append-only buffer of inserted text. Positions
//! and lengths count characters.
use vstd::prelude::*;
use vstd::string::*;

use crate::pieces::{
    clamp,
    lemma_extend_added,
    lemma_insert_piece,
    lemma_offset_end,
    lemma_before_boundary,
    lemma_count_le_total,
    lemma_holds_unique,
    lemma_offset_mono,
    lemma_offset_strict,
    lemma_offsets,
    lemma_piece_in_text,
    lemma_pieces_text_len,
    lemma_split_insert,
    lemma_total_len_nonneg,
    lemma_trim,
    lemma_trim_offsets,
    offset_of,
    piece_text,
    piece_valid,
    pieces_text,
    pieces_valid,
    split_around,
    total_len,
    trim_pieces,
};

verus! {

/// Which backing buffer a piece refers to.
#[derive(Clone, Copy, Debug, PartialEq, Eq, Structural)]
pub enum Source {
    /// The text the table was created with; never changed afterwards.
    Original,
    /// The append-only buffer that receives every inserted text.
    Added,
}

/// A contiguous run of characters in one backing buffer.
#[derive(Clone, Copy, Debug, PartialEq, Eq, Structural)]
pub struct Piece {
    pub source: Source,
    pub start: usize,
    pub length: usize,
}

impl Piece {
    pub fn new(source: Source, start: usize, length: usize) -> (r: Piece)
        ensures
            r == (Piece { source, start, length }),
    {
        Piece { source, start, length }
    }

    /// One past the last buffer position the piece covers.
    pub open spec fn end(self) -> int {
        self.start + self.length
    }
}

/// A document held as a sequence of pieces over two buffers: the original
/// text and an append-only buffer of inserted text.
pub struct PieceTable {
    original: String,
    added: String,
    added_len: usize,
    pieces: Vec<Piece>,
    text_len: usize,
}

impl View for PieceTable {
    type V = Seq<char>;

    /// The current document text.
    open spec fn view(&self) -> Seq<char> {
        pieces_text(self.original_text(), self.added_text(), self.piece_seq())
    }
}

impl PieceTable {
    /// The original buffer.
    pub closed spec fn original_text(&self) -> Seq<char> {
        self.original@
    }

    /// The added buffer.
    pub closed spec fn added_text(&self) -> Seq<char> {
        self.added@
    }

    /// The piece sequence.
    pub closed spec fn piece_seq(&self) -> Seq<Piece> {
        self.pieces@
    }

    /// Logical start of piece `i`.
    pub open spec fn piece_offset(&self, i: int) -> int {
        offset_of(self.piece_seq(), i)
    }

    /// Whether piece `i` holds logical position `pos`.
    pub open spec fn piece_holds(&self, i: int, pos: int) -> bool {
        &&& 0 <= i < self.piece_seq().len()
        &&& self.piece_offset(i) <= pos < self.piece_offset(i) + self.piece_seq()[i].length
    }

    /// Well-formedness: every piece is non-empty and inside its buffer, and
    /// the tracked length is the sum of the piece lengths.
    pub closed spec fn wf(&self) -> bool {
        &&& pieces_valid(self.original@, self.added@, self.pieces@)
        &&& self.text_len as int == total_len(self.pieces@)
        &&& self.added_len as int == self.added@.len()
        &&& self.original@.len() <= usize::MAX
    }

    proof fn lemma_view_len(&self)
        requires
            self.wf(),
        ensures
            self@.len() == self.text_len,
            total_len(self.piece_seq()) == self.text_len,
    {
        lemma_pieces_text_len(self.original@, self.added@, self.pieces@);
    }

    /// A table whose text is `orig_txt`, held in a single piece (none when
    /// the text is empty).
    pub fn new(orig_txt: &str) -> (r: PieceTable)
        ensures
            r.wf(),
            r@ == orig_txt@,
            r.original_text() == orig_txt@,
            r.added_text() == Seq::<char>::empty(),
            r.piece_seq() == if orig_txt@.len() == 0 {
                Seq::<Piece>::empty()
            } else {
                seq![Piece { source: Source::Original, start: 0, length: orig_txt@.len() as usize }]
            },
    {
        let original = orig_txt.to_owned();
        let n = orig_txt.unicode_len();
        let mut pieces: Vec<Piece> = Vec::new();
        if n > 0 {
            pieces.push(Piece::new(Source::Original, 0, n));
        }
        let r = PieceTable { original, added: String::new(), added_len: 0, pieces, text_len: n };
        proof {
            let ps = r.pieces@;
            if n > 0 {
                assert(ps.drop_last() =~= Seq::<Piece>::empty());
                assert(pieces_text(r.original@, r.added@, ps.drop_last()) =~= Seq::<char>::empty());
                assert(total_len(ps.drop_last()) == 0);
                assert(r.original@.subrange(0, n as int) =~= r.original@);
            } else {
                assert(ps =~= Seq::<Piece>::empty());
            }
            assert(r@ =~= orig_txt@);
        }
        r
    }

    /// The number of pieces.
    pub fn len(&self) -> (r: usize)
        ensures
            r == self.piece_seq().len(),
    {
        self.pieces.len()
    }

    /// The piece with index `index`, if there is one.
    pub fn piece_at(&self, index: usize) -> (r: Option<&Piece>)
        ensures
            index < self.piece_seq().len() ==> r == Some(&self.piece_seq()[index as int]),
            index >= self.piece_seq().len() ==> r is None,
    {
        if index < self.pieces.len() {
            Some(&self.pieces[index])
        } else {
            None
        }
    }

    /// The length of the added buffer, in characters.
    pub fn added_len(&self) -> (r: usize)
        requires
            self.wf(),
        ensures
            r == self.added_text().len(),
    {
        self.added_len
    }

    /// What well-formedness gives a caller: every piece is non-empty and
    /// lies inside its buffer, the piece lengths add up to the length of
    /// the text, and the lengths fit in a `usize`.
    pub proof fn lemma_wf(&self)
        requires
            self.wf(),
        ensures
            pieces_valid(self.original_text(), self.added_text(), self.piece_seq()),
            total_len(self.piece_seq()) == self@.len(),
            self@.len() <= usize::MAX,
            self.original_text().len() <= usize::MAX,
            self.added_text().len() <= usize::MAX,
    {
        self.lemma_view_len();
    }

    /// The length of the document, in characters.
    pub fn text_len(&self) -> (r: usize)
        requires
            self.wf(),
        ensures
            r == self@.len(),
    {
        proof {
            self.lemma_view_len();
        }
        self.text_len
    }

    /// Index and logical start of the piece that holds `pos`.
    fn locate(&self, pos: usize) -> (r: (usize, usize))
        requires
            self.wf(),
            pos < self@.len(),
        ensures
            self.piece_holds(r.0 as int, pos as int),
            r.1 == self.piece_offset(r.0 as int),
    {
        proof {
            self.lemma_view_len();
        }
        let ghost ps = self.pieces@;
        let mut i: usize = 0;
        let mut txt_start: usize = 0;
        while i < self.pieces.len()
            invariant
                self.wf(),
                ps == self.pieces@,
                pos < self.text_len,
                i <= ps.len(),
                txt_start == offset_of(ps, i as int),
                txt_start <= pos,
            decreases ps.len() - i,
        {
            proof {
                lemma_offsets(ps, i as int);
            }
            let txt_end = txt_start + self.pieces[i].length;
            if pos < txt_end {
                return (i, txt_start);
            }
            txt_start = txt_end;
            i += 1;
        }
        proof {
            assert(ps.take(ps.len() as int) =~= ps);
        }
        (i, txt_start)
    }

    /// The piece that holds `char_pos`; `None` at or beyond the end of the
    /// document.
    pub fn find_by_pos(&self, char_pos: usize) -> (r: Option<&Piece>)
        requires
            self.wf(),
        ensures
            r is Some <==> char_pos < self@.len(),
            r matches Some(p) ==> exists|i: int|
                self.piece_holds(i, char_pos as int) && *p == self.piece_seq()[i],
    {
        proof {
            self.lemma_view_len();
        }
        if char_pos >= self.text_len {
            return None;
        }
        let (i, _) = self.locate(char_pos);
        Some(&self.pieces[i])
    }

    /// Index of the piece that holds `char_index`. The end of a non-empty
    /// document belongs to the last piece; beyond it there is none.
    pub fn get_pos_piece(&self, char_index: usize) -> (r: Option<usize>)
        requires
            self.wf(),
        ensures
            char_index < self@.len() ==> (r matches Some(i) && self.piece_holds(i as int, char_index as int)),
            char_index == self@.len() && self@.len() > 0 ==> r == Some((self.piece_seq().len() - 1) as usize),
            char_index > self@.len() || self@.len() == 0 ==> r is None,
    {
        proof {
            self.lemma_view_len();
            if self.text_len == 0 && self.pieces@.len() > 0 {
                lemma_offsets(self.pieces@, 0);
                assert(pieces_valid(self.original@, self.added@, self.pieces@));
                assert(piece_valid(self.original@, self.added@, self.pieces@[0]));
                lemma_offsets(self.pieces@, self.pieces@.len() - 1);
                lemma_total_len_nonneg(self.pieces@.take(0));
            }
        }
        if char_index < self.text_len {
            let (i, _) = self.locate(char_index);
            Some(i)
        } else if char_index == self.text_len && self.text_len > 0 {
            Some(self.pieces.len() - 1)
        } else {
            None
        }
    }
}

impl PieceTable {
    /// Whether `pos` is the logical start of some piece or the end of the
    /// document.
    pub open spec fn is_boundary(&self, pos: int) -> bool {
        exists|i: int| 0 <= i <= self.piece_seq().len() && self.piece_offset(i) == pos
    }

    /// The piece that an insertion of `len` characters adds: it refers to
    /// the end of the added buffer.
    pub open spec fn new_piece(&self, len: nat) -> Piece {
        Piece { source: Source::Added, start: self.added_text().len() as usize, length: len as usize }
    }

    /// Inserts `txt` at logical position `pos`, or at the end of the document
    /// when `pos` lies beyond it. The text is appended to the
    /// added buffer and a new piece refers to it; a piece that `pos` falls
    /// strictly inside is split in two around the new one.
    pub fn insert(&mut self, txt: &str, pos: usize)
        requires
            old(self).wf(),
            old(self)@.len() + txt@.len() <= usize::MAX,
            old(self).added_text().len() + txt@.len() <= usize::MAX,
        ensures
            final(self).wf(),
            final(self)@ == old(self)@.take(clamp(pos as int, old(self)@.len() as int)) + txt@
                + old(self)@.skip(clamp(pos as int, old(self)@.len() as int)),
            final(self).original_text() == old(self).original_text(),
            final(self).added_text() == old(self).added_text() + txt@,
            txt@.len() == 0 ==> final(self).piece_seq() == old(self).piece_seq(),
            txt@.len() > 0 ==> final(self).piece_seq().len() == old(self).piece_seq().len() + if old(
                self,
            ).is_boundary(clamp(pos as int, old(self)@.len() as int)) {
                1int
            } else {
                2int
            },
            txt@.len() > 0 ==> forall|k: int|
                0 <= k <= old(self).piece_seq().len() && #[trigger] old(self).piece_offset(k) == clamp(
                    pos as int,
                    old(self)@.len() as int,
                ) ==> final(self).piece_seq() == old(self).piece_seq().insert(
                    k,
                    old(self).new_piece(txt@.len()),
                ),
            txt@.len() > 0 ==> forall|i: int|
                #[trigger] old(self).piece_holds(i, clamp(pos as int, old(self)@.len() as int))
                    && old(self).piece_offset(i) < clamp(pos as int, old(self)@.len() as int)
                    ==> final(self).piece_seq() == split_around(
                    old(self).piece_seq(),
                    i,
                    clamp(pos as int, old(self)@.len() as int) - old(self).piece_offset(i),
                    old(self).new_piece(txt@.len()),
                ),
    {
        proof {
            self.lemma_view_len();
        }
        let pos: usize = if pos > self.text_len {
            self.text_len
        } else {
            pos
        };
        let n = txt.unicode_len();
        if n == 0 {
            proof {
                assert(txt@ =~= Seq::<char>::empty());
                assert(self.added@ + txt@ =~= self.added@);
                assert(old(self)@ =~= old(self)@.take(pos as int) + txt@ + old(self)@.skip(pos as int));
            }
            return;
        }
        let ghost ps = self.pieces@;
        let ghost orig = self.original@;
        let ghost added0 = self.added@;
        let ghost text0 = self@;
        let at_end = pos == self.text_len;
        let mut idx: usize = self.pieces.len();
        let mut off: usize = self.text_len;
        if !at_end {
            let (i, o) = self.locate(pos);
            idx = i;
            off = o;
        }
        let start = self.get_buffer_len(Source::Added);
        self.added.append(txt);
        self.added_len = start + n;
        let p = Piece::new(Source::Added, start, n);
        proof {
            lemma_extend_added(orig, added0, txt@, ps);
            assert(self.added@ == added0 + txt@);
            assert(piece_text(orig, self.added@, p) =~= txt@);
        }
        let ghost added1 = self.added@;
        proof {
            assert(piece_valid(orig, added1, p));
            if at_end {
                lemma_offset_end(ps);
            }
        }
        if at_end || pos == off {
            // `pos` is the start of piece `idx` or the end of the document.
            self.pieces.insert(idx, p);
            proof {
                lemma_insert_piece(orig, added1, ps, idx as int, p);
                assert(old(self).piece_offset(idx as int) == pos as int);
                assert(old(self).is_boundary(pos as int));
                assert forall|k: int|
                    0 <= k <= ps.len() && #[trigger] offset_of(ps, k) == pos implies k == idx by {
                    if k < idx {
                        lemma_offset_strict(orig, added0, ps, k, idx as int);
                    } else if k > idx {
                        lemma_offset_strict(orig, added0, ps, idx as int, k);
                    }
                }
                assert forall|i: int| #[trigger]
                    old(self).piece_holds(i, pos as int) implies !(old(self).piece_offset(i)
                    < pos) by {
                    if old(self).piece_offset(i) < pos {
                        lemma_before_boundary(ps, idx as int, i);
                    }
                }
            }
        } else {
            // `pos` falls strictly inside piece `idx`: split it.
            let cur = self.pieces[idx];
            let left_len = pos - off;
            proof {
                assert(piece_valid(orig, added1, ps[idx as int]));
            }
            let left = Piece::new(cur.source, cur.start, left_len);
            let right = Piece::new(cur.source, cur.start + left_len, cur.length - left_len);
            self.pieces.set(idx, left);
            self.pieces.insert(idx + 1, right);
            self.pieces.insert(idx + 1, p);
            proof {
                assert(self.pieces@ =~= ps.take(idx as int) + seq![left, p, right] + ps.skip(idx + 1));
                lemma_split_insert(orig, added1, ps, idx as int, left_len as int, p);
                assert forall|j: int| 0 <= j <= ps.len() implies #[trigger] offset_of(ps, j) != pos by {
                    lemma_offsets(ps, idx as int);
                    if j <= idx {
                        lemma_offset_mono(ps, j, idx as int);
                    } else {
                        lemma_offset_mono(ps, idx + 1, j);
                    }
                }
                assert(!old(self).is_boundary(pos as int));
                assert(self.pieces@ =~= split_around(ps, idx as int, left_len as int, p));
                assert forall|j: int| #[trigger]
                    old(self).piece_holds(j, pos as int) implies j == idx by {
                    lemma_holds_unique(ps, j, idx as int, pos as int);
                }
            }
        }
        self.text_len = self.text_len + n;
    }
}

impl PieceTable {
    /// Removes up to `length` characters from piece `piece_index`, starting
    /// `start_offset` characters into it; the count is clamped to what the
    /// piece holds from there. The case follows the edges of the piece that
    /// the removed span touches: a piece whose both edges are touched leaves
    /// the sequence, one touched at one edge shrinks, and one touched at
    /// neither splits into a left and a right part. Returns the number of
    /// characters removed. The buffers are not touched.
    pub fn trim_piece(&mut self, piece_index: usize, start_offset: usize, length: usize) -> (r:
        usize)
        requires
            old(self).wf(),
            piece_index < old(self).piece_seq().len(),
            start_offset <= old(self).piece_seq()[piece_index as int].length,
        ensures
            final(self).wf(),
            r == if length <= old(self).piece_seq()[piece_index as int].length - start_offset {
                length as int
            } else {
                old(self).piece_seq()[piece_index as int].length - start_offset
            },
            final(self)@ == old(self)@.take(old(self).piece_offset(piece_index as int) + start_offset)
                + old(self)@.skip(old(self).piece_offset(piece_index as int) + start_offset + r),
            final(self).original_text() == old(self).original_text(),
            final(self).added_text() == old(self).added_text(),
            final(self).piece_seq() == trim_pieces(
                old(self).piece_seq(),
                piece_index as int,
                start_offset as int,
                r as int,
            ),
    {
        let ghost ps = self.pieces@;
        let i = piece_index;
        let c = self.pieces[i];
        proof {
            assert(piece_valid(self.original@, self.added@, c));
            self.lemma_view_len();
            lemma_offsets(ps, i as int);
            lemma_count_le_total(self.original@, self.added@, ps);
        }
        let len: usize = if length <= c.length - start_offset {
            length
        } else {
            c.length - start_offset
        };
        let end_offset = c.length - start_offset - len;
        if start_offset == 0 && end_offset == 0 {
            self.pieces.remove(i);
        } else if start_offset == 0 {
            self.pieces.set(i, Piece::new(c.source, c.start + len, end_offset));
        } else if end_offset == 0 {
            self.pieces.set(i, Piece::new(c.source, c.start, start_offset));
        } else {
            self.pieces.set(i, Piece::new(c.source, c.start, start_offset));
            self.pieces.insert(i + 1, Piece::new(c.source, c.start + start_offset + len, end_offset));
        }
        proof {
            lemma_trim(self.original@, self.added@, ps, i as int, start_offset as int, len as int);
            assert(self.pieces@ =~= trim_pieces(ps, i as int, start_offset as int, len as int));
        }
        self.text_len = self.text_len - len;
        len
    }
}

impl PieceTable {
    /// Removes `length` characters starting at `start`. The range is clamped
    /// to the end of the document; an empty range changes nothing.
    pub fn delete(&mut self, start: usize, length: usize)
        requires
            old(self).wf(),
        ensures
            final(self).wf(),
            final(self)@ == old(self)@.take(clamp(start as int, old(self)@.len() as int))
                + old(self)@.skip(clamp(start + length, old(self)@.len() as int)),
            final(self).original_text() == old(self).original_text(),
            final(self).added_text() == old(self).added_text(),
            length == 0 || start >= old(self)@.len() ==> final(self).piece_seq() == old(
                self,
            ).piece_seq(),
            final(self).piece_seq().len() <= old(self).piece_seq().len() + 1,
    {
        proof {
            self.lemma_view_len();
        }
        let ghost t0 = self@;
        if length == 0 || start >= self.text_len {
            proof {
                assert(t0 =~= t0.take(clamp(start as int, t0.len() as int)) + t0.skip(
                    clamp(start + length, t0.len() as int),
                ));
            }
            return;
        }
        let len: usize = if length > self.text_len - start {
            self.text_len - start
        } else {
            length
        };
        let (first, off) = self.locate(start);
        let mut i: usize = first;
        let mut so: usize = start - off;
        let mut remaining: usize = len;
        proof {
            assert(t0 =~= t0.take(start as int) + t0.skip(start as int));
        }
        while remaining > 0
            invariant
                self.wf(),
                self.original_text() == old(self).original_text(),
                self.added_text() == old(self).added_text(),
                start + len <= t0.len(),
                remaining <= len,
                self@ == t0.take(start as int) + t0.skip(start + len - remaining),
                remaining > 0 ==> self.piece_holds(i as int, start as int),
                remaining > 0 ==> self.piece_offset(i as int) + so == start,
                self.piece_seq().len() <= old(self).piece_seq().len() + 1,
                remaining > 0 ==> self.piece_seq().len() <= old(self).piece_seq().len(),
            decreases remaining,
        {
            let ghost ps = self.pieces@;
            let removed = self.trim_piece(i, so, remaining);
            proof {
                lemma_trim_piece_count(ps, i as int, so as int, removed as int);
                lemma_trim_offsets(ps, i as int, so as int, removed as int);
                assert(self@ =~= t0.take(start as int) + t0.skip(start + len - remaining + removed));
                self.lemma_view_len();
                if remaining > removed {
                    let ps2 = self.pieces@;
                    lemma_offset_end(ps2);
                    if so > 0 {
                        if i + 1 >= ps2.len() {
                            assert(false);
                        }
                        assert(piece_valid(self.original@, self.added@, ps2[i + 1]));
                    } else {
                        if i >= ps2.len() {
                            assert(false);
                        }
                        assert(piece_valid(self.original@, self.added@, ps2[i as int]));
                    }
                }
                lemma_count_le_total(self.original@, self.added@, self.pieces@);
                assert(remaining > removed && so > 0 ==> i + 1 < self.pieces@.len());
            }
            remaining = remaining - removed;
            if so > 0 && remaining > 0 {
                i = i + 1;
                so = 0;
            }
        }
        proof {
            assert(clamp(start as int, t0.len() as int) == start);
            assert(clamp(start + length, t0.len() as int) == start + len);
        }
    }
}

/// The part of `t` from `start` (default: the beginning) up to `end`
/// (default: the end), clamped to `t`; empty when `start >= end`.
pub open spec fn text_window(t: Seq<char>, start: Option<usize>, end: Option<usize>) -> Seq<char> {
    let n = t.len() as int;
    let s = match start {
        Some(v) => v as int,
        None => 0,
    };
    let e = match end {
        Some(v) => v as int,
        None => n,
    };
    if s >= e {
        Seq::empty()
    } else {
        t.subrange(clamp(s, n), clamp(e, n))
    }
}

fn min_usize(a: usize, b: usize) -> (r: usize)
    ensures
        r == if a <= b { a } else { b },
{
    if a <= b {
        a
    } else {
        b
    }
}

impl PieceTable {
    /// Length of one of the two buffers.
    fn get_buffer_len(&self, source: Source) -> (r: usize)
        requires
            self.wf(),
        ensures
            r == match source {
                Source::Original => self.original_text().len(),
                Source::Added => self.added_text().len(),
            },
    {
        match source {
            Source::Original => self.original.as_str().unicode_len(),
            Source::Added => self.added_len,
        }
    }

    /// The characters `start..end` of `buffer`.
    fn get_buffer_slice(&self, buffer: &str, start: usize, end: usize) -> (r: String)
        requires
            start <= end <= buffer@.len(),
        ensures
            r@ == buffer@.subrange(start as int, end as int),
    {
        buffer.substring_char(start, end).to_owned()
    }

    /// The text of piece `piece_index` without its first `start_offset` and
    /// last `end_offset` characters.
    fn get_piece_text(&self, piece_index: usize, start_offset: usize, end_offset: usize) -> (r:
        String)
        requires
            self.wf(),
            piece_index < self.piece_seq().len(),
            start_offset + end_offset <= self.piece_seq()[piece_index as int].length,
        ensures
            r@ == piece_text(self.original_text(), self.added_text(), self.piece_seq()[piece_index as int]).subrange(
                start_offset as int,
                self.piece_seq()[piece_index as int].length - end_offset,
            ),
    {
        let piece = self.pieces[piece_index];
        proof {
            assert(piece_valid(self.original@, self.added@, piece));
        }
        let start = piece.start + start_offset;
        let end = piece.start + piece.length - end_offset;
        let r = match piece.source {
            Source::Original => self.get_buffer_slice(self.original.as_str(), start, end),
            Source::Added => self.get_buffer_slice(self.added.as_str(), start, end),
        };
        proof {
            let pt = piece_text(self.original@, self.added@, piece);
            assert(r@ =~= pt.subrange(start_offset as int, piece.length - end_offset));
        }
        r
    }

    /// The document text from `s_start` (default: the beginning) up to
    /// `s_end` (default: the end), clamped to the document. When both are
    /// given and `s_start >= s_end` the result is empty.
    pub fn get_text(&self, s_start: Option<usize>, s_end: Option<usize>) -> (r: String)
        requires
            self.wf(),
        ensures
            r@ == text_window(self@, s_start, s_end),
    {
        proof {
            self.lemma_view_len();
        }
        let ghost t = self@;
        let ghost ps = self.pieces@;
        let n = self.text_len;
        let s: usize = match s_start {
            Some(v) => v,
            None => 0,
        };
        let e: usize = match s_end {
            Some(v) => min_usize(v, n),
            None => n,
        };
        let mut ret = String::new();
        if s >= e {
            proof {
                assert(ret@ =~= text_window(t, s_start, s_end));
            }
            return ret;
        }
        let mut i: usize = 0;
        let mut txt_start: usize = 0;
        while i < self.pieces.len() && txt_start < e
            invariant
                self.wf(),
                t == self@,
                ps == self.pieces@,
                n == t.len(),
                s < e <= n,
                i <= ps.len(),
                txt_start == offset_of(ps, i as int),
                ret@ == t.subrange(
                    if s <= txt_start { s as int } else { txt_start as int },
                    if e <= txt_start { e as int } else { txt_start as int },
                ),
            decreases ps.len() - i,
        {
            proof {
                lemma_offsets(ps, i as int);
                lemma_piece_in_text(self.original@, self.added@, ps, i as int);
            }
            let length = self.pieces[i].length;
            let txt_end = txt_start + length;
            if txt_end > s {
                let lo: usize = if s > txt_start { s } else { txt_start };
                let hi = min_usize(e, txt_end);
                let part = self.get_piece_text(i, lo - txt_start, txt_end - hi);
                ret.append(part.as_str());
            }
            proof {
                assert(ret@ =~= t.subrange(
                    if s <= txt_end { s as int } else { txt_end as int },
                    if e <= txt_end { e as int } else { txt_end as int },
                ));
            }
            txt_start = txt_end;
            i += 1;
        }
        proof {
            if txt_start < e {
                lemma_offset_end(ps);
            }
            assert(ret@ =~= text_window(t, s_start, s_end));
        }
        ret
    }

    /// Rebuilds the table from its current text: one original buffer
    /// holding the whole document, a single piece, and an empty added buffer.
    pub fn merge_pieces(&mut self)
        requires
            old(self).wf(),
        ensures
            final(self).wf(),
            final(self)@ == old(self)@,
            final(self).original_text() == old(self)@,
            final(self).added_text() == Seq::<char>::empty(),
            final(self).piece_seq() == if old(self)@.len() == 0 {
                Seq::<Piece>::empty()
            } else {
                seq![Piece { source: Source::Original, start: 0, length: old(self)@.len() as usize }]
            },
    {
        let new_orig = self.get_text(None, None);
        proof {
            assert(self@.subrange(0, self@.len() as int) =~= self@);
        }
        let new_pt = PieceTable::new(new_orig.as_str());
        *self = new_pt;
    }
}


/// Building a table from a text and reading all of it back gives the text:
/// a table holds `s` exactly when its view is `s`, and the full window of
/// any text is that text.
pub proof fn lemma_round_trip(s: Seq<char>)
    ensures
        text_window(s, None, None) == s,
{
    assert(s.subrange(0, s.len() as int) =~= s);
}

/// In every well-formed table (and each operation keeps a table
/// well-formed) the piece lengths add up to the tracked length, which is
/// the length of the full text.
pub proof fn lemma_length_invariant(table: &PieceTable)
    requires
        table.wf(),
    ensures
        total_len(table.piece_seq()) == table@.len(),
        text_window(table@, None, None).len() == total_len(table.piece_seq()),
{
    table.lemma_view_len();
    lemma_round_trip(table@);
}

/// Inserting `txt` at `pos` and then deleting the `txt@.len()` characters
/// from `pos` gives back the text from before the insertion.
pub proof fn lemma_insert_delete_inverse(t: Seq<char>, txt: Seq<char>, pos: int)
    requires
        0 <= pos <= t.len(),
    ensures
        ({
            let ins = t.take(pos) + txt + t.skip(pos);
            ins.take(clamp(pos, ins.len() as int)) + ins.skip(
                clamp(pos + txt.len(), ins.len() as int),
            ) == t
        }),
{
    let ins = t.take(pos) + txt + t.skip(pos);
    assert(ins.take(pos) =~= t.take(pos));
    assert(ins.skip(pos + txt.len()) =~= t.skip(pos));
    assert(t.take(pos) + t.skip(pos) =~= t);
}

/// Trimming a whole piece removes it from the sequence; trimming strictly
/// inside a piece replaces it by two; trimming at exactly one edge keeps the
/// number of pieces.
pub proof fn lemma_trim_piece_count(ps: Seq<Piece>, i: int, so: int, r: int)
    requires
        0 <= i < ps.len(),
        0 <= so,
        0 <= r,
        so + r <= ps[i].length,
    ensures
        so == 0 && r == ps[i].length ==> trim_pieces(ps, i, so, r).len() == ps.len() - 1,
        so > 0 && so + r < ps[i].length ==> trim_pieces(ps, i, so, r).len() == ps.len() + 1,
        (so == 0) != (so + r == ps[i].length) ==> trim_pieces(ps, i, so, r).len() == ps.len(),
{
}

} // verus!
