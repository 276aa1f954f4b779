//! The mathematical model of a piece sequence, and the facts about it that
//! the table's operations rest on.
use vstd::prelude::*;

use crate::piecetable::{Piece, Source};

verus! {

/// Sum of the lengths of a sequence of pieces.
pub open spec fn total_len(ps: Seq<Piece>) -> int
    decreases ps.len(),
{
    if ps.len() == 0 {
        0
    } else {
        total_len(ps.drop_last()) + ps.last().length
    }
}

/// Logical position at which the piece with index `i` begins.
pub open spec fn offset_of(ps: Seq<Piece>, i: int) -> int {
    total_len(ps.take(i))
}

/// The characters that a piece stands for, read from the two buffers.
pub open spec fn piece_text(orig: Seq<char>, added: Seq<char>, p: Piece) -> Seq<char> {
    let buf = match p.source {
        Source::Original => orig,
        Source::Added => added,
    };
    buf.subrange(p.start as int, p.end())
}

/// The document text: the pieces' characters, concatenated in order.
pub open spec fn pieces_text(orig: Seq<char>, added: Seq<char>, ps: Seq<Piece>) -> Seq<char>
    decreases ps.len(),
{
    if ps.len() == 0 {
        Seq::empty()
    } else {
        pieces_text(orig, added, ps.drop_last()) + piece_text(orig, added, ps.last())
    }
}

/// A piece is non-empty and lies inside its buffer.
pub open spec fn piece_valid(orig: Seq<char>, added: Seq<char>, p: Piece) -> bool {
    &&& p.length > 0
    &&& match p.source {
        Source::Original => p.end() <= orig.len(),
        Source::Added => p.end() <= added.len(),
    }
}

pub open spec fn pieces_valid(orig: Seq<char>, added: Seq<char>, ps: Seq<Piece>) -> bool {
    forall|i: int| 0 <= i < ps.len() ==> #[trigger] piece_valid(orig, added, ps[i])
}

pub(crate) proof fn lemma_total_len_concat(a: Seq<Piece>, b: Seq<Piece>)
    ensures
        total_len(a + b) == total_len(a) + total_len(b),
    decreases b.len(),
{
    if b.len() == 0 {
        assert(a + b =~= a);
    } else {
        lemma_total_len_concat(a, b.drop_last());
        assert((a + b).drop_last() =~= a + b.drop_last());
    }
}

pub(crate) proof fn lemma_pieces_text_concat(orig: Seq<char>, added: Seq<char>, a: Seq<Piece>, b: Seq<Piece>)
    ensures
        pieces_text(orig, added, a + b) =~= pieces_text(orig, added, a) + pieces_text(
            orig,
            added,
            b,
        ),
    decreases b.len(),
{
    if b.len() == 0 {
        assert(a + b =~= a);
    } else {
        lemma_pieces_text_concat(orig, added, a, b.drop_last());
        assert((a + b).drop_last() =~= a + b.drop_last());
    }
}

pub(crate) proof fn lemma_pieces_text_len(orig: Seq<char>, added: Seq<char>, ps: Seq<Piece>)
    requires
        pieces_valid(orig, added, ps),
    ensures
        pieces_text(orig, added, ps).len() == total_len(ps),
        total_len(ps) >= 0,
    decreases ps.len(),
{
    if ps.len() > 0 {
        assert(piece_valid(orig, added, ps[ps.len() - 1]));
        lemma_pieces_text_len(orig, added, ps.drop_last());
    }
}

/// Splits the document around piece `i`.
pub(crate) proof fn lemma_split_at(orig: Seq<char>, added: Seq<char>, ps: Seq<Piece>, i: int)
    requires
        0 <= i < ps.len(),
    ensures
        pieces_text(orig, added, ps) =~= pieces_text(orig, added, ps.take(i)) + piece_text(
            orig,
            added,
            ps[i],
        ) + pieces_text(orig, added, ps.skip(i + 1)),
        total_len(ps) == offset_of(ps, i) + ps[i].length + total_len(ps.skip(i + 1)),
        offset_of(ps, i + 1) == offset_of(ps, i) + ps[i].length,
{
    let single = seq![ps[i]];
    assert(ps =~= ps.take(i) + single + ps.skip(i + 1));
    lemma_pieces_text_concat(orig, added, ps.take(i) + single, ps.skip(i + 1));
    lemma_pieces_text_concat(orig, added, ps.take(i), single);
    lemma_total_len_concat(ps.take(i) + single, ps.skip(i + 1));
    lemma_total_len_concat(ps.take(i), single);
    assert(single.drop_last() =~= Seq::<Piece>::empty());
    assert(pieces_text(orig, added, single.drop_last()) =~= Seq::<char>::empty());
    assert(pieces_text(orig, added, single) =~= piece_text(orig, added, ps[i]));
    assert(total_len(single.drop_last()) == 0);
    assert(total_len(single) == ps[i].length);
    assert(ps.take(i + 1) =~= ps.take(i) + single);
}


pub(crate) proof fn lemma_total_len_nonneg(ps: Seq<Piece>)
    ensures
        total_len(ps) >= 0,
    decreases ps.len(),
{
    if ps.len() > 0 {
        lemma_total_len_nonneg(ps.drop_last());
    }
}

/// Facts about the logical offsets of a piece sequence.
pub(crate) proof fn lemma_offsets(ps: Seq<Piece>, i: int)
    requires
        0 <= i < ps.len(),
    ensures
        0 <= offset_of(ps, i),
        offset_of(ps, i + 1) == offset_of(ps, i) + ps[i].length,
        offset_of(ps, i + 1) <= total_len(ps),
{
    lemma_split_at(Seq::empty(), Seq::empty(), ps, i);
    lemma_total_len_nonneg(ps.skip(i + 1));
    lemma_total_len_nonneg(ps.take(i));
}


pub(crate) proof fn lemma_single(orig: Seq<char>, added: Seq<char>, x: Piece)
    ensures
        pieces_text(orig, added, seq![x]) =~= piece_text(orig, added, x),
        total_len(seq![x]) == x.length,
{
    assert(seq![x].drop_last() =~= Seq::<Piece>::empty());
    assert(pieces_text(orig, added, seq![x].drop_last()) =~= Seq::<char>::empty());
    assert(total_len(seq![x].drop_last()) == 0);
}

pub(crate) proof fn lemma_concat3(orig: Seq<char>, added: Seq<char>, a: Seq<Piece>, b: Seq<Piece>, c: Seq<Piece>)
    ensures
        pieces_text(orig, added, a + b + c) =~= pieces_text(orig, added, a) + pieces_text(
            orig,
            added,
            b,
        ) + pieces_text(orig, added, c),
        total_len(a + b + c) == total_len(a) + total_len(b) + total_len(c),
{
    lemma_pieces_text_concat(orig, added, a + b, c);
    lemma_pieces_text_concat(orig, added, a, b);
    lemma_total_len_concat(a + b, c);
    lemma_total_len_concat(a, b);
}

/// Text appended to the added buffer leaves every valid piece's text as it was.
pub(crate) proof fn lemma_extend_added(orig: Seq<char>, added: Seq<char>, more: Seq<char>, ps: Seq<Piece>)
    requires
        pieces_valid(orig, added, ps),
    ensures
        pieces_valid(orig, added + more, ps),
        pieces_text(orig, added + more, ps) == pieces_text(orig, added, ps),
    decreases ps.len(),
{
    assert forall|i: int| 0 <= i < ps.len() implies #[trigger] piece_valid(orig, added + more, ps[i]) by {
        assert(piece_valid(orig, added, ps[i]));
    }
    if ps.len() > 0 {
        let p = ps.last();
        assert(piece_valid(orig, added, ps[ps.len() - 1]));
        lemma_extend_added(orig, added, more, ps.drop_last());
        assert(piece_text(orig, added + more, p) =~= piece_text(orig, added, p));
    }
}

/// The offset just past the last piece is the total length.
pub(crate) proof fn lemma_offset_end(ps: Seq<Piece>)
    ensures
        offset_of(ps, ps.len() as int) == total_len(ps),
{
    assert(ps.take(ps.len() as int) =~= ps);
}

/// Piece `i` split after `k` characters, with `p` between the two parts.
pub open spec fn split_around(ps: Seq<Piece>, i: int, k: int, p: Piece) -> Seq<Piece> {
    let c = ps[i];
    ps.take(i) + seq![
        Piece { source: c.source, start: c.start, length: k as usize },
        p,
        Piece { source: c.source, start: (c.start + k) as usize, length: (c.length - k) as usize },
    ] + ps.skip(i + 1)
}

/// A sequence of non-empty pieces has no more pieces than characters.
pub(crate) proof fn lemma_count_le_total(orig: Seq<char>, added: Seq<char>, ps: Seq<Piece>)
    requires
        pieces_valid(orig, added, ps),
    ensures
        ps.len() <= total_len(ps),
    decreases ps.len(),
{
    if ps.len() > 0 {
        assert(piece_valid(orig, added, ps[ps.len() - 1]));
        assert(pieces_valid(orig, added, ps.drop_last())) by {
            assert forall|j: int| 0 <= j < ps.drop_last().len() implies #[trigger] piece_valid(
                orig,
                added,
                ps.drop_last()[j],
            ) by {
                assert(piece_valid(orig, added, ps[j]));
            }
        }
        lemma_count_le_total(orig, added, ps.drop_last());
    }
}

/// Among non-empty pieces, distinct indices have distinct offsets.
pub(crate) proof fn lemma_offset_strict(
    orig: Seq<char>,
    added: Seq<char>,
    ps: Seq<Piece>,
    j: int,
    k: int,
)
    requires
        pieces_valid(orig, added, ps),
        0 <= j < k <= ps.len(),
    ensures
        offset_of(ps, j) < offset_of(ps, k),
{
    assert(piece_valid(orig, added, ps[j]));
    lemma_offsets(ps, j);
    lemma_offset_mono(ps, j + 1, k);
}

/// A piece that begins before a boundary ends at or before it.
pub(crate) proof fn lemma_before_boundary(ps: Seq<Piece>, k: int, i: int)
    requires
        0 <= k <= ps.len(),
        0 <= i < ps.len(),
        offset_of(ps, i) < offset_of(ps, k),
    ensures
        offset_of(ps, i) + ps[i].length <= offset_of(ps, k),
{
    lemma_offsets(ps, i);
    if i >= k {
        lemma_offset_mono(ps, k, i);
    } else {
        lemma_offset_mono(ps, i + 1, k);
    }
}

/// At most one piece holds a given position.
pub(crate) proof fn lemma_holds_unique(ps: Seq<Piece>, i: int, j: int, pos: int)
    requires
        0 <= i < ps.len(),
        0 <= j < ps.len(),
        offset_of(ps, i) <= pos < offset_of(ps, i) + ps[i].length,
        offset_of(ps, j) <= pos < offset_of(ps, j) + ps[j].length,
    ensures
        i == j,
{
    lemma_offsets(ps, i);
    lemma_offsets(ps, j);
    if i < j {
        lemma_offset_mono(ps, i + 1, j);
    } else if j < i {
        lemma_offset_mono(ps, j + 1, i);
    }
}

/// Logical offsets grow with the piece index.
pub(crate) proof fn lemma_offset_mono(ps: Seq<Piece>, j: int, k: int)
    requires
        0 <= j <= k <= ps.len(),
    ensures
        offset_of(ps, j) <= offset_of(ps, k),
    decreases k - j,
{
    if j < k {
        lemma_offsets(ps, k - 1);
        lemma_offset_mono(ps, j, k - 1);
    }
}

/// The text before piece `i` is as long as piece `i`'s offset.
pub(crate) proof fn lemma_prefix_text(orig: Seq<char>, added: Seq<char>, ps: Seq<Piece>, i: int)
    requires
        pieces_valid(orig, added, ps),
        0 <= i <= ps.len(),
    ensures
        pieces_text(orig, added, ps) =~= pieces_text(orig, added, ps.take(i)) + pieces_text(
            orig,
            added,
            ps.skip(i),
        ),
        pieces_text(orig, added, ps.take(i)).len() == offset_of(ps, i),
{
    assert(ps =~= ps.take(i) + ps.skip(i));
    lemma_pieces_text_concat(orig, added, ps.take(i), ps.skip(i));
    assert(pieces_valid(orig, added, ps.take(i))) by {
        assert forall|j: int| 0 <= j < ps.take(i).len() implies #[trigger] piece_valid(
            orig,
            added,
            ps.take(i)[j],
        ) by {
            assert(piece_valid(orig, added, ps[j]));
        }
    }
    lemma_pieces_text_len(orig, added, ps.take(i));
}


/// Inserting a piece at index `k` puts its text at the logical offset of `k`.
pub(crate) proof fn lemma_insert_piece(orig: Seq<char>, added: Seq<char>, ps: Seq<Piece>, k: int, p: Piece)
    requires
        pieces_valid(orig, added, ps),
        piece_valid(orig, added, p),
        0 <= k <= ps.len(),
    ensures
        pieces_valid(orig, added, ps.insert(k, p)),
        pieces_text(orig, added, ps.insert(k, p)) =~= pieces_text(orig, added, ps).take(
            offset_of(ps, k),
        ) + piece_text(orig, added, p) + pieces_text(orig, added, ps).skip(offset_of(ps, k)),
        total_len(ps.insert(k, p)) == total_len(ps) + p.length,
{
    let ps2 = ps.insert(k, p);
    lemma_prefix_text(orig, added, ps, k);
    assert(ps2 =~= ps.take(k) + seq![p] + ps.skip(k));
    lemma_concat3(orig, added, ps.take(k), seq![p], ps.skip(k));
    lemma_single(orig, added, p);
    lemma_total_len_concat(ps.take(k), ps.skip(k));
    assert(ps =~= ps.take(k) + ps.skip(k));
    assert forall|j: int| 0 <= j < ps2.len() implies #[trigger] piece_valid(orig, added, ps2[j]) by {
        if j < k {
            assert(piece_valid(orig, added, ps[j]));
        } else if j > k {
            assert(piece_valid(orig, added, ps[j - 1]));
        }
    }
}

/// Splitting piece `i` after `left_len` characters and putting `p` between the
/// halves puts `p`'s text at the split point.
pub(crate) proof fn lemma_split_insert(
    orig: Seq<char>,
    added: Seq<char>,
    ps: Seq<Piece>,
    i: int,
    left_len: int,
    p: Piece,
)
    requires
        pieces_valid(orig, added, ps),
        piece_valid(orig, added, p),
        orig.len() <= usize::MAX,
        added.len() <= usize::MAX,
        0 <= i < ps.len(),
        0 < left_len < ps[i].length,
    ensures
        ({
            let c = ps[i];
            let left = Piece { source: c.source, start: c.start, length: left_len as usize };
            let right = Piece {
                source: c.source,
                start: (c.start + left_len) as usize,
                length: (c.length - left_len) as usize,
            };
            let ps2 = ps.take(i) + seq![left, p, right] + ps.skip(i + 1);
            let t = pieces_text(orig, added, ps);
            let at = offset_of(ps, i) + left_len;
            &&& pieces_valid(orig, added, ps2)
            &&& pieces_text(orig, added, ps2) =~= t.take(at) + piece_text(orig, added, p) + t.skip(
                at,
            )
            &&& total_len(ps2) == total_len(ps) + p.length
        }),
{
    let c = ps[i];
    let left = Piece { source: c.source, start: c.start, length: left_len as usize };
    let right = Piece {
        source: c.source,
        start: (c.start + left_len) as usize,
        length: (c.length - left_len) as usize,
    };
    let mid = seq![left, p, right];
    let ps2 = ps.take(i) + mid + ps.skip(i + 1);
    assert(piece_valid(orig, added, c));
    lemma_split_at(orig, added, ps, i);
    lemma_prefix_text(orig, added, ps, i);
    assert(mid =~= seq![left] + seq![p] + seq![right]);
    lemma_concat3(orig, added, ps.take(i), mid, ps.skip(i + 1));
    lemma_concat3(orig, added, seq![left], seq![p], seq![right]);
    lemma_single(orig, added, left);
    lemma_single(orig, added, p);
    lemma_single(orig, added, right);
    let pt = piece_text(orig, added, c);
    assert(piece_text(orig, added, left) =~= pt.take(left_len));
    assert(piece_text(orig, added, right) =~= pt.skip(left_len));
    assert forall|j: int| 0 <= j < ps2.len() implies #[trigger] piece_valid(orig, added, ps2[j]) by {
        if j < i {
            assert(piece_valid(orig, added, ps[j]));
        } else if j > i + 2 {
            assert(piece_valid(orig, added, ps[j - 2]));
        }
    }
}


/// Replacing piece `i` by the pieces `m` replaces that piece's text by theirs.
pub(crate) proof fn lemma_replace(orig: Seq<char>, added: Seq<char>, ps: Seq<Piece>, i: int, m: Seq<Piece>)
    requires
        pieces_valid(orig, added, ps),
        pieces_valid(orig, added, m),
        0 <= i < ps.len(),
    ensures
        ({
            let ps2 = ps.take(i) + m + ps.skip(i + 1);
            let t = pieces_text(orig, added, ps);
            let off = offset_of(ps, i);
            &&& pieces_valid(orig, added, ps2)
            &&& pieces_text(orig, added, ps2) =~= t.take(off) + pieces_text(orig, added, m)
                + t.skip(off + ps[i].length)
            &&& t.subrange(off, off + ps[i].length) =~= piece_text(orig, added, ps[i])
            &&& total_len(ps2) == total_len(ps) - ps[i].length + total_len(m)
            &&& t.len() == total_len(ps)
        }),
{
    let ps2 = ps.take(i) + m + ps.skip(i + 1);
    let t = pieces_text(orig, added, ps);
    assert(piece_valid(orig, added, ps[i]));
    lemma_split_at(orig, added, ps, i);
    lemma_prefix_text(orig, added, ps, i);
    lemma_pieces_text_len(orig, added, ps);
    lemma_concat3(orig, added, ps.take(i), m, ps.skip(i + 1));
    lemma_total_len_nonneg(ps.take(i));
    assert forall|j: int| 0 <= j < ps2.len() implies #[trigger] piece_valid(orig, added, ps2[j]) by {
        if j < i {
            assert(piece_valid(orig, added, ps[j]));
        } else if j < i + m.len() {
            assert(piece_valid(orig, added, m[j - i]));
        } else {
            assert(piece_valid(orig, added, ps[j - m.len() + 1]));
        }
    }
}

/// The piece sequence after `r` characters are cut from piece `i`, starting
/// `so` characters into it. The case is chosen by the edges of the piece
/// that the cut touches: both (the piece goes), the start (it is shortened
/// at the front), the end (shortened at the back), or neither (it is split
/// into a left and a right part).
pub open spec fn trim_pieces(ps: Seq<Piece>, i: int, so: int, r: int) -> Seq<Piece> {
    let c = ps[i];
    if so == 0 && r == c.length {
        ps.remove(i)
    } else if so == 0 {
        ps.update(i, Piece { source: c.source, start: (c.start + r) as usize, length: (c.length - r) as usize })
    } else if so + r == c.length {
        ps.update(i, Piece { source: c.source, start: c.start, length: so as usize })
    } else {
        ps.take(i) + seq![
            Piece { source: c.source, start: c.start, length: so as usize },
            Piece {
                source: c.source,
                start: (c.start + so + r) as usize,
                length: (c.length - so - r) as usize,
            },
        ] + ps.skip(i + 1)
    }
}

/// Cutting `[so, so + r)` out of the slice `[off, off + len)` of `t`, in place.
pub(crate) proof fn lemma_cut(t: Seq<char>, off: int, len: int, so: int, r: int)
    requires
        0 <= off,
        off + len <= t.len(),
        0 <= so,
        0 <= r,
        so + r <= len,
    ensures
        t.take(off) + (t.subrange(off, off + len).take(so) + t.subrange(off, off + len).skip(so + r))
            + t.skip(off + len) =~= t.take(off + so) + t.skip(off + so + r),
{
}

/// The pieces that take piece `i`'s place when `r` characters are cut from
/// it, starting `so` characters into it.
pub open spec fn trim_middle(c: Piece, so: int, r: int) -> Seq<Piece> {
    if so == 0 && r == c.length {
        Seq::empty()
    } else if so == 0 {
        seq![Piece { source: c.source, start: (c.start + r) as usize, length: (c.length - r) as usize }]
    } else if so + r == c.length {
        seq![Piece { source: c.source, start: c.start, length: so as usize }]
    } else {
        seq![
            Piece { source: c.source, start: c.start, length: so as usize },
            Piece {
                source: c.source,
                start: (c.start + so + r) as usize,
                length: (c.length - so - r) as usize,
            },
        ]
    }
}

pub(crate) proof fn lemma_trim_middle(orig: Seq<char>, added: Seq<char>, c: Piece, so: int, r: int)
    requires
        piece_valid(orig, added, c),
        orig.len() <= usize::MAX,
        added.len() <= usize::MAX,
        0 <= so,
        0 <= r,
        so + r <= c.length,
    ensures
        pieces_valid(orig, added, trim_middle(c, so, r)),
        pieces_text(orig, added, trim_middle(c, so, r)) =~= piece_text(orig, added, c).take(so)
            + piece_text(orig, added, c).skip(so + r),
        total_len(trim_middle(c, so, r)) == c.length - r,
{
    let m = trim_middle(c, so, r);
    let pt = piece_text(orig, added, c);
    if m.len() == 1 {
        lemma_single(orig, added, m[0]);
        assert(m =~= seq![m[0]]);
        assert(piece_valid(orig, added, m[0]));
        if so == 0 {
            assert(piece_text(orig, added, m[0]) =~= pt.skip(r));
            assert(pt.take(0) =~= Seq::<char>::empty());
        } else {
            assert(piece_text(orig, added, m[0]) =~= pt.take(so));
        }
    } else if m.len() == 2 {
        assert(m =~= seq![m[0]] + seq![m[1]]);
        lemma_pieces_text_concat(orig, added, seq![m[0]], seq![m[1]]);
        lemma_total_len_concat(seq![m[0]], seq![m[1]]);
        lemma_single(orig, added, m[0]);
        lemma_single(orig, added, m[1]);
        assert(piece_valid(orig, added, m[0]));
        assert(piece_valid(orig, added, m[1]));
        assert(piece_text(orig, added, m[0]) =~= pt.take(so));
        assert(piece_text(orig, added, m[1]) =~= pt.skip(so + r));
    } else {
        assert(pieces_text(orig, added, m) =~= Seq::<char>::empty());
        assert(total_len(m) == 0);
    }
}

pub(crate) proof fn lemma_trim(orig: Seq<char>, added: Seq<char>, ps: Seq<Piece>, i: int, so: int, r: int)
    requires
        pieces_valid(orig, added, ps),
        orig.len() <= usize::MAX,
        added.len() <= usize::MAX,
        0 <= i < ps.len(),
        0 <= so,
        0 <= r,
        so + r <= ps[i].length,
    ensures
        ({
            let t = pieces_text(orig, added, ps);
            let at = offset_of(ps, i) + so;
            let ps2 = trim_pieces(ps, i, so, r);
            &&& pieces_valid(orig, added, ps2)
            &&& pieces_text(orig, added, ps2) =~= t.take(at) + t.skip(at + r)
            &&& total_len(ps2) == total_len(ps) - r
        }),
{
    let c = ps[i];
    assert(piece_valid(orig, added, c));
    let m = trim_middle(c, so, r);
    assert(trim_pieces(ps, i, so, r) =~= ps.take(i) + m + ps.skip(i + 1));
    lemma_trim_middle(orig, added, c, so, r);
    lemma_replace(orig, added, ps, i, m);
    lemma_offsets(ps, i);
    lemma_cut(pieces_text(orig, added, ps), offset_of(ps, i), c.length as int, so, r);
}


/// Where the next cut of a deletion starts, once piece `i` has been trimmed.
pub(crate) proof fn lemma_trim_offsets(ps: Seq<Piece>, i: int, so: int, r: int)
    requires
        0 <= i < ps.len(),
        0 <= so,
        0 < r,
        so + r <= ps[i].length,
    ensures
        so > 0 && so + r == ps[i].length ==> offset_of(trim_pieces(ps, i, so, r), i + 1)
            == offset_of(ps, i) + so,
        so == 0 && r == ps[i].length ==> offset_of(trim_pieces(ps, i, so, r), i) == offset_of(
            ps,
            i,
        ),
{
    let ps2 = trim_pieces(ps, i, so, r);
    if so > 0 && so + r == ps[i].length {
        let x = Piece { source: ps[i].source, start: ps[i].start, length: so as usize };
        assert(ps2.take(i + 1) =~= ps.take(i) + seq![x]);
        lemma_total_len_concat(ps.take(i), seq![x]);
        lemma_single(Seq::empty(), Seq::empty(), x);
    }
    if so == 0 && r == ps[i].length {
        assert(ps2.take(i) =~= ps.take(i));
    }
}

/// `x` limited to at most `hi`.
pub open spec fn clamp(x: int, hi: int) -> int {
    if x <= hi {
        x
    } else {
        hi
    }
}


/// The text of piece `i` sits at its logical offset in the document.
pub(crate) proof fn lemma_piece_in_text(orig: Seq<char>, added: Seq<char>, ps: Seq<Piece>, i: int)
    requires
        pieces_valid(orig, added, ps),
        0 <= i < ps.len(),
    ensures
        pieces_text(orig, added, ps).subrange(offset_of(ps, i), offset_of(ps, i) + ps[i].length)
            =~= piece_text(orig, added, ps[i]),
        pieces_text(orig, added, ps).len() == total_len(ps),
{
    lemma_replace(orig, added, ps, i, Seq::empty());
}

} // verus!
