//! Pieces: immutable views into one of the two backing buffers.
//!
//! A piece selects the character range `[start, end)` of either the
//! original buffer or the changed buffer. The document is the concatenation
//! of the piece contents in tree order, so this module also defines the
//! specification of a whole *sequence* of pieces: its content, its total
//! length, its total terminator count, and the seam condition that keeps a
//! `"\r\n"` terminator inside a single piece.

use vstd::prelude::*;

use crate::textspec::{joins_crlf, lemma_line_breaks_concat, line_breaks};

verus! {

/// Which backing buffer a piece (and so a tree node) views.
#[derive(Clone, Copy, PartialEq, Eq, Structural, Debug)]
pub enum NodeType {
    Original,
    Changed,
}

/// A view of the character range `[start, end)` of one backing buffer,
/// annotated with the number of line terminators its content holds.
#[derive(Clone, Copy, PartialEq, Eq, Structural, Debug)]
pub struct Piece {
    pub kind: NodeType,
    pub start: usize,
    pub end: usize,
    pub line_feed_count: usize,
}

impl Piece {
    /// Character length of the piece.
    pub open spec fn len_int(self) -> int {
        self.end - self.start
    }

    /// The characters the piece selects, given the contents of the
    /// original and the changed buffer.
    pub open spec fn content(self, orig: Seq<char>, chg: Seq<char>) -> Seq<char> {
        match self.kind {
            NodeType::Original => orig.subrange(self.start as int, self.end as int),
            NodeType::Changed => chg.subrange(self.start as int, self.end as int),
        }
    }

    /// A piece is valid when it is non-empty and lies inside its buffer.
    pub open spec fn valid(self, orig_len: int, chg_len: int) -> bool {
        self.start < self.end && self.end <= match self.kind {
            NodeType::Original => orig_len,
            NodeType::Changed => chg_len,
        }
    }

    /// The stored terminator count matches the piece's content.
    pub open spec fn lfc_ok(self, orig: Seq<char>, chg: Seq<char>) -> bool {
        self.line_feed_count == line_breaks(self.content(orig, chg))
    }

    pub fn new(kind: NodeType, start: usize, end: usize, line_feed_count: usize) -> (p: Piece)
        ensures
            p.kind == kind,
            p.start == start,
            p.end == end,
            p.line_feed_count == line_feed_count,
    {
        Piece { kind, start, end, line_feed_count }
    }

    pub fn len(&self) -> (r: usize)
        requires
            self.start <= self.end,
        ensures
            r == self.len_int(),
    {
        self.end - self.start
    }
}

/// Concatenation of the contents of a sequence of pieces.
pub open spec fn pieces_content(ps: Seq<Piece>, orig: Seq<char>, chg: Seq<char>) -> Seq<char>
    decreases ps.len(),
{
    if ps.len() == 0 {
        Seq::empty()
    } else {
        ps[0].content(orig, chg) + pieces_content(ps.drop_first(), orig, chg)
    }
}

/// Sum of the piece lengths.
pub open spec fn sum_len(ps: Seq<Piece>) -> int
    decreases ps.len(),
{
    if ps.len() == 0 {
        0
    } else {
        ps[0].len_int() + sum_len(ps.drop_first())
    }
}

/// Sum of the stored terminator counts.
pub open spec fn sum_lfc(ps: Seq<Piece>) -> int
    decreases ps.len(),
{
    if ps.len() == 0 {
        0
    } else {
        ps[0].line_feed_count + sum_lfc(ps.drop_first())
    }
}

/// Length of the document prefix covered by the first `i` pieces.
pub open spec fn prefix_len(ps: Seq<Piece>, i: int) -> int {
    sum_len(ps.take(i))
}

/// Every piece is non-empty.
pub open spec fn pieces_pos(ps: Seq<Piece>) -> bool {
    forall|i: int| 0 <= i < ps.len() ==> ps[i].start < (#[trigger] ps[i]).end
}

/// Every piece is valid for buffers of the given lengths.
pub open spec fn all_valid(ps: Seq<Piece>, orig_len: int, chg_len: int) -> bool {
    forall|i: int| 0 <= i < ps.len() ==> (#[trigger] ps[i]).valid(orig_len, chg_len)
}

/// Every piece's stored terminator count matches its content.
pub open spec fn all_lfc_ok(ps: Seq<Piece>, orig: Seq<char>, chg: Seq<char>) -> bool {
    forall|i: int| 0 <= i < ps.len() ==> (#[trigger] ps[i]).lfc_ok(orig, chg)
}

/// No seam between consecutive pieces splits a `"\r\n"` pair.
pub open spec fn seams_ok(ps: Seq<Piece>, orig: Seq<char>, chg: Seq<char>) -> bool {
    forall|i: int|
        0 <= i < ps.len() - 1 ==> !joins_crlf(
            (#[trigger] ps[i]).content(orig, chg),
            ps[i + 1].content(orig, chg),
        )
}

/// `off` is a boundary between pieces (or one end of the document).
pub open spec fn at_boundary(ps: Seq<Piece>, off: int) -> bool {
    exists|i: int| 0 <= i <= ps.len() && prefix_len(ps, i) == off
}

/// Content distributes over concatenation of piece sequences.
pub proof fn lemma_pieces_content_concat(a: Seq<Piece>, b: Seq<Piece>, orig: Seq<char>, chg: Seq<char>)
    ensures
        pieces_content(a + b, orig, chg) == pieces_content(a, orig, chg) + pieces_content(
            b,
            orig,
            chg,
        ),
    decreases a.len(),
{
    if a.len() == 0 {
        assert(a + b =~= b);
        assert(pieces_content(a, orig, chg) + pieces_content(b, orig, chg) =~= pieces_content(
            b,
            orig,
            chg,
        ));
    } else {
        assert((a + b).drop_first() =~= a.drop_first() + b);
        lemma_pieces_content_concat(a.drop_first(), b, orig, chg);
        assert((a + b)[0] == a[0]);
        assert(pieces_content(a, orig, chg) + pieces_content(b, orig, chg) =~= a[0].content(
            orig,
            chg,
        ) + (pieces_content(a.drop_first(), orig, chg) + pieces_content(b, orig, chg)));
    }
}

/// Piece-length sums distribute over concatenation.
pub proof fn lemma_sum_len_concat(a: Seq<Piece>, b: Seq<Piece>)
    ensures
        sum_len(a + b) == sum_len(a) + sum_len(b),
    decreases a.len(),
{
    if a.len() == 0 {
        assert(a + b =~= b);
    } else {
        assert((a + b).drop_first() =~= a.drop_first() + b);
        assert((a + b)[0] == a[0]);
        lemma_sum_len_concat(a.drop_first(), b);
    }
}

/// Terminator-count sums distribute over concatenation.
pub proof fn lemma_sum_lfc_concat(a: Seq<Piece>, b: Seq<Piece>)
    ensures
        sum_lfc(a + b) == sum_lfc(a) + sum_lfc(b),
    decreases a.len(),
{
    if a.len() == 0 {
        assert(a + b =~= b);
    } else {
        assert((a + b).drop_first() =~= a.drop_first() + b);
        assert((a + b)[0] == a[0]);
        lemma_sum_lfc_concat(a.drop_first(), b);
    }
}

/// The content of a valid piece sequence is as long as its length sum.
pub proof fn lemma_pieces_content_len(ps: Seq<Piece>, orig: Seq<char>, chg: Seq<char>)
    requires
        all_valid(ps, orig.len() as int, chg.len() as int),
    ensures
        pieces_content(ps, orig, chg).len() == sum_len(ps),
    decreases ps.len(),
{
    if ps.len() > 0 {
        assert(ps[0].valid(orig.len() as int, chg.len() as int));
        lemma_pieces_content_len(ps.drop_first(), orig, chg);
    }
}

/// With all seams whole and all per-piece counts right, the terminator
/// count of the concatenated content is the sum of the stored counts.
pub proof fn lemma_pieces_content_line_breaks(ps: Seq<Piece>, orig: Seq<char>, chg: Seq<char>)
    requires
        all_valid(ps, orig.len() as int, chg.len() as int),
        all_lfc_ok(ps, orig, chg),
        seams_ok(ps, orig, chg),
    ensures
        line_breaks(pieces_content(ps, orig, chg)) == sum_lfc(ps),
    decreases ps.len(),
{
    if ps.len() > 0 {
        let rest = ps.drop_first();
        assert(ps[0].valid(orig.len() as int, chg.len() as int));
        assert(forall|i: int| 0 <= i < rest.len() ==> rest[i] == ps[i + 1]);
        lemma_pieces_content_line_breaks(rest, orig, chg);
        let head = ps[0].content(orig, chg);
        let tail = pieces_content(rest, orig, chg);
        // The first character of the tail, if any, belongs to ps[1], so the
        // head/tail seam is one of the piece seams assumed whole.
        if head.len() > 0 && tail.len() > 0 && head.last() == '\r' && tail[0] == '\n' {
            assert(ps.len() >= 2);
            assert(rest[0].valid(orig.len() as int, chg.len() as int));
            lemma_pieces_content_len(rest, orig, chg);
            assert(rest[0].content(orig, chg).len() > 0);
            assert(tail[0] == rest[0].content(orig, chg)[0]);
            assert(joins_crlf(ps[0].content(orig, chg), ps[1].content(orig, chg)));
            assert(false);
        }
        lemma_line_breaks_concat(head, tail);
    }
}

/// Appending to the changed buffer does not alter the content, validity,
/// per-piece counts, or seams of pieces that were valid before the append.
pub proof fn lemma_pieces_stable_under_append(
    ps: Seq<Piece>,
    orig: Seq<char>,
    chg: Seq<char>,
    chg2: Seq<char>,
)
    requires
        all_valid(ps, orig.len() as int, chg.len() as int),
        chg.is_prefix_of(chg2),
    ensures
        pieces_content(ps, orig, chg2) == pieces_content(ps, orig, chg),
        all_valid(ps, orig.len() as int, chg2.len() as int),
        all_lfc_ok(ps, orig, chg) ==> all_lfc_ok(ps, orig, chg2),
        seams_ok(ps, orig, chg) ==> seams_ok(ps, orig, chg2),
        forall|i: int|
            0 <= i < ps.len() ==> (#[trigger] ps[i]).content(orig, chg2) == ps[i].content(
                orig,
                chg,
            ),
    decreases ps.len(),
{
    assert forall|i: int| 0 <= i < ps.len() implies (#[trigger] ps[i]).content(orig, chg2)
        == ps[i].content(orig, chg) by {
        assert(ps[i].valid(orig.len() as int, chg.len() as int));
        if ps[i].kind == NodeType::Changed {
            assert(chg2.subrange(ps[i].start as int, ps[i].end as int) =~= chg.subrange(
                ps[i].start as int,
                ps[i].end as int,
            ));
        }
    }
    if ps.len() > 0 {
        assert(ps[0].valid(orig.len() as int, chg.len() as int));
        assert(forall|i: int|
            0 <= i < ps.drop_first().len() ==> ps.drop_first()[i] == ps[i + 1]);
        lemma_pieces_stable_under_append(ps.drop_first(), orig, chg, chg2);
    }
}

/// One step of a prefix: covering one more piece adds that piece's length.
pub proof fn lemma_prefix_len_step(ps: Seq<Piece>, i: int)
    requires
        0 <= i < ps.len(),
    ensures
        prefix_len(ps, i + 1) == prefix_len(ps, i) + ps[i].len_int(),
{
    assert(ps.take(i + 1) =~= ps.take(i) + seq![ps[i]]);
    lemma_sum_len_concat(ps.take(i), seq![ps[i]]);
    let single = seq![ps[i]];
    assert(single.len() == 1);
    assert(single[0] == ps[i]);
    assert(single.drop_first() =~= Seq::<Piece>::empty());
    assert(sum_len(Seq::<Piece>::empty()) == 0);
    assert(sum_len(single) == ps[i].len_int());
}

/// Prefix lengths grow strictly with each non-empty piece covered.
pub proof fn lemma_prefix_len_mono(ps: Seq<Piece>, i: int, j: int)
    requires
        pieces_pos(ps),
        0 <= i <= j <= ps.len(),
    ensures
        prefix_len(ps, i) <= prefix_len(ps, j),
        i < j ==> prefix_len(ps, i) + ps[i].len_int() <= prefix_len(ps, j),
    decreases j - i,
{
    if i < j {
        lemma_prefix_len_step(ps, i);
        if i + 1 < j {
            lemma_prefix_len_mono(ps, i + 1, j);
            assert(ps[i + 1].len_int() > 0);
        }
    }
}

/// The first `i` pieces of a concatenation are the first `i` pieces of the
/// left part, as long as `i` does not reach past it.
pub proof fn lemma_prefix_len_concat_left(a: Seq<Piece>, b: Seq<Piece>, i: int)
    requires
        0 <= i <= a.len(),
    ensures
        prefix_len(a + b, i) == prefix_len(a, i),
{
    assert((a + b).take(i) =~= a.take(i));
}

/// A prefix reaching into the right part of a concatenation is the whole
/// left sum plus a prefix of the right part.
pub proof fn lemma_prefix_len_concat_right(a: Seq<Piece>, b: Seq<Piece>, i: int)
    requires
        a.len() <= i <= a.len() + b.len(),
    ensures
        prefix_len(a + b, i) == sum_len(a) + prefix_len(b, i - a.len()),
{
    assert((a + b).take(i) =~= a + b.take(i - a.len()));
    lemma_sum_len_concat(a, b.take(i - a.len()));
}

/// The content of the first `i` pieces is the first `prefix_len(ps, i)`
/// characters of the whole content.
pub proof fn lemma_content_take(ps: Seq<Piece>, orig: Seq<char>, chg: Seq<char>, i: int)
    requires
        all_valid(ps, orig.len() as int, chg.len() as int),
        0 <= i <= ps.len(),
    ensures
        pieces_content(ps.take(i), orig, chg) == pieces_content(ps, orig, chg).take(
            prefix_len(ps, i),
        ),
        pieces_content(ps.skip(i), orig, chg) == pieces_content(ps, orig, chg).skip(
            prefix_len(ps, i),
        ),
{
    assert(ps.take(i) + ps.skip(i) =~= ps);
    lemma_pieces_content_concat(ps.take(i), ps.skip(i), orig, chg);
    assert(forall|k: int| 0 <= k < i ==> ps.take(i)[k] == ps[k]);
    lemma_pieces_content_len(ps.take(i), orig, chg);
    let front = pieces_content(ps.take(i), orig, chg);
    let back = pieces_content(ps.skip(i), orig, chg);
    let whole = pieces_content(ps, orig, chg);
    assert(whole == front + back);
    assert(front.len() == prefix_len(ps, i));
    assert(whole.take(prefix_len(ps, i)) =~= front);
    assert(whole.skip(prefix_len(ps, i)) =~= back);
}


/// Covering one more piece appends exactly that piece's content.
pub proof fn lemma_pieces_content_snoc(ps: Seq<Piece>, orig: Seq<char>, chg: Seq<char>, k: int)
    requires
        0 <= k < ps.len(),
    ensures
        pieces_content(ps.take(k + 1), orig, chg) == pieces_content(ps.take(k), orig, chg)
            + ps[k].content(orig, chg),
{
    assert(ps.take(k + 1) =~= ps.take(k) + seq![ps[k]]);
    lemma_pieces_content_concat(ps.take(k), seq![ps[k]], orig, chg);
    let single = seq![ps[k]];
    assert(single.drop_first() =~= Seq::<Piece>::empty());
    assert(single[0] == ps[k]);
    assert(pieces_content(single.drop_first(), orig, chg) == Seq::<char>::empty());
    assert(pieces_content(single, orig, chg) =~= ps[k].content(orig, chg));
}

/// The slice of the whole content covered by piece `i` is that piece's
/// content.
pub proof fn lemma_piece_content_slice(ps: Seq<Piece>, orig: Seq<char>, chg: Seq<char>, i: int)
    requires
        all_valid(ps, orig.len() as int, chg.len() as int),
        0 <= i < ps.len(),
    ensures
        prefix_len(ps, i) >= 0,
        prefix_len(ps, i) + ps[i].len_int() <= pieces_content(ps, orig, chg).len(),
        pieces_content(ps, orig, chg).subrange(
            prefix_len(ps, i),
            prefix_len(ps, i) + ps[i].len_int(),
        ) == ps[i].content(orig, chg),
{
    lemma_content_take(ps, orig, chg, i);
    lemma_content_take(ps, orig, chg, i + 1);
    lemma_pieces_content_snoc(ps, orig, chg, i);
    lemma_pieces_content_len(ps, orig, chg);
    lemma_prefix_len_step(ps, i);
    lemma_prefix_len_nonneg(ps, orig.len() as int, chg.len() as int, i);
    assert(pieces_pos(ps)) by {
        assert(forall|m: int|
            0 <= m < ps.len() ==> (#[trigger] ps[m]).valid(
                orig.len() as int,
                chg.len() as int,
            ));
    }
    assert(ps.take(ps.len() as int) =~= ps);
    lemma_prefix_len_mono(ps, i + 1, ps.len() as int);
    let whole = pieces_content(ps, orig, chg);
    let a = prefix_len(ps, i);
    let b = a + ps[i].len_int();
    assert(whole.take(b) =~= whole.take(a) + whole.subrange(a, b));
    assert(pieces_content(ps.take(i + 1), orig, chg) == whole.take(b));
    assert(pieces_content(ps.take(i), orig, chg) == whole.take(a));
}

/// Prefix lengths of valid pieces are non-negative.
pub proof fn lemma_prefix_len_nonneg(ps: Seq<Piece>, orig_len: int, chg_len: int, i: int)
    requires
        all_valid(ps, orig_len, chg_len),
        0 <= i <= ps.len(),
    ensures
        prefix_len(ps, i) >= 0,
{
    assert(forall|m: int| 0 <= m < i ==> ps.take(i)[m] == ps[m]);
    lemma_sum_len_nonneg_valid(ps.take(i), orig_len, chg_len);
}

/// Sums over valid pieces are non-negative.
pub proof fn lemma_sum_len_nonneg_valid(ps: Seq<Piece>, orig_len: int, chg_len: int)
    requires
        all_valid(ps, orig_len, chg_len),
    ensures
        sum_len(ps) >= 0,
    decreases ps.len(),
{
    if ps.len() > 0 {
        assert(ps[0].valid(orig_len, chg_len));
        assert(forall|m: int|
            0 <= m < ps.drop_first().len() ==> ps.drop_first()[m] == ps[m + 1]);
        lemma_sum_len_nonneg_valid(ps.drop_first(), orig_len, chg_len);
    }
}


/// With correct per-piece counts, the terminator sum never exceeds the
/// length sum.
pub proof fn lemma_sum_lfc_le_sum_len(ps: Seq<Piece>, orig: Seq<char>, chg: Seq<char>)
    requires
        all_valid(ps, orig.len() as int, chg.len() as int),
        all_lfc_ok(ps, orig, chg),
    ensures
        sum_lfc(ps) <= sum_len(ps),
    decreases ps.len(),
{
    if ps.len() > 0 {
        assert(ps[0].valid(orig.len() as int, chg.len() as int));
        assert(ps[0].lfc_ok(orig, chg));
        crate::textspec::lemma_line_breaks_le_len(ps[0].content(orig, chg));
        assert(forall|m: int|
            0 <= m < ps.drop_first().len() ==> ps.drop_first()[m] == ps[m + 1]);
        lemma_sum_lfc_le_sum_len(ps.drop_first(), orig, chg);
    }
}

} // verus!
