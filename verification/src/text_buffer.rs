//! The text buffer: an editable document held as two backing buffers and
//! a piece tree over them.
//!
//! The original buffer holds the loaded text and is never changed; the
//! changed buffer only ever grows at its end. The document is the
//! concatenation, in tree order, of the pieces' views into the two
//! buffers, and every operation is specified against that model: its
//! abstract view is the `Seq<char>` of the whole document.

use vstd::pervasive::unreached;
use vstd::prelude::*;
use vstd::string::{StrSliceExecFns, StringExecFns};

use crate::buffer::{count_line_feeds, Buffer};
use crate::cache::{cache_entries_ok, NodePosition, PieceTreeSearchCache, TextBufferCache};
use crate::grapheme::{count_graphemes, grapheme_count};
use crate::info::{DefaultEOL, TextBufferInfo};
use crate::piece::{
    all_lfc_ok, all_valid, at_boundary, lemma_pieces_content_len, lemma_pieces_content_line_breaks,
    lemma_pieces_content_snoc, pieces_content, pieces_pos, prefix_len, sum_len, sum_lfc, NodeType,
    Piece,
};
use crate::textspec::{lemma_line_breaks_le_len, lemma_splice_in_empty, line_breaks, splice_in, splice_out};
use crate::tree::PieceTree;

verus! {

/// The errors an edit can surface: a position outside the document, or
/// an edit that would push a buffer past what the machine can address.
#[derive(Clone, Copy, PartialEq, Eq, Structural, Debug)]
pub enum BufferError {
    OffsetOutOfRange,
    CapacityExceeded,
}

/// The editable document.
#[derive(Debug)]
pub struct TextBuffer {
    tree: PieceTree,
    info: TextBufferInfo,
    original: Buffer,
    changed: Option<Buffer>,
    cache: TextBufferCache,
}

impl View for TextBuffer {
    type V = Seq<char>;

    open spec fn view(&self) -> Seq<char> {
        self.content()
    }
}

impl TextBuffer {
    /// The characters of the loaded, never-mutated original buffer.
    pub closed spec fn orig_text(self) -> Seq<char> {
        self.original.value@
    }

    /// The characters of the append-only changed buffer.
    pub closed spec fn chg_text(self) -> Seq<char> {
        match self.changed {
            Some(b) => b.value@,
            None => Seq::<char>::empty(),
        }
    }

    /// The pieces of the document, in order.
    pub closed spec fn pieces(self) -> Seq<Piece> {
        self.tree.pieces()
    }

    /// The piece tree itself, for stating its structural invariants.
    pub closed spec fn tree_spec(self) -> PieceTree {
        self.tree
    }

    /// The document: the pieces' contents, concatenated in order.
    pub closed spec fn content(self) -> Seq<char> {
        pieces_content(self.tree.pieces(), self.orig_text(), self.chg_text())
    }

    /// Well-formedness: the tree is a red-black tree with consistent
    /// metadata; every piece is a non-empty view into its buffer with a
    /// correct terminator count; no piece seam splits a `"\r\n"`; the
    /// buffers' line-start tables are correct; and the cached totals
    /// equal the document's.
    pub closed spec fn wf(self) -> bool {
        &&& self.tree.wf()
        &&& all_valid(
            self.tree.pieces(),
            self.orig_text().len() as int,
            self.chg_text().len() as int,
        )
        &&& all_lfc_ok(self.tree.pieces(), self.orig_text(), self.chg_text())
        &&& crate::piece::seams_ok(self.tree.pieces(), self.orig_text(), self.chg_text())
        &&& self.original.wf()
        &&& match self.changed {
            Some(b) => b.wf(),
            None => true,
        }
        &&& !self.info.eos_normalized
        &&& self.cache.len == self.content().len()
        &&& self.cache.line_count == line_breaks(self.content())
        &&& self.cache.last_change == self.chg_text().len()
        &&& cache_entries_ok(self.cache.search.entries(), self.tree.pieces())
    }

    /// An empty document with the given default end-of-line style.
    pub fn new(default_eol: DefaultEOL) -> (tb: TextBuffer)
        ensures
            tb.wf(),
            tb@ == Seq::<char>::empty(),
            tb.orig_text() == Seq::<char>::empty(),
            tb.chg_text() == Seq::<char>::empty(),
    {
        let tb = TextBuffer {
            tree: PieceTree::new(),
            info: TextBufferInfo::new(default_eol),
            original: Buffer::from_text(String::new()),
            changed: None,
            cache: TextBufferCache::new(),
        };
        proof {
            assert(tb.content() =~= Seq::<char>::empty());
        }
        tb
    }

    /// A document loaded from the given text: the text becomes the
    /// original buffer, viewed by a single piece.
    pub fn from_string(text: &str, default_eol: DefaultEOL) -> (tb: TextBuffer)
        ensures
            tb.wf(),
            tb@ == text@,
            tb.orig_text() == text@,
            tb.chg_text() == Seq::<char>::empty(),
    {
        let (info, line_starts) = TextBufferInfo::from_string(text, default_eol);
        let n = text.unicode_len();
        let owned = String::from_str(text);
        let original = Buffer::new(owned, line_starts);
        let mut tree = PieceTree::new();
        let mut line_count: usize = 0;
        if n > 0 {
            let lfc = count_line_feeds(text, 0, n);
            let piece = Piece::new(NodeType::Original, 0, n, lfc);
            proof {
                let empty = Seq::<Piece>::empty();
                assert(empty.take(0) =~= empty);
                assert(sum_len(empty) == 0);
                assert(sum_lfc(empty) == 0);
                assert(prefix_len(empty, 0) == 0);
                assert(at_boundary(empty, 0));
            }
            tree.insert_piece(0, piece);
            line_count = lfc;
            proof {
                let empty = Seq::<Piece>::empty();
                let wi = choose|i: int|
                    0 <= i <= empty.len() && prefix_len(empty, i) == 0 && tree.pieces()
                        == empty.take(i) + seq![piece] + empty.skip(i);
                assert(tree.pieces() =~= seq![piece]);
            }
        }
        let cache = TextBufferCache {
            last_change: 0,
            search: PieceTreeSearchCache::new(1),
            line_count,
            len: n,
        };
        let tb = TextBuffer { tree, info, original, changed: None, cache };
        proof {
            if n > 0 {
                assert(tb.pieces() == seq![Piece {
                    kind: NodeType::Original,
                    start: 0,
                    end: n,
                    line_feed_count: tb.cache.line_count,
                }]);
                let p = tb.pieces()[0];
                assert(tb.orig_text() == text@);
                assert(text@.subrange(0, n as int) =~= text@);
                assert(p.content(tb.orig_text(), tb.chg_text()) == tb.orig_text().subrange(
                    0,
                    n as int,
                ));
                assert(tb.pieces().drop_first() =~= Seq::<Piece>::empty());
                assert(pieces_content(Seq::<Piece>::empty(), tb.orig_text(), tb.chg_text())
                    == Seq::<char>::empty());
                assert(tb.content() == p.content(tb.orig_text(), tb.chg_text()) + pieces_content(
                    tb.pieces().drop_first(),
                    tb.orig_text(),
                    tb.chg_text(),
                ));
                assert(tb.content() =~= text@);
            } else {
                assert(tb.content() =~= Seq::<char>::empty());
                assert(text@ =~= Seq::<char>::empty());
            }
        }
        tb
    }

    /// The document length in characters.
    pub fn length(&self) -> (r: usize)
        requires
            self.wf(),
        ensures
            r == self@.len(),
    {
        self.cache.len
    }

    /// The number of lines: one more than the number of terminators.
    pub fn line_count(&self) -> (r: usize)
        requires
            self.wf(),
            self@.len() < usize::MAX,
        ensures
            r == line_breaks(self@) + 1,
    {
        proof {
            lemma_line_breaks_le_len(self.content());
        }
        self.cache.line_count + 1
    }

    /// The number of pieces the document is held in.
    pub fn piece_count(&self) -> (r: usize)
        ensures
            r == self.pieces().len(),
    {
        self.tree.piece_count()
    }

    /// The document length in grapheme clusters: the user-visible
    /// character count.
    pub fn grapheme_length(&self) -> (r: usize)
        requires
            self.wf(),
        ensures
            r == grapheme_count(self@),
    {
        let s = self.to_string();
        count_graphemes(s.as_str())
    }

    /// The original buffer's text, as loaded.
    pub fn original_to_string(&self) -> (r: String)
        ensures
            r@ == self.orig_text(),
    {
        self.original.value.clone()
    }

    /// The changed buffer's text: everything ever inserted, in append
    /// order.
    pub fn changed_to_string(&self) -> (r: String)
        ensures
            r@ == self.chg_text(),
    {
        match &self.changed {
            Some(b) => b.value.clone(),
            None => String::new(),
        }
    }

    /// The content of line `line`, terminator excluded. Lines are
    /// numbered from zero; the line number must name an existing line.
    pub fn line_content(&self, line: usize) -> (r: String)
        requires
            self.wf(),
            self@.len() < usize::MAX,
            line as int <= line_breaks(self@),
        ensures
            r@ == crate::textspec::spec_line(self@, line as int),
    {
        let ghost s = self.content();
        let text = self.to_string();
        let n = self.cache.len;
        proof {
            assert(text@ == s);
            assert(n == s.len());
        }
        let mut start: usize = 0;
        let mut j: usize = 0;
        while j < line
            invariant
                j <= line,
                text@ == s,
                n == s.len(),
                self.wf(),
                start as int == crate::textspec::line_start_pos(s, j as int),
                start <= n,
            decreases line - j,
        {
            let e = Self::scan_line_end(&text, start);
            proof {
                crate::textspec::lemma_line_end_from_bounds(s, start as int);
            }
            if e >= n {
                start = n;
            } else if text.get_char(e) == '\r' && e + 1 < n && text.get_char(e + 1) == '\n' {
                start = e + 2;
            } else {
                start = e + 1;
            }
            j = j + 1;
            proof {
                crate::textspec::lemma_line_start_pos_bounds(s, j as int);
            }
        }
        let e = Self::scan_line_end(&text, start);
        proof {
            crate::textspec::lemma_line_end_from_bounds(s, start as int);
        }
        let piece_str = text.as_str().substring_char(start, e);
        String::from_str(piece_str)
    }

    /// Position of the first terminator character at or after `from`,
    /// or the end of the text.
    fn scan_line_end(text: &String, from: usize) -> (e: usize)
        requires
            from <= text@.len(),
        ensures
            e as int == crate::textspec::line_end_from(text@, from as int),
            from <= e <= text@.len(),
    {
        let ghost s = text@;
        let n = text.as_str().unicode_len();
        let mut i: usize = from;
        while i < n
            invariant
                from <= i <= n,
                n == s.len(),
                s == text@,
                crate::textspec::line_end_from(s, from as int) == crate::textspec::line_end_from(
                    s,
                    i as int,
                ),
            decreases n - i,
        {
            let c = text.get_char(i);
            if c == '\n' || c == '\r' {
                return i;
            }
            i = i + 1;
        }
        i
    }

    /// Serializes the document by walking the pieces in order and slicing
    /// each piece's view out of its buffer.
    pub fn to_string(&self) -> (r: String)
        requires
            self.wf(),
        ensures
            r@ == self@,
    {
        let pieces = self.tree.collect_pieces();
        let mut out = String::new();
        let mut k: usize = 0;
        proof {
            assert(self.tree.pieces().take(0) =~= Seq::<Piece>::empty());
        }
        while k < pieces.len()
            invariant
                self.wf(),
                pieces@ == self.tree.pieces(),
                k <= pieces@.len(),
                out@ == pieces_content(
                    self.tree.pieces().take(k as int),
                    self.orig_text(),
                    self.chg_text(),
                ),
            decreases pieces@.len() - k,
        {
            let p = pieces[k];
            proof {
                assert(self.tree.pieces()[k as int].valid(
                    self.orig_text().len() as int,
                    self.chg_text().len() as int,
                ));
            }
            let piece_str = match p.kind {
                NodeType::Original => self.original.value.as_str().substring_char(p.start, p.end),
                NodeType::Changed => match &self.changed {
                    Some(b) => b.value.as_str().substring_char(p.start, p.end),
                    None => {
                        proof {
                            assert(false);
                        }
                        unreached()
                    },
                },
            };
            out.append(piece_str);
            proof {
                lemma_pieces_content_snoc(
                    self.tree.pieces(),
                    self.orig_text(),
                    self.chg_text(),
                    k as int,
                );
            }
            k = k + 1;
        }
        proof {
            assert(self.tree.pieces().take(pieces@.len() as int) =~= self.tree.pieces());
        }
        out
    }
}


/// Capacity ceiling used by the edit guards: far below `usize::MAX`, so
/// every internal length computation of an edit fits comfortably.
pub open spec fn cap_limit() -> int {
    usize::MAX as int / 64
}

impl TextBuffer {
    /// Removes `[offset, offset + count)` from the document: the pieces
    /// are collected in order, the range is trimmed away, any `"\r\n"`
    /// split across the new seam is repaired, and the tree is rebuilt.
    fn raw_delete(&mut self, offset: usize, count: usize)
        requires
            old(self).wf(),
            count >= 1,
            offset + count <= old(self)@.len(),
            old(self).chg_text().len() + 2 * (2 * old(self).pieces().len() + 1) <= usize::MAX,
        ensures
            final(self).wf(),
            final(self)@ == splice_out(old(self)@, offset as int, count as int),
            final(self).orig_text() == old(self).orig_text(),
            old(self).chg_text().is_prefix_of(final(self).chg_text()),
            final(self).chg_text().len() <= old(self).chg_text().len() + 2 * (2 * old(
                self,
            ).pieces().len() + 1),
            final(self).pieces().len() <= 4 * old(self).pieces().len(),
    {
        let ghost o = self.orig_text();
        let ghost cg0 = self.chg_text();
        let ghost c0 = self.content();
        let ghost ps0 = self.pieces();
        proof {
            lemma_pieces_content_len(ps0, o, cg0);
        }
        let pieces = self.tree.collect_pieces();
        let kept = crate::repair::trim_pieces(
            &self.original,
            &self.changed,
            &pieces,
            offset,
            count,
        );
        let kept2 = crate::repair::repair_seam_pass(&self.original, &mut self.changed, &kept);
        let ghost cg1 = crate::repair::opt_text(self.changed);
        let ghost c1 = splice_out(c0, offset as int, count as int);
        proof {
            assert(pieces_content(kept2@, o, cg1) == c1);
            lemma_pieces_content_len(kept2@, o, cg1);
            assert(c1.len() <= c0.len());
            crate::piece::lemma_sum_lfc_le_sum_len(kept2@, o, cg1);
            crate::piece::lemma_sum_len_nonneg_valid(kept2@, o.len() as int, cg1.len() as int);
        }
        let new_tree = PieceTree::from_pieces(&kept2);
        self.tree = new_tree;
        proof {
            crate::tree::lemma_tree_pos_pieces(self.tree.root);
            crate::piece::lemma_sum_lfc_le_sum_len(self.tree.pieces(), o, cg1);
        }
        let new_len = self.tree.total_len();
        let new_lfc = self.tree.total_lfc();
        self.cache.len = new_len;
        self.cache.line_count = new_lfc;
        self.cache.last_change = match &self.changed {
            Some(b) => b.value.unicode_len(),
            None => 0,
        };
        self.cache.search.invalidate_from(0);
        proof {
            lemma_pieces_content_line_breaks(self.tree.pieces(), o, cg1);
            assert(self.content() == c1);
            assert(cache_entries_ok(self.cache.search.entries(), self.tree.pieces())) by {
                if self.cache.search.entries().len() > 0 {
                    assert(self.cache.search.entries()[0].node_start_offset < 0);
                }
            }
        }
    }

    /// Deletes `count` characters at `offset`. The range must lie inside
    /// the document; a range reaching past the end is reported and
    /// nothing changes. The original buffer is never touched and the
    /// changed buffer only ever grows.
    pub fn delete(&mut self, offset: usize, count: usize) -> (r: Result<(), BufferError>)
        requires
            old(self).wf(),
        ensures
            final(self).wf(),
            r is Err ==> *final(self) == *old(self),
            r matches Ok(_) ==> final(self)@ == splice_out(
                old(self)@,
                offset as int,
                count as int,
            ),
            r == Err::<(), BufferError>(BufferError::OffsetOutOfRange) <==> offset + count
                > old(self)@.len(),
            r == Err::<(), BufferError>(BufferError::CapacityExceeded) <==> offset + count
                <= old(self)@.len() && count >= 1 && !(old(self).chg_text().len() <= cap_limit()
                && old(self).pieces().len() <= cap_limit()),
            final(self).orig_text() == old(self).orig_text(),
            old(self).chg_text().is_prefix_of(final(self).chg_text()),
    {
        let len = self.cache.len;
        if offset > len || count > len - offset {
            return Err(BufferError::OffsetOutOfRange);
        }
        if count == 0 {
            proof {
                lemma_splice_in_empty(self.content(), offset as int);
                assert(splice_out(self.content(), offset as int, 0) =~= self.content());
            }
            return Ok(());
        }
        let chg_len = match &self.changed {
            Some(b) => b.value.unicode_len(),
            None => 0,
        };
        let pc = self.tree.piece_count();
        let cap: usize = usize::MAX / 64;
        if chg_len > cap || pc > cap {
            return Err(BufferError::CapacityExceeded);
        }
        self.raw_delete(offset, count);
        Ok(())
    }
}


/// All seams of `ps` are whole, except possibly the one between pieces
/// `j - 1` and `j`.
pub open spec fn seams_ok_except(ps: Seq<Piece>, o: Seq<char>, c: Seq<char>, j: int) -> bool {
    forall|m: int|
        0 <= m < ps.len() - 1 && m != j - 1 ==> !crate::textspec::joins_crlf(
            (#[trigger] ps[m]).content(o, c),
            ps[m + 1].content(o, c),
        )
}

/// Establishes the obligations of a piece replacement: the start offset
/// names a node, and the sums stay within machine range.
proof fn lemma_replace_ready(ps: Seq<Piece>, o: Seq<char>, c: Seq<char>, i: int, g: Piece)
    requires
        all_valid(ps, o.len() as int, c.len() as int),
        all_lfc_ok(ps, o, c),
        pieces_pos(ps),
        0 <= i < ps.len(),
        g.valid(o.len() as int, c.len() as int),
        g.lfc_ok(o, c),
        sum_len(ps) - ps[i].len_int() + g.len_int() <= usize::MAX,
    ensures
        exists|j: int| 0 <= j < ps.len() && prefix_len(ps, j) == prefix_len(ps, i),
        forall|j: int|
            (0 <= j < ps.len() && prefix_len(ps, j) == prefix_len(ps, i)) ==> sum_len(ps) - (
            #[trigger] ps[j]).len_int() + g.len_int() <= usize::MAX && sum_lfc(ps)
                - ps[j].line_feed_count + g.line_feed_count <= usize::MAX,
{
    assert(exists|j: int| 0 <= j < ps.len() && prefix_len(ps, j) == prefix_len(ps, i)) by {
        assert(0 <= i < ps.len() && prefix_len(ps, i) == prefix_len(ps, i));
    }
    let psn = ps.update(i, g);
    crate::tree::lemma_sum_update(ps, i, g);
    assert(forall|m: int| 0 <= m < psn.len() && m != i ==> psn[m] == ps[m]);
    assert(psn[i] == g);
    assert(all_valid(psn, o.len() as int, c.len() as int)) by {
        assert(forall|m: int|
            0 <= m < ps.len() ==> (#[trigger] ps[m]).valid(o.len() as int, c.len() as int));
    }
    assert(all_lfc_ok(psn, o, c)) by {
        assert(forall|m: int| 0 <= m < ps.len() ==> (#[trigger] ps[m]).lfc_ok(o, c));
    }
    crate::piece::lemma_sum_lfc_le_sum_len(psn, o, c);
    assert forall|j: int|
        (0 <= j < ps.len() && prefix_len(ps, j) == prefix_len(ps, i)) implies sum_len(ps) - (
    #[trigger] ps[j]).len_int() + g.len_int() <= usize::MAX && sum_lfc(ps)
        - ps[j].line_feed_count + g.line_feed_count <= usize::MAX by {
        crate::tree::lemma_prefix_len_unique(ps, j, i);
    }
}

/// What a piece replacement does to the element facts, the prefix sums,
/// and the content.
proof fn lemma_replace_result(ps: Seq<Piece>, o: Seq<char>, c: Seq<char>, i: int, g: Piece)
    requires
        all_valid(ps, o.len() as int, c.len() as int),
        all_lfc_ok(ps, o, c),
        pieces_pos(ps),
        0 <= i < ps.len(),
        g.valid(o.len() as int, c.len() as int),
        g.lfc_ok(o, c),
    ensures
        all_valid(ps.update(i, g), o.len() as int, c.len() as int),
        all_lfc_ok(ps.update(i, g), o, c),
        pieces_pos(ps.update(i, g)),
        pieces_content(ps.update(i, g), o, c) == pieces_content(ps, o, c).take(
            prefix_len(ps, i),
        ) + g.content(o, c) + pieces_content(ps, o, c).skip(
            prefix_len(ps, i) + ps[i].len_int(),
        ),
        prefix_len(ps.update(i, g), i + 1) == prefix_len(ps, i) + g.len_int(),
{
    let psn = ps.update(i, g);
    assert(forall|m: int| 0 <= m < psn.len() && m != i ==> psn[m] == ps[m]);
    assert(psn[i] == g);
    assert(all_valid(psn, o.len() as int, c.len() as int)) by {
        assert(forall|m: int|
            0 <= m < ps.len() ==> (#[trigger] ps[m]).valid(o.len() as int, c.len() as int));
    }
    assert(all_lfc_ok(psn, o, c)) by {
        assert(forall|m: int| 0 <= m < ps.len() ==> (#[trigger] ps[m]).lfc_ok(o, c));
    }
    assert(pieces_pos(psn)) by {
        assert(forall|m: int|
            0 <= m < ps.len() ==> (#[trigger] ps[m]).start < ps[m].end);
    }
    assert(psn =~= ps.take(i) + seq![g] + ps.skip(i + 1));
    crate::piece::lemma_pieces_content_concat(ps.take(i) + seq![g], ps.skip(i + 1), o, c);
    crate::piece::lemma_pieces_content_concat(ps.take(i), seq![g], o, c);
    assert(seq![g].drop_first() =~= Seq::<Piece>::empty());
    assert(seq![g][0] == g);
    assert(pieces_content(seq![g].drop_first(), o, c) == Seq::<char>::empty());
    assert(pieces_content(seq![g], o, c) =~= g.content(o, c));
    crate::piece::lemma_content_take(ps, o, c, i);
    crate::piece::lemma_content_take(ps, o, c, i + 1);
    crate::piece::lemma_prefix_len_step(ps, i);
    assert(pieces_content(ps.skip(i + 1), o, c) == pieces_content(ps, o, c).skip(
        prefix_len(ps, i) + ps[i].len_int(),
    ));
    assert(psn.take(i + 1) =~= ps.take(i) + seq![g]);
    crate::piece::lemma_sum_len_concat(ps.take(i), seq![g]);
    assert(sum_len(Seq::<Piece>::empty()) == 0);
    assert(sum_len(seq![g]) == g.len_int());
}

/// What inserting a piece at index `j` does to the element facts and the
/// content.
proof fn lemma_insert_result(ps: Seq<Piece>, o: Seq<char>, c: Seq<char>, j: int, q: Piece)
    requires
        all_valid(ps, o.len() as int, c.len() as int),
        all_lfc_ok(ps, o, c),
        pieces_pos(ps),
        0 <= j <= ps.len(),
        q.valid(o.len() as int, c.len() as int),
        q.lfc_ok(o, c),
    ensures
        all_valid(ps.take(j) + seq![q] + ps.skip(j), o.len() as int, c.len() as int),
        all_lfc_ok(ps.take(j) + seq![q] + ps.skip(j), o, c),
        pieces_pos(ps.take(j) + seq![q] + ps.skip(j)),
        pieces_content(ps.take(j) + seq![q] + ps.skip(j), o, c) == pieces_content(
            ps,
            o,
            c,
        ).take(prefix_len(ps, j)) + q.content(o, c) + pieces_content(ps, o, c).skip(
            prefix_len(ps, j),
        ),
{
    let psn = ps.take(j) + seq![q] + ps.skip(j);
    assert(forall|m: int| 0 <= m < j ==> psn[m] == ps[m]);
    assert(psn[j] == q);
    assert(forall|m: int| j < m < psn.len() ==> psn[m] == ps[m - 1]);
    assert(all_valid(psn, o.len() as int, c.len() as int)) by {
        assert(forall|m: int|
            0 <= m < ps.len() ==> (#[trigger] ps[m]).valid(o.len() as int, c.len() as int));
    }
    assert(all_lfc_ok(psn, o, c)) by {
        assert(forall|m: int| 0 <= m < ps.len() ==> (#[trigger] ps[m]).lfc_ok(o, c));
    }
    assert(pieces_pos(psn)) by {
        assert(forall|m: int|
            0 <= m < ps.len() ==> (#[trigger] ps[m]).start < ps[m].end);
    }
    crate::piece::lemma_pieces_content_concat(ps.take(j) + seq![q], ps.skip(j), o, c);
    crate::piece::lemma_pieces_content_concat(ps.take(j), seq![q], o, c);
    assert(seq![q].drop_first() =~= Seq::<Piece>::empty());
    assert(seq![q][0] == q);
    assert(pieces_content(seq![q].drop_first(), o, c) == Seq::<char>::empty());
    assert(pieces_content(seq![q], o, c) =~= q.content(o, c));
    crate::piece::lemma_content_take(ps, o, c, j);
}

/// The characters of the document on either side of the boundary before
/// piece `j` are the closing and opening characters of the neighbouring
/// pieces.
proof fn lemma_neighbor_chars(ps: Seq<Piece>, o: Seq<char>, c: Seq<char>, j: int)
    requires
        all_valid(ps, o.len() as int, c.len() as int),
        pieces_pos(ps),
        0 <= j <= ps.len(),
    ensures
        j > 0 ==> prefix_len(ps, j) >= 1 && ps[j - 1].content(o, c).last() == pieces_content(
            ps,
            o,
            c,
        )[prefix_len(ps, j) - 1],
        j < ps.len() ==> prefix_len(ps, j) + 1 <= pieces_content(ps, o, c).len() && ps[
            j
        ].content(o, c)[0] == pieces_content(ps, o, c)[prefix_len(ps, j)],
{
    if j > 0 {
        crate::piece::lemma_piece_content_slice(ps, o, c, j - 1);
        crate::piece::lemma_prefix_len_step(ps, j - 1);
        assert(ps[j - 1].valid(o.len() as int, c.len() as int));
        let a = prefix_len(ps, j - 1);
        let b = a + ps[j - 1].len_int();
        assert(b == prefix_len(ps, j));
        assert(ps[j - 1].content(o, c) == pieces_content(ps, o, c).subrange(a, b));
        assert(ps[j - 1].content(o, c).len() >= 1);
    }
    if j < ps.len() {
        crate::piece::lemma_piece_content_slice(ps, o, c, j);
        assert(ps[j].valid(o.len() as int, c.len() as int));
        let a = prefix_len(ps, j);
        assert(ps[j].content(o, c) == pieces_content(ps, o, c).subrange(
            a,
            a + ps[j].len_int(),
        ));
        assert(ps[j].content(o, c).len() >= 1);
    }
}

/// Inserting a piece at a boundary whose own two new seams are whole
/// heals the one possibly broken seam there and leaves all seams whole.
proof fn lemma_insert_seams(ps: Seq<Piece>, o: Seq<char>, c: Seq<char>, j: int, q: Piece)
    requires
        0 <= j <= ps.len(),
        seams_ok_except(ps, o, c, j),
        j > 0 ==> !crate::textspec::joins_crlf(ps[j - 1].content(o, c), q.content(o, c)),
        j < ps.len() ==> !crate::textspec::joins_crlf(q.content(o, c), ps[j].content(o, c)),
    ensures
        crate::piece::seams_ok(ps.take(j) + seq![q] + ps.skip(j), o, c),
{
    let psn = ps.take(j) + seq![q] + ps.skip(j);
    assert(forall|m: int| 0 <= m < j ==> psn[m] == ps[m]);
    assert(psn[j] == q);
    assert(forall|m: int| j < m < psn.len() ==> psn[m] == ps[m - 1]);
    assert forall|m: int|
        0 <= m < psn.len() - 1 implies !crate::textspec::joins_crlf(
        (#[trigger] psn[m]).content(o, c),
        psn[m + 1].content(o, c),
    ) by {
        if m < j - 1 {
            assert(psn[m] == ps[m] && psn[m + 1] == ps[m + 1]);
        } else if m == j - 1 {
            assert(psn[m] == ps[j - 1] && psn[m + 1] == q);
        } else if m == j {
            assert(psn[m] == q && psn[m + 1] == ps[j]);
        } else {
            assert(psn[m] == ps[m - 1] && psn[m + 1] == ps[m]);
            assert(m - 1 != j - 1);
        }
    }
}

/// Replacing a piece with one that opens with the same character, and
/// whose closing character cannot glue to the next piece, keeps all
/// seams whole.
proof fn lemma_replace_seams(ps: Seq<Piece>, o: Seq<char>, c: Seq<char>, i: int, g: Piece)
    requires
        0 <= i < ps.len(),
        crate::piece::seams_ok(ps, o, c),
        i > 0 ==> !crate::textspec::joins_crlf(ps[i - 1].content(o, c), g.content(o, c)),
        i + 1 < ps.len() ==> !crate::textspec::joins_crlf(
            g.content(o, c),
            ps[i + 1].content(o, c),
        ),
    ensures
        crate::piece::seams_ok(ps.update(i, g), o, c),
{
    let psn = ps.update(i, g);
    assert(forall|m: int| 0 <= m < psn.len() && m != i ==> psn[m] == ps[m]);
    assert(psn[i] == g);
    assert forall|m: int|
        0 <= m < psn.len() - 1 implies !crate::textspec::joins_crlf(
        (#[trigger] psn[m]).content(o, c),
        psn[m + 1].content(o, c),
    ) by {
        if m == i - 1 {
        } else if m == i {
        } else {
            assert(psn[m] == ps[m] && psn[m + 1] == ps[m + 1]);
        }
    }
}

/// Common context facts for the placement helpers.
pub open spec fn place_pre(tree: PieceTree, orig: Buffer, changed: Option<Buffer>, off: usize, q: Piece) -> bool {
    let o = orig.value@;
    let c = crate::repair::opt_text(changed);
    let ps = tree.pieces();
    let doc = pieces_content(ps, o, c);
    let qc = q.content(o, c);
    &&& tree.wf()
    &&& all_valid(ps, o.len() as int, c.len() as int)
    &&& all_lfc_ok(ps, o, c)
    &&& crate::piece::seams_ok(ps, o, c)
    &&& q.valid(o.len() as int, c.len() as int)
    &&& q.lfc_ok(o, c)
    &&& off as int <= sum_len(ps)
    &&& sum_len(ps) + q.len_int() <= usize::MAX
    &&& sum_lfc(ps) + q.line_feed_count <= usize::MAX
    &&& (qc[0] == '\n' ==> !(off > 0 && doc[off - 1] == '\r'))
    &&& (qc.last() == '\r' ==> !((off as int) < doc.len() && doc[off as int] == '\n'))
}

/// What every placement helper guarantees: the tree still well formed
/// with every piece fact intact, and the document spliced.
pub open spec fn place_post(
    tree0: PieceTree,
    tree1: PieceTree,
    orig: Buffer,
    changed: Option<Buffer>,
    off: usize,
    q: Piece,
) -> bool {
    let o = orig.value@;
    let c = crate::repair::opt_text(changed);
    &&& tree1.wf()
    &&& all_valid(tree1.pieces(), o.len() as int, c.len() as int)
    &&& all_lfc_ok(tree1.pieces(), o, c)
    &&& crate::piece::seams_ok(tree1.pieces(), o, c)
    &&& pieces_content(tree1.pieces(), o, c) == splice_in(
        pieces_content(tree0.pieces(), o, c),
        off as int,
        q.content(o, c),
    )
}

/// Places `q` at the very front of the document.
#[verifier::rlimit(100)]
fn place_front(tree: &mut PieceTree, orig: &Buffer, changed: &Option<Buffer>, q: Piece)
    requires
        place_pre(*old(tree), *orig, *changed, 0, q),
    ensures
        place_post(*old(tree), *final(tree), *orig, *changed, 0, q),
{
    let ghost o = orig.value@;
    let ghost c = crate::repair::opt_text(*changed);
    let ghost ps = tree.pieces();
    let ghost doc = pieces_content(ps, o, c);
    let ghost qc = q.content(o, c);
    proof {
        lemma_pieces_content_len(ps, o, c);
        crate::tree::lemma_tree_pos_pieces(tree.root);
        assert(ps.take(0) =~= Seq::<Piece>::empty());
        assert(prefix_len(ps, 0) == 0);
        assert(at_boundary(ps, 0));
    }
    tree.insert_piece(0, q);
    proof {
        let wj = choose|j: int|
            0 <= j <= ps.len() && prefix_len(ps, j) == 0 && tree.pieces() == ps.take(j)
                + seq![q] + ps.skip(j);
        crate::tree::lemma_prefix_len_unique(ps, wj, 0);
        lemma_insert_result(ps, o, c, 0, q);
        lemma_neighbor_chars(ps, o, c, 0);
        lemma_insert_seams(ps, o, c, 0, q);
        crate::tree::lemma_tree_pos_pieces(tree.root);
        assert(doc.take(0) =~= Seq::<char>::empty());
        assert(doc.skip(0) =~= doc);
        assert(pieces_content(tree.pieces(), o, c) =~= splice_in(doc, 0, qc));
    }
}

/// Grows the changed piece ending exactly at `off` so that it also
/// covers the freshly appended text of `q`.
#[verifier::rlimit(100)]
fn place_coalesce(
    tree: &mut PieceTree,
    orig: &Buffer,
    changed: &Option<Buffer>,
    off: usize,
    q: Piece,
    p: Piece,
    ns: usize,
    Ghost(i): Ghost<int>,
)
    requires
        place_pre(*old(tree), *orig, *changed, off, q),
        0 <= i < old(tree).pieces().len(),
        old(tree).pieces()[i] == p,
        prefix_len(old(tree).pieces(), i) == ns as int,
        ns + p.len_int() == off,
        p.kind == NodeType::Changed,
        q.kind == NodeType::Changed,
        p.end == q.start,
    ensures
        place_post(*old(tree), *final(tree), *orig, *changed, off, q),
{
    let ghost o = orig.value@;
    let ghost c = crate::repair::opt_text(*changed);
    let ghost ps = tree.pieces();
    let ghost doc = pieces_content(ps, o, c);
    let ghost qc = q.content(o, c);
    proof {
        lemma_pieces_content_len(ps, o, c);
        crate::tree::lemma_tree_pos_pieces(tree.root);
        crate::piece::lemma_piece_content_slice(ps, o, c, i);
        crate::piece::lemma_prefix_len_step(ps, i);
    }
    let g = crate::repair::mk_piece(orig, changed, NodeType::Changed, p.start, q.end);
    proof {
        assert(g.content(o, c) =~= p.content(o, c) + qc);
        lemma_replace_ready(ps, o, c, i, g);
    }
    tree.replace_at(ns, g);
    proof {
        let wi = choose|j: int|
            0 <= j < ps.len() && prefix_len(ps, j) == ns as int && tree.pieces() == ps.update(
                j,
                g,
            );
        crate::tree::lemma_prefix_len_unique(ps, wi, i);
        lemma_replace_result(ps, o, c, i, g);
        lemma_neighbor_chars(ps, o, c, i);
        lemma_neighbor_chars(ps, o, c, i + 1);
        assert(g.content(o, c)[0] == p.content(o, c)[0]);
        assert(g.content(o, c).last() == qc.last());
        if i + 1 < ps.len() {
            assert(prefix_len(ps, i + 1) == off as int);
            assert(ps[i + 1].content(o, c)[0] == doc[off as int]);
        }
        if i > 0 {
            assert(!crate::textspec::joins_crlf(
                ps[i - 1].content(o, c),
                ps[i].content(o, c),
            ));
        }
        lemma_replace_seams(ps, o, c, i, g);
        assert(doc.take(ns as int) + p.content(o, c) =~= doc.take(off as int));
        assert(pieces_content(tree.pieces(), o, c) =~= splice_in(doc, off as int, qc));
        crate::tree::lemma_tree_pos_pieces(tree.root);
    }
}

/// Splits the piece that starts at `ns` at document position `off`,
/// which falls strictly inside it, into two pieces over the same buffer
/// range. The document text is unchanged.
#[verifier::rlimit(100)]
fn split_at(
    tree: &mut PieceTree,
    orig: &Buffer,
    changed: &Option<Buffer>,
    off: usize,
    p: Piece,
    ns: usize,
    Ghost(i): Ghost<int>,
)
    requires
        old(tree).wf(),
        all_valid(
            old(tree).pieces(),
            orig.value@.len() as int,
            crate::repair::opt_text(*changed).len() as int,
        ),
        all_lfc_ok(old(tree).pieces(), orig.value@, crate::repair::opt_text(*changed)),
        0 <= i < old(tree).pieces().len(),
        old(tree).pieces()[i] == p,
        prefix_len(old(tree).pieces(), i) == ns as int,
        ns < off < ns + p.len_int(),
        sum_len(old(tree).pieces()) <= usize::MAX,
    ensures
        final(tree).wf(),
        ({
            let o = orig.value@;
            let c = crate::repair::opt_text(*changed);
            let ps = old(tree).pieces();
            let ps2 = final(tree).pieces();
            &&& ps2 == ps.take(i) + seq![ps2[i]] + seq![ps2[i + 1]] + ps.skip(i + 1)
            &&& ps2[i].content(o, c) == p.content(o, c).take(off - ns)
            &&& ps2[i + 1].content(o, c) == p.content(o, c).skip(off - ns)
            &&& all_valid(ps2, o.len() as int, c.len() as int)
            &&& all_lfc_ok(ps2, o, c)
            &&& pieces_pos(ps2)
            &&& prefix_len(ps2, i + 1) == off as int
            &&& pieces_content(ps2, o, c) == pieces_content(ps, o, c)
        }),
{
    let ghost o = orig.value@;
    let ghost c = crate::repair::opt_text(*changed);
    let ghost ps = tree.pieces();
    let ghost doc = pieces_content(ps, o, c);
    proof {
        lemma_pieces_content_len(ps, o, c);
        crate::tree::lemma_tree_pos_pieces(tree.root);
        crate::piece::lemma_piece_content_slice(ps, o, c, i);
        crate::piece::lemma_prefix_len_step(ps, i);
    }
    let rel = off - ns;
    let l1 = crate::repair::mk_piece(orig, changed, p.kind, p.start, p.start + rel);
    let r1 = crate::repair::mk_piece(orig, changed, p.kind, p.start + rel, p.end);
    proof {
        assert(l1.content(o, c) =~= p.content(o, c).take(rel as int));
        assert(r1.content(o, c) =~= p.content(o, c).skip(rel as int));
        lemma_replace_ready(ps, o, c, i, l1);
    }
    tree.replace_at(ns, l1);
    let ghost ps1 = tree.pieces();
    proof {
        let wi = choose|j: int|
            0 <= j < ps.len() && prefix_len(ps, j) == ns as int && ps1 == ps.update(j, l1);
        crate::tree::lemma_prefix_len_unique(ps, wi, i);
        lemma_replace_result(ps, o, c, i, l1);
        assert(prefix_len(ps1, i + 1) == off as int);
        assert(at_boundary(ps1, off as int));
        crate::tree::lemma_sum_update(ps, i, l1);
        crate::piece::lemma_sum_lfc_le_sum_len(ps1, o, c);
        crate::piece::lemma_pieces_content_len(ps1, o, c);
        crate::textspec::lemma_line_breaks_le_len(r1.content(o, c));
    }
    tree.insert_piece(off, r1);
    proof {
        let wj = choose|j: int|
            0 <= j <= ps1.len() && prefix_len(ps1, j) == off as int && tree.pieces()
                == ps1.take(j) + seq![r1] + ps1.skip(j);
        crate::tree::lemma_prefix_len_unique(ps1, wj, i + 1);
        lemma_insert_result(ps1, o, c, i + 1, r1);
        assert(doc.take(ns as int) + l1.content(o, c) =~= doc.take(off as int));
        assert(l1.content(o, c) + r1.content(o, c) =~= p.content(o, c));
        assert(pieces_content(tree.pieces(), o, c) =~= doc);
        assert(tree.pieces() =~= ps.take(i) + seq![l1] + seq![r1] + ps.skip(i + 1));
        assert(tree.pieces()[i] == l1);
        assert(tree.pieces()[i + 1] == r1);
        assert(prefix_len(tree.pieces(), i + 1) == off as int) by {
            assert(tree.pieces().take(i + 1) =~= ps1.take(i + 1));
        }
    }
}

/// Places `q` at a position after the front: at the boundary that ends
/// the piece containing `off - 1`, splitting that piece first when `off`
/// falls strictly inside it.
#[verifier::rlimit(100)]
fn place_inner(
    tree: &mut PieceTree,
    orig: &Buffer,
    changed: &Option<Buffer>,
    off: usize,
    q: Piece,
    p: Piece,
    ns: usize,
    Ghost(i): Ghost<int>,
)
    requires
        place_pre(*old(tree), *orig, *changed, off, q),
        0 <= i < old(tree).pieces().len(),
        old(tree).pieces()[i] == p,
        prefix_len(old(tree).pieces(), i) == ns as int,
        ns < off <= ns + p.len_int(),
    ensures
        place_post(*old(tree), *final(tree), *orig, *changed, off, q),
{
    let ghost o = orig.value@;
    let ghost c = crate::repair::opt_text(*changed);
    let ghost ps = tree.pieces();
    let ghost doc = pieces_content(ps, o, c);
    let ghost qc = q.content(o, c);
    let ghost bj: int = i + 1;
    proof {
        lemma_pieces_content_len(ps, o, c);
        crate::tree::lemma_tree_pos_pieces(tree.root);
        crate::piece::lemma_piece_content_slice(ps, o, c, i);
        crate::piece::lemma_prefix_len_step(ps, i);
    }
    let plen = p.end - p.start;
    if ns + plen > off {
        split_at(tree, orig, changed, off, p, ns, Ghost(i));
    }
    let ghost ps2 = tree.pieces();
    proof {
        lemma_before_final(ps, ps2, o, c, i, p, q, off as int, ns as int, plen as int);
    }
    tree.insert_piece(off, q);
    proof {
        let wj = choose|j: int|
            0 <= j <= ps2.len() && prefix_len(ps2, j) == off as int && tree.pieces()
                == ps2.take(j) + seq![q] + ps2.skip(j);
        crate::tree::lemma_prefix_len_unique(ps2, wj, bj);
        lemma_insert_result(ps2, o, c, bj, q);
        lemma_neighbor_chars(ps2, o, c, bj);
        assert(pieces_content(ps2, o, c) == doc);
        lemma_insert_seams(ps2, o, c, bj, q);
        crate::tree::lemma_tree_pos_pieces(tree.root);
    }
}

/// Places the freshly written piece `q` at document position `off` of
/// the tree: grown onto the changed piece it directly continues, or as a
/// new node at the piece boundary, splitting the piece containing `off`
/// first when `off` falls inside one. The caller guarantees that the new
/// seams cannot split a `"\r\n"` pair.
fn place_piece(tree: &mut PieceTree, orig: &Buffer, changed: &Option<Buffer>, off: usize, q: Piece)
    requires
        place_pre(*old(tree), *orig, *changed, off, q),
        q.kind == NodeType::Changed,
    ensures
        place_post(*old(tree), *final(tree), *orig, *changed, off, q),
{
    let ghost o = orig.value@;
    let ghost c = crate::repair::opt_text(*changed);
    let ghost ps = tree.pieces();
    proof {
        lemma_pieces_content_len(ps, o, c);
        crate::tree::lemma_tree_pos_pieces(tree.root);
    }
    if off == 0 {
        place_front(tree, orig, changed, q);
    } else {
        let (p, ns) = tree.node_at(off - 1);
        let ghost i = crate::tree::index_at(ps, off - 1);
        proof {
            crate::tree::lemma_index_at(ps, off - 1);
            assert(ps[i].valid(o.len() as int, c.len() as int));
            crate::piece::lemma_prefix_len_step(ps, i);
            assert(ps.take(ps.len() as int) =~= ps);
            crate::piece::lemma_prefix_len_mono(ps, i + 1, ps.len() as int);
        }
        let plen = p.end - p.start;
        if ns + plen == off && p.kind == NodeType::Changed && p.end == q.start {
            place_coalesce(tree, orig, changed, off, q, p, ns, Ghost(i));
        } else {
            place_inner(tree, orig, changed, off, q, p, ns, Ghost(i));
        }
    }
}

/// After an optional split, position `off` is the boundary before index
/// `i + 1`, the document reads as before, and every seam except the one
/// at that boundary is whole.
proof fn lemma_before_final(
    ps: Seq<Piece>,
    ps2: Seq<Piece>,
    o: Seq<char>,
    c: Seq<char>,
    i: int,
    p: Piece,
    q: Piece,
    off: int,
    ns: int,
    plen: int,
)
    requires
        all_valid(ps, o.len() as int, c.len() as int),
        all_lfc_ok(ps, o, c),
        pieces_pos(ps),
        crate::piece::seams_ok(ps, o, c),
        0 <= i < ps.len(),
        ps[i] == p,
        prefix_len(ps, i) == ns,
        p.len_int() == plen,
        ns < off <= ns + plen,
        ns + plen == off ==> ps2 == ps,
        ns + plen > off ==> ps2 == ps.take(i) + seq![ps2[i]] + seq![ps2[i + 1]] + ps.skip(i + 1)
            && ps2[i].content(o, c) == p.content(o, c).take(off - ns) && ps2[i + 1].content(
            o,
            c,
        ) == p.content(o, c).skip(off - ns) && all_valid(ps2, o.len() as int, c.len() as int)
            && all_lfc_ok(ps2, o, c) && pieces_pos(ps2) && prefix_len(ps2, i + 1) == off
            && pieces_content(ps2, o, c) == pieces_content(ps, o, c),
        q.valid(o.len() as int, c.len() as int),
        q.lfc_ok(o, c),
        sum_len(ps) + q.len_int() <= usize::MAX,
        sum_lfc(ps) + q.line_feed_count <= usize::MAX,
    ensures
        all_valid(ps2, o.len() as int, c.len() as int),
        all_lfc_ok(ps2, o, c),
        pieces_pos(ps2),
        prefix_len(ps2, i + 1) == off,
        at_boundary(ps2, off),
        pieces_content(ps2, o, c) == pieces_content(ps, o, c),
        seams_ok_except(ps2, o, c, i + 1),
        sum_len(ps2) + q.len_int() <= usize::MAX,
        sum_lfc(ps2) + q.line_feed_count <= usize::MAX,
{
    if ns + plen == off {
        crate::piece::lemma_prefix_len_step(ps, i);
        assert(prefix_len(ps2, i + 1) == off);
        assert(at_boundary(ps2, off));
        assert(seams_ok_except(ps2, o, c, i + 1)) by {
            assert(forall|m: int|
                0 <= m < ps.len() - 1 ==> !crate::textspec::joins_crlf(
                    (#[trigger] ps[m]).content(o, c),
                    ps[m + 1].content(o, c),
                ));
        }
    } else {
        let l1 = ps2[i];
        let r1 = ps2[i + 1];
        assert(forall|m: int| 0 <= m < i ==> ps2[m] == ps[m]);
        assert(forall|m: int| i + 1 < m < ps2.len() ==> ps2[m] == ps[m - 1]);
        assert(at_boundary(ps2, off));
        // Seams: both split halves read the same opening and closing
        // characters as the split piece did.
        assert(l1.content(o, c)[0] == p.content(o, c)[0]);
        assert(r1.content(o, c).last() == p.content(o, c).last());
        assert(l1.content(o, c).len() > 0);
        assert(r1.content(o, c).len() > 0);
        assert forall|m: int|
            0 <= m < ps2.len() - 1 && m != i implies !crate::textspec::joins_crlf(
            (#[trigger] ps2[m]).content(o, c),
            ps2[m + 1].content(o, c),
        ) by {
            if m < i - 1 {
                assert(ps2[m] == ps[m] && ps2[m + 1] == ps[m + 1]);
                assert(!crate::textspec::joins_crlf(
                    ps[m].content(o, c),
                    ps[m + 1].content(o, c),
                ));
            } else if m == i - 1 {
                assert(ps2[m] == ps[m] && ps2[m + 1] == l1);
                assert(!crate::textspec::joins_crlf(
                    ps[i - 1].content(o, c),
                    ps[i].content(o, c),
                ));
                assert(l1.content(o, c)[0] == p.content(o, c)[0]);
            } else if m == i + 1 {
                assert(ps2[m] == r1 && ps2[m + 1] == ps[i + 1]);
                assert(!crate::textspec::joins_crlf(
                    ps[i].content(o, c),
                    ps[i + 1].content(o, c),
                ));
                assert(r1.content(o, c).last() == p.content(o, c).last());
            } else {
                assert(ps2[m] == ps[m - 1] && ps2[m + 1] == ps[m]);
                assert(!crate::textspec::joins_crlf(
                    ps[m - 1].content(o, c),
                    ps[m].content(o, c),
                ));
            }
        }
        // Sums carry over because the content is unchanged.
        crate::piece::lemma_pieces_content_len(ps, o, c);
        crate::piece::lemma_pieces_content_len(ps2, o, c);
        crate::piece::lemma_sum_lfc_le_sum_len(ps2, o, c);
        assert(sum_lfc(ps) >= 0) by {
            crate::piece::lemma_sum_lfc_le_sum_len(ps, o, c);
            lemma_sum_lfc_nonneg_here(ps);
        }
        lemma_sum_lfc_nonneg_here(ps2);
        assert(q.line_feed_count >= 0);
        assert(sum_len(ps2) == sum_len(ps));
        crate::textspec::lemma_line_breaks_le_len(q.content(o, c));
        assert(q.line_feed_count <= q.len_int());
    }
}

/// Terminator sums are never negative.
proof fn lemma_sum_lfc_nonneg_here(ps: Seq<Piece>)
    ensures
        sum_lfc(ps) >= 0,
{
    crate::tree::lemma_sum_lfc_nonneg(ps);
}


/// Prefix-of is transitive.
proof fn lemma_prefix_trans(a: Seq<char>, b: Seq<char>, c: Seq<char>)
    requires
        a.is_prefix_of(b),
        b.is_prefix_of(c),
    ensures
        a.is_prefix_of(c),
{
    assert(a =~= c.subrange(0, a.len() as int)) by {
        assert(forall|k: int| 0 <= k < a.len() ==> a[k] == b.subrange(0, a.len() as int)[k]);
        assert(forall|k: int|
            0 <= k < b.len() ==> b[k] == c.subrange(0, b.len() as int)[k]);
    }
}

/// The capacity ceiling leaves ample headroom below `usize::MAX`.
proof fn lemma_cap_arith()
    ensures
        0 <= cap_limit(),
        64 * cap_limit() <= usize::MAX as int,
{
    vstd::arithmetic::div_mod::lemma_remainder_lower(usize::MAX as int, 64);
}

impl TextBuffer {
    /// The character at position `pos` of the document.
    pub fn char_at(&self, pos: usize) -> (ch: char)
        requires
            self.wf(),
            pos < self@.len(),
        ensures
            ch == self@[pos as int],
    {
        let ghost o = self.orig_text();
        let ghost c = self.chg_text();
        let ghost ps = self.tree.pieces();
        proof {
            lemma_pieces_content_len(ps, o, c);
            crate::tree::lemma_tree_pos_pieces(self.tree.root);
        }
        let (p, ns) = self.tree.node_at(pos);
        proof {
            let i = crate::tree::index_at(ps, pos as int);
            crate::tree::lemma_index_at(ps, pos as int);
            assert(ps[i].valid(o.len() as int, c.len() as int));
            crate::piece::lemma_piece_content_slice(ps, o, c, i);
        }
        let rel = pos - ns;
        crate::repair::piece_char(&self.original, &self.changed, p, rel)
    }

    /// Inserts `value` at character position `offset` of the document: a
    /// position past the end is reported and nothing changes, the empty
    /// text changes nothing, and otherwise the text is written once at
    /// the end of the changed buffer and spliced in. A `"\r"` inserted
    /// directly before an existing `"\n"`, or a `"\n"` directly after
    /// an existing `"\r"`, is joined with its other half so the pair
    /// stays within one piece. The original buffer is never touched and
    /// the changed buffer only ever grows.
    #[verifier::rlimit(100)]
    #[verifier::spinoff_prover]
    pub fn insert(&mut self, offset: usize, value: &str) -> (r: Result<(), BufferError>)
        requires
            old(self).wf(),
        ensures
            final(self).wf(),
            r is Err ==> *final(self) == *old(self),
            r matches Ok(_) ==> final(self)@ == splice_in(old(self)@, offset as int, value@),
            r == Err::<(), BufferError>(BufferError::OffsetOutOfRange) <==> offset > old(
                self,
            )@.len(),
            r == Err::<(), BufferError>(BufferError::CapacityExceeded) <==> (offset <= old(
                self,
            )@.len() && value@.len() > 0 && !(old(self)@.len() <= cap_limit() && old(
                self,
            ).chg_text().len() <= cap_limit() && old(self).pieces().len() <= cap_limit()
                && value@.len() <= cap_limit())),
            final(self).orig_text() == old(self).orig_text(),
            old(self).chg_text().is_prefix_of(final(self).chg_text()),
    {
        let ghost c0 = self.content();
        let len0 = self.cache.len;
        if offset > len0 {
            return Err(BufferError::OffsetOutOfRange);
        }
        let vlen = value.unicode_len();
        if vlen == 0 {
            proof {
                assert(splice_in(c0, offset as int, value@) =~= c0);
                assert(self.chg_text().is_prefix_of(self.chg_text()));
            }
            return Ok(());
        }
        let chg_len0 = match &self.changed {
            Some(b) => b.value.unicode_len(),
            None => 0,
        };
        let pc0 = self.tree.piece_count();
        let cap: usize = usize::MAX / 64;
        proof {
            lemma_cap_arith();
        }
        if len0 > cap || chg_len0 > cap || pc0 > cap || vlen > cap {
            return Err(BufferError::CapacityExceeded);
        }
        // Boundary repairs: a trailing '\r' about to meet an existing
        // '\n', or a leading '\n' about to meet an existing '\r', takes
        // that other half with it.
        let mut off = offset;
        let check_crlf = self.info.should_check_crlf();
        proof {
            assert(check_crlf);
        }
        let ends_cr = value.get_char(vlen - 1) == '\r';
        let starts_lf = value.get_char(0) == '\n';
        let mut repair_right = false;
        if check_crlf && ends_cr && off < len0 {
            let ch = self.char_at(off);
            if ch == '\n' {
                repair_right = true;
            }
        }
        if repair_right {
            proof {
                assert(usize::MAX >= 64);
                assert(cap >= 1);
                assert(self.chg_text().len() + 2 * (2 * self.pieces().len() + 1)
                    <= usize::MAX);
            }
            self.raw_delete(off, 1);
        }
        let ghost c1 = self.content();
        let ghost snap1 = *self;
        let mut repair_left = false;
        if check_crlf && starts_lf && off > 0 {
            let ch2 = self.char_at(off - 1);
            if ch2 == '\r' {
                repair_left = true;
            }
        }
        if repair_left {
            proof {
                assert(usize::MAX >= 64);
                assert(cap >= 1);
                assert(self.chg_text().len() + 2 * (2 * self.pieces().len() + 1)
                    <= usize::MAX);
            }
            self.raw_delete(off - 1, 1);
            off = off - 1;
        }
        let ghost c2 = self.content();
        let ghost snap2 = *self;
        proof {
            assert(old(self).chg_text().is_prefix_of(snap2.chg_text())) by {
                lemma_prefix_trans(
                    old(self).chg_text(),
                    snap1.chg_text(),
                    snap2.chg_text(),
                );
            }
        }
        // The text actually written: the caller's text with the moved
        // terminator halves attached.
        let mut t = String::new();
        proof {
            reveal_strlit("\r");
            reveal_strlit("\n");
        }
        if repair_left {
            t.append("\r");
        }
        t.append(value);
        if repair_right {
            t.append("\n");
        }
        let ghost pre = if repair_left {
            seq!['\r']
        } else {
            Seq::<char>::empty()
        };
        let ghost post = if repair_right {
            seq!['\n']
        } else {
            Seq::<char>::empty()
        };
        proof {
            assert("\r"@ =~= seq!['\r']);
            assert("\n"@ =~= seq!['\n']);
            assert(t@ =~= pre + value@ + post);
            assert(t@.len() >= 1);
        }
        let mut b = match self.changed.take() {
            Some(bb) => bb,
            None => Buffer::from_text(String::new()),
        };
        let q_start = b.value.unicode_len();
        b.value.append(t.as_str());
        let new_starts = Buffer::get_line_starts(b.value.as_str());
        b.line_starts = new_starts;
        self.changed = Some(b);
        proof {
            assert(self.chg_text() == snap2.chg_text() + t@);
            assert(snap2.chg_text().is_prefix_of(self.chg_text())) by {
                assert(snap2.chg_text() =~= self.chg_text().subrange(
                    0,
                    snap2.chg_text().len() as int,
                ));
            }
            crate::repair::lemma_pieces_stable_all(
                snap2.pieces(),
                snap2.orig_text(),
                snap2.chg_text(),
                self.chg_text(),
            );
        }
        let q_end = match &self.changed {
            Some(bb) => bb.value.unicode_len(),
            None => 0,
        };
        let q = crate::repair::mk_piece(
            &self.original,
            &self.changed,
            NodeType::Changed,
            q_start,
            q_end,
        );
        let ghost o = self.orig_text();
        let ghost c3 = self.chg_text();
        proof {
            assert(q.content(o, c3) =~= t@);
            lemma_insert_place_pre(
                *old(self),
                snap1,
                snap2,
                *self,
                offset,
                off,
                value@,
                t@,
                q,
                repair_left,
                repair_right,
            );
        }
        place_piece(&mut self.tree, &self.original, &self.changed, off, q);
        proof {
            crate::tree::lemma_tree_pos_pieces(self.tree.root);
            lemma_pieces_content_len(self.tree.pieces(), o, c3);
            crate::piece::lemma_sum_lfc_le_sum_len(self.tree.pieces(), o, c3);
            crate::textspec::lemma_repair_splice(
                c0,
                offset as int,
                value@,
                repair_left,
                repair_right,
            );
            assert(self.content() == splice_in(c0, offset as int, value@));
        }
        let nl = self.tree.total_len();
        let nf = self.tree.total_lfc();
        self.cache.len = nl;
        self.cache.line_count = nf;
        self.cache.last_change = q_end;
        self.cache.search.invalidate_from(0);
        proof {
            lemma_pieces_content_line_breaks(self.tree.pieces(), o, c3);
            assert(cache_entries_ok(self.cache.search.entries(), self.tree.pieces())) by {
                if self.cache.search.entries().len() > 0 {
                    assert(self.cache.search.entries()[0].node_start_offset < 0);
                }
            }
            assert(old(self).chg_text().is_prefix_of(self.chg_text())) by {
                lemma_prefix_trans(old(self).chg_text(), snap2.chg_text(), self.chg_text());
            }
        }
        Ok(())
    }
}

/// Everything `place_piece` requires holds at the moment an insertion
/// has finished its boundary repairs and written the new text to the
/// changed buffer.
#[verifier::rlimit(100)]
proof fn lemma_insert_place_pre(
    start: TextBuffer,
    snap1: TextBuffer,
    snap2: TextBuffer,
    cur: TextBuffer,
    offset: usize,
    off: usize,
    v: Seq<char>,
    tseq: Seq<char>,
    q: Piece,
    rl: bool,
    rr: bool,
)
    requires
        start.wf(),
        snap1.wf(),
        snap2.wf(),
        64 * cap_limit() <= usize::MAX as int,
        v.len() >= 1,
        offset <= start@.len(),
        start@.len() <= cap_limit(),
        v.len() <= cap_limit(),
        // How the two optional deletions relate the snapshots.
        rr ==> (offset as int) < start@.len() && start@[offset as int] == '\n' && snap1@
            == splice_out(start@, offset as int, 1),
        !rr ==> snap1 == start,
        rl ==> offset >= 1 && snap1@[offset - 1] == '\r' && snap2@ == splice_out(
            snap1@,
            offset - 1,
            1,
        ) && off == offset - 1,
        !rl ==> snap2 == snap1 && off == offset,
        // The outcomes of the checks that decided against repairing.
        (v[v.len() - 1] == '\r' && (offset as int) < start@.len() && !rr) ==> start@[
            offset as int
        ] != '\n',
        (v[0] == '\n' && offset > 0 && !rl) ==> snap1@[offset - 1] != '\r',
        // The written text and the current state.
        tseq == (if rl {
            seq!['\r']
        } else {
            Seq::<char>::empty()
        }) + v + (if rr {
            seq!['\n']
        } else {
            Seq::<char>::empty()
        }),
        cur.tree == snap2.tree,
        cur.original == snap2.original,
        crate::repair::opt_text(cur.changed) == snap2.chg_text() + tseq,
        q.kind == NodeType::Changed,
        q.start == snap2.chg_text().len(),
        q.end == crate::repair::opt_text(cur.changed).len(),
        q.line_feed_count == line_breaks(tseq),
    ensures
        place_pre(cur.tree, cur.original, cur.changed, off, q),
        pieces_content(
            cur.tree.pieces(),
            cur.original.value@,
            crate::repair::opt_text(cur.changed),
        ) == snap2@,
        q.content(cur.original.value@, crate::repair::opt_text(cur.changed)) == tseq,
{
    let o = cur.original.value@;
    let c2 = snap2.chg_text();
    let c3 = crate::repair::opt_text(cur.changed);
    let ps = cur.tree.pieces();
    assert(c3 == c2 + tseq);
    assert(c2.is_prefix_of(c3)) by {
        assert(c2 =~= c3.subrange(0, c2.len() as int));
    }
    crate::repair::lemma_pieces_stable_all(ps, o, c2, c3);
    assert(pieces_content(ps, o, c3) == snap2@);
    let qc = q.content(o, c3);
    assert(qc =~= tseq);
    assert(q.start < q.end);
    assert(q.valid(o.len() as int, c3.len() as int));
    assert(q.lfc_ok(o, c3));
    // Lengths.
    lemma_pieces_content_len(ps, o, c2);
    assert(sum_len(ps) == snap2@.len());
    assert(snap2@.len() <= start@.len());
    assert(off as int <= sum_len(ps)) by {
        if rr {
            assert(snap1@.len() == start@.len() - 1);
        }
        if rl {
            assert(snap2@.len() == snap1@.len() - 1);
        }
    }
    assert(tseq.len() <= v.len() + 2);
    assert(sum_len(ps) + q.len_int() <= usize::MAX);
    crate::piece::lemma_sum_lfc_le_sum_len(ps, o, c3);
    crate::textspec::lemma_line_breaks_le_len(tseq);
    assert(sum_lfc(ps) + q.line_feed_count <= usize::MAX);
    // The two seam hypotheses.
    let doc = pieces_content(ps, o, c3);
    assert(doc == snap2@);
    if qc[0] == '\n' {
        assert(!rl);
        assert(tseq[0] == v[0]);
        if off > 0 {
            assert(doc[off - 1] == snap1@[offset - 1]);
            assert(doc[off - 1] != '\r');
        }
    }
    if qc.last() == '\r' {
        assert(!rr) by {
            if rr {
                assert(tseq.last() == '\n');
            }
        }
        assert(tseq.last() == v[v.len() - 1]) by {
            assert(tseq =~= (if rl {
                seq!['\r']
            } else {
                Seq::<char>::empty()
            }) + v);
        }
        if (off as int) < doc.len() {
            if rl {
                // doc == splice_out(snap1@, offset - 1, 1), so past the
                // cut every character shifts left by one.
                assert(doc[off as int] == snap1@[offset as int]) by {
                    assert(doc =~= snap1@.take(offset - 1) + snap1@.skip(offset as int));
                }
                assert((offset as int) < start@.len()) by {
                    assert(doc.len() == snap1@.len() - 1);
                }
                assert(snap1@[offset as int] == start@[offset as int]);
            } else {
                assert(doc[off as int] == start@[offset as int]);
                assert((offset as int) < start@.len());
            }
            assert(doc[off as int] != '\n');
        }
    }
}


/// A well-formed text buffer always satisfies the tree's structural
/// invariants: consistent augmented metadata and the red-black shape.
pub proof fn lemma_buffer_tree_invariants(tb: TextBuffer)
    requires
        tb.wf(),
    ensures
        tb.tree_spec().wf(),
{
}

/// An empty document is held in an empty tree: no piece remains after
/// the whole text is deleted.
pub proof fn lemma_empty_document_no_pieces(tb: TextBuffer)
    requires
        tb.wf(),
        tb@.len() == 0,
    ensures
        tb.pieces().len() == 0,
{
    let ps = tb.pieces();
    let o = tb.orig_text();
    let c = tb.chg_text();
    lemma_pieces_content_len(ps, o, c);
    if ps.len() > 0 {
        crate::tree::lemma_tree_pos_pieces(tb.tree_spec().root);
        assert(ps.take(1) =~= seq![ps[0]]);
        assert(seq![ps[0]].drop_first() =~= Seq::<Piece>::empty());
        assert(sum_len(Seq::<Piece>::empty()) == 0);
        assert(prefix_len(ps, 1) == ps[0].len_int());
        assert(ps.take(ps.len() as int) =~= ps);
        crate::piece::lemma_prefix_len_mono(ps, 1, ps.len() as int);
        assert(ps[0].start < ps[0].end);
        assert(false);
    }
}


impl TextBuffer {
    /// Finds the piece containing position `offset`, using the bounded
    /// cache of recent lookups when it can and recording the result when
    /// it cannot. The cache never changes the answer: a hit reports
    /// exactly what a fresh tree walk would.
    pub fn get_node_position(&mut self, offset: usize) -> (r: NodePosition)
        requires
            old(self).wf(),
            offset < old(self)@.len(),
        ensures
            final(self).wf(),
            final(self)@ == old(self)@,
            final(self).pieces() == old(self).pieces(),
            final(self).orig_text() == old(self).orig_text(),
            final(self).chg_text() == old(self).chg_text(),
            ({
                let ps = old(self).pieces();
                let i = crate::tree::index_at(ps, offset as int);
                r.piece == ps[i] && r.node_start_offset as int == prefix_len(ps, i)
                    && r.remainder == offset - r.node_start_offset
            }),
    {
        let ghost ps = self.pieces();
        let ghost o = self.orig_text();
        let ghost c = self.chg_text();
        proof {
            lemma_pieces_content_len(ps, o, c);
            crate::tree::lemma_tree_pos_pieces(self.tree.root);
        }
        let hit = self.cache.search.get_position(offset);
        match hit {
            Some(p) => {
                let piece = p.piece;
                let ns = p.node_start_offset;
                proof {
                    let k = choose|k: int|
                        0 <= k < self.cache.search.entries().len()
                            && self.cache.search.entries()[k] == *p && p.node_start_offset
                            <= offset && offset - p.node_start_offset < p.piece.end
                            - p.piece.start;
                    assert(crate::cache::entry_ok(self.cache.search.entries()[k], ps));
                    let i = choose|i: int|
                        0 <= i < ps.len() && ps[i] == p.piece && prefix_len(ps, i)
                            == p.node_start_offset as int;
                    crate::tree::lemma_index_at_unique(ps, offset as int, i);
                }
                NodePosition::new(piece, offset - ns, ns)
            },
            None => {
                let (piece, ns) = self.tree.node_at(offset);
                proof {
                    crate::tree::lemma_index_at(ps, offset as int);
                }
                let pos = NodePosition::new(piece, offset - ns, ns);
                self.cache.search.set_position(pos);
                proof {
                    let entries = self.cache.search.entries();
                    let old_entries = old(self).cache.search.entries();
                    assert(crate::cache::entry_ok(pos, ps)) by {
                        let i = crate::tree::index_at(ps, offset as int);
                        assert(0 <= i < ps.len() && ps[i] == pos.piece && prefix_len(ps, i)
                            == pos.node_start_offset as int);
                    }
                    assert(cache_entries_ok(entries, ps)) by {
                        assert forall|k: int|
                            0 <= k < entries.len() implies crate::cache::entry_ok(
                            #[trigger] entries[k],
                            ps,
                        ) by {
                            if k == entries.len() - 1 {
                                assert(entries[k] == pos);
                            } else if old_entries.len() >= old(self).cache.search.limit_spec()
                                && old_entries.len() >= 1 {
                                assert(entries[k] == old_entries.drop_first()[k]);
                                assert(old_entries.drop_first()[k] == old_entries[k + 1]);
                                assert(crate::cache::entry_ok(old_entries[k + 1], ps));
                            } else {
                                assert(entries[k] == old_entries[k]);
                                assert(crate::cache::entry_ok(old_entries[k], ps));
                            }
                        }
                    }
                }
                pos
            },
        }
    }
}


} // verus!
