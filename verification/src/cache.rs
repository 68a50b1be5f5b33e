//! Caches kept by the text buffer: a bounded cache of recent positional
//! lookups, plus the running totals of the document.
//!
//! The search cache is a correctness-preserving optimization: an entry is
//! only ever returned when it reports exactly what a fresh tree walk
//! would, which is what its well-formedness predicate states.

use vstd::prelude::*;

use crate::piece::{prefix_len, Piece};

verus! {

/// The result of a positional lookup: the piece found, the position of
/// its first character in the document, and how far into the piece the
/// looked-up position lies.
#[derive(Clone, Copy, PartialEq, Eq, Structural, Debug)]
pub struct NodePosition {
    pub piece: Piece,
    pub remainder: usize,
    pub node_start_offset: usize,
}

impl NodePosition {
    pub fn new(piece: Piece, remainder: usize, node_start_offset: usize) -> (p: NodePosition)
        ensures
            p.piece == piece,
            p.remainder == remainder,
            p.node_start_offset == node_start_offset,
    {
        NodePosition { piece, remainder, node_start_offset }
    }
}

/// An entry faithfully describes one node of the given piece sequence.
pub open spec fn entry_ok(e: NodePosition, ps: Seq<Piece>) -> bool {
    exists|i: int|
        0 <= i < ps.len() && ps[i] == e.piece && prefix_len(ps, i) == e.node_start_offset as int
}

/// Every cached entry faithfully describes a node.
pub open spec fn cache_entries_ok(entries: Seq<NodePosition>, ps: Seq<Piece>) -> bool {
    forall|k: int| 0 <= k < entries.len() ==> entry_ok(#[trigger] entries[k], ps)
}

/// A bounded cache of recent positional lookups.
#[derive(Debug)]
pub struct PieceTreeSearchCache {
    limit: usize,
    positions: Vec<NodePosition>,
}

impl PieceTreeSearchCache {
    /// The cached entries, newest last.
    pub closed spec fn entries(self) -> Seq<NodePosition> {
        self.positions@
    }

    pub fn new(limit: usize) -> (c: PieceTreeSearchCache)
        requires
            limit >= 1,
        ensures
            c.entries() == Seq::<NodePosition>::empty(),
    {
        PieceTreeSearchCache { limit, positions: Vec::new() }
    }

    /// Returns a cached entry whose piece contains `offset`, newest
    /// first, if any.
    pub fn get_position(&self, offset: usize) -> (r: Option<&NodePosition>)
        ensures
            match r {
                Some(p) => exists|k: int|
                    0 <= k < self.entries().len() && self.entries()[k] == *p
                        && p.node_start_offset <= offset && offset - p.node_start_offset
                        < p.piece.end - p.piece.start,
                None => true,
            },
    {
        let mut k: usize = self.positions.len();
        while k > 0
            invariant
                k <= self.positions@.len(),
            decreases k,
        {
            k = k - 1;
            let p = &self.positions[k];
            if p.node_start_offset <= offset && p.piece.start <= p.piece.end
                && offset - p.node_start_offset < p.piece.end - p.piece.start {
                proof {
                    assert(0 <= k < self.entries().len() && self.entries()[k as int]
                        == self.positions@[k as int]);
                }
                return Some(&self.positions[k]);
            }
        }
        None
    }

    /// Records a lookup result, evicting the oldest entry at the limit.
    pub fn set_position(&mut self, position: NodePosition)
        ensures
            final(self).entries() == if old(self).entries().len() >= old(self).limit_spec()
                && old(self).entries().len() >= 1 {
                old(self).entries().drop_first().push(position)
            } else {
                old(self).entries().push(position)
            },
    {
        if self.positions.len() >= self.limit && self.positions.len() >= 1 {
            self.positions.remove(0);
            proof {
                assert(self.positions@ =~= old(self).entries().drop_first());
            }
        }
        self.positions.push(position);
    }

    /// The configured capacity.
    pub closed spec fn limit_spec(self) -> int {
        self.limit as int
    }

    /// Drops every entry at or past `watermark`: positions there may have
    /// moved or changed.
    pub fn invalidate_from(&mut self, watermark: usize)
        ensures
            forall|k: int|
                0 <= k < final(self).entries().len() ==> old(self).entries().contains(
                    #[trigger] final(self).entries()[k],
                ) && final(self).entries()[k].node_start_offset < watermark,
    {
        let mut kept: Vec<NodePosition> = Vec::new();
        let mut k: usize = 0;
        while k < self.positions.len()
            invariant
                k <= self.positions@.len(),
                forall|m: int|
                    0 <= m < kept@.len() ==> self.positions@.contains(#[trigger] kept@[m])
                        && kept@[m].node_start_offset < watermark,
            decreases self.positions@.len() - k,
        {
            let p = self.positions[k];
            if p.node_start_offset < watermark {
                kept.push(p);
            }
            k = k + 1;
        }
        self.positions = kept;
    }
}

/// Running totals and lookup caches of a text buffer.
#[derive(Debug)]
pub struct TextBufferCache {
    pub last_change: usize,
    pub search: PieceTreeSearchCache,
    pub line_count: usize,
    pub len: usize,
}

impl TextBufferCache {
    pub fn new() -> (c: TextBufferCache)
        ensures
            c.last_change == 0,
            c.line_count == 0,
            c.len == 0,
            c.search.entries() == Seq::<NodePosition>::empty(),
    {
        TextBufferCache { last_change: 0, search: PieceTreeSearchCache::new(1), line_count: 0, len: 0 }
    }
}

} // verus!
