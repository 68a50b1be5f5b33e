//! The piece tree: a red-black tree whose in-order walk enumerates the
//! pieces in document order.
//!
//! Nodes are ordered by position only: no key is stored. Each node carries
//! the total length and total terminator count of its left subtree, so a
//! positional search can steer by running sums instead of scanning.

use vstd::prelude::*;

use crate::piece::{
    at_boundary, lemma_prefix_len_concat_left, lemma_prefix_len_concat_right,
    lemma_prefix_len_mono, lemma_prefix_len_step, lemma_sum_len_concat, lemma_sum_lfc_concat,
    pieces_pos, prefix_len, sum_len, sum_lfc, Piece,
};

verus! {

/// Colour of a red-black tree node.
#[derive(Clone, Copy, PartialEq, Eq, Structural, Debug)]
pub enum Color {
    Red,
    Black,
}

/// One tree node: a piece, its colour, the metadata of its left subtree,
/// and its children.
#[derive(Debug)]
pub struct Node {
    pub piece: Piece,
    pub color: Color,
    pub left_len: usize,
    pub left_line_feed_count: usize,
    pub left: Option<Box<Node>>,
    pub right: Option<Box<Node>>,
}

/// In-order sequence of the pieces below `n`.
pub open spec fn subtree_pieces(n: Option<Box<Node>>) -> Seq<Piece>
    decreases n,
{
    match n {
        None => Seq::empty(),
        Some(nd) => nd.pieces(),
    }
}

/// Subtree metadata of `n` is consistent everywhere below `n`.
pub open spec fn meta_ok_opt(n: Option<Box<Node>>) -> bool
    decreases n,
{
    match n {
        None => true,
        Some(nd) => nd.meta_ok(),
    }
}

/// Every piece below `n` is non-empty.
pub open spec fn tree_pos(n: Option<Box<Node>>) -> bool
    decreases n,
{
    match n {
        None => true,
        Some(nd) => nd.piece.start < nd.piece.end && tree_pos(nd.left) && tree_pos(nd.right),
    }
}

/// An absent child counts as black.
pub open spec fn is_black(n: Option<Box<Node>>) -> bool {
    match n {
        None => true,
        Some(nd) => nd.color == Color::Black,
    }
}

/// No red node below `n` (inclusive) has a red child.
pub open spec fn red_ok_opt(n: Option<Box<Node>>) -> bool
    decreases n,
{
    match n {
        None => true,
        Some(nd) => nd.red_ok(),
    }
}

/// Like `red_ok_opt`, but the root of `n` itself may be red with one red
/// child: the transient state during insertion rebalancing.
pub open spec fn near_red_ok(n: Option<Box<Node>>) -> bool
    decreases n,
{
    match n {
        None => true,
        Some(nd) => red_ok_opt(nd.left) && red_ok_opt(nd.right),
    }
}

/// Number of black nodes on any path from `n` down to a leaf (assuming
/// `bh_ok_opt`, every path agrees).
pub open spec fn bh(n: Option<Box<Node>>) -> nat
    decreases n,
{
    match n {
        None => 0,
        Some(nd) => bh(nd.left) + if nd.color == Color::Black {
            1nat
        } else {
            0nat
        },
    }
}

/// Every node below `n` has children of equal black height.
pub open spec fn bh_ok_opt(n: Option<Box<Node>>) -> bool
    decreases n,
{
    match n {
        None => true,
        Some(nd) => bh(nd.left) == bh(nd.right) && bh_ok_opt(nd.left) && bh_ok_opt(nd.right),
    }
}

impl Node {
    /// Whether this node's piece views the original buffer.
    pub fn is_original(&self) -> (r: bool)
        ensures
            r == (self.piece.kind == crate::piece::NodeType::Original),
    {
        self.piece.kind == crate::piece::NodeType::Original
    }

    /// The position just past this node's piece, measured from the start
    /// of its subtree: its left-subtree total plus its piece length.
    pub fn total_len(&self) -> (r: usize)
        requires
            self.left_len + self.piece.len_int() <= usize::MAX,
            self.piece.start <= self.piece.end,
        ensures
            r == self.left_len + self.piece.len_int(),
    {
        self.left_len + self.piece.len()
    }

    /// In-order sequence of pieces of the subtree rooted here.
    pub open spec fn pieces(self) -> Seq<Piece>
        decreases self,
    {
        subtree_pieces(self.left) + seq![self.piece] + subtree_pieces(self.right)
    }

    /// The stored left-subtree totals equal the actual left-subtree sums,
    /// here and below.
    pub open spec fn meta_ok(self) -> bool
        decreases self,
    {
        &&& self.left_len == sum_len(subtree_pieces(self.left))
        &&& self.left_line_feed_count == sum_lfc(subtree_pieces(self.left))
        &&& meta_ok_opt(self.left)
        &&& meta_ok_opt(self.right)
    }

    /// Red nodes have black children, here and below.
    pub open spec fn red_ok(self) -> bool
        decreases self,
    {
        &&& self.color == Color::Red ==> is_black(self.left) && is_black(self.right)
        &&& red_ok_opt(self.left)
        &&& red_ok_opt(self.right)
    }
}

/// The in-order pieces of a node split into left part, own piece, and
/// right part, and the sums split accordingly.
pub proof fn lemma_node_pieces(nd: Node)
    ensures
        sum_len(nd.pieces()) == sum_len(subtree_pieces(nd.left)) + nd.piece.len_int() + sum_len(
            subtree_pieces(nd.right),
        ),
        sum_lfc(nd.pieces()) == sum_lfc(subtree_pieces(nd.left)) + nd.piece.line_feed_count
            + sum_lfc(subtree_pieces(nd.right)),
{
    let l = subtree_pieces(nd.left);
    let r = subtree_pieces(nd.right);
    let single = seq![nd.piece];
    assert(single.drop_first() =~= Seq::<Piece>::empty());
    assert(sum_len(Seq::<Piece>::empty()) == 0);
    assert(sum_lfc(Seq::<Piece>::empty()) == 0);
    assert(single[0] == nd.piece);
    assert(sum_len(single) == nd.piece.len_int());
    assert(sum_lfc(single) == nd.piece.line_feed_count);
    lemma_sum_len_concat(l + single, r);
    lemma_sum_len_concat(l, single);
    lemma_sum_lfc_concat(l + single, r);
    lemma_sum_lfc_concat(l, single);
    assert(nd.pieces() == (l + single) + r);
}

/// Piece positivity of a subtree is the positivity of its piece sequence.
pub proof fn lemma_tree_pos_pieces(n: Option<Box<Node>>)
    ensures
        tree_pos(n) <==> pieces_pos(subtree_pieces(n)),
    decreases n,
{
    match n {
        None => {
            assert(subtree_pieces(n) =~= Seq::<Piece>::empty());
        },
        Some(nd) => {
            lemma_tree_pos_pieces(nd.left);
            lemma_tree_pos_pieces(nd.right);
            let l = subtree_pieces(nd.left);
            let r = subtree_pieces(nd.right);
            let ps = nd.pieces();
            assert(ps.len() == l.len() + 1 + r.len());
            assert(forall|i: int| 0 <= i < l.len() ==> ps[i] == l[i]);
            assert(ps[l.len() as int] == nd.piece);
            assert(forall|i: int|
                0 <= i < r.len() ==> ps[l.len() + 1 + i] == r[i]);
            if pieces_pos(l) && pieces_pos(r) && nd.piece.start < nd.piece.end {
                assert forall|i: int| 0 <= i < ps.len() implies ps[i].start < (
                #[trigger] ps[i]).end by {
                    if i < l.len() {
                        assert(ps[i] == l[i]);
                    } else if i == l.len() {
                    } else {
                        assert(ps[i] == r[i - l.len() - 1]);
                    }
                }
            }
            if pieces_pos(ps) {
                assert forall|i: int| 0 <= i < l.len() implies l[i].start < (
                #[trigger] l[i]).end by {
                    assert(l[i] == ps[i]);
                }
                assert forall|i: int| 0 <= i < r.len() implies r[i].start < (
                #[trigger] r[i]).end by {
                    assert(r[i] == ps[l.len() + 1 + i]);
                }
            }
        },
    }
}

/// Reports whether the root of `n` is red.
fn is_red(n: &Option<Box<Node>>) -> (r: bool)
    ensures
        r == !is_black(*n),
{
    match n {
        None => false,
        Some(nd) => nd.color == Color::Red,
    }
}

/// Total piece length of the subtree, read from the metadata along the
/// right spine.
fn subtree_len(n: &Option<Box<Node>>) -> (r: usize)
    requires
        meta_ok_opt(*n),
        tree_pos(*n),
        sum_len(subtree_pieces(*n)) <= usize::MAX,
    ensures
        r == sum_len(subtree_pieces(*n)),
    decreases *n,
{
    proof {
        lemma_tree_pos_pieces(*n);
        lemma_sums_nonneg(subtree_pieces(*n));
    }
    match n {
        None => 0,
        Some(nd) => {
            proof {
                lemma_node_pieces(**nd);
                lemma_tree_pos_pieces(nd.right);
                lemma_sums_nonneg(subtree_pieces(nd.right));
            }
            let rest = subtree_len(&nd.right);
            nd.left_len + nd.piece.len() + rest
        },
    }
}

/// Total terminator count of the subtree, read along the right spine.
fn subtree_lfc(n: &Option<Box<Node>>) -> (r: usize)
    requires
        meta_ok_opt(*n),
        sum_lfc(subtree_pieces(*n)) <= usize::MAX,
    ensures
        r == sum_lfc(subtree_pieces(*n)),
    decreases *n,
{
    proof {
        lemma_lfc_nonneg(*n);
    }
    match n {
        None => 0,
        Some(nd) => {
            proof {
                lemma_node_pieces(**nd);
                lemma_lfc_nonneg(nd.right);
            }
            let rest = subtree_lfc(&nd.right);
            nd.left_line_feed_count + nd.piece.line_feed_count + rest
        },
    }
}

/// Sums over non-empty pieces are non-negative.
pub proof fn lemma_sums_nonneg(ps: Seq<Piece>)
    requires
        pieces_pos(ps),
    ensures
        sum_len(ps) >= 0,
    decreases ps.len(),
{
    if ps.len() > 0 {
        assert(ps[0].start < ps[0].end);
        assert(forall|i: int|
            0 <= i < ps.drop_first().len() ==> ps.drop_first()[i] == ps[i + 1]);
        lemma_sums_nonneg(ps.drop_first());
    }
}

/// Terminator-count sums are non-negative (each count is a `usize`).
pub proof fn lemma_lfc_nonneg(n: Option<Box<Node>>)
    ensures
        sum_lfc(subtree_pieces(n)) >= 0,
{
    lemma_sum_lfc_nonneg(subtree_pieces(n));
}

/// Terminator-count sums over any pieces are non-negative.
pub proof fn lemma_sum_lfc_nonneg(ps: Seq<Piece>)
    ensures
        sum_lfc(ps) >= 0,
    decreases ps.len(),
{
    if ps.len() > 0 {
        lemma_sum_lfc_nonneg(ps.drop_first());
    }
}

/// Builds a node over the given parts, computing the left-subtree
/// metadata, so that the result is consistent whenever the parts are.
fn mk(color: Color, left: Option<Box<Node>>, piece: Piece, right: Option<Box<Node>>) -> (r: Box<Node>)
    requires
        meta_ok_opt(left),
        meta_ok_opt(right),
        tree_pos(left),
        tree_pos(right),
        piece.start < piece.end,
        sum_len(subtree_pieces(left)) + piece.len_int() + sum_len(subtree_pieces(right))
            <= usize::MAX,
        sum_lfc(subtree_pieces(left)) + piece.line_feed_count + sum_lfc(subtree_pieces(right))
            <= usize::MAX,
    ensures
        r.piece == piece,
        r.color == color,
        r.left == left,
        r.right == right,
        r.meta_ok(),
        tree_pos(Some(r)),
        r.pieces() == subtree_pieces(left) + seq![piece] + subtree_pieces(right),
        sum_len(r.pieces()) == sum_len(subtree_pieces(left)) + piece.len_int() + sum_len(
            subtree_pieces(right),
        ),
        sum_lfc(r.pieces()) == sum_lfc(subtree_pieces(left)) + piece.line_feed_count + sum_lfc(
            subtree_pieces(right),
        ),
        bh(Some(r)) == bh(left) + if color == Color::Black {
            1nat
        } else {
            0nat
        },
{
    proof {
        lemma_tree_pos_pieces(left);
        lemma_sums_nonneg(subtree_pieces(left));
        lemma_lfc_nonneg(left);
        lemma_lfc_nonneg(right);
        lemma_tree_pos_pieces(right);
        lemma_sums_nonneg(subtree_pieces(right));
    }
    let left_len = subtree_len(&left);
    let left_line_feed_count = subtree_lfc(&left);
    let r = Box::new(Node { piece, color, left_len, left_line_feed_count, left, right });
    proof {
        lemma_node_pieces(*r);
    }
    r
}

/// Sums of a left part, one piece, and a right part.
pub proof fn lemma_sum_three(a: Seq<Piece>, x: Piece, b: Seq<Piece>)
    ensures
        sum_len(a + seq![x] + b) == sum_len(a) + x.len_int() + sum_len(b),
        sum_lfc(a + seq![x] + b) == sum_lfc(a) + x.line_feed_count + sum_lfc(b),
{
    let single = seq![x];
    assert(single.drop_first() =~= Seq::<Piece>::empty());
    assert(sum_len(Seq::<Piece>::empty()) == 0);
    assert(sum_lfc(Seq::<Piece>::empty()) == 0);
    assert(single[0] == x);
    lemma_sum_len_concat(a + single, b);
    lemma_sum_len_concat(a, single);
    lemma_sum_lfc_concat(a + single, b);
    lemma_sum_lfc_concat(a, single);
}

/// A boundary offset of a split sequence is a boundary of the side it
/// falls in, shifted accordingly.
pub proof fn lemma_boundary_split(l: Seq<Piece>, x: Piece, r: Seq<Piece>, off: int)
    requires
        pieces_pos(l + seq![x] + r),
        x.len_int() > 0,
        at_boundary(l + seq![x] + r, off),
    ensures
        off <= sum_len(l) ==> at_boundary(l, off),
        off > sum_len(l) ==> off >= sum_len(l) + x.len_int() && at_boundary(
            r,
            off - sum_len(l) - x.len_int(),
        ),
{
    let ps = l + seq![x] + r;
    let i = choose|i: int| 0 <= i <= ps.len() && prefix_len(ps, i) == off;
    assert(0 <= i <= ps.len() && prefix_len(ps, i) == off);
    assert(forall|k: int| 0 <= k < l.len() ==> ps[k] == l[k]);
    assert(forall|k: int| 0 <= k < r.len() ==> ps[l.len() + 1 + k] == r[k]);
    assert(l.take(l.len() as int) =~= l);
    if i <= l.len() {
        lemma_prefix_len_concat_left(l + seq![x], r, i);
        lemma_prefix_len_concat_left(l, seq![x], i);
        assert(prefix_len(l, i) == off);
        assert(pieces_pos(l)) by {
            assert(forall|k: int|
                0 <= k < l.len() ==> (#[trigger] l[k]).start < l[k].end);
        }
        lemma_prefix_len_mono(l, i, l.len() as int);
        assert(off <= sum_len(l));
    } else {
        lemma_prefix_len_concat_right(l + seq![x], r, i);
        lemma_sum_len_concat(l, seq![x]);
        assert(seq![x].drop_first() =~= Seq::<Piece>::empty());
        assert(seq![x][0] == x);
        assert(sum_len(Seq::<Piece>::empty()) == 0);
        assert(sum_len(seq![x]) == x.len_int());
        let i2 = i - l.len() - 1;
        assert(prefix_len(ps, i) == sum_len(l) + x.len_int() + prefix_len(r, i2));
        assert(pieces_pos(r)) by {
            assert(forall|k: int|
                0 <= k < r.len() ==> (#[trigger] r[k]).start < r[k].end);
        }
        assert(r.take(0) =~= Seq::<Piece>::empty());
        lemma_prefix_len_mono(r, 0, i2);
        assert(prefix_len(r, i2) >= 0);
        assert(off >= sum_len(l) + x.len_int());
        assert(pieces_pos(l)) by {
            assert(forall|k: int|
                0 <= k < l.len() ==> (#[trigger] l[k]).start < l[k].end);
        }
        lemma_sums_nonneg(l);
        assert(off > sum_len(l));
        assert(prefix_len(r, i2) == off - sum_len(l) - x.len_int());
    }
}


/// Restores the red-black shape after an insertion descended into the
/// left child of a black node: the two left rotations of insertion fixup.
fn balance_left(l: Box<Node>, piece: Piece, right: Option<Box<Node>>) -> (r: Box<Node>)
    requires
        l.meta_ok(),
        tree_pos(Some(l)),
        near_red_ok(Some(l)),
        bh_ok_opt(Some(l)),
        meta_ok_opt(right),
        tree_pos(right),
        red_ok_opt(right),
        bh_ok_opt(right),
        bh(Some(l)) == bh(right),
        piece.start < piece.end,
        sum_len(l.pieces()) + piece.len_int() + sum_len(subtree_pieces(right)) <= usize::MAX,
        sum_lfc(l.pieces()) + piece.line_feed_count + sum_lfc(subtree_pieces(right))
            <= usize::MAX,
    ensures
        r.pieces() == l.pieces() + seq![piece] + subtree_pieces(right),
        r.meta_ok(),
        tree_pos(Some(r)),
        r.red_ok(),
        bh_ok_opt(Some(r)),
        bh(Some(r)) == bh(Some(l)) + 1,
{
    let ghost lp = l.pieces();
    let ghost rp = subtree_pieces(right);
    let ghost lbh = bh(Some(l));
    if l.color == Color::Red && is_red(&l.left) {
        let lnode = *l;
        let Node { piece: y, left: l_left, right: c, .. } = lnode;
        proof {
            assert(tree_pos(l_left) && tree_pos(c));
            assert(meta_ok_opt(l_left) && meta_ok_opt(c));
            assert(red_ok_opt(l_left) && red_ok_opt(c));
            assert(bh_ok_opt(l_left) && bh_ok_opt(c));
            assert(bh(l_left) == bh(c));
            assert(lbh == bh(l_left));
            assert(lp == subtree_pieces(l_left) + seq![y] + subtree_pieces(c));
        }
        let llb = l_left.unwrap();
        proof {
            assert(llb.color == Color::Red);
            assert(tree_pos(llb.left) && tree_pos(llb.right));
            assert(meta_ok_opt(llb.left) && meta_ok_opt(llb.right));
            assert(red_ok_opt(llb.left) && red_ok_opt(llb.right));
            assert(bh_ok_opt(llb.left) && bh_ok_opt(llb.right));
            assert(bh(llb.left) == bh(llb.right));
            assert(bh(Some(llb)) == bh(llb.left));
        }
        let Node { piece: x, left: a, right: b, .. } = *llb;
        proof {
            lemma_sum_three(subtree_pieces(a) + seq![x] + subtree_pieces(b), y, subtree_pieces(c));
            lemma_sum_three(subtree_pieces(a), x, subtree_pieces(b));
            lemma_sum_three(subtree_pieces(c), piece, rp);
            lemma_tree_pos_pieces(a);
            lemma_tree_pos_pieces(b);
            lemma_tree_pos_pieces(c);
            lemma_tree_pos_pieces(right);
            lemma_sums_nonneg(subtree_pieces(a));
            lemma_sums_nonneg(subtree_pieces(b));
            lemma_sums_nonneg(subtree_pieces(c));
            lemma_sums_nonneg(rp);
            lemma_lfc_nonneg(a);
            lemma_lfc_nonneg(b);
            lemma_lfc_nonneg(c);
            lemma_lfc_nonneg(right);
        }
        let new_left = mk(Color::Black, a, x, b);
        let new_right = mk(Color::Black, c, piece, right);
        let res = mk(Color::Red, Some(new_left), y, Some(new_right));
        proof {
            assert(res.pieces() =~= lp + seq![piece] + rp);
            assert(new_left.red_ok());
            assert(new_right.red_ok());
            assert(res.red_ok());
            assert(bh(Some(new_left)) == bh(a) + 1);
            assert(bh(Some(new_right)) == bh(c) + 1);
            assert(bh_ok_opt(Some(new_left)));
            assert(bh_ok_opt(Some(new_right)));
            assert(bh_ok_opt(Some(res)));
            assert(bh(Some(res)) == lbh + 1);
        }
        res
    } else if l.color == Color::Red && is_red(&l.right) {
        let lnode = *l;
        let Node { piece: x, left: a, right: l_right, .. } = lnode;
        proof {
            assert(tree_pos(a) && tree_pos(l_right));
            assert(meta_ok_opt(a) && meta_ok_opt(l_right));
            assert(red_ok_opt(a) && red_ok_opt(l_right));
            assert(bh_ok_opt(a) && bh_ok_opt(l_right));
            assert(bh(a) == bh(l_right));
            assert(lbh == bh(a));
            assert(lp == subtree_pieces(a) + seq![x] + subtree_pieces(l_right));
        }
        let lrb = l_right.unwrap();
        proof {
            assert(lrb.color == Color::Red);
            assert(tree_pos(lrb.left) && tree_pos(lrb.right));
            assert(meta_ok_opt(lrb.left) && meta_ok_opt(lrb.right));
            assert(red_ok_opt(lrb.left) && red_ok_opt(lrb.right));
            assert(bh_ok_opt(lrb.left) && bh_ok_opt(lrb.right));
            assert(bh(lrb.left) == bh(lrb.right));
            assert(bh(Some(lrb)) == bh(lrb.left));
        }
        let Node { piece: y, left: b, right: c, .. } = *lrb;
        proof {
            lemma_sum_three(subtree_pieces(b), y, subtree_pieces(c));
            lemma_sum_three(subtree_pieces(a), x, subtree_pieces(b) + seq![y] + subtree_pieces(c));
            lemma_sum_three(subtree_pieces(c), piece, rp);
            lemma_sum_three(subtree_pieces(a), x, subtree_pieces(b));
            lemma_tree_pos_pieces(a);
            lemma_tree_pos_pieces(b);
            lemma_tree_pos_pieces(c);
            lemma_tree_pos_pieces(right);
            lemma_sums_nonneg(subtree_pieces(a));
            lemma_sums_nonneg(subtree_pieces(b));
            lemma_sums_nonneg(subtree_pieces(c));
            lemma_sums_nonneg(rp);
            lemma_lfc_nonneg(a);
            lemma_lfc_nonneg(b);
            lemma_lfc_nonneg(c);
            lemma_lfc_nonneg(right);
        }
        let new_left = mk(Color::Black, a, x, b);
        let new_right = mk(Color::Black, c, piece, right);
        let res = mk(Color::Red, Some(new_left), y, Some(new_right));
        proof {
            assert(res.pieces() =~= lp + seq![piece] + rp);
            assert(new_left.red_ok());
            assert(new_right.red_ok());
            assert(res.red_ok());
            assert(bh(Some(new_left)) == bh(a) + 1);
            assert(bh(Some(new_right)) == bh(b) + 1);
            assert(bh_ok_opt(Some(new_left)));
            assert(bh_ok_opt(Some(new_right)));
            assert(bh_ok_opt(Some(res)));
            assert(bh(Some(res)) == lbh + 1);
        }
        res
    } else {
        proof {
            lemma_sum_three(lp, piece, rp);
            lemma_tree_pos_pieces(Some(l));
            lemma_sums_nonneg(lp);
            lemma_lfc_nonneg(Some(l));
            lemma_tree_pos_pieces(right);
            lemma_sums_nonneg(rp);
            lemma_lfc_nonneg(right);
        }
        let res = mk(Color::Black, Some(l), piece, right);
        proof {
            assert(l.red_ok());
            assert(res.red_ok());
            assert(bh_ok_opt(Some(res)));
            assert(bh(Some(res)) == lbh + 1);
        }
        res
    }
}

/// Restores the red-black shape after an insertion descended into the
/// right child of a black node: the two right rotations of insertion
/// fixup.
fn balance_right(left: Option<Box<Node>>, piece: Piece, r0: Box<Node>) -> (r: Box<Node>)
    requires
        r0.meta_ok(),
        tree_pos(Some(r0)),
        near_red_ok(Some(r0)),
        bh_ok_opt(Some(r0)),
        meta_ok_opt(left),
        tree_pos(left),
        red_ok_opt(left),
        bh_ok_opt(left),
        bh(left) == bh(Some(r0)),
        piece.start < piece.end,
        sum_len(subtree_pieces(left)) + piece.len_int() + sum_len(r0.pieces()) <= usize::MAX,
        sum_lfc(subtree_pieces(left)) + piece.line_feed_count + sum_lfc(r0.pieces())
            <= usize::MAX,
    ensures
        r.pieces() == subtree_pieces(left) + seq![piece] + r0.pieces(),
        r.meta_ok(),
        tree_pos(Some(r)),
        r.red_ok(),
        bh_ok_opt(Some(r)),
        bh(Some(r)) == bh(left) + 1,
{
    let ghost lp = subtree_pieces(left);
    let ghost rp = r0.pieces();
    let ghost lbh = bh(left);
    if r0.color == Color::Red && is_red(&r0.left) {
        let rnode = *r0;
        let Node { piece: z, left: r_left, right: d, .. } = rnode;
        proof {
            assert(tree_pos(r_left) && tree_pos(d));
            assert(meta_ok_opt(r_left) && meta_ok_opt(d));
            assert(red_ok_opt(r_left) && red_ok_opt(d));
            assert(bh_ok_opt(r_left) && bh_ok_opt(d));
            assert(bh(r_left) == bh(d));
            assert(lbh == bh(r_left));
            assert(rp == subtree_pieces(r_left) + seq![z] + subtree_pieces(d));
        }
        let rlb = r_left.unwrap();
        proof {
            assert(rlb.color == Color::Red);
            assert(tree_pos(rlb.left) && tree_pos(rlb.right));
            assert(meta_ok_opt(rlb.left) && meta_ok_opt(rlb.right));
            assert(red_ok_opt(rlb.left) && red_ok_opt(rlb.right));
            assert(bh_ok_opt(rlb.left) && bh_ok_opt(rlb.right));
            assert(bh(rlb.left) == bh(rlb.right));
            assert(bh(Some(rlb)) == bh(rlb.left));
        }
        let Node { piece: y, left: b, right: c, .. } = *rlb;
        proof {
            lemma_sum_three(subtree_pieces(b), y, subtree_pieces(c));
            lemma_sum_three(subtree_pieces(b) + seq![y] + subtree_pieces(c), z, subtree_pieces(d));
            lemma_sum_three(lp, piece, subtree_pieces(b));
            lemma_sum_three(subtree_pieces(c), z, subtree_pieces(d));
            lemma_tree_pos_pieces(b);
            lemma_tree_pos_pieces(c);
            lemma_tree_pos_pieces(d);
            lemma_tree_pos_pieces(left);
            lemma_sums_nonneg(subtree_pieces(b));
            lemma_sums_nonneg(subtree_pieces(c));
            lemma_sums_nonneg(subtree_pieces(d));
            lemma_sums_nonneg(lp);
            lemma_lfc_nonneg(b);
            lemma_lfc_nonneg(c);
            lemma_lfc_nonneg(d);
            lemma_lfc_nonneg(left);
        }
        let new_left = mk(Color::Black, left, piece, b);
        let new_right = mk(Color::Black, c, z, d);
        let res = mk(Color::Red, Some(new_left), y, Some(new_right));
        proof {
            assert(res.pieces() =~= lp + seq![piece] + rp);
            assert(new_left.red_ok());
            assert(new_right.red_ok());
            assert(res.red_ok());
            assert(bh(Some(new_left)) == lbh + 1);
            assert(bh(Some(new_right)) == bh(c) + 1);
            assert(bh_ok_opt(Some(new_left)));
            assert(bh_ok_opt(Some(new_right)));
            assert(bh_ok_opt(Some(res)));
            assert(bh(Some(res)) == lbh + 1);
        }
        res
    } else if r0.color == Color::Red && is_red(&r0.right) {
        let rnode = *r0;
        let Node { piece: y, left: b, right: r_right, .. } = rnode;
        proof {
            assert(tree_pos(b) && tree_pos(r_right));
            assert(meta_ok_opt(b) && meta_ok_opt(r_right));
            assert(red_ok_opt(b) && red_ok_opt(r_right));
            assert(bh_ok_opt(b) && bh_ok_opt(r_right));
            assert(bh(b) == bh(r_right));
            assert(lbh == bh(b));
            assert(rp == subtree_pieces(b) + seq![y] + subtree_pieces(r_right));
        }
        let rrb = r_right.unwrap();
        proof {
            assert(rrb.color == Color::Red);
            assert(tree_pos(rrb.left) && tree_pos(rrb.right));
            assert(meta_ok_opt(rrb.left) && meta_ok_opt(rrb.right));
            assert(red_ok_opt(rrb.left) && red_ok_opt(rrb.right));
            assert(bh_ok_opt(rrb.left) && bh_ok_opt(rrb.right));
            assert(bh(rrb.left) == bh(rrb.right));
            assert(bh(Some(rrb)) == bh(rrb.left));
        }
        let Node { piece: z, left: c, right: d, .. } = *rrb;
        proof {
            lemma_sum_three(subtree_pieces(c), z, subtree_pieces(d));
            lemma_sum_three(subtree_pieces(b), y, subtree_pieces(c) + seq![z] + subtree_pieces(d));
            lemma_sum_three(lp, piece, subtree_pieces(b));
            lemma_tree_pos_pieces(b);
            lemma_tree_pos_pieces(c);
            lemma_tree_pos_pieces(d);
            lemma_tree_pos_pieces(left);
            lemma_sums_nonneg(subtree_pieces(b));
            lemma_sums_nonneg(subtree_pieces(c));
            lemma_sums_nonneg(subtree_pieces(d));
            lemma_sums_nonneg(lp);
            lemma_lfc_nonneg(b);
            lemma_lfc_nonneg(c);
            lemma_lfc_nonneg(d);
            lemma_lfc_nonneg(left);
        }
        let new_left = mk(Color::Black, left, piece, b);
        let new_right = mk(Color::Black, c, z, d);
        let res = mk(Color::Red, Some(new_left), y, Some(new_right));
        proof {
            assert(res.pieces() =~= lp + seq![piece] + rp);
            assert(new_left.red_ok());
            assert(new_right.red_ok());
            assert(res.red_ok());
            assert(bh(Some(new_left)) == lbh + 1);
            assert(bh(Some(new_right)) == bh(c) + 1);
            assert(bh_ok_opt(Some(new_left)));
            assert(bh_ok_opt(Some(new_right)));
            assert(bh_ok_opt(Some(res)));
            assert(bh(Some(res)) == lbh + 1);
        }
        res
    } else {
        proof {
            lemma_sum_three(lp, piece, rp);
            lemma_tree_pos_pieces(Some(r0));
            lemma_sums_nonneg(rp);
            lemma_lfc_nonneg(Some(r0));
            lemma_tree_pos_pieces(left);
            lemma_sums_nonneg(lp);
            lemma_lfc_nonneg(left);
        }
        let res = mk(Color::Black, left, piece, Some(r0));
        proof {
            assert(r0.red_ok());
            assert(res.red_ok());
            assert(bh_ok_opt(Some(res)));
            assert(bh(Some(res)) == lbh + 1);
        }
        res
    }
}


/// Inserting one piece into a sequence at position `i` adds its length and
/// terminator count to the sums.
pub proof fn lemma_sum_insert(ps: Seq<Piece>, i: int, p: Piece)
    requires
        0 <= i <= ps.len(),
    ensures
        sum_len(ps.take(i) + seq![p] + ps.skip(i)) == sum_len(ps) + p.len_int(),
        sum_lfc(ps.take(i) + seq![p] + ps.skip(i)) == sum_lfc(ps) + p.line_feed_count,
{
    lemma_sum_three(ps.take(i), p, ps.skip(i));
    lemma_sum_len_concat(ps.take(i), ps.skip(i));
    lemma_sum_lfc_concat(ps.take(i), ps.skip(i));
    assert(ps.take(i) + ps.skip(i) =~= ps);
}

/// Positivity joins over a three-way split.
pub proof fn lemma_pieces_pos_three(l: Seq<Piece>, x: Piece, r: Seq<Piece>)
    requires
        pieces_pos(l),
        pieces_pos(r),
        x.start < x.end,
    ensures
        pieces_pos(l + seq![x] + r),
{
    let ps = l + seq![x] + r;
    assert forall|i: int| 0 <= i < ps.len() implies ps[i].start < (#[trigger] ps[i]).end by {
        if i < l.len() {
            assert(ps[i] == l[i]);
        } else if i == l.len() {
            assert(ps[i] == x);
        } else {
            assert(ps[i] == r[i - l.len() - 1]);
        }
    }
}


/// After an insertion into the left part, re-attaching the own piece and
/// the right part realises the insertion in the whole sequence.
proof fn lemma_assemble_left(
    lps: Seq<Piece>,
    x: Piece,
    rps: Seq<Piece>,
    p: Piece,
    off: int,
    wi: int,
    res: Seq<Piece>,
)
    requires
        0 <= wi <= lps.len(),
        prefix_len(lps, wi) == off,
        res == (lps.take(wi) + seq![p] + lps.skip(wi)) + seq![x] + rps,
    ensures
        prefix_len(lps + seq![x] + rps, wi) == off,
        res == (lps + seq![x] + rps).take(wi) + seq![p] + (lps + seq![x] + rps).skip(wi),
{
    let ps = lps + seq![x] + rps;
    lemma_prefix_len_concat_left(lps + seq![x], rps, wi);
    lemma_prefix_len_concat_left(lps, seq![x], wi);
    assert(ps.take(wi) =~= lps.take(wi));
    assert(ps.skip(wi) =~= lps.skip(wi) + seq![x] + rps);
    assert(res =~= ps.take(wi) + seq![p] + ps.skip(wi));
}

/// After an insertion into the right part, re-attaching the left part and
/// the own piece realises the insertion in the whole sequence.
proof fn lemma_assemble_right(
    lps: Seq<Piece>,
    x: Piece,
    rps: Seq<Piece>,
    p: Piece,
    off: int,
    wi2: int,
    res: Seq<Piece>,
)
    requires
        0 <= wi2 <= rps.len(),
        prefix_len(rps, wi2) == off - sum_len(lps) - x.len_int(),
        res == lps + seq![x] + (rps.take(wi2) + seq![p] + rps.skip(wi2)),
    ensures
        prefix_len(lps + seq![x] + rps, lps.len() + 1 + wi2) == off,
        res == (lps + seq![x] + rps).take(lps.len() + 1 + wi2) + seq![p] + (lps + seq![x]
            + rps).skip(lps.len() + 1 + wi2),
{
    let ps = lps + seq![x] + rps;
    let wi = lps.len() + 1 + wi2;
    lemma_prefix_len_concat_right(lps + seq![x], rps, wi);
    lemma_sum_len_concat(lps, seq![x]);
    assert(seq![x].drop_first() =~= Seq::<Piece>::empty());
    assert(seq![x][0] == x);
    assert(sum_len(Seq::<Piece>::empty()) == 0);
    assert(sum_len(seq![x]) == x.len_int());
    assert(prefix_len(ps, wi) == sum_len(lps) + x.len_int() + prefix_len(rps, wi2));
    assert(ps.take(wi) =~= lps + seq![x] + rps.take(wi2));
    assert(ps.skip(wi) =~= rps.skip(wi2));
    assert(res =~= ps.take(wi) + seq![p] + ps.skip(wi));
}

/// Inserts `p` at the piece boundary `off`, keeping the tree almost
/// red-black: the result may carry one red-red violation at its root.
#[verifier::rlimit(80)]
fn ins_opt(n: Option<Box<Node>>, off: usize, p: Piece) -> (r: Box<Node>)
    requires
        meta_ok_opt(n),
        tree_pos(n),
        red_ok_opt(n),
        bh_ok_opt(n),
        at_boundary(subtree_pieces(n), off as int),
        p.start < p.end,
        sum_len(subtree_pieces(n)) + p.len_int() <= usize::MAX,
        sum_lfc(subtree_pieces(n)) + p.line_feed_count <= usize::MAX,
    ensures
        r.meta_ok(),
        tree_pos(Some(r)),
        near_red_ok(Some(r)),
        bh_ok_opt(Some(r)),
        bh(Some(r)) == bh(n),
        is_black(n) ==> r.red_ok(),
        exists|i: int|
            0 <= i <= subtree_pieces(n).len() && prefix_len(subtree_pieces(n), i) == off as int
                && r.pieces() == subtree_pieces(n).take(i) + seq![p] + subtree_pieces(n).skip(i),
    decreases n,
{
    let ghost ps = subtree_pieces(n);
    match n {
        None => {
            proof {
                assert(ps =~= Seq::<Piece>::empty());
                assert(ps.take(0) =~= Seq::<Piece>::empty());
                assert(sum_len(Seq::<Piece>::empty()) == 0);
                let i0 = choose|i: int| 0 <= i <= ps.len() && prefix_len(ps, i) == off as int;
                assert(prefix_len(ps, i0) == off as int);
                assert(ps.take(i0) =~= Seq::<Piece>::empty());
                assert(off == 0);
            }
            let r = mk(Color::Red, None, p, None);
            proof {
                assert(ps.skip(0) =~= ps);
                assert(r.pieces() =~= ps.take(0) + seq![p] + ps.skip(0));
                assert(prefix_len(ps, 0) == 0);
                assert(0 <= 0 <= ps.len() && prefix_len(ps, 0) == off as int && r.pieces()
                    == ps.take(0) + seq![p] + ps.skip(0));
            }
            r
        },
        Some(nd_box) => {
            let nd = *nd_box;
            let ghost lps = subtree_pieces(nd.left);
            let ghost rps = subtree_pieces(nd.right);
            let ghost x = nd.piece;
            let ghost was_black = nd.color == Color::Black;
            let ghost nbh = bh(n);
            proof {
                assert(ps == lps + seq![x] + rps);
                assert(tree_pos(nd.left) && tree_pos(nd.right));
                assert(meta_ok_opt(nd.left) && meta_ok_opt(nd.right));
                assert(red_ok_opt(nd.left) && red_ok_opt(nd.right));
                assert(bh_ok_opt(nd.left) && bh_ok_opt(nd.right));
                assert(bh(nd.left) == bh(nd.right));
                assert(x.start < x.end);
                lemma_tree_pos_pieces(nd.left);
                lemma_tree_pos_pieces(nd.right);
                lemma_pieces_pos_three(lps, x, rps);
                lemma_boundary_split(lps, x, rps, off as int);
                lemma_sum_three(lps, x, rps);
                lemma_sums_nonneg(lps);
                lemma_sums_nonneg(rps);
                lemma_lfc_nonneg(nd.left);
                lemma_lfc_nonneg(nd.right);
            }
            if off <= nd.left_len {
                let new_left = ins_opt(nd.left, off, p);
                let ghost wi = choose|i: int|
                    0 <= i <= lps.len() && prefix_len(lps, i) == off as int && new_left.pieces()
                        == lps.take(i) + seq![p] + lps.skip(i);
                proof {
                    lemma_sum_insert(lps, wi, p);
                }
                let res = if nd.color == Color::Black {
                    balance_left(new_left, nd.piece, nd.right)
                } else {
                    mk(Color::Red, Some(new_left), nd.piece, nd.right)
                };
                proof {
                    lemma_assemble_left(lps, x, rps, p, off as int, wi, res.pieces());
                    assert(0 <= wi <= ps.len() && prefix_len(ps, wi) == off as int
                        && res.pieces() == ps.take(wi) + seq![p] + ps.skip(wi));
                    if !was_black {
                        assert(is_black(nd.left));
                        assert(new_left.red_ok());
                        assert(near_red_ok(Some(res)));
                        assert(bh(Some(res)) == nbh);
                    } else {
                        assert(res.red_ok());
                        assert(near_red_ok(Some(res)));
                        assert(bh(Some(res)) == bh(Some(new_left)) + 1);
                        assert(bh(Some(res)) == nbh);
                    }
                }
                res
            } else {
                proof {
                    assert(off as int >= sum_len(lps) + x.len_int());
                    assert(nd.left_len == sum_len(lps));
                }
                let off2 = off - nd.left_len - nd.piece.len();
                let new_right = ins_opt(nd.right, off2, p);
                let ghost wi2 = choose|i: int|
                    0 <= i <= rps.len() && prefix_len(rps, i) == off2 as int && new_right.pieces()
                        == rps.take(i) + seq![p] + rps.skip(i);
                proof {
                    lemma_sum_insert(rps, wi2, p);
                }
                let res = if nd.color == Color::Black {
                    balance_right(nd.left, nd.piece, new_right)
                } else {
                    mk(Color::Red, nd.left, nd.piece, Some(new_right))
                };
                proof {
                    let wi = lps.len() + 1 + wi2;
                    lemma_assemble_right(lps, x, rps, p, off as int, wi2, res.pieces());
                    assert(0 <= wi <= ps.len() && prefix_len(ps, wi) == off as int
                        && res.pieces() == ps.take(wi) + seq![p] + ps.skip(wi));
                    if !was_black {
                        assert(is_black(nd.right));
                        assert(new_right.red_ok());
                        assert(near_red_ok(Some(res)));
                        assert(bh(Some(res)) == nbh);
                    } else {
                        assert(res.red_ok());
                        assert(near_red_ok(Some(res)));
                        assert(bh(Some(res)) == nbh);
                    }
                }
                res
            }
        },
    }
}

/// The piece tree itself: a red-black tree of pieces in document order.
#[derive(Debug)]
pub struct PieceTree {
    pub root: Option<Box<Node>>,
}

impl PieceTree {
    /// The pieces of the document, in order.
    pub open spec fn pieces(self) -> Seq<Piece> {
        subtree_pieces(self.root)
    }

    /// Structural well-formedness: consistent metadata, non-empty pieces,
    /// and the red-black properties, with a black root.
    pub open spec fn wf(self) -> bool {
        &&& meta_ok_opt(self.root)
        &&& tree_pos(self.root)
        &&& red_ok_opt(self.root)
        &&& bh_ok_opt(self.root)
        &&& is_black(self.root)
    }

    /// The empty tree.
    pub fn new() -> (t: Self)
        ensures
            t.wf(),
            t.pieces() == Seq::<Piece>::empty(),
    {
        proof {
            assert(subtree_pieces(None) =~= Seq::<Piece>::empty());
        }
        PieceTree { root: None }
    }

    /// Number of pieces in the tree is zero exactly when the root is gone;
    /// used to pick the first-insert path.
    pub fn is_empty(&self) -> (b: bool)
        ensures
            b == (self.pieces().len() == 0),
    {
        proof {
            if self.root is Some {
                assert(self.pieces().len() >= 1);
            } else {
                assert(self.pieces() =~= Seq::<Piece>::empty());
            }
        }
        match &self.root {
            None => true,
            Some(_) => false,
        }
    }

    /// Inserts `p` at the piece boundary `off` characters into the
    /// document, rebalancing on the way back up.
    pub fn insert_piece(&mut self, off: usize, p: Piece)
        requires
            old(self).wf(),
            at_boundary(old(self).pieces(), off as int),
            p.start < p.end,
            sum_len(old(self).pieces()) + p.len_int() <= usize::MAX,
            sum_lfc(old(self).pieces()) + p.line_feed_count <= usize::MAX,
        ensures
            final(self).wf(),
            exists|i: int|
                0 <= i <= old(self).pieces().len() && prefix_len(old(self).pieces(), i)
                    == off as int && final(self).pieces() == old(self).pieces().take(i)
                    + seq![p] + old(self).pieces().skip(i),
    {
        let root = self.root.take();
        let new_root = ins_opt(root, off, p);
        let mut node = *new_root;
        node.color = Color::Black;
        proof {
            assert(node.red_ok());
            assert(node.meta_ok());
            assert(bh_ok_opt(Some(new_root)));
            assert(bh(node.left) == bh(node.right));
        }
        self.root = Some(Box::new(node));
    }
}


/// Index of the piece containing character position `off`.
pub open spec fn index_at(ps: Seq<Piece>, off: int) -> int
    decreases ps.len(),
{
    if ps.len() == 0 {
        0
    } else if off < ps[0].len_int() {
        0
    } else {
        1 + index_at(ps.drop_first(), off - ps[0].len_int())
    }
}

/// For a position inside the covered range, `index_at` names the unique
/// piece whose span contains it.
pub proof fn lemma_index_at(ps: Seq<Piece>, off: int)
    requires
        pieces_pos(ps),
        0 <= off < sum_len(ps),
    ensures
        0 <= index_at(ps, off) < ps.len(),
        prefix_len(ps, index_at(ps, off)) <= off,
        off < prefix_len(ps, index_at(ps, off)) + ps[index_at(ps, off)].len_int(),
    decreases ps.len(),
{
    assert(ps.len() > 0);
    assert(ps[0].start < ps[0].end);
    if off < ps[0].len_int() {
        assert(ps.take(0) =~= Seq::<Piece>::empty());
        assert(sum_len(Seq::<Piece>::empty()) == 0);
        lemma_prefix_len_step(ps, 0);
    } else {
        let rest = ps.drop_first();
        assert(forall|i: int| 0 <= i < rest.len() ==> rest[i] == ps[i + 1]);
        assert(pieces_pos(rest)) by {
            assert(forall|i: int|
                0 <= i < rest.len() ==> (#[trigger] rest[i]).start < rest[i].end);
        }
        let off2 = off - ps[0].len_int();
        lemma_index_at(rest, off2);
        let i2 = index_at(rest, off2);
        assert(index_at(ps, off) == 1 + i2);
        assert(ps.take(1 + i2) =~= seq![ps[0]] + rest.take(i2));
        lemma_sum_len_concat(seq![ps[0]], rest.take(i2));
        assert(seq![ps[0]].drop_first() =~= Seq::<Piece>::empty());
        assert(sum_len(Seq::<Piece>::empty()) == 0);
        assert(seq![ps[0]][0] == ps[0]);
        assert(prefix_len(ps, 1 + i2) == ps[0].len_int() + prefix_len(rest, i2));
        assert(ps[1 + i2] == rest[i2]);
    }
}

/// Locates the piece containing position `off`, returning the piece and
/// the position where it starts, by steering on the stored metadata.
fn locate(n: &Option<Box<Node>>, off: usize) -> (r: (Piece, usize))
    requires
        meta_ok_opt(*n),
        tree_pos(*n),
        off < sum_len(subtree_pieces(*n)),
        sum_len(subtree_pieces(*n)) <= usize::MAX,
    ensures
        ({
            let ps = subtree_pieces(*n);
            let i = index_at(ps, off as int);
            r.0 == ps[i] && r.1 == prefix_len(ps, i)
        }),
    decreases *n,
{
    proof {
        lemma_tree_pos_pieces(*n);
        lemma_sums_nonneg(subtree_pieces(*n));
    }
    let nd = match n {
        Some(nd) => nd,
        None => {
            proof {
                assert(subtree_pieces(*n) =~= Seq::<Piece>::empty());
                assert(false);
            }
            unreached()
        },
    };
    let ghost ps = subtree_pieces(*n);
    let ghost lps = subtree_pieces(nd.left);
    let ghost rps = subtree_pieces(nd.right);
    let ghost x = nd.piece;
    proof {
        assert(ps == lps + seq![x] + rps);
        assert(tree_pos(nd.left) && tree_pos(nd.right));
        assert(meta_ok_opt(nd.left) && meta_ok_opt(nd.right));
        lemma_tree_pos_pieces(nd.left);
        lemma_tree_pos_pieces(nd.right);
        lemma_sum_three(lps, x, rps);
        lemma_sums_nonneg(lps);
        lemma_sums_nonneg(rps);
        assert(x.start < x.end);
        lemma_pieces_pos_three(lps, x, rps);
        lemma_index_at_three(lps, x, rps, off as int);
        lemma_index_at(ps, off as int);
    }
    if off < nd.left_len {
        let r = locate(&nd.left, off);
        proof {
            lemma_index_at(lps, off as int);
            lemma_prefix_len_concat_left(lps + seq![x], rps, index_at(lps, off as int));
            lemma_prefix_len_concat_left(lps, seq![x], index_at(lps, off as int));
            assert(ps[index_at(ps, off as int)] == lps[index_at(lps, off as int)]);
        }
        r
    } else {
        let here_end = nd.left_len + nd.piece.len();
        if off < here_end {
            proof {
                assert(index_at(ps, off as int) == lps.len());
                lemma_prefix_len_concat_left(lps + seq![x], rps, lps.len() as int);
                lemma_prefix_len_concat_left(lps, seq![x], lps.len() as int);
                assert(lps.take(lps.len() as int) =~= lps);
                assert(ps[lps.len() as int] == x);
            }
            (nd.piece, nd.left_len)
        } else {
            let off2 = off - here_end;
            let r = locate(&nd.right, off2);
            proof {
                let i2 = index_at(rps, off2 as int);
                let i = lps.len() + 1 + i2;
                assert(index_at(ps, off as int) == i);
                lemma_index_at(rps, off2 as int);
                lemma_prefix_len_concat_right(lps + seq![x], rps, i);
                lemma_sum_len_concat(lps, seq![x]);
                assert(seq![x].drop_first() =~= Seq::<Piece>::empty());
                assert(seq![x][0] == x);
                assert(sum_len(Seq::<Piece>::empty()) == 0);
                assert(prefix_len(ps, i) == sum_len(lps) + x.len_int() + prefix_len(rps, i2));
                assert(ps[i] == rps[i2]);
                lemma_prefix_len_mono(rps, i2, rps.len() as int);
                assert(rps.take(rps.len() as int) =~= rps);
            }
            (r.0, here_end + r.1)
        }
    }
}

/// `index_at` over a three-way split steers into the part the position
/// falls in.
pub proof fn lemma_index_at_three(l: Seq<Piece>, x: Piece, r: Seq<Piece>, off: int)
    requires
        pieces_pos(l),
        x.start < x.end,
        0 <= off,
    ensures
        off < sum_len(l) ==> index_at(l + seq![x] + r, off) == index_at(l, off),
        sum_len(l) <= off < sum_len(l) + x.len_int() ==> index_at(l + seq![x] + r, off)
            == l.len(),
        sum_len(l) + x.len_int() <= off ==> index_at(l + seq![x] + r, off) == l.len() + 1
            + index_at(r, off - sum_len(l) - x.len_int()),
    decreases l.len(),
{
    let ps = l + seq![x] + r;
    assert(ps.len() == l.len() + 1 + r.len());
    if l.len() == 0 {
        assert(sum_len(l) == 0);
        assert(ps[0] == x);
        if off < x.len_int() {
            assert(index_at(ps, off) == 0);
        } else {
            assert(ps.drop_first() =~= r);
            assert(index_at(ps, off) == 1 + index_at(r, off - x.len_int()));
        }
    } else {
        assert(ps[0] == l[0]);
        assert(l[0].start < l[0].end);
        let lrest = l.drop_first();
        assert(forall|i: int| 0 <= i < lrest.len() ==> lrest[i] == l[i + 1]);
        assert(pieces_pos(lrest)) by {
            assert(forall|i: int|
                0 <= i < lrest.len() ==> (#[trigger] lrest[i]).start < lrest[i].end);
        }
        assert(sum_len(l) == l[0].len_int() + sum_len(lrest));
        if off < l[0].len_int() {
            assert(index_at(ps, off) == 0);
            assert(index_at(l, off) == 0);
            lemma_sums_nonneg(lrest);
            assert(off < sum_len(l));
        } else {
            let off2 = off - l[0].len_int();
            assert(ps.drop_first() =~= lrest + seq![x] + r);
            lemma_index_at_three(lrest, x, r, off2);
            assert(index_at(ps, off) == 1 + index_at(lrest + seq![x] + r, off2));
            assert(index_at(l, off) == 1 + index_at(lrest, off2));
        }
    }
}


/// Distinct prefix counts give distinct prefix lengths when every piece is
/// non-empty.
pub proof fn lemma_prefix_len_unique(ps: Seq<Piece>, i: int, j: int)
    requires
        pieces_pos(ps),
        0 <= i <= ps.len(),
        0 <= j <= ps.len(),
        prefix_len(ps, i) == prefix_len(ps, j),
    ensures
        i == j,
{
    if i < j {
        lemma_prefix_len_mono(ps, i, j);
        assert(ps[i].len_int() > 0);
        assert(false);
    }
    if j < i {
        lemma_prefix_len_mono(ps, j, i);
        assert(ps[j].len_int() > 0);
        assert(false);
    }
}

/// Replacing the piece at index `i` changes the sums by the difference of
/// the two pieces.
pub proof fn lemma_sum_update(ps: Seq<Piece>, i: int, q: Piece)
    requires
        0 <= i < ps.len(),
    ensures
        sum_len(ps.update(i, q)) == sum_len(ps) - ps[i].len_int() + q.len_int(),
        sum_lfc(ps.update(i, q)) == sum_lfc(ps) - ps[i].line_feed_count + q.line_feed_count,
{
    assert(ps.update(i, q) =~= ps.take(i) + seq![q] + ps.skip(i + 1));
    assert(ps =~= ps.take(i) + seq![ps[i]] + ps.skip(i + 1));
    lemma_sum_three(ps.take(i), q, ps.skip(i + 1));
    lemma_sum_three(ps.take(i), ps[i], ps.skip(i + 1));
}

/// A node-start boundary of a split sequence lies in one of the parts, as
/// the offset directs.
pub proof fn lemma_boundary_split_strict(l: Seq<Piece>, x: Piece, r: Seq<Piece>, off: int)
    requires
        pieces_pos(l + seq![x] + r),
        x.len_int() > 0,
        exists|i: int|
            0 <= i < (l + seq![x] + r).len() && prefix_len(l + seq![x] + r, i) == off,
    ensures
        off < sum_len(l) ==> exists|i: int| 0 <= i < l.len() && prefix_len(l, i) == off,
        off > sum_len(l) ==> off >= sum_len(l) + x.len_int() && (exists|i: int|
            0 <= i < r.len() && prefix_len(r, i) == off - sum_len(l) - x.len_int()),
{
    let ps = l + seq![x] + r;
    let i = choose|i: int| 0 <= i < ps.len() && prefix_len(ps, i) == off;
    assert(0 <= i < ps.len() && prefix_len(ps, i) == off);
    assert(forall|k: int| 0 <= k < l.len() ==> ps[k] == l[k]);
    assert(forall|k: int| 0 <= k < r.len() ==> ps[l.len() + 1 + k] == r[k]);
    assert(l.take(l.len() as int) =~= l);
    if i <= l.len() {
        lemma_prefix_len_concat_left(l + seq![x], r, i);
        lemma_prefix_len_concat_left(l, seq![x], i);
        assert(prefix_len(l, i) == off);
        assert(pieces_pos(l)) by {
            assert(forall|k: int|
                0 <= k < l.len() ==> (#[trigger] l[k]).start < l[k].end);
        }
        lemma_prefix_len_mono(l, i, l.len() as int);
        if i < l.len() {
            assert(off <= sum_len(l));
            assert(l[i].len_int() > 0);
            assert(off < sum_len(l)) by {
                lemma_prefix_len_mono(l, i, l.len() as int);
            }
        } else {
            assert(off == sum_len(l));
        }
    } else {
        lemma_prefix_len_concat_right(l + seq![x], r, i);
        lemma_sum_len_concat(l, seq![x]);
        assert(seq![x].drop_first() =~= Seq::<Piece>::empty());
        assert(seq![x][0] == x);
        assert(sum_len(Seq::<Piece>::empty()) == 0);
        let i2 = i - l.len() - 1;
        assert(prefix_len(ps, i) == sum_len(l) + x.len_int() + prefix_len(r, i2));
        assert(pieces_pos(r)) by {
            assert(forall|k: int|
                0 <= k < r.len() ==> (#[trigger] r[k]).start < r[k].end);
        }
        assert(r.take(0) =~= Seq::<Piece>::empty());
        lemma_prefix_len_mono(r, 0, i2);
        assert(pieces_pos(l)) by {
            assert(forall|k: int|
                0 <= k < l.len() ==> (#[trigger] l[k]).start < l[k].end);
        }
        lemma_sums_nonneg(l);
        assert(off >= sum_len(l) + x.len_int());
        assert(0 <= i2 < r.len() && prefix_len(r, i2) == off - sum_len(l) - x.len_int());
    }
}

/// Replaces the piece of the node that starts at position `start` with
/// `q`, leaving the shape and colours of the tree unchanged.
#[verifier::rlimit(50)]
fn replace_rec(n: Box<Node>, start: usize, q: Piece) -> (r: Box<Node>)
    requires
        n.meta_ok(),
        tree_pos(Some(n)),
        q.start < q.end,
        exists|i: int|
            0 <= i < n.pieces().len() && prefix_len(n.pieces(), i) == start as int,
        forall|i: int|
            (0 <= i < n.pieces().len() && prefix_len(n.pieces(), i) == start as int) ==> sum_len(
                n.pieces(),
            ) - (#[trigger] n.pieces()[i]).len_int() + q.len_int() <= usize::MAX && sum_lfc(
                n.pieces(),
            ) - n.pieces()[i].line_feed_count + q.line_feed_count <= usize::MAX,
    ensures
        exists|i: int|
            0 <= i < n.pieces().len() && prefix_len(n.pieces(), i) == start as int
                && r.pieces() == n.pieces().update(i, q),
        r.meta_ok(),
        tree_pos(Some(r)),
        r.color == n.color,
        n.red_ok() ==> r.red_ok(),
        bh(Some(r)) == bh(Some(n)),
        bh_ok_opt(Some(n)) ==> bh_ok_opt(Some(r)),
    decreases n,
{
    let ghost ps = n.pieces();
    let nd = *n;
    let ghost lps = subtree_pieces(nd.left);
    let ghost rps = subtree_pieces(nd.right);
    let ghost x = nd.piece;
    proof {
        assert(ps == lps + seq![x] + rps);
        assert(tree_pos(nd.left) && tree_pos(nd.right));
        assert(meta_ok_opt(nd.left) && meta_ok_opt(nd.right));
        assert(x.start < x.end);
        lemma_tree_pos_pieces(nd.left);
        lemma_tree_pos_pieces(nd.right);
        lemma_pieces_pos_three(lps, x, rps);
        lemma_boundary_split_strict(lps, x, rps, start as int);
        lemma_sum_three(lps, x, rps);
        lemma_sums_nonneg(lps);
        lemma_sums_nonneg(rps);
        lemma_lfc_nonneg(nd.left);
        lemma_lfc_nonneg(nd.right);
        assert(nd.left_len == sum_len(lps));
    }
    if start < nd.left_len {
        proof {
            let wi = choose|i: int| 0 <= i < lps.len() && prefix_len(lps, i) == start as int;
            assert(0 <= wi < lps.len() && prefix_len(lps, wi) == start as int);
            lemma_prefix_len_concat_left(lps + seq![x], rps, wi);
            lemma_prefix_len_concat_left(lps, seq![x], wi);
            assert(ps[wi] == lps[wi]);
            assert(sum_len(ps) - ps[wi].len_int() + q.len_int() <= usize::MAX);
            lemma_sum_update(lps, wi, q);
            lemma_sum_update(ps, wi, q);
            assert(lps.len() > 0);
            assert forall|i: int|
                (0 <= i < lps.len() && prefix_len(lps, i) == start as int) implies sum_len(lps)
                    - (#[trigger] lps[i]).len_int() + q.len_int() <= usize::MAX && sum_lfc(lps)
                    - lps[i].line_feed_count + q.line_feed_count <= usize::MAX by {
                lemma_prefix_len_unique(lps, i, wi);
            }
        }
        let left_box = nd.left.unwrap();
        let new_left = replace_rec(left_box, start, q);
        proof {
            let wi = choose|i: int|
                0 <= i < lps.len() && prefix_len(lps, i) == start as int && new_left.pieces()
                    == lps.update(i, q);
            assert(0 <= wi < lps.len() && prefix_len(lps, wi) == start as int
                && new_left.pieces() == lps.update(wi, q));
            lemma_prefix_len_concat_left(lps + seq![x], rps, wi);
            lemma_prefix_len_concat_left(lps, seq![x], wi);
            assert(ps[wi] == lps[wi]);
            assert(sum_len(ps) - ps[wi].len_int() + q.len_int() <= usize::MAX);
            lemma_sum_update(lps, wi, q);
            lemma_sum_update(ps, wi, q);
        }
        let res = mk(nd.color, Some(new_left), nd.piece, nd.right);
        proof {
            let wi = choose|i: int|
                0 <= i < lps.len() && prefix_len(lps, i) == start as int && new_left.pieces()
                    == lps.update(i, q);
            assert(res.pieces() =~= ps.update(wi, q));
            lemma_prefix_len_concat_left(lps + seq![x], rps, wi);
            lemma_prefix_len_concat_left(lps, seq![x], wi);
            assert(0 <= wi < ps.len() && prefix_len(ps, wi) == start as int && res.pieces()
                == ps.update(wi, q));
        }
        res
    } else if start == nd.left_len {
        proof {
            let wi = lps.len() as int;
            lemma_prefix_len_concat_left(lps + seq![x], rps, wi);
            lemma_prefix_len_concat_left(lps, seq![x], wi);
            assert(lps.take(wi) =~= lps);
            assert(prefix_len(ps, wi) == sum_len(lps));
            assert(ps[wi] == x);
            assert(sum_len(ps) - ps[wi].len_int() + q.len_int() <= usize::MAX);
        }
        let res = mk(nd.color, nd.left, q, nd.right);
        proof {
            let wi = lps.len() as int;
            lemma_prefix_len_concat_left(lps + seq![x], rps, wi);
            lemma_prefix_len_concat_left(lps, seq![x], wi);
            assert(lps.take(wi) =~= lps);
            assert(prefix_len(ps, wi) == sum_len(lps));
            assert(res.pieces() =~= ps.update(wi, q));
            assert(0 <= wi < ps.len() && prefix_len(ps, wi) == start as int && res.pieces()
                == ps.update(wi, q));
        }
        res
    } else {
        proof {
            assert(start as int >= sum_len(lps) + x.len_int());
        }
        let start2 = start - nd.left_len - nd.piece.len();
        proof {
            let wi2 = choose|i: int|
                0 <= i < rps.len() && prefix_len(rps, i) == start2 as int;
            assert(0 <= wi2 < rps.len() && prefix_len(rps, wi2) == start2 as int);
            let wi = lps.len() + 1 + wi2;
            lemma_prefix_len_concat_right(lps + seq![x], rps, wi);
            lemma_sum_len_concat(lps, seq![x]);
            assert(seq![x].drop_first() =~= Seq::<Piece>::empty());
            assert(seq![x][0] == x);
            assert(sum_len(Seq::<Piece>::empty()) == 0);
            assert(prefix_len(ps, wi) == sum_len(lps) + x.len_int() + prefix_len(rps, wi2));
            assert(ps[wi] == rps[wi2]);
            assert(sum_len(ps) - ps[wi].len_int() + q.len_int() <= usize::MAX);
            lemma_sum_update(rps, wi2, q);
            lemma_sum_update(ps, wi, q);
            assert(rps.len() > 0);
            assert forall|i: int|
                (0 <= i < rps.len() && prefix_len(rps, i) == start2 as int) implies sum_len(rps)
                    - (#[trigger] rps[i]).len_int() + q.len_int() <= usize::MAX && sum_lfc(rps)
                    - rps[i].line_feed_count + q.line_feed_count <= usize::MAX by {
                lemma_prefix_len_unique(rps, i, wi2);
            }
        }
        let right_box = nd.right.unwrap();
        let new_right = replace_rec(right_box, start2, q);
        proof {
            let wi2 = choose|i: int|
                0 <= i < rps.len() && prefix_len(rps, i) == start2 as int && new_right.pieces()
                    == rps.update(i, q);
            assert(0 <= wi2 < rps.len() && prefix_len(rps, wi2) == start2 as int
                && new_right.pieces() == rps.update(wi2, q));
            let wi = lps.len() + 1 + wi2;
            lemma_prefix_len_concat_right(lps + seq![x], rps, wi);
            lemma_sum_len_concat(lps, seq![x]);
            assert(seq![x].drop_first() =~= Seq::<Piece>::empty());
            assert(seq![x][0] == x);
            assert(sum_len(Seq::<Piece>::empty()) == 0);
            assert(prefix_len(ps, wi) == sum_len(lps) + x.len_int() + prefix_len(rps, wi2));
            assert(ps[wi] == rps[wi2]);
            assert(sum_len(ps) - ps[wi].len_int() + q.len_int() <= usize::MAX);
            lemma_sum_update(rps, wi2, q);
            lemma_sum_update(ps, wi, q);
        }
        let res = mk(nd.color, nd.left, nd.piece, Some(new_right));
        proof {
            let wi2 = choose|i: int|
                0 <= i < rps.len() && prefix_len(rps, i) == start2 as int && new_right.pieces()
                    == rps.update(i, q);
            let wi = lps.len() + 1 + wi2;
            lemma_prefix_len_concat_right(lps + seq![x], rps, wi);
            lemma_sum_len_concat(lps, seq![x]);
            assert(seq![x].drop_first() =~= Seq::<Piece>::empty());
            assert(seq![x][0] == x);
            assert(sum_len(Seq::<Piece>::empty()) == 0);
            assert(prefix_len(ps, wi) == sum_len(lps) + x.len_int() + prefix_len(rps, wi2));
            assert(res.pieces() =~= ps.update(wi, q));
            assert(0 <= wi < ps.len() && prefix_len(ps, wi) == start as int && res.pieces()
                == ps.update(wi, q));
        }
        res
    }
}

/// In-order walk appending every piece below `n` to `out`.
fn collect_rec(n: &Option<Box<Node>>, out: &mut Vec<Piece>)
    ensures
        final(out)@ == old(out)@ + subtree_pieces(*n),
    decreases *n,
{
    match n {
        None => {
            proof {
                assert(old(out)@ + subtree_pieces(*n) =~= old(out)@);
            }
        },
        Some(nd) => {
            collect_rec(&nd.left, out);
            out.push(nd.piece);
            collect_rec(&nd.right, out);
            proof {
                assert(final(out)@ =~= old(out)@ + subtree_pieces(*n));
            }
        },
    }
}

impl PieceTree {
    /// The piece containing position `off`, with the position where that
    /// piece starts in the document.
    pub fn node_at(&self, off: usize) -> (r: (Piece, usize))
        requires
            self.wf(),
            off < sum_len(self.pieces()),
            sum_len(self.pieces()) <= usize::MAX,
        ensures
            ({
                let i = index_at(self.pieces(), off as int);
                r.0 == self.pieces()[i] && r.1 == prefix_len(self.pieces(), i)
            }),
    {
        locate(&self.root, off)
    }

    /// Replaces the piece of the node starting at position `start`.
    pub fn replace_at(&mut self, start: usize, q: Piece)
        requires
            old(self).wf(),
            q.start < q.end,
            exists|i: int|
                0 <= i < old(self).pieces().len() && prefix_len(old(self).pieces(), i)
                    == start as int,
            forall|i: int|
                (0 <= i < old(self).pieces().len() && prefix_len(old(self).pieces(), i)
                    == start as int) ==> sum_len(old(self).pieces()) - (#[trigger] old(
                    self,
                ).pieces()[i]).len_int() + q.len_int() <= usize::MAX && sum_lfc(
                    old(self).pieces(),
                ) - old(self).pieces()[i].line_feed_count + q.line_feed_count <= usize::MAX,
        ensures
            final(self).wf(),
            exists|i: int|
                0 <= i < old(self).pieces().len() && prefix_len(old(self).pieces(), i)
                    == start as int && final(self).pieces() == old(self).pieces().update(i, q),
    {
        proof {
            if old(self).root is None {
                assert(subtree_pieces(old(self).root) =~= Seq::<Piece>::empty());
                let wi = choose|i: int|
                    0 <= i < old(self).pieces().len() && prefix_len(old(self).pieces(), i)
                        == start as int;
                assert(false);
            }
        }
        let root = self.root.take().unwrap();
        let new_root = replace_rec(root, start, q);
        self.root = Some(new_root);
    }

    /// All pieces, in document order.
    pub fn collect_pieces(&self) -> (v: Vec<Piece>)
        ensures
            v@ == self.pieces(),
    {
        let mut v = Vec::new();
        collect_rec(&self.root, &mut v);
        proof {
            assert(v@ =~= self.pieces());
        }
        v
    }

    /// Number of pieces in the tree.
    pub fn piece_count(&self) -> (c: usize)
        ensures
            c == self.pieces().len(),
    {
        let v = self.collect_pieces();
        v.len()
    }

    /// Total document length, from the tree metadata.
    pub fn total_len(&self) -> (r: usize)
        requires
            self.wf(),
            sum_len(self.pieces()) <= usize::MAX,
        ensures
            r == sum_len(self.pieces()),
    {
        subtree_len(&self.root)
    }

    /// Total terminator count, from the tree metadata.
    pub fn total_lfc(&self) -> (r: usize)
        requires
            self.wf(),
            sum_lfc(self.pieces()) <= usize::MAX,
        ensures
            r == sum_lfc(self.pieces()),
    {
        subtree_lfc(&self.root)
    }

    /// Builds a tree over the given pieces, in order, by repeated
    /// insertion at the end.
    pub fn from_pieces(ps: &Vec<Piece>) -> (t: PieceTree)
        requires
            pieces_pos(ps@),
            sum_len(ps@) <= usize::MAX,
            sum_lfc(ps@) <= usize::MAX,
        ensures
            t.wf(),
            t.pieces() == ps@,
    {
        let mut t = PieceTree::new();
        let mut total: usize = 0;
        let mut k: usize = 0;
        proof {
            assert(ps@.take(0) =~= Seq::<Piece>::empty());
            assert(sum_len(Seq::<Piece>::empty()) == 0);
            assert(sum_lfc(Seq::<Piece>::empty()) == 0);
        }
        while k < ps.len()
            invariant
                k <= ps.len(),
                t.wf(),
                t.pieces() == ps@.take(k as int),
                total == sum_len(ps@.take(k as int)),
                pieces_pos(ps@),
                sum_len(ps@) <= usize::MAX,
                sum_lfc(ps@) <= usize::MAX,
            decreases ps.len() - k,
        {
            let p = ps[k];
            proof {
                assert(ps@[k as int].start < ps@[k as int].end);
                lemma_take_sums(ps@, k as int);
                assert(pieces_pos(ps@.skip(k + 1))) by {
                    assert(forall|j: int|
                        0 <= j < ps@.skip(k + 1).len() ==> (#[trigger] ps@.skip(k + 1)[j])
                            == ps@[j + k + 1]);
                }
                lemma_sums_nonneg(ps@.skip(k + 1));
                lemma_sum_lfc_nonneg(ps@.skip(k + 1));
                assert(sum_len(ps@.take(k as int)) + p.len_int() <= sum_len(ps@));
                assert(sum_lfc(ps@.take(k as int)) + p.line_feed_count <= sum_lfc(ps@));
                assert(pieces_pos(t.pieces())) by {
                    assert(forall|j: int|
                        0 <= j < t.pieces().len() ==> (#[trigger] t.pieces()[j]) == ps@[j]);
                }
                assert(t.pieces().take(t.pieces().len() as int) =~= t.pieces());
                assert(prefix_len(t.pieces(), t.pieces().len() as int) == total);
                assert(at_boundary(t.pieces(), total as int));
            }
            t.insert_piece(total, p);
            proof {
                let ops = ps@.take(k as int);
                let wi = choose|i: int|
                    0 <= i <= ops.len() && prefix_len(ops, i) == total as int && t.pieces()
                        == ops.take(i) + seq![p] + ops.skip(i);
                assert(ops.take(ops.len() as int) =~= ops);
                lemma_prefix_len_unique(ops, wi, ops.len() as int);
                assert(ops.skip(ops.len() as int) =~= Seq::<Piece>::empty());
                assert(t.pieces() =~= ps@.take(k + 1));
                lemma_prefix_len_step(ps@, k as int);
            }
            total = total + p.len();
            k = k + 1;
        }
        proof {
            assert(ps@.take(ps@.len() as int) =~= ps@);
        }
        t
    }
}

/// Sums over a strict prefix stay within the sums over the whole.
pub proof fn lemma_take_sums(ps: Seq<Piece>, k: int)
    requires
        0 <= k < ps.len(),
    ensures
        sum_len(ps.take(k)) + ps[k].len_int() + sum_len(ps.skip(k + 1)) == sum_len(ps),
        sum_lfc(ps.take(k)) + ps[k].line_feed_count + sum_lfc(ps.skip(k + 1)) == sum_lfc(ps),
{
    assert(ps =~= ps.take(k) + seq![ps[k]] + ps.skip(k + 1));
    lemma_sum_three(ps.take(k), ps[k], ps.skip(k + 1));
}


/// The augmented-metadata invariant: in a well-formed tree, every node's
/// stored left-subtree length and left-subtree terminator count equal
/// the actual sums over its left subtree.
pub proof fn lemma_metadata_invariant(t: PieceTree)
    requires
        t.wf(),
    ensures
        meta_ok_opt(t.root),
{
}

/// The red-black invariant: in a well-formed tree, the root is black, no
/// red node has a red child, and every node's children have equal black
/// height.
pub proof fn lemma_red_black_invariant(t: PieceTree)
    requires
        t.wf(),
    ensures
        is_black(t.root),
        red_ok_opt(t.root),
        bh_ok_opt(t.root),
{
}


/// A piece whose span contains `off` is the piece `index_at` names.
pub proof fn lemma_index_at_unique(ps: Seq<Piece>, off: int, i: int)
    requires
        pieces_pos(ps),
        0 <= i < ps.len(),
        prefix_len(ps, i) <= off < prefix_len(ps, i) + ps[i].len_int(),
    ensures
        index_at(ps, off) == i,
        0 <= off < sum_len(ps),
{
    assert(ps.take(ps.len() as int) =~= ps);
    lemma_prefix_len_mono(ps, 0, i);
    assert(ps.take(0) =~= Seq::<Piece>::empty());
    assert(sum_len(Seq::<Piece>::empty()) == 0);
    lemma_prefix_len_step(ps, i);
    lemma_prefix_len_mono(ps, i + 1, ps.len() as int);
    lemma_index_at(ps, off);
    let j = index_at(ps, off);
    if j < i {
        lemma_prefix_len_step(ps, j);
        lemma_prefix_len_mono(ps, j + 1, i);
        assert(false);
    }
    if i < j {
        lemma_prefix_len_step(ps, i);
        lemma_prefix_len_mono(ps, i + 1, j);
        assert(false);
    }
}

} // verus!
