//! Edit helpers over piece lists: reading characters out of a piece,
//! recounting terminators, trimming a deleted range away, and the
//! boundary repair that keeps every `"\r\n"` inside a single piece.

use vstd::pervasive::unreached;
use vstd::prelude::*;
use vstd::string::StrSliceExecFns;

use crate::buffer::{count_line_feeds, Buffer};
use crate::piece::{
    all_lfc_ok, all_valid, lemma_pieces_content_len, pieces_content, pieces_pos, seams_ok, sum_len,
    NodeType, Piece,
};
use crate::textspec::line_breaks;

verus! {

/// The text of an optional buffer: empty when absent.
pub open spec fn opt_text(b: Option<Buffer>) -> Seq<char> {
    match b {
        Some(bf) => bf.value@,
        None => Seq::<char>::empty(),
    }
}

/// The optional buffer keeps a correct line-start table.
pub open spec fn opt_wf(b: Option<Buffer>) -> bool {
    match b {
        Some(bf) => bf.wf(),
        None => true,
    }
}

/// Reads character `rel` of a piece's content out of the buffer the
/// piece views.
pub fn piece_char(orig: &Buffer, changed: &Option<Buffer>, p: Piece, rel: usize) -> (c: char)
    requires
        p.valid(orig.value@.len() as int, opt_text(*changed).len() as int),
        rel < p.len_int(),
    ensures
        c == p.content(orig.value@, opt_text(*changed))[rel as int],
{
    match p.kind {
        NodeType::Original => orig.value.as_str().get_char(p.start + rel),
        NodeType::Changed => match changed {
            Some(b) => b.value.as_str().get_char(p.start + rel),
            None => {
                proof {
                    assert(false);
                }
                unreached()
            },
        },
    }
}

/// Counts the terminators of the characters `[a, b)` of the buffer that
/// `kind` names.
pub fn count_range_lfc(orig: &Buffer, changed: &Option<Buffer>, kind: NodeType, a: usize, b: usize) -> (r: usize)
    requires
        a <= b,
        match kind {
            NodeType::Original => b <= orig.value@.len(),
            NodeType::Changed => b <= opt_text(*changed).len(),
        },
    ensures
        r == line_breaks(
            (match kind {
                NodeType::Original => orig.value@,
                NodeType::Changed => opt_text(*changed),
            }).subrange(a as int, b as int),
        ),
{
    match kind {
        NodeType::Original => count_line_feeds(orig.value.as_str(), a, b),
        NodeType::Changed => match changed {
            Some(bf) => count_line_feeds(bf.value.as_str(), a, b),
            None => {
                proof {
                    assert(opt_text(*changed) =~= Seq::<char>::empty());
                }
                count_line_feeds("", a, b)
            },
        },
    }
}

/// Builds a piece over `[a, b)` of the named buffer, with a freshly
/// counted terminator total, so that it is valid and correctly counted.
pub fn mk_piece(orig: &Buffer, changed: &Option<Buffer>, kind: NodeType, a: usize, b: usize) -> (p: Piece)
    requires
        a < b,
        match kind {
            NodeType::Original => b <= orig.value@.len(),
            NodeType::Changed => b <= opt_text(*changed).len(),
        },
    ensures
        p.kind == kind,
        p.start == a,
        p.end == b,
        p.valid(orig.value@.len() as int, opt_text(*changed).len() as int),
        p.lfc_ok(orig.value@, opt_text(*changed)),
        p.content(orig.value@, opt_text(*changed)) == (match kind {
            NodeType::Original => orig.value@,
            NodeType::Changed => opt_text(*changed),
        }).subrange(a as int, b as int),
{
    let lfc = count_range_lfc(orig, changed, kind, a, b);
    Piece { kind, start: a, end: b, line_feed_count: lfc }
}


/// A single piece valid for a shorter changed text keeps its content,
/// validity, and count when that text grows at the end.
pub proof fn lemma_piece_stable(p: Piece, o: Seq<char>, cg0: Seq<char>, cg1: Seq<char>)
    requires
        p.valid(o.len() as int, cg0.len() as int),
        cg0.is_prefix_of(cg1),
    ensures
        p.valid(o.len() as int, cg1.len() as int),
        p.content(o, cg1) == p.content(o, cg0),
        p.lfc_ok(o, cg0) ==> p.lfc_ok(o, cg1),
{
    if p.kind == NodeType::Changed {
        assert(cg1.subrange(p.start as int, p.end as int) =~= cg0.subrange(
            p.start as int,
            p.end as int,
        ));
    }
}

/// Appending one piece appends its content.
pub proof fn lemma_content_push(v: Seq<Piece>, o: Seq<char>, c: Seq<char>, p: Piece)
    ensures
        pieces_content(v.push(p), o, c) == pieces_content(v, o, c) + p.content(o, c),
{
    assert(v.push(p) =~= v + seq![p]);
    crate::piece::lemma_pieces_content_concat(v, seq![p], o, c);
    let single = seq![p];
    assert(single.drop_first() =~= Seq::<Piece>::empty());
    assert(single[0] == p);
    assert(pieces_content(single.drop_first(), o, c) == Seq::<char>::empty());
    assert(pieces_content(single, o, c) =~= p.content(o, c));
}

/// Appending a piece whose seam with the current last piece is whole
/// keeps all seams whole.
pub proof fn lemma_seams_push(v: Seq<Piece>, o: Seq<char>, c: Seq<char>, p: Piece)
    requires
        seams_ok(v, o, c),
        v.len() > 0 ==> !crate::textspec::joins_crlf(
            v.last().content(o, c),
            p.content(o, c),
        ),
    ensures
        seams_ok(v.push(p), o, c),
{
    let w = v.push(p);
    assert forall|i: int|
        0 <= i < w.len() - 1 implies !crate::textspec::joins_crlf(
        (#[trigger] w[i]).content(o, c),
        w[i + 1].content(o, c),
    ) by {
        if i < v.len() - 1 {
            assert(w[i] == v[i]);
            assert(w[i + 1] == v[i + 1]);
        } else {
            assert(w[i] == v.last());
            assert(w[i + 1] == p);
        }
    }
}

/// Dropping the last piece keeps all remaining seams whole.
pub proof fn lemma_seams_pop(v: Seq<Piece>, o: Seq<char>, c: Seq<char>)
    requires
        seams_ok(v, o, c),
        v.len() > 0,
    ensures
        seams_ok(v.subrange(0, v.len() - 1), o, c),
{
    let w = v.subrange(0, v.len() - 1);
    assert forall|i: int|
        0 <= i < w.len() - 1 implies !crate::textspec::joins_crlf(
        (#[trigger] w[i]).content(o, c),
        w[i + 1].content(o, c),
    ) by {
        assert(w[i] == v[i]);
        assert(w[i + 1] == v[i + 1]);
    }
}

/// Pushing one good piece keeps the element-wise piece facts.
pub proof fn lemma_all_push(v: Seq<Piece>, p: Piece, o: Seq<char>, c: Seq<char>)
    requires
        all_valid(v, o.len() as int, c.len() as int),
        all_lfc_ok(v, o, c),
        pieces_pos(v),
        p.valid(o.len() as int, c.len() as int),
        p.lfc_ok(o, c),
    ensures
        all_valid(v.push(p), o.len() as int, c.len() as int),
        all_lfc_ok(v.push(p), o, c),
        pieces_pos(v.push(p)),
{
    let w = v.push(p);
    assert(forall|i: int| 0 <= i < v.len() ==> w[i] == v[i]);
    assert(w[v.len() as int] == p);
    assert forall|i: int| 0 <= i < w.len() implies (#[trigger] w[i]).valid(
        o.len() as int,
        c.len() as int,
    ) && w[i].lfc_ok(o, c) && w[i].start < w[i].end by {
        if i < v.len() {
            assert(w[i] == v[i]);
            assert(v[i].valid(o.len() as int, c.len() as int));
            assert(v[i].lfc_ok(o, c));
            assert(v[i].start < v[i].end);
        }
    }
}

/// The seq algebra of one seam repair: trimming the carriage return off
/// the left text and the line feed off the right text and writing the
/// pair between them reassembles exactly the two original texts.
proof fn lemma_repair_algebra(base: Seq<char>, lc: Seq<char>, qc: Seq<char>)
    requires
        lc.len() >= 1,
        qc.len() >= 1,
        lc.last() == '\r',
        qc[0] == '\n',
    ensures
        base + lc.take(lc.len() - 1) + seq!['\r', '\n'] + qc.skip(1) == base + lc + qc,
        lc.len() == 1 ==> base + seq!['\r', '\n'] + qc.skip(1) == base + lc + qc,
        qc.len() > 1 ==> base + lc.take(lc.len() - 1) + seq!['\r', '\n'] + qc.skip(1) == base
            + lc + qc,
        lc.len() == 1 && qc.len() == 1 ==> base + seq!['\r', '\n'] == base + lc + qc,
        qc.len() == 1 ==> base + lc.take(lc.len() - 1) + seq!['\r', '\n'] == base + lc + qc,
{
    assert(lc =~= lc.take(lc.len() - 1) + seq!['\r']);
    assert(qc =~= seq!['\n'] + qc.skip(1));
    assert(base + lc.take(lc.len() - 1) + seq!['\r', '\n'] + qc.skip(1) =~= base + lc + qc);
    if lc.len() == 1 {
        assert(lc.take(lc.len() - 1) =~= Seq::<char>::empty());
        assert(base + seq!['\r', '\n'] + qc.skip(1) =~= base + lc + qc);
    }
    if qc.len() == 1 {
        assert(qc.skip(1) =~= Seq::<char>::empty());
        assert(base + lc.take(lc.len() - 1) + seq!['\r', '\n'] =~= base + lc + qc);
        if lc.len() == 1 {
            assert(base + seq!['\r', '\n'] =~= base + lc + qc);
        }
    }
}

/// Appends one CR-LF pair to the changed buffer, creating it first when
/// absent, and reports where the pair begins.
fn append_pair(changed: &mut Option<Buffer>) -> (cg_mid: usize)
    requires
        opt_wf(*old(changed)),
        opt_text(*old(changed)).len() + 2 <= usize::MAX,
    ensures
        opt_wf(*final(changed)),
        cg_mid == opt_text(*old(changed)).len(),
        opt_text(*final(changed)) == opt_text(*old(changed)) + seq!['\r', '\n'],
        opt_text(*old(changed)).is_prefix_of(opt_text(*final(changed))),
{
    let ghost cg_cur = opt_text(*old(changed));
    let mut b = match changed.take() {
        Some(b) => b,
        None => Buffer::from_text(String::new()),
    };
    let cg_mid = b.value.unicode_len();
    proof {
        reveal_strlit("\r\n");
        assert(b.value@ == cg_cur);
        assert("\r\n"@ =~= seq!['\r', '\n']);
    }
    b.value.append("\r\n");
    let new_starts = Buffer::get_line_starts(b.value.as_str());
    b.line_starts = new_starts;
    *changed = Some(b);
    proof {
        let cg_new = opt_text(*changed);
        assert(cg_new == cg_cur + seq!['\r', '\n']);
        assert(cg_cur.is_prefix_of(cg_new)) by {
            assert(cg_new.take(cg_cur.len() as int) =~= cg_cur);
        }
    }
    cg_mid
}

/// The fresh two-character piece over an appended CR-LF pair is valid,
/// counts one terminator, and reads back exactly the pair.
proof fn lemma_pair_piece(pair: Piece, o: Seq<char>, cg_new: Seq<char>)
    requires
        pair.kind == NodeType::Changed,
        pair.end == pair.start + 2,
        pair.line_feed_count == 1,
        pair.end <= cg_new.len(),
        cg_new[pair.start as int] == '\r',
        cg_new[pair.start as int + 1] == '\n',
    ensures
        pair.valid(o.len() as int, cg_new.len() as int),
        pair.lfc_ok(o, cg_new),
        pair.content(o, cg_new) == seq!['\r', '\n'],
        pair.content(o, cg_new)[0] == '\r',
        pair.content(o, cg_new).last() == '\n',
{
    let pc = pair.content(o, cg_new);
    assert(pc =~= seq!['\r', '\n']);
    assert(pc.skip(2) =~= Seq::<char>::empty());
    assert(line_breaks(Seq::<char>::empty()) == 0);
    assert(pc[0] == '\r' && pc.len() >= 2 && pc[1] == '\n');
    assert(line_breaks(pc) == 1 + line_breaks(pc.skip(2)));
}

/// Repairs one broken seam: the last piece of `out` ends with a carriage
/// return and `q0` begins with a line feed. The two characters are cut
/// off their pieces and rewritten as one fresh piece appended to the
/// changed buffer; the concatenated text, with `q0` included, is
/// unchanged.
#[verifier::rlimit(100)]
fn repair_one(orig: &Buffer, changed: &mut Option<Buffer>, out: &mut Vec<Piece>, q0: Piece)
    requires
        orig.wf(),
        opt_wf(*old(changed)),
        old(out)@.len() > 0,
        all_valid(old(out)@, orig.value@.len() as int, opt_text(*old(changed)).len() as int),
        all_lfc_ok(old(out)@, orig.value@, opt_text(*old(changed))),
        pieces_pos(old(out)@),
        seams_ok(old(out)@, orig.value@, opt_text(*old(changed))),
        q0.valid(orig.value@.len() as int, opt_text(*old(changed)).len() as int),
        q0.lfc_ok(orig.value@, opt_text(*old(changed))),
        old(out)@.last().content(orig.value@, opt_text(*old(changed))).last() == '\r',
        q0.content(orig.value@, opt_text(*old(changed)))[0] == '\n',
        opt_text(*old(changed)).len() + 2 <= usize::MAX,
    ensures
        opt_wf(*final(changed)),
        opt_text(*old(changed)).is_prefix_of(opt_text(*final(changed))),
        opt_text(*final(changed)).len() == opt_text(*old(changed)).len() + 2,
        all_valid(final(out)@, orig.value@.len() as int, opt_text(*final(changed)).len() as int),
        all_lfc_ok(final(out)@, orig.value@, opt_text(*final(changed))),
        pieces_pos(final(out)@),
        seams_ok(final(out)@, orig.value@, opt_text(*final(changed))),
        pieces_content(final(out)@, orig.value@, opt_text(*final(changed))) == pieces_content(
            old(out)@,
            orig.value@,
            opt_text(*old(changed)),
        ) + q0.content(orig.value@, opt_text(*old(changed))),
        final(out)@.len() <= old(out)@.len() + 2,
{
    let ghost o = orig.value@;
    let ghost cg_cur = opt_text(*old(changed));
    let ghost out_before = out@;
    let l = match out.pop() {
        Some(x) => x,
        None => unreached(),
    };
    let ghost out_pop = out@;
    proof {
        assert(out_before =~= out_pop.push(l));
        lemma_content_push(out_pop, o, cg_cur, l);
        lemma_seams_pop(out_before, o, cg_cur);
        assert(out_pop =~= out_before.subrange(0, out_before.len() - 1));
        assert(forall|i: int| 0 <= i < out_pop.len() ==> out_pop[i] == out_before[i]);
    }
    // Move the pair into the changed buffer.
    let cg_mid = append_pair(changed);
    let ghost cg_new = opt_text(*changed);
    proof {
        assert(cg_new.len() == cg_cur.len() + 2);
        lemma_pieces_stable_all(out_pop, o, cg_cur, cg_new);
        lemma_piece_stable(l, o, cg_cur, cg_new);
        lemma_piece_stable(q0, o, cg_cur, cg_new);
        assert(cg_new[cg_cur.len() as int] == '\r');
        assert(cg_new[cg_cur.len() as int + 1] == '\n');
    }
    let pair = Piece::new(NodeType::Changed, cg_mid, cg_mid + 2, 1);
    proof {
        lemma_pair_piece(pair, o, cg_new);
    }
    let ghost lc_seq = l.content(o, cg_new);
    let ghost qc_seq = q0.content(o, cg_new);
    if l.end - l.start > 1 {
        let l2 = mk_piece(orig, changed, l.kind, l.start, l.end - 1);
        proof {
            assert(l2.content(o, cg_new) =~= lc_seq.take(lc_seq.len() - 1));
            if out_pop.len() > 0 {
                assert(l2.content(o, cg_new)[0] == lc_seq[0]);
            }
            lemma_seams_push(out_pop, o, cg_new, l2);
            lemma_content_push(out_pop, o, cg_new, l2);
            lemma_all_push(out_pop, l2, o, cg_new);
        }
        out.push(l2);
    }
    let ghost before_pair = out@;
    proof {
        lemma_seams_push(before_pair, o, cg_new, pair);
        lemma_content_push(before_pair, o, cg_new, pair);
        lemma_all_push(before_pair, pair, o, cg_new);
    }
    out.push(pair);
    if q0.end - q0.start > 1 {
        let q2 = mk_piece(orig, changed, q0.kind, q0.start + 1, q0.end);
        let ghost before_q2 = out@;
        proof {
            assert(q2.content(o, cg_new) =~= qc_seq.skip(1));
            assert(before_q2.last() == pair);
            assert(pair.content(o, cg_new).last() == '\n');
            lemma_seams_push(before_q2, o, cg_new, q2);
            lemma_content_push(before_q2, o, cg_new, q2);
            lemma_all_push(before_q2, q2, o, cg_new);
        }
        out.push(q2);
    }
    proof {
        // The document text is unchanged: the dropped characters
        // reappear as the fresh pair.
        let base = pieces_content(out_pop, o, cg_new);
        assert(lc_seq.last() == '\r');
        assert(qc_seq[0] == '\n');
        lemma_repair_algebra(base, lc_seq, qc_seq);
        assert(pieces_content(out@, o, cg_new) == base + lc_seq + qc_seq);
        assert(base == pieces_content(out_pop, o, cg_cur));
        assert(pieces_content(out_before, o, cg_cur) == pieces_content(out_pop, o, cg_cur)
            + l.content(o, cg_cur));
        assert(lc_seq == l.content(o, cg_cur));
        assert(qc_seq == q0.content(o, cg_cur));
        assert(pieces_content(out@, o, cg_new) == pieces_content(out_before, o, cg_cur)
            + q0.content(o, cg_cur));
    }
}

/// Walks a piece list and repairs every seam that would split a CR-LF
/// pair, leaving the concatenated text unchanged while every terminator
/// comes to lie inside a single piece.
#[verifier::rlimit(60)]
pub fn repair_seam_pass(orig: &Buffer, changed: &mut Option<Buffer>, pieces: &Vec<Piece>) -> (out: Vec<Piece>)
    requires
        orig.wf(),
        opt_wf(*old(changed)),
        all_valid(pieces@, orig.value@.len() as int, opt_text(*old(changed)).len() as int),
        all_lfc_ok(pieces@, orig.value@, opt_text(*old(changed))),
        pieces_pos(pieces@),
        opt_text(*old(changed)).len() + 2 * pieces@.len() <= usize::MAX,
    ensures
        opt_wf(*final(changed)),
        opt_text(*old(changed)).is_prefix_of(opt_text(*final(changed))),
        opt_text(*final(changed)).len() <= opt_text(*old(changed)).len() + 2 * pieces@.len(),
        all_valid(out@, orig.value@.len() as int, opt_text(*final(changed)).len() as int),
        all_lfc_ok(out@, orig.value@, opt_text(*final(changed))),
        pieces_pos(out@),
        seams_ok(out@, orig.value@, opt_text(*final(changed))),
        pieces_content(out@, orig.value@, opt_text(*final(changed))) == pieces_content(
            pieces@,
            orig.value@,
            opt_text(*old(changed)),
        ),
        out@.len() <= 2 * pieces@.len(),
{
    let ghost o = orig.value@;
    let ghost cg0 = opt_text(*old(changed));
    let mut out: Vec<Piece> = Vec::new();
    let mut k: usize = 0;
    proof {
        assert(pieces@.take(0) =~= Seq::<Piece>::empty());
    }
    while k < pieces.len()
        invariant
            k <= pieces@.len(),
            orig.wf(),
            o == orig.value@,
            cg0 == opt_text(*old(changed)),
            opt_wf(*changed),
            all_valid(pieces@, o.len() as int, cg0.len() as int),
            all_lfc_ok(pieces@, o, cg0),
            pieces_pos(pieces@),
            cg0.len() + 2 * pieces@.len() <= usize::MAX,
            cg0.is_prefix_of(opt_text(*changed)),
            opt_text(*changed).len() <= cg0.len() + 2 * k,
            all_valid(out@, o.len() as int, opt_text(*changed).len() as int),
            all_lfc_ok(out@, o, opt_text(*changed)),
            pieces_pos(out@),
            seams_ok(out@, o, opt_text(*changed)),
            pieces_content(out@, o, opt_text(*changed)) == pieces_content(
                pieces@.take(k as int),
                o,
                cg0,
            ),
            out@.len() <= 2 * k,
        decreases pieces@.len() - k,
    {
        let q0 = pieces[k];
        let ghost cg_cur = opt_text(*changed);
        proof {
            assert(pieces@[k as int].valid(o.len() as int, cg0.len() as int));
            assert(pieces@[k as int].lfc_ok(o, cg0));
            lemma_piece_stable(q0, o, cg0, cg_cur);
        }
        let mut do_repair = false;
        if out.len() > 0 {
            let l = out[out.len() - 1];
            proof {
                assert(out@[out@.len() - 1].valid(o.len() as int, cg_cur.len() as int));
            }
            let lc = piece_char(orig, changed, l, (l.end - l.start) - 1);
            let qc = piece_char(orig, changed, q0, 0);
            do_repair = lc == '\r' && qc == '\n';
        }
        if do_repair {
            proof {
                let last = out@.last();
                assert(last.content(o, cg_cur).last() == last.content(o, cg_cur)[
                    last.len_int() - 1
                ]);
            }
            repair_one(orig, changed, &mut out, q0);
            proof {
                lemma_pieces_content_snoc_here(pieces@, o, cg0, k as int);
                assert(q0.content(o, cg0) == q0.content(o, cg_cur));
                assert(pieces_content(out@, o, opt_text(*changed)) == pieces_content(
                    pieces@.take(k + 1),
                    o,
                    cg0,
                ));
            }
        } else {
            proof {
                if out@.len() > 0 {
                    assert(out@.last().valid(o.len() as int, cg_cur.len() as int));
                }
                lemma_seams_push(out@, o, cg_cur, q0);
                lemma_content_push(out@, o, cg_cur, q0);
                lemma_pieces_content_snoc_here(pieces@, o, cg0, k as int);
            }
            out.push(q0);
        }
        k = k + 1;
    }
    proof {
        assert(pieces@.take(pieces@.len() as int) =~= pieces@);
    }
    out
}

/// Stability of a whole list of pieces under growth of the changed text.
pub proof fn lemma_pieces_stable_all(ps: Seq<Piece>, o: Seq<char>, cg0: Seq<char>, cg1: Seq<char>)
    requires
        all_valid(ps, o.len() as int, cg0.len() as int),
        cg0.is_prefix_of(cg1),
    ensures
        all_valid(ps, o.len() as int, cg1.len() as int),
        all_lfc_ok(ps, o, cg0) ==> all_lfc_ok(ps, o, cg1),
        seams_ok(ps, o, cg0) ==> seams_ok(ps, o, cg1),
        pieces_content(ps, o, cg1) == pieces_content(ps, o, cg0),
        forall|i: int|
            0 <= i < ps.len() ==> (#[trigger] ps[i]).content(o, cg1) == ps[i].content(o, cg0),
{
    crate::piece::lemma_pieces_stable_under_append(ps, o, cg0, cg1);
}

/// Local restatement of the prefix-extension step for contents.
proof fn lemma_pieces_content_snoc_here(ps: Seq<Piece>, o: Seq<char>, c: Seq<char>, k: int)
    requires
        0 <= k < ps.len(),
    ensures
        pieces_content(ps.take(k + 1), o, c) == pieces_content(ps.take(k), o, c) + ps[k].content(
            o,
            c,
        ),
{
    crate::piece::lemma_pieces_content_snoc(ps, o, c, k);
}


/// The content kept from the first `pos` document positions when the
/// range `[off, dend)` is being deleted.
pub open spec fn trimmed_prefix(c: Seq<char>, off: int, dend: int, pos: int) -> Seq<char> {
    if pos <= off {
        c.take(pos)
    } else if pos <= dend {
        c.take(off)
    } else {
        c.take(off) + c.subrange(dend, pos)
    }
}

/// Removes the document range `[offset, offset + count)` from a piece
/// list: pieces wholly inside the range are dropped and the two pieces
/// at its ends are trimmed. Seams are repaired separately.
#[verifier::rlimit(100)]
pub fn trim_pieces(orig: &Buffer, changed: &Option<Buffer>, pieces: &Vec<Piece>, offset: usize, count: usize) -> (out: Vec<Piece>)
    requires
        all_valid(pieces@, orig.value@.len() as int, opt_text(*changed).len() as int),
        all_lfc_ok(pieces@, orig.value@, opt_text(*changed)),
        pieces_pos(pieces@),
        sum_len(pieces@) <= usize::MAX,
        offset + count <= sum_len(pieces@),
    ensures
        all_valid(out@, orig.value@.len() as int, opt_text(*changed).len() as int),
        all_lfc_ok(out@, orig.value@, opt_text(*changed)),
        pieces_pos(out@),
        pieces_content(out@, orig.value@, opt_text(*changed)) == pieces_content(
            pieces@,
            orig.value@,
            opt_text(*changed),
        ).take(offset as int) + pieces_content(
            pieces@,
            orig.value@,
            opt_text(*changed),
        ).skip(offset as int + count as int),
        out@.len() <= 2 * pieces@.len(),
{
    let ghost o = orig.value@;
    let ghost cg = opt_text(*changed);
    let ghost ps = pieces@;
    let ghost c0 = pieces_content(ps, o, cg);
    let dend = offset + count;
    let mut out: Vec<Piece> = Vec::new();
    let mut pos: usize = 0;
    let mut k: usize = 0;
    proof {
        lemma_pieces_content_len(ps, o, cg);
        assert(ps.take(0) =~= Seq::<Piece>::empty());
        assert(c0.take(0) =~= Seq::<char>::empty());
        assert(pieces_content(out@, o, cg) =~= trimmed_prefix(c0, offset as int, dend as int, 0));
    }
    while k < pieces.len()
        invariant
            k <= ps.len(),
            ps == pieces@,
            o == orig.value@,
            cg == opt_text(*changed),
            c0 == pieces_content(ps, o, cg),
            c0.len() == sum_len(ps),
            all_valid(ps, o.len() as int, cg.len() as int),
            all_lfc_ok(ps, o, cg),
            pieces_pos(ps),
            sum_len(ps) <= usize::MAX,
            dend == offset + count <= sum_len(ps),
            pos == crate::piece::prefix_len(ps, k as int),
            pos <= sum_len(ps),
            all_valid(out@, o.len() as int, cg.len() as int),
            all_lfc_ok(out@, o, cg),
            pieces_pos(out@),
            pieces_content(out@, o, cg) == trimmed_prefix(
                c0,
                offset as int,
                dend as int,
                pos as int,
            ),
            out@.len() <= 2 * k,
        decreases ps.len() - k,
    {
        let p = pieces[k];
        proof {
            assert(ps[k as int].valid(o.len() as int, cg.len() as int));
            assert(ps[k as int].lfc_ok(o, cg));
            crate::piece::lemma_piece_content_slice(ps, o, cg, k as int);
            crate::piece::lemma_prefix_len_step(ps, k as int);
            assert(ps.take(ps.len() as int) =~= ps);
            crate::piece::lemma_prefix_len_mono(ps, k as int + 1, ps.len() as int);
        }
        let plen = p.end - p.start;
        let pos2 = pos + plen;
        let ghost pc = p.content(o, cg);
        proof {
            assert(pc == c0.subrange(pos as int, pos2 as int));
        }
        if pos2 <= offset {
            proof {
                lemma_content_push(out@, o, cg, p);
                lemma_all_push(out@, p, o, cg);
                assert(c0.take(pos2 as int) =~= c0.take(pos as int) + c0.subrange(
                    pos as int,
                    pos2 as int,
                ));
            }
            out.push(p);
        } else if pos >= dend {
            proof {
                lemma_content_push(out@, o, cg, p);
                lemma_all_push(out@, p, o, cg);
                assert(c0.take(offset as int) + c0.subrange(dend as int, pos2 as int)
                    =~= (trimmed_prefix(c0, offset as int, dend as int, pos as int)) + c0.subrange(
                    pos as int,
                    pos2 as int,
                ));
            }
            out.push(p);
        } else {
            // The piece overlaps the deleted range: keep what lies left
            // of it and what lies right of it.
            if pos < offset {
                let lk = offset - pos;
                let lp = mk_piece(orig, changed, p.kind, p.start, p.start + lk);
                proof {
                    assert(lp.content(o, cg) =~= pc.take(lk as int));
                    assert(pc.take(lk as int) =~= c0.subrange(pos as int, offset as int));
                    lemma_content_push(out@, o, cg, lp);
                    lemma_all_push(out@, lp, o, cg);
                    assert(c0.take(offset as int) =~= c0.take(pos as int) + c0.subrange(
                        pos as int,
                        offset as int,
                    ));
                }
                out.push(lp);
            }
            if pos2 > dend {
                let rel = dend - pos;
                let rp = mk_piece(orig, changed, p.kind, p.start + rel, p.end);
                proof {
                    assert(rp.content(o, cg) =~= pc.skip(rel as int));
                    assert(pc.skip(rel as int) =~= c0.subrange(dend as int, pos2 as int));
                    lemma_content_push(out@, o, cg, rp);
                    lemma_all_push(out@, rp, o, cg);
                    assert(pieces_content(out@, o, cg) == c0.take(offset as int));
                    assert(c0.subrange(dend as int, dend as int) =~= Seq::<char>::empty());
                }
                out.push(rp);
            }
            proof {
                if pos2 <= dend {
                    assert(pieces_content(out@, o, cg) =~= c0.take(offset as int));
                }
            }
        }
        pos = pos2;
        k = k + 1;
    }
    proof {
        assert(pos == sum_len(ps)) by {
            assert(ps.take(ps.len() as int) =~= ps);
        }
        assert(trimmed_prefix(c0, offset as int, dend as int, pos as int) == c0.take(
            offset as int,
        ) + c0.subrange(dend as int, c0.len() as int));
        assert(c0.subrange(dend as int, c0.len() as int) =~= c0.skip(dend as int));
    }
    out
}
} // verus!
