//! The mathematical model of document text.
//!
//! A document is a `Seq<char>`. A *line terminator* is a `"\r\n"` pair, a
//! lone `'\r'`, or a `'\n'`; a `"\r\n"` pair counts as a single terminator.
//! `line_breaks` counts terminators, and the splice functions describe how
//! an edit rewrites the text.

use vstd::prelude::*;

verus! {

/// Number of line terminators in `s`, where `"\r\n"` counts once.
pub open spec fn line_breaks(s: Seq<char>) -> nat
    decreases s.len(),
{
    if s.len() == 0 {
        0
    } else if s[0] == '\r' {
        if s.len() >= 2 && s[1] == '\n' {
            1 + line_breaks(s.skip(2))
        } else {
            1 + line_breaks(s.skip(1))
        }
    } else if s[0] == '\n' {
        1 + line_breaks(s.skip(1))
    } else {
        line_breaks(s.skip(1))
    }
}

/// The text after inserting `v` at position `off` of `s`.
pub open spec fn splice_in(s: Seq<char>, off: int, v: Seq<char>) -> Seq<char> {
    s.take(off) + v + s.skip(off)
}

/// The text after deleting `n` characters at position `off` of `s`.
pub open spec fn splice_out(s: Seq<char>, off: int, n: int) -> Seq<char> {
    s.take(off) + s.skip(off + n)
}

/// True when gluing `a` to `b` would join a `'\r'` at the end of `a` with a
/// `'\n'` at the start of `b` into one `"\r\n"` terminator.
pub open spec fn joins_crlf(a: Seq<char>, b: Seq<char>) -> bool {
    a.len() > 0 && b.len() > 0 && a.last() == '\r' && b[0] == '\n'
}

/// Terminator counting distributes over concatenation as long as the seam
/// does not glue a `'\r'` to a `'\n'`.
pub proof fn lemma_line_breaks_concat(a: Seq<char>, b: Seq<char>)
    requires
        !joins_crlf(a, b),
    ensures
        line_breaks(a + b) == line_breaks(a) + line_breaks(b),
    decreases a.len(),
{
    if a.len() == 0 {
        assert(a + b =~= b);
    } else if a.len() == 1 {
        let s = a + b;
        assert(s[0] == a[0]);
        assert(s.skip(1) =~= b);
        assert(a.skip(1) =~= Seq::<char>::empty());
        assert(line_breaks(Seq::<char>::empty()) == 0);
        if a[0] == '\r' {
            // The next character of the whole, if any, is b[0], which by the
            // precondition is not '\n'.
            if s.len() >= 2 {
                assert(s[1] == b[0]);
                assert(b[0] != '\n');
            }
            assert(line_breaks(a) == 1);
            assert(line_breaks(s) == 1 + line_breaks(b));
        } else if a[0] == '\n' {
            assert(line_breaks(a) == 1);
            assert(line_breaks(s) == 1 + line_breaks(b));
        } else {
            assert(line_breaks(a) == line_breaks(Seq::<char>::empty()));
            assert(line_breaks(s) == line_breaks(b));
        }
    } else {
        let s = a + b;
        assert(s[0] == a[0]);
        assert(s[1] == a[1]);
        if a[0] == '\r' && a[1] == '\n' {
            assert(s.skip(2) =~= a.skip(2) + b);
            if a.skip(2).len() > 0 {
                assert(a.skip(2).last() == a.last());
            }
            lemma_line_breaks_concat(a.skip(2), b);
            assert(line_breaks(a) == 1 + line_breaks(a.skip(2)));
            assert(line_breaks(s) == 1 + line_breaks(a.skip(2) + b));
        } else {
            assert(s.skip(1) =~= a.skip(1) + b);
            assert(a.skip(1).last() == a.last());
            lemma_line_breaks_concat(a.skip(1), b);
            if a[0] == '\r' {
                assert(line_breaks(a) == 1 + line_breaks(a.skip(1)));
                assert(line_breaks(s) == 1 + line_breaks(a.skip(1) + b));
            } else if a[0] == '\n' {
                assert(line_breaks(a) == 1 + line_breaks(a.skip(1)));
                assert(line_breaks(s) == 1 + line_breaks(a.skip(1) + b));
            } else {
                assert(line_breaks(a) == line_breaks(a.skip(1)));
                assert(line_breaks(s) == line_breaks(a.skip(1) + b));
            }
        }
    }
}

/// A text has no more terminators than characters.
pub proof fn lemma_line_breaks_le_len(s: Seq<char>)
    ensures
        line_breaks(s) <= s.len(),
    decreases s.len(),
{
    if s.len() == 0 {
    } else if s[0] == '\r' && s.len() >= 2 && s[1] == '\n' {
        lemma_line_breaks_le_len(s.skip(2));
    } else {
        lemma_line_breaks_le_len(s.skip(1));
    }
}

/// Unfolds one step of `line_breaks` on the window `[i, b)` of `s`: the
/// window's count is the count of the rest of the window, plus one if a
/// terminator starts at `i` (advancing two positions over a `"\r\n"` pair).
pub proof fn lemma_line_breaks_window_step(s: Seq<char>, i: int, b: int)
    requires
        0 <= i < b <= s.len(),
    ensures
        (s[i] == '\r' && i + 1 < b && s[i + 1] == '\n') ==> line_breaks(s.subrange(i, b))
            == 1 + line_breaks(s.subrange(i + 2, b)),
        (s[i] == '\r' && !(i + 1 < b && s[i + 1] == '\n')) ==> line_breaks(s.subrange(i, b))
            == 1 + line_breaks(s.subrange(i + 1, b)),
        (s[i] == '\n') ==> line_breaks(s.subrange(i, b)) == 1 + line_breaks(
            s.subrange(i + 1, b),
        ),
        (s[i] != '\r' && s[i] != '\n') ==> line_breaks(s.subrange(i, b)) == line_breaks(
            s.subrange(i + 1, b),
        ),
{
    let w = s.subrange(i, b);
    assert(w[0] == s[i]);
    if w.len() >= 2 {
        assert(w[1] == s[i + 1]);
    }
    if s[i] == '\r' && i + 1 < b && s[i + 1] == '\n' {
        assert(w.skip(2) =~= s.subrange(i + 2, b));
    } else {
        assert(w.skip(1) =~= s.subrange(i + 1, b));
    }
}

/// Inserting the empty text anywhere leaves the text unchanged.
pub proof fn lemma_splice_in_empty(s: Seq<char>, off: int)
    requires
        0 <= off <= s.len(),
    ensures
        splice_in(s, off, Seq::<char>::empty()) == s,
{
    assert(splice_in(s, off, Seq::<char>::empty()) =~= s);
}

/// Inserting `v` at `off` and then deleting `v.len()` characters at `off`
/// restores the original text.
pub proof fn lemma_splice_in_then_out(s: Seq<char>, off: int, v: Seq<char>)
    requires
        0 <= off <= s.len(),
    ensures
        splice_out(splice_in(s, off, v), off, v.len() as int) == s,
{
    assert(splice_out(splice_in(s, off, v), off, v.len() as int) =~= s);
}

/// Inserting a `"\r\n"` pair at a position that does not split an existing
/// `"\r\n"` terminator adds exactly one terminator, whatever surrounds it.
pub proof fn lemma_line_breaks_insert_crlf(s: Seq<char>, off: int)
    requires
        0 <= off <= s.len(),
        !(off > 0 && off < s.len() && s[off - 1] == '\r' && s[off] == '\n'),
    ensures
        line_breaks(splice_in(s, off, seq!['\r', '\n'])) == line_breaks(s) + 1,
{
    let a = s.take(off);
    let b = s.skip(off);
    let pair = seq!['\r', '\n'];
    // The inserted pair itself holds one terminator, followed by b.
    assert((pair + b)[0] == '\r');
    assert((pair + b)[1] == '\n');
    assert((pair + b).skip(2) =~= b);
    // The seam between a and the pair never glues '\r' to '\n'.
    assert((pair + b).len() > 0 && (pair + b)[0] == '\r');
    lemma_line_breaks_concat(a, pair + b);
    assert(a + (pair + b) =~= splice_in(s, off, pair));
    // And the original text splits cleanly at off by the precondition.
    if joins_crlf(a, b) {
        assert(s[off - 1] == '\r' && s[off] == '\n');
    }
    lemma_line_breaks_concat(a, b);
    assert(a + b =~= s);
}


/// Offsets just past each line terminator of `s`, scanning from `i`: the
/// line-start table of a buffer, apart from the leading zero entry.
pub open spec fn line_start_offsets(s: Seq<char>, i: int) -> Seq<int>
    decreases s.len() - i,
    when 0 <= i <= s.len()
{
    if i >= s.len() {
        Seq::empty()
    } else if s[i] == '\r' && i + 1 < s.len() && s[i + 1] == '\n' {
        seq![i + 2] + line_start_offsets(s, i + 2)
    } else if s[i] == '\r' || s[i] == '\n' {
        seq![i + 1] + line_start_offsets(s, i + 1)
    } else {
        line_start_offsets(s, i + 1)
    }
}

/// The full line-start table: offset `0`, then the offset just past each
/// terminator, in increasing order.
pub open spec fn spec_line_starts(s: Seq<char>) -> Seq<int> {
    seq![0] + line_start_offsets(s, 0)
}

/// Line-start offsets are strictly increasing and lie in `(i, len]`.
pub proof fn lemma_line_start_offsets_bounds(s: Seq<char>, i: int)
    requires
        0 <= i <= s.len(),
    ensures
        forall|k: int|
            0 <= k < line_start_offsets(s, i).len() ==> i < #[trigger] line_start_offsets(
                s,
                i,
            )[k] <= s.len(),
        forall|k: int, m: int|
            0 <= k < m < line_start_offsets(s, i).len() ==> #[trigger] line_start_offsets(
                s,
                i,
            )[k] < #[trigger] line_start_offsets(s, i)[m],
    decreases s.len() - i,
{
    let o = line_start_offsets(s, i);
    if i >= s.len() {
    } else if s[i] == '\r' && i + 1 < s.len() && s[i + 1] == '\n' {
        lemma_line_start_offsets_bounds(s, i + 2);
        let rest = line_start_offsets(s, i + 2);
        assert(o[0] == i + 2);
        assert(forall|k: int| 1 <= k < o.len() ==> o[k] == rest[k - 1]);
    } else if s[i] == '\r' || s[i] == '\n' {
        lemma_line_start_offsets_bounds(s, i + 1);
        let rest = line_start_offsets(s, i + 1);
        assert(o[0] == i + 1);
        assert(forall|k: int| 1 <= k < o.len() ==> o[k] == rest[k - 1]);
    } else {
        lemma_line_start_offsets_bounds(s, i + 1);
    }
}


/// The boundary repairs of an insertion do not change the final text.
/// Deleting the `'\n'` to the right of the insertion point and
/// re-appending it to the inserted text, and likewise re-attaching a
/// `'\r'` from the left, splices in exactly the caller's text.
pub proof fn lemma_repair_splice(c0: Seq<char>, off0: int, v: Seq<char>, rl: bool, rr: bool)
    requires
        0 <= off0 <= c0.len(),
        rr ==> off0 < c0.len() && c0[off0] == '\n',
        rl ==> off0 >= 1 && (if rr {
            splice_out(c0, off0, 1)
        } else {
            c0
        })[off0 - 1] == '\r',
    ensures
        ({
            let c1 = if rr {
                splice_out(c0, off0, 1)
            } else {
                c0
            };
            let off1 = if rl {
                off0 - 1
            } else {
                off0
            };
            let c2 = if rl {
                splice_out(c1, off1, 1)
            } else {
                c1
            };
            let t = (if rl {
                seq!['\r']
            } else {
                Seq::<char>::empty()
            }) + v + (if rr {
                seq!['\n']
            } else {
                Seq::<char>::empty()
            });
            splice_in(c2, off1, t) == splice_in(c0, off0, v)
        }),
{
    let c1 = if rr {
        splice_out(c0, off0, 1)
    } else {
        c0
    };
    let off1 = if rl {
        off0 - 1
    } else {
        off0
    };
    let c2 = if rl {
        splice_out(c1, off1, 1)
    } else {
        c1
    };
    let pre = if rl {
        seq!['\r']
    } else {
        Seq::<char>::empty()
    };
    let post = if rr {
        seq!['\n']
    } else {
        Seq::<char>::empty()
    };
    let t = pre + v + post;
    if rr {
        assert(c1.len() == c0.len() - 1);
    }
    if rl {
        assert(c2.take(off1) =~= c1.take(off1));
        assert(c2.skip(off1) =~= c1.skip(off0));
        assert(c1[off0 - 1] == '\r');
        assert(c1.take(off1) + seq!['\r'] =~= c1.take(off0));
    }
    // Both ways, the left side reassembles to the insertion into c1 at
    // off0.
    assert(splice_in(c2, off1, t) =~= c1.take(off0) + v + post + c1.skip(off0));
    if rr {
        assert(c1.take(off0) =~= c0.take(off0));
        assert(c1.skip(off0) =~= c0.skip(off0 + 1));
        assert(c0[off0] == '\n');
        assert(seq!['\n'] + c0.skip(off0 + 1) =~= c0.skip(off0));
        assert(c1.take(off0) + v + post + c1.skip(off0) =~= splice_in(c0, off0, v));
    } else {
        assert(c1.take(off0) + v + post + c1.skip(off0) =~= splice_in(c0, off0, v));
    }
}


/// Position of the first terminator character at or after `i`, or the
/// end of the text.
pub open spec fn line_end_from(s: Seq<char>, i: int) -> int
    decreases s.len() - i,
    when 0 <= i <= s.len()
{
    if i >= s.len() {
        i
    } else if s[i] == '\n' || s[i] == '\r' {
        i
    } else {
        line_end_from(s, i + 1)
    }
}

/// Position where line `k` starts: line 0 starts at the front, and each
/// following line starts just past the previous line's terminator. Past
/// the last line the position saturates at the end.
pub open spec fn line_start_pos(s: Seq<char>, k: int) -> int
    decreases k,
    when k >= 0
{
    if k <= 0 {
        0
    } else {
        let e = line_end_from(s, line_start_pos(s, k - 1));
        if e >= s.len() {
            s.len() as int
        } else if s[e] == '\r' && e + 1 < s.len() && s[e + 1] == '\n' {
            e + 2
        } else {
            e + 1
        }
    }
}

/// The content of line `k`: the characters from its start up to its
/// terminator (or the end), the terminator excluded.
pub open spec fn spec_line(s: Seq<char>, k: int) -> Seq<char> {
    s.subrange(line_start_pos(s, k), line_end_from(s, line_start_pos(s, k)))
}

/// Line ends lie between their scan start and the end of the text.
pub proof fn lemma_line_end_from_bounds(s: Seq<char>, i: int)
    requires
        0 <= i <= s.len(),
    ensures
        i <= line_end_from(s, i) <= s.len(),
    decreases s.len() - i,
{
    if i < s.len() && s[i] != '\n' && s[i] != '\r' {
        lemma_line_end_from_bounds(s, i + 1);
    }
}

/// Line starts lie within the text.
pub proof fn lemma_line_start_pos_bounds(s: Seq<char>, k: int)
    requires
        k >= 0,
    ensures
        0 <= line_start_pos(s, k) <= s.len(),
    decreases k,
{
    if k > 0 {
        lemma_line_start_pos_bounds(s, k - 1);
        lemma_line_end_from_bounds(s, line_start_pos(s, k - 1));
    }
}


/// Inserting a `'\r'` at `off` and then a `'\n'` directly after it
/// writes one `"\r\n"` pair, and, as long as `off` does not split an
/// existing `"\r\n"` terminator, the text gains exactly one
/// terminator. (Splitting an existing pair instead turns one terminator
/// into three: the two inserted characters join into a pair between the
/// now-lone halves.)
pub proof fn lemma_crlf_insertion_law(s: Seq<char>, off: int)
    requires
        0 <= off <= s.len(),
        !(off > 0 && off < s.len() && s[off - 1] == '\r' && s[off] == '\n'),
    ensures
        splice_in(splice_in(s, off, seq!['\r']), off + 1, seq!['\n']) == splice_in(
            s,
            off,
            seq!['\r', '\n'],
        ),
        line_breaks(splice_in(splice_in(s, off, seq!['\r']), off + 1, seq!['\n']))
            == line_breaks(s) + 1,
{
    let one = splice_in(s, off, seq!['\r']);
    assert(splice_in(one, off + 1, seq!['\n']) =~= splice_in(s, off, seq!['\r', '\n']));
    lemma_line_breaks_insert_crlf(s, off);
}

} // verus!
