//! Document-wide facts recorded at load time: character encoding, the
//! effective end-of-line style, and whether the text is pure ASCII.

use vstd::prelude::*;
use vstd::string::StrSliceExecFns;

use crate::buffer::Buffer;
use crate::textspec::{line_breaks, spec_line_starts};

verus! {

/// The end-of-line style a caller asks for when the document itself does
/// not decide.
#[derive(Clone, Copy, PartialEq, Eq, Structural, Debug)]
pub enum DefaultEOL {
    LF,
    CRLF,
}

/// The effective end-of-line style of a document.
#[derive(Clone, Copy, PartialEq, Eq, Structural, Debug)]
pub enum EOL {
    LF,
    CR,
    CRLF,
}

/// Detected character encoding of the loaded bytes.
#[derive(Clone, Copy, PartialEq, Eq, Structural, Debug)]
pub enum CharacterEncoding {
    Utf8,
    Utf8WithBom,
}

/// Number of `"\r\n"` terminators in `s`.
pub open spec fn crlf_count(s: Seq<char>) -> nat
    decreases s.len(),
{
    if s.len() == 0 {
        0
    } else if s[0] == '\r' && s.len() >= 2 && s[1] == '\n' {
        1 + crlf_count(s.skip(2))
    } else {
        crlf_count(s.skip(1))
    }
}

/// Number of lone `'\r'` terminators in `s`.
pub open spec fn cr_count(s: Seq<char>) -> nat
    decreases s.len(),
{
    if s.len() == 0 {
        0
    } else if s[0] == '\r' && s.len() >= 2 && s[1] == '\n' {
        cr_count(s.skip(2))
    } else if s[0] == '\r' {
        1 + cr_count(s.skip(1))
    } else {
        cr_count(s.skip(1))
    }
}

/// Number of `'\n'` terminators in `s` that are not part of a `"\r\n"`.
pub open spec fn lf_count(s: Seq<char>) -> nat
    decreases s.len(),
{
    if s.len() == 0 {
        0
    } else if s[0] == '\r' && s.len() >= 2 && s[1] == '\n' {
        lf_count(s.skip(2))
    } else if s[0] == '\n' {
        1 + lf_count(s.skip(1))
    } else {
        lf_count(s.skip(1))
    }
}

/// Every character of `s` is ASCII.
pub open spec fn all_ascii(s: Seq<char>) -> bool {
    forall|k: int| 0 <= k < s.len() ==> (s[k] as u32) < 128
}

/// `s` begins with a byte-order mark.
pub open spec fn has_bom(s: Seq<char>) -> bool {
    s.len() > 0 && s[0] == '\u{feff}'
}

/// The effective end-of-line style: the caller's default when the text
/// has no terminator, else CRLF when CR-bearing terminators are the
/// majority, else LF.
pub open spec fn select_eol(s: Seq<char>, default_eol: DefaultEOL) -> EOL {
    let total = crlf_count(s) + cr_count(s) + lf_count(s);
    let cr_bearing = crlf_count(s) + cr_count(s);
    if total == 0 {
        match default_eol {
            DefaultEOL::LF => EOL::LF,
            DefaultEOL::CRLF => EOL::CRLF,
        }
    } else if cr_bearing > total / 2 {
        EOL::CRLF
    } else {
        EOL::LF
    }
}

/// The three terminator counts add up to the terminator total.
pub proof fn lemma_eol_counts_sum(s: Seq<char>)
    ensures
        crlf_count(s) + cr_count(s) + lf_count(s) == line_breaks(s),
    decreases s.len(),
{
    if s.len() == 0 {
    } else if s[0] == '\r' && s.len() >= 2 && s[1] == '\n' {
        lemma_eol_counts_sum(s.skip(2));
    } else {
        lemma_eol_counts_sum(s.skip(1));
    }
}

/// One scanning step for the three terminator counters on the suffix
/// starting at `i`.
proof fn lemma_eol_window_step(s: Seq<char>, i: int)
    requires
        0 <= i < s.len(),
    ensures
        (s[i] == '\r' && i + 1 < s.len() && s[i + 1] == '\n') ==> crlf_count(s.skip(i)) == 1
            + crlf_count(s.skip(i + 2)) && cr_count(s.skip(i)) == cr_count(s.skip(i + 2))
            && lf_count(s.skip(i)) == lf_count(s.skip(i + 2)),
        (s[i] == '\r' && !(i + 1 < s.len() && s[i + 1] == '\n')) ==> crlf_count(s.skip(i))
            == crlf_count(s.skip(i + 1)) && cr_count(s.skip(i)) == 1 + cr_count(s.skip(i + 1))
            && lf_count(s.skip(i)) == lf_count(s.skip(i + 1)),
        (s[i] == '\n') ==> crlf_count(s.skip(i)) == crlf_count(s.skip(i + 1)) && cr_count(
            s.skip(i),
        ) == cr_count(s.skip(i + 1)) && lf_count(s.skip(i)) == 1 + lf_count(s.skip(i + 1)),
        (s[i] != '\r' && s[i] != '\n') ==> crlf_count(s.skip(i)) == crlf_count(s.skip(i + 1))
            && cr_count(s.skip(i)) == cr_count(s.skip(i + 1)) && lf_count(s.skip(i))
            == lf_count(s.skip(i + 1)),
{
    let w = s.skip(i);
    assert(w[0] == s[i]);
    if w.len() >= 2 {
        assert(w[1] == s[i + 1]);
    }
    if s[i] == '\r' && i + 1 < s.len() && s[i + 1] == '\n' {
        assert(w.skip(2) =~= s.skip(i + 2));
    } else {
        assert(w.skip(1) =~= s.skip(i + 1));
    }
}

/// Counts of terminators never exceed the characters scanned.
proof fn lemma_eol_counts_le_len(s: Seq<char>)
    ensures
        crlf_count(s) + cr_count(s) + lf_count(s) <= s.len(),
    decreases s.len(),
{
    if s.len() == 0 {
    } else if s[0] == '\r' && s.len() >= 2 && s[1] == '\n' {
        lemma_eol_counts_le_len(s.skip(2));
    } else {
        lemma_eol_counts_le_len(s.skip(1));
    }
}

/// Facts about a document recorded when it is loaded.
#[derive(Clone, Copy, PartialEq, Eq, Structural, Debug)]
pub struct TextBufferInfo {
    pub encoding: CharacterEncoding,
    pub eol: EOL,
    pub eos_normalized: bool,
    pub is_ascii: bool,
}

impl TextBufferInfo {
    /// Info for an empty document: the caller's default style, UTF-8.
    pub fn new(default_eol: DefaultEOL) -> (info: TextBufferInfo)
        ensures
            info.encoding == CharacterEncoding::Utf8,
            info.eol == (match default_eol {
                DefaultEOL::LF => EOL::LF,
                DefaultEOL::CRLF => EOL::CRLF,
            }),
            !info.eos_normalized,
            info.is_ascii,
    {
        let eol = match default_eol {
            DefaultEOL::LF => EOL::LF,
            DefaultEOL::CRLF => EOL::CRLF,
        };
        TextBufferInfo { encoding: CharacterEncoding::Utf8, eol, eos_normalized: false, is_ascii: true }
    }

    /// Scans a document: detects the byte-order mark, counts the three
    /// terminator kinds to pick the effective end-of-line style, records
    /// whether the text is ASCII, and returns the line-start table.
    pub fn from_string(value: &str, default_eol: DefaultEOL) -> (r: (TextBufferInfo, Vec<usize>))
        ensures
            r.0.encoding == (if has_bom(value@) {
                CharacterEncoding::Utf8WithBom
            } else {
                CharacterEncoding::Utf8
            }),
            r.0.eol == select_eol(value@, default_eol),
            !r.0.eos_normalized,
            r.0.is_ascii == all_ascii(value@),
            r.1@.len() == spec_line_starts(value@).len(),
            forall|k: int| 0 <= k < r.1@.len() ==> r.1@[k] == spec_line_starts(value@)[k],
    {
        let ghost s = value@;
        let n = value.unicode_len();
        let encoding = if n > 0 && value.get_char(0) == '\u{feff}' {
            CharacterEncoding::Utf8WithBom
        } else {
            CharacterEncoding::Utf8
        };
        let mut crlf: usize = 0;
        let mut cr: usize = 0;
        let mut lf: usize = 0;
        let mut is_ascii = true;
        let mut i: usize = 0;
        proof {
            assert(s.skip(0) =~= s);
        }
        while i < n
            invariant
                i <= n,
                s == value@,
                n == s.len(),
                crlf + crlf_count(s.skip(i as int)) == crlf_count(s),
                cr + cr_count(s.skip(i as int)) == cr_count(s),
                lf + lf_count(s.skip(i as int)) == lf_count(s),
                crlf + cr + lf <= i,
                is_ascii == (forall|k: int| 0 <= k < i ==> (s[k] as u32) < 128),
            decreases s.len() - i,
        {
            let c = value.get_char(i);
            proof {
                lemma_eol_window_step(s, i as int);
            }
            if (c as u32) >= 128 {
                is_ascii = false;
            }
            let ghost i0 = i as int;
            if c == '\r' {
                if i + 1 < n && value.get_char(i + 1) == '\n' {
                    crlf = crlf + 1;
                    i = i + 2;
                    proof {
                        // The character stepped over is the '\n' of the
                        // pair, which is ASCII.
                        assert(s[i0 + 1] == '\n');
                        assert((s[i0 + 1] as u32) < 128);
                    }
                } else {
                    cr = cr + 1;
                    i = i + 1;
                }
            } else if c == '\n' {
                lf = lf + 1;
                i = i + 1;
            } else {
                i = i + 1;
            }
        }
        proof {
            assert(s.skip(n as int) =~= Seq::<char>::empty());
            lemma_eol_counts_le_len(s);
        }
        let total = crlf + cr + lf;
        let cr_bearing = crlf + cr;
        let eol = if total == 0 {
            match default_eol {
                DefaultEOL::LF => EOL::LF,
                DefaultEOL::CRLF => EOL::CRLF,
            }
        } else if cr_bearing > total / 2 {
            EOL::CRLF
        } else {
            EOL::LF
        };
        let line_starts = Buffer::get_line_starts(value);
        let info = TextBufferInfo { encoding, eol, eos_normalized: false, is_ascii };
        (info, line_starts)
    }

    /// Boundary repairs for `"\r\n"` are needed unless the document is
    /// known to be normalized to plain LF.
    pub fn should_check_crlf(&self) -> (r: bool)
        ensures
            r == !(self.eos_normalized && self.eol == EOL::LF),
    {
        !(self.eos_normalized && self.eol == EOL::LF)
    }
}

} // verus!
