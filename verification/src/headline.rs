//! The crash-report headline grammar: an optional separator line of `=`
//! bytes, a process-id marker `=<digits>=`, the words `ERROR:` and
//! `AddressSanitizer:`, an optional word `attempting`, a reason token, the
//! rest of that line, the line break, and an optional operation token at the
//! start of the next line.

use vstd::prelude::*;
use crate::chars::{ByteClass, is_eq_byte, is_crlf_byte, is_space_byte, is_word_byte,
    byte_in_class};
use crate::scan::{run_end, lemma_run_end, scan_run};

verus! {

/// Positions of the parts of one headline occurrence, as mathematical
/// integers. All positions are byte offsets into the scanned text; each
/// `x_start .. x_end` pair delimits the named token.
pub struct SpecHeadline {
    /// Where the occurrence begins (the separator line if one was consumed).
    pub start: int,
    /// Start of the process-id marker `=<digits>=`.
    pub pid_start: int,
    /// End of the process-id marker.
    pub pid_end: int,
    /// Start of the reason token.
    pub reason_start: int,
    /// End of the reason token.
    pub reason_end: int,
    /// Start of the operation token on the following line (empty if absent).
    pub op_start: int,
    /// End of the operation token.
    pub op_end: int,
    /// Where the occurrence ends.
    pub end: int,
}

/// The same positions as `usize` values, produced by the executable matcher.
pub struct HeadlinePos {
    pub start: usize,
    pub pid_start: usize,
    pub pid_end: usize,
    pub reason_start: usize,
    pub reason_end: usize,
    pub op_start: usize,
    pub op_end: usize,
    pub end: usize,
}

impl View for HeadlinePos {
    type V = SpecHeadline;

    open spec fn view(&self) -> SpecHeadline {
        SpecHeadline {
            start: self.start as int,
            pid_start: self.pid_start as int,
            pid_end: self.pid_end as int,
            reason_start: self.reason_start as int,
            reason_end: self.reason_end as int,
            op_start: self.op_start as int,
            op_end: self.op_end as int,
            end: self.end as int,
        }
    }
}

/// The bytes of `ERROR:` stand at position `i`.
pub open spec fn has_error_lit(s: Seq<u8>, i: int) -> bool {
    &&& 0 <= i
    &&& i + 6 <= s.len()
    &&& s[i] == 69
    &&& s[i + 1] == 82
    &&& s[i + 2] == 82
    &&& s[i + 3] == 79
    &&& s[i + 4] == 82
    &&& s[i + 5] == 58
}

/// The bytes of `AddressSanitizer:` stand at position `i`.
pub open spec fn has_asan_lit(s: Seq<u8>, i: int) -> bool {
    &&& 0 <= i
    &&& i + 17 <= s.len()
    &&& s[i] == 65
    &&& s[i + 1] == 100
    &&& s[i + 2] == 100
    &&& s[i + 3] == 114
    &&& s[i + 4] == 101
    &&& s[i + 5] == 115
    &&& s[i + 6] == 115
    &&& s[i + 7] == 83
    &&& s[i + 8] == 97
    &&& s[i + 9] == 110
    &&& s[i + 10] == 105
    &&& s[i + 11] == 116
    &&& s[i + 12] == 105
    &&& s[i + 13] == 122
    &&& s[i + 14] == 101
    &&& s[i + 15] == 114
    &&& s[i + 16] == 58
}

/// The bytes of `attempting` stand at position `i`.
pub open spec fn has_attempting_lit(s: Seq<u8>, i: int) -> bool {
    &&& 0 <= i
    &&& i + 10 <= s.len()
    &&& s[i] == 97
    &&& s[i + 1] == 116
    &&& s[i + 2] == 116
    &&& s[i + 3] == 101
    &&& s[i + 4] == 109
    &&& s[i + 5] == 112
    &&& s[i + 6] == 116
    &&& s[i + 7] == 105
    &&& s[i + 8] == 110
    &&& s[i + 9] == 103
}

/// The headline occurrence that starts at position `i`, if the grammar
/// matches there. Each token takes the maximal run of its byte class, which
/// is how the grammar stays deterministic: every neighbouring pair of tokens
/// draws from disjoint byte classes.
pub open spec fn headline_at(s: Seq<u8>, i: int) -> Option<SpecHeadline> {
    let eq1 = run_end(s, i, ByteClass::Eq);
    let pid0 = if eq1 > i && eq1 < s.len() && is_crlf_byte(s[eq1]) {
        run_end(s, eq1, ByteClass::CrLf)
    } else {
        i
    };
    let a = run_end(s, pid0, ByteClass::Eq);
    let b = run_end(s, a, ByteClass::Digit);
    let c = run_end(s, b, ByteClass::Eq);
    if a > pid0 && b > a && c > b {
        let d = run_end(s, c, ByteClass::Space);
        if has_error_lit(s, d) {
            let f = run_end(s, d + 6, ByteClass::Space);
            if has_asan_lit(s, f) {
                let g = run_end(s, f + 17, ByteClass::Space);
                let rs = if has_attempting_lit(s, g) && g + 10 < s.len() && is_space_byte(
                    s[g + 10],
                ) && g + 11 < s.len() && is_word_byte(s[g + 11]) {
                    g + 11
                } else {
                    g
                };
                let re = run_end(s, rs, ByteClass::Word);
                if re > rs {
                    let t = run_end(s, re, ByteClass::NotCrLf);
                    if t < s.len() {
                        let u = run_end(s, t, ByteClass::CrLf);
                        let oe = run_end(s, u, ByteClass::Word);
                        Some(
                            SpecHeadline {
                                start: i,
                                pid_start: pid0,
                                pid_end: c,
                                reason_start: rs,
                                reason_end: re,
                                op_start: u,
                                op_end: oe,
                                end: oe,
                            },
                        )
                    } else {
                        None
                    }
                } else {
                    None
                }
            } else {
                None
            }
        } else {
            None
        }
    } else {
        None
    }
}

/// The facts about a matched headline that the extractor builds on: the
/// tokens stand in order inside the text, the occurrence begins with a `=`
/// byte, the marker token contains no line break, and both the marker and the
/// reason token are non-empty.
pub open spec fn headline_wf(s: Seq<u8>, h: SpecHeadline) -> bool {
    &&& 0 <= h.start <= h.pid_start < h.pid_end <= h.reason_start < h.reason_end <= h.op_start
        <= h.op_end <= s.len()
    &&& h.end == h.op_end
    &&& h.start < h.end
    &&& is_eq_byte(s[h.start])
    &&& forall|k: int| h.pid_start <= k < h.pid_end ==> !is_crlf_byte(s[k])
}

proof fn lemma_headline_at_wf(s: Seq<u8>, i: int)
    requires
        0 <= i <= s.len(),
        headline_at(s, i) is Some,
    ensures
        headline_at(s, i) matches Some(h) ==> headline_wf(s, h) && h.start == i,
{
    let eq1 = run_end(s, i, ByteClass::Eq);
    lemma_run_end(s, i, ByteClass::Eq);
    let pid0 = if eq1 > i && eq1 < s.len() && is_crlf_byte(s[eq1]) {
        run_end(s, eq1, ByteClass::CrLf)
    } else {
        i
    };
    if eq1 > i && eq1 < s.len() && is_crlf_byte(s[eq1]) {
        lemma_run_end(s, eq1, ByteClass::CrLf);
    }
    let a = run_end(s, pid0, ByteClass::Eq);
    lemma_run_end(s, pid0, ByteClass::Eq);
    let b = run_end(s, a, ByteClass::Digit);
    lemma_run_end(s, a, ByteClass::Digit);
    let c = run_end(s, b, ByteClass::Eq);
    lemma_run_end(s, b, ByteClass::Eq);
    if a > pid0 && b > a && c > b {
        let d = run_end(s, c, ByteClass::Space);
        lemma_run_end(s, c, ByteClass::Space);
        if has_error_lit(s, d) {
            let f = run_end(s, d + 6, ByteClass::Space);
            lemma_run_end(s, d + 6, ByteClass::Space);
            if has_asan_lit(s, f) {
                let g = run_end(s, f + 17, ByteClass::Space);
                lemma_run_end(s, f + 17, ByteClass::Space);
                let rs = if has_attempting_lit(s, g) && g + 10 < s.len() && is_space_byte(
                    s[g + 10],
                ) && g + 11 < s.len() && is_word_byte(s[g + 11]) {
                    g + 11
                } else {
                    g
                };
                let re = run_end(s, rs, ByteClass::Word);
                lemma_run_end(s, rs, ByteClass::Word);
                if re > rs {
                    let t = run_end(s, re, ByteClass::NotCrLf);
                    lemma_run_end(s, re, ByteClass::NotCrLf);
                    if t < s.len() {
                        let u = run_end(s, t, ByteClass::CrLf);
                        lemma_run_end(s, t, ByteClass::CrLf);
                        let oe = run_end(s, u, ByteClass::Word);
                        lemma_run_end(s, u, ByteClass::Word);
                    }
                }
            }
        }
    }
}

/// Executable headline matcher at one position, proved to agree with
/// `headline_at`.
pub fn try_headline_at(s: &Vec<u8>, i: usize) -> (r: Option<HeadlinePos>)
    requires
        i <= s.len(),
    ensures
        (r is Some) == (headline_at(s@, i as int) is Some),
        r matches Some(h) ==> {
            &&& headline_at(s@, i as int) == Some(h@)
            &&& headline_wf(s@, h@)
            &&& h.start == i
            &&& i < h.end
            &&& h.end <= s.len()
        },
{
    proof {
        if headline_at(s@, i as int) is Some {
            lemma_headline_at_wf(s@, i as int);
        }
    }
    let eq1: usize = scan_run(s, i, ByteClass::Eq);
    let pid0: usize = if eq1 > i && eq1 < s.len() && byte_in_class(&ByteClass::CrLf, s[eq1]) {
        scan_run(s, eq1, ByteClass::CrLf)
    } else {
        i
    };
    let a: usize = scan_run(s, pid0, ByteClass::Eq);
    let b: usize = scan_run(s, a, ByteClass::Digit);
    let c: usize = scan_run(s, b, ByteClass::Eq);
    if !(a > pid0 && b > a && c > b) {
        return None;
    }
    let d: usize = scan_run(s, c, ByteClass::Space);
    if !check_error_lit(s, d) {
        return None;
    }
    let f: usize = scan_run(s, d + 6, ByteClass::Space);
    if !check_asan_lit(s, f) {
        return None;
    }
    let g: usize = scan_run(s, f + 17, ByteClass::Space);
    let rs: usize = if check_attempting_lit(s, g) && g + 10 < s.len() && byte_in_class(
        &ByteClass::Space,
        s[g + 10],
    ) && g + 11 < s.len() && byte_in_class(&ByteClass::Word, s[g + 11]) {
        g + 11
    } else {
        g
    };
    let re: usize = scan_run(s, rs, ByteClass::Word);
    if !(re > rs) {
        return None;
    }
    let t: usize = scan_run(s, re, ByteClass::NotCrLf);
    if !(t < s.len()) {
        return None;
    }
    let u: usize = scan_run(s, t, ByteClass::CrLf);
    let oe: usize = scan_run(s, u, ByteClass::Word);
    Some(
        HeadlinePos {
            start: i,
            pid_start: pid0,
            pid_end: c,
            reason_start: rs,
            reason_end: re,
            op_start: u,
            op_end: oe,
            end: oe,
        },
    )
}

fn check_error_lit(s: &Vec<u8>, i: usize) -> (r: bool)
    requires
        i <= s.len(),
    ensures
        r == has_error_lit(s@, i as int),
{
    s.len() - i >= 6 && s[i] == 69 && s[i + 1] == 82 && s[i + 2] == 82 && s[i + 3] == 79 && s[i
        + 4] == 82 && s[i + 5] == 58
}

fn check_asan_lit(s: &Vec<u8>, i: usize) -> (r: bool)
    requires
        i <= s.len(),
    ensures
        r == has_asan_lit(s@, i as int),
{
    s.len() - i >= 17 && s[i] == 65 && s[i + 1] == 100 && s[i + 2] == 100 && s[i + 3] == 114
        && s[i + 4] == 101 && s[i + 5] == 115 && s[i + 6] == 115 && s[i + 7] == 83 && s[i + 8]
        == 97 && s[i + 9] == 110 && s[i + 10] == 105 && s[i + 11] == 116 && s[i + 12] == 105
        && s[i + 13] == 122 && s[i + 14] == 101 && s[i + 15] == 114 && s[i + 16] == 58
}

fn check_attempting_lit(s: &Vec<u8>, i: usize) -> (r: bool)
    requires
        i <= s.len(),
    ensures
        r == has_attempting_lit(s@, i as int),
{
    s.len() - i >= 10 && s[i] == 97 && s[i + 1] == 116 && s[i + 2] == 116 && s[i + 3] == 101
        && s[i + 4] == 109 && s[i + 5] == 112 && s[i + 6] == 116 && s[i + 7] == 105 && s[i + 8]
        == 110 && s[i + 9] == 103
}

/// Spec view of an optional executable headline.
pub open spec fn opt_headline_view(o: Option<HeadlinePos>) -> Option<SpecHeadline> {
    match o {
        Some(h) => Some(h@),
        None => None,
    }
}

/// The last headline occurrence of a forward, non-overlapping scan that
/// starts at `i` with `best` as the most recent occurrence seen so far.
/// After a match the scan resumes at the match's end, so a later headline
/// beginning inside an earlier occurrence is not considered — exactly the
/// behaviour of repeating a leftmost search from the previous match's end.
pub open spec fn last_headline_from(s: Seq<u8>, i: int, best: Option<SpecHeadline>) -> Option<
    SpecHeadline,
>
    decreases s.len() - i,
    when 0 <= i <= s.len()
{
    if i < s.len() {
        match headline_at(s, i) {
            Some(h) => if i < h.end <= s.len() {
                last_headline_from(s, h.end, Some(h))
            } else {
                Some(h)
            },
            None => last_headline_from(s, i + 1, best),
        }
    } else {
        best
    }
}

/// The most recent headline occurrence in the whole text.
pub open spec fn last_headline(s: Seq<u8>) -> Option<SpecHeadline> {
    last_headline_from(s, 0, None)
}

proof fn lemma_last_headline_wf(s: Seq<u8>, i: int, best: Option<SpecHeadline>)
    requires
        0 <= i <= s.len(),
        best matches Some(b) ==> headline_wf(s, b),
    ensures
        last_headline_from(s, i, best) matches Some(h) ==> headline_wf(s, h),
    decreases s.len() - i,
{
    if i < s.len() {
        match headline_at(s, i) {
            Some(h) => {
                lemma_headline_at_wf(s, i);
                if i < h.end <= s.len() {
                    lemma_last_headline_wf(s, h.end, Some(h));
                }
            },
            None => {
                lemma_last_headline_wf(s, i + 1, best);
            },
        }
    }
}

/// Scans the whole text and returns the most recent headline occurrence.
pub fn find_last_headline(s: &Vec<u8>) -> (r: Option<HeadlinePos>)
    ensures
        opt_headline_view(r) == last_headline(s@),
        r matches Some(h) ==> headline_wf(s@, h@) && h.end <= s.len(),
{
    let mut best: Option<HeadlinePos> = None;
    let mut i: usize = 0;
    while i < s.len()
        invariant
            0 <= i <= s@.len(),
            last_headline(s@) == last_headline_from(s@, i as int, opt_headline_view(best)),
            best matches Some(b) ==> headline_wf(s@, b@) && b.end <= s@.len(),
        decreases s@.len() - i,
    {
        match try_headline_at(s, i) {
            Some(h) => {
                let e: usize = h.end;
                best = Some(h);
                i = e;
            },
            None => {
                i = i + 1;
            },
        }
    }
    proof {
        if last_headline(s@) is Some {
            lemma_last_headline_wf(s@, 0, None);
        }
    }
    best
}

} // verus!
