//! The report extractor: selects the most recent crash headline, delimits the
//! report's body, and derives the classification fields.

use vstd::prelude::*;
use crate::chars::{ByteClass, is_space_byte, is_hex_byte, digit_value, byte_in_class,
    byte_digit_value};
use crate::scan::{run_end, lemma_run_end, scan_run, find_byte, lemma_find_byte, scan_find_byte,
    find_pat, lemma_find_pat, scan_find_pat, skip_pat_lines, lemma_skip_pat_lines,
    scan_skip_pat_lines, line_content_end, copy_range, is_match_at};
use crate::headline::{SpecHeadline, HeadlinePos, headline_wf, last_headline, find_last_headline,
    opt_headline_view};

verus! {

/// One extracted crash report.
#[derive(Debug, PartialEq)]
pub struct AsanInfo {
    /// The sanitizer's fault category, e.g. `SEGV` or `stack-buffer-overflow`.
    pub stop_reason: Vec<u8>,
    /// The memory-access kind (`READ`/`WRITE`); empty if absent or if the
    /// reason is `SEGV`.
    pub operation: Vec<u8>,
    /// Address of stack frame `#0` in the report, or 0 if none parses.
    pub first_frame: u64,
    /// The verbatim report text, right-trimmed of trailing whitespace.
    pub body: Vec<u8>,
}

/// The mathematical content of an extracted report.
pub struct SpecReport {
    pub stop_reason: Seq<u8>,
    pub operation: Seq<u8>,
    pub first_frame: int,
    pub body: Seq<u8>,
}

impl View for AsanInfo {
    type V = SpecReport;

    open spec fn view(&self) -> SpecReport {
        SpecReport {
            stop_reason: self.stop_reason@,
            operation: self.operation@,
            first_frame: self.first_frame as int,
            body: self.body@,
        }
    }
}

/// Length of `s` once trailing whitespace is removed.
pub open spec fn trim_end_len(s: Seq<u8>) -> int
    decreases s.len(),
{
    if s.len() > 0 && is_space_byte(s[s.len() - 1]) {
        trim_end_len(s.drop_last())
    } else {
        s.len() as int
    }
}

/// `s` with trailing whitespace removed.
pub open spec fn trim_end(s: Seq<u8>) -> Seq<u8> {
    s.subrange(0, trim_end_len(s))
}

proof fn lemma_trim_end_len(s: Seq<u8>)
    ensures
        0 <= trim_end_len(s) <= s.len(),
        forall|k: int| trim_end_len(s) <= k < s.len() ==> is_space_byte(s[k]),
        trim_end_len(s) > 0 ==> !is_space_byte(s[trim_end_len(s) - 1]),
    decreases s.len(),
{
    if s.len() > 0 && is_space_byte(s[s.len() - 1]) {
        lemma_trim_end_len(s.drop_last());
        assert forall|k: int| trim_end_len(s) <= k < s.len() implies is_space_byte(s[k]) by {
            if k < s.len() - 1 {
                assert(s.drop_last()[k] == s[k]);
            }
        }
    }
}

proof fn lemma_trim_end_len_unique(s: Seq<u8>, j: int)
    requires
        0 <= j <= s.len(),
        forall|k: int| j <= k < s.len() ==> is_space_byte(s[k]),
        j > 0 ==> !is_space_byte(s[j - 1]),
    ensures
        j == trim_end_len(s),
    decreases s.len(),
{
    if s.len() > 0 && is_space_byte(s[s.len() - 1]) {
        lemma_trim_end_len_unique(s.drop_last(), j);
    }
}

/// Index after the last non-whitespace byte of `s`.
pub fn scan_trim_len(s: &Vec<u8>) -> (r: usize)
    ensures
        r as int == trim_end_len(s@),
{
    let mut j: usize = s.len();
    while j > 0
        invariant
            j <= s@.len(),
            forall|k: int| j <= k < s@.len() ==> is_space_byte(s@[k]),
        ensures
            j <= s@.len(),
            forall|k: int| j <= k < s@.len() ==> is_space_byte(s@[k]),
            j > 0 ==> !is_space_byte(s@[j - 1]),
        decreases j,
    {
        if !byte_in_class(&ByteClass::Space, s[j - 1]) {
            break;
        }
        j = j - 1;
    }
    proof {
        lemma_trim_end_len_unique(s@, j as int);
    }
    j
}

/// The bytes of the frame marker `#0` stand at position `i`.
pub open spec fn has_frame_lit(s: Seq<u8>, i: int) -> bool {
    &&& 0 <= i
    &&& i + 2 <= s.len()
    &&& s[i] == 35
    &&& s[i + 1] == 48
}

/// The bytes of `0x` stand at position `i`.
pub open spec fn has_hex_prefix(s: Seq<u8>, i: int) -> bool {
    &&& 0 <= i
    &&& i + 2 <= s.len()
    &&& s[i] == 48
    &&& s[i + 1] == 120
}

/// Bounds of the hex digit run of a frame-address token `#0 <ws> 0x<hex>`
/// standing at position `i`, if one does.
pub open spec fn frame_digits_at(s: Seq<u8>, i: int) -> Option<(int, int)> {
    if has_frame_lit(s, i) {
        let w = run_end(s, i + 2, ByteClass::Space);
        if w > i + 2 && has_hex_prefix(s, w) {
            let he = run_end(s, w + 2, ByteClass::Hex);
            if he > w + 2 {
                Some((w + 2, he))
            } else {
                None
            }
        } else {
            None
        }
    } else {
        None
    }
}

/// Hex digit run of the first frame-address token at or after `i`.
pub open spec fn find_frame_digits(s: Seq<u8>, i: int) -> Option<(int, int)>
    decreases s.len() - i,
    when 0 <= i <= s.len()
{
    if i < s.len() {
        match frame_digits_at(s, i) {
            Some(p) => Some(p),
            None => find_frame_digits(s, i + 1),
        }
    } else {
        None
    }
}

/// Value of a string of hexadecimal digits, most significant first.
pub open spec fn hex_value(s: Seq<u8>) -> int
    decreases s.len(),
{
    if s.len() == 0 {
        0
    } else {
        16 * hex_value(s.drop_last()) + digit_value(s.last())
    }
}

proof fn lemma_hex_value_nonneg(s: Seq<u8>)
    ensures
        hex_value(s) >= 0,
    decreases s.len(),
{
    if s.len() > 0 {
        lemma_hex_value_nonneg(s.drop_last());
    }
}

/// A longer digit string never has a smaller value.
proof fn lemma_hex_value_extend(s: Seq<u8>, a: int, b: int)
    requires
        0 <= a <= b <= s.len(),
    ensures
        hex_value(s.subrange(0, a)) <= hex_value(s.subrange(0, b)),
    decreases b - a,
{
    if a < b {
        lemma_hex_value_extend(s, a, b - 1);
        assert(s.subrange(0, b).drop_last() =~= s.subrange(0, b - 1));
        lemma_hex_value_nonneg(s.subrange(0, b - 1));
    }
}

/// The frame address of a report body: the hex digits of the first
/// frame-address token, parsed as an unsigned 64-bit integer, or 0 when no
/// token is present or its digits exceed the 64-bit range.
pub open spec fn spec_first_frame(raw: Seq<u8>) -> int {
    match find_frame_digits(raw, 0) {
        Some(p) => {
            let v = hex_value(raw.subrange(p.0, p.1));
            if v < 0x1_0000_0000_0000_0000 {
                v
            } else {
                0
            }
        },
        None => 0,
    }
}

fn frame_digits_at_exec(s: &Vec<u8>, i: usize) -> (r: Option<(usize, usize)>)
    requires
        i <= s.len(),
    ensures
        (r is Some) == (frame_digits_at(s@, i as int) is Some),
        r matches Some(p) ==> {
            &&& frame_digits_at(s@, i as int) == Some((p.0 as int, p.1 as int))
            &&& p.0 <= p.1 <= s.len()
            &&& forall|k: int| p.0 <= k < p.1 ==> is_hex_byte(s@[k])
        },
{
    if !(s.len() - i >= 2 && s[i] == 35 && s[i + 1] == 48) {
        return None;
    }
    let w: usize = scan_run(s, i + 2, ByteClass::Space);
    if !(w > i + 2) {
        return None;
    }
    if !(s.len() - w >= 2 && s[w] == 48 && s[w + 1] == 120) {
        return None;
    }
    let he: usize = scan_run(s, w + 2, ByteClass::Hex);
    if he > w + 2 {
        proof {
            lemma_run_end(s@, w + 2, ByteClass::Hex);
        }
        Some((w + 2, he))
    } else {
        None
    }
}

fn scan_frame_digits(s: &Vec<u8>) -> (r: Option<(usize, usize)>)
    ensures
        (r is Some) == (find_frame_digits(s@, 0) is Some),
        r matches Some(p) ==> {
            &&& find_frame_digits(s@, 0) == Some((p.0 as int, p.1 as int))
            &&& p.0 <= p.1 <= s.len()
            &&& forall|k: int| p.0 <= k < p.1 ==> is_hex_byte(s@[k])
        },
{
    let mut i: usize = 0;
    while i < s.len()
        invariant
            0 <= i <= s@.len(),
            find_frame_digits(s@, 0) == find_frame_digits(s@, i as int),
        decreases s@.len() - i,
    {
        if let Some(p) = frame_digits_at_exec(s, i) {
            return Some(p);
        }
        i = i + 1;
    }
    None
}

/// Parses the hex digits `s[lo .. hi]` as an unsigned 64-bit integer,
/// returning 0 when their value does not fit.
fn parse_hex_u64(s: &Vec<u8>, lo: usize, hi: usize) -> (r: u64)
    requires
        lo <= hi <= s.len(),
        forall|k: int| lo <= k < hi ==> is_hex_byte(s@[k]),
    ensures
        r as int == (if hex_value(s@.subrange(lo as int, hi as int)) < 0x1_0000_0000_0000_0000 {
            hex_value(s@.subrange(lo as int, hi as int))
        } else {
            0
        }),
{
    let ghost t: Seq<u8> = s@.subrange(lo as int, hi as int);
    let mut acc: u64 = 0;
    let mut k: usize = lo;
    while k < hi
        invariant
            lo <= k <= hi <= s@.len(),
            s@.len() <= usize::MAX,
            t == s@.subrange(lo as int, hi as int),
            forall|k2: int| lo <= k2 < hi ==> is_hex_byte(s@[k2]),
            acc as int == hex_value(t.subrange(0, k - lo)),
        ensures
            acc as int == hex_value(t.subrange(0, k - lo)),
            k == hi || hex_value(t) >= 0x1_0000_0000_0000_0000,
        decreases hi - k,
    {
        if acc >= 0x1000_0000_0000_0000 {
            proof {
                assert(t.subrange(0, k - lo + 1).drop_last() =~= t.subrange(0, k - lo));
                assert(t.subrange(0, k - lo + 1).last() == s@[k as int]);
                assert(hex_value(t.subrange(0, k - lo + 1)) >= 0x1_0000_0000_0000_0000);
                lemma_hex_value_extend(t, k - lo + 1, t.len() as int);
                assert(t.subrange(0, t.len() as int) =~= t);
            }
            break;
        }
        let d: u8 = byte_digit_value(s[k]);
        acc = acc * 16 + d as u64;
        proof {
            assert(t.subrange(0, k - lo + 1).drop_last() =~= t.subrange(0, k - lo));
            assert(t.subrange(0, k - lo + 1).last() == s@[k as int]);
        }
        k = k + 1;
    }
    if k == hi {
        proof {
            assert(t.subrange(0, hi - lo) =~= t);
        }
        acc
    } else {
        0
    }
}

/// First frame address of a report body, as `spec_first_frame` defines it.
pub fn first_frame_of(s: &Vec<u8>) -> (r: u64)
    ensures
        r as int == spec_first_frame(s@),
{
    match scan_frame_digits(s) {
        Some(p) => parse_hex_u64(s, p.0, p.1),
        None => 0,
    }
}

/// The bytes of `SUMMARY: ` stand at position `i`.
pub open spec fn has_summary_lit(s: Seq<u8>, i: int) -> bool {
    &&& 0 <= i
    &&& i + 9 <= s.len()
    &&& s[i] == 83
    &&& s[i + 1] == 85
    &&& s[i + 2] == 77
    &&& s[i + 3] == 77
    &&& s[i + 4] == 65
    &&& s[i + 5] == 82
    &&& s[i + 6] == 89
    &&& s[i + 7] == 58
    &&& s[i + 8] == 32
}

/// Position of the first `SUMMARY: ` token at or after `i`.
pub open spec fn find_summary(s: Seq<u8>, i: int) -> Option<int>
    decreases s.len() - i + 1,
{
    if 0 <= i && i + 9 <= s.len() {
        if has_summary_lit(s, i) {
            Some(i)
        } else {
            find_summary(s, i + 1)
        }
    } else {
        None
    }
}

proof fn lemma_find_summary(s: Seq<u8>, i: int)
    requires
        0 <= i,
    ensures
        match find_summary(s, i) {
            Some(p) => i <= p && p + 9 <= s.len() && has_summary_lit(s, p),
            None => true,
        },
    decreases s.len() - i + 1,
{
    if i + 9 <= s.len() && !has_summary_lit(s, i) {
        lemma_find_summary(s, i + 1);
    }
}

fn check_summary_lit(s: &Vec<u8>, i: usize) -> (r: bool)
    requires
        i <= s.len(),
    ensures
        r == has_summary_lit(s@, i as int),
{
    s.len() - i >= 9 && s[i] == 83 && s[i + 1] == 85 && s[i + 2] == 77 && s[i + 3] == 77 && s[i
        + 4] == 65 && s[i + 5] == 82 && s[i + 6] == 89 && s[i + 7] == 58 && s[i + 8] == 32
}

fn scan_find_summary(s: &Vec<u8>, from: usize) -> (r: Option<usize>)
    requires
        from <= s.len(),
    ensures
        (r is Some) == (find_summary(s@, from as int) is Some),
        r matches Some(p) ==> from <= p && p < s.len() && find_summary(s@, from as int) == Some(
            p as int,
        ),
{
    let mut j: usize = from;
    loop
        invariant
            from <= j <= s@.len(),
            find_summary(s@, from as int) == find_summary(s@, j as int),
        decreases s@.len() - j,
    {
        if 9 > s.len() - j {
            proof {
                assert(find_summary(s@, j as int) is None);
            }
            return None;
        }
        if check_summary_lit(s, j) {
            return Some(j);
        }
        j = j + 1;
    }
}

/// Where the report that begins with headline `h` ends: after the next
/// occurrence of the marker token once the marker-repeating lines right after
/// the headline are skipped; failing that, at the end of the next
/// `SUMMARY: ` line; failing both, where the skipping stopped, which consumes
/// the rest of a truncated capture.
pub open spec fn body_end(s: Seq<u8>, h: SpecHeadline) -> int {
    let pat = s.subrange(h.pid_start, h.pid_end);
    let np = skip_pat_lines(s, pat, h.pid_start);
    match find_pat(s, pat, np) {
        Some(p) => p + pat.len(),
        None => match find_summary(s, np) {
            Some(p) => line_content_end(s, p),
            None => np,
        },
    }
}

proof fn lemma_body_end(s: Seq<u8>, h: SpecHeadline)
    requires
        headline_wf(s, h),
    ensures
        h.pid_start < body_end(s, h) <= s.len(),
{
    let pat = s.subrange(h.pid_start, h.pid_end);
    let i = h.pid_start;
    lemma_find_byte(s, 10, i);
    let ce = line_content_end(s, i);
    assert(h.pid_end <= ce) by {
        match find_byte(s, 10, i) {
            Some(p) => {
                if p < h.pid_end {
                    assert(!crate::chars::is_crlf_byte(s[p]));
                }
            },
            None => {},
        }
    }
    assert(crate::scan::contains_in(s, pat, i, ce)) by {
        assert(s.subrange(i, i + pat.len()) == pat);
        assert(i <= i && i + pat.len() <= ce && is_match_at(s, pat, i));
    }
    let ln = crate::scan::line_next(s, i);
    lemma_skip_pat_lines(s, pat, ln);
    let np = skip_pat_lines(s, pat, i);
    assert(np == skip_pat_lines(s, pat, ln));
    assert(i < ln <= s.len());
    lemma_find_pat(s, pat, np);
    match find_pat(s, pat, np) {
        Some(p) => {
        },
        None => {
            lemma_find_summary(s, np);
            match find_summary(s, np) {
                Some(p) => {
                    lemma_find_byte(s, 10, p);
                },
                None => {
                },
            }
        },
    }
}

/// The reason token is exactly `SEGV`.
pub open spec fn is_segv_token(reason: Seq<u8>) -> bool {
    &&& reason.len() == 4
    &&& reason[0] == 83
    &&& reason[1] == 69
    &&& reason[2] == 71
    &&& reason[3] == 86
}

/// The fields derived from the report whose headline is `h`.
pub open spec fn report_of(s: Seq<u8>, h: SpecHeadline) -> SpecReport {
    let e = body_end(s, h);
    let raw = s.subrange(h.start, e);
    let reason = s.subrange(h.reason_start, h.reason_end);
    SpecReport {
        stop_reason: reason,
        operation: if is_segv_token(reason) {
            Seq::empty()
        } else {
            s.subrange(h.op_start, h.op_end)
        },
        first_frame: spec_first_frame(raw),
        body: trim_end(raw),
    }
}

/// What extraction returns on any input: the report derived from the most
/// recent headline, or nothing when no headline occurs.
pub open spec fn extract_spec(s: Seq<u8>) -> Option<SpecReport> {
    match last_headline(s) {
        Some(h) => Some(report_of(s, h)),
        None => None,
    }
}

/// Extracts the most recent sanitizer crash report from captured process
/// output, if the output contains one.
pub fn asan_post_process(input: &Vec<u8>) -> (r: Option<AsanInfo>)
    ensures
        (r is Some) == (extract_spec(input@) is Some),
        r matches Some(info) ==> Some(info@) == extract_spec(input@),
        input@.len() == 0 ==> r is None,
        r matches Some(info) ==> info.stop_reason@.len() > 0,
        r matches Some(info) ==> info.body@.len() > 0,
        r matches Some(info) ==> (is_segv_token(info.stop_reason@) ==> info.operation@.len()
            == 0),
{
    let hl = find_last_headline(input);
    let h: HeadlinePos = match hl {
        Some(h) => h,
        None => {
            return None;
        },
    };
    proof {
        lemma_body_end(input@, h@);
    }
    let np: usize = scan_skip_pat_lines(input, h.pid_start, h.pid_end, h.pid_start);
    let end: usize = match scan_find_pat(input, h.pid_start, h.pid_end, np) {
        Some(p) => p + (h.pid_end - h.pid_start),
        None => match scan_find_summary(input, np) {
            Some(p) => match scan_find_byte(input, 10, p) {
                Some(q) => q,
                None => input.len(),
            },
            None => np,
        },
    };
    proof {
        assert(end as int == body_end(input@, h@));
    }
    let mut raw: Vec<u8> = copy_range(input, h.start, end);
    let ghost rawv: Seq<u8> = raw@;
    let ff: u64 = first_frame_of(&raw);
    let tl: usize = scan_trim_len(&raw);
    proof {
        lemma_trim_end_len(rawv);
        if trim_end_len(rawv) == 0 {
            assert(is_space_byte(rawv[0]));
        }
    }
    raw.truncate(tl);
    let reason: Vec<u8> = copy_range(input, h.reason_start, h.reason_end);
    let segv: bool = reason.len() == 4 && reason[0] == 83 && reason[1] == 69 && reason[2] == 71
        && reason[3] == 86;
    let oper: Vec<u8> = if segv {
        Vec::new()
    } else {
        copy_range(input, h.op_start, h.op_end)
    };
    proof {
        assert(oper@ =~= report_of(input@, h@).operation);
    }
    Some(AsanInfo { stop_reason: reason, operation: oper, first_frame: ff, body: raw })
}

/// Extraction is deterministic: the result is a function of the input text
/// alone, so extracting twice from the same input yields equal results.
pub proof fn lemma_extract_idempotent(s: Seq<u8>, r1: Option<SpecReport>, r2: Option<SpecReport>)
    requires
        r1 == extract_spec(s),
        r2 == extract_spec(s),
    ensures
        r1 == r2,
{
}

} // verus!
