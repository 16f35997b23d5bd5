//! Verified forward scanning primitives over byte sequences: maximal runs of a
//! byte class, first occurrence of a byte or of a pattern, and skipping the
//! consecutive lines that still contain a given pattern.

use vstd::prelude::*;
use crate::chars::{ByteClass, in_class, byte_in_class};

verus! {

/// End of the maximal run of bytes of class `c` that starts at `i`.
pub open spec fn run_end(s: Seq<u8>, i: int, c: ByteClass) -> int
    decreases s.len() - i,
{
    if 0 <= i < s.len() && in_class(c, s[i]) {
        run_end(s, i + 1, c)
    } else {
        i
    }
}

pub proof fn lemma_run_end(s: Seq<u8>, i: int, c: ByteClass)
    requires
        0 <= i <= s.len(),
    ensures
        i <= run_end(s, i, c) <= s.len(),
        forall|k: int| i <= k < run_end(s, i, c) ==> in_class(c, s[k]),
        run_end(s, i, c) < s.len() ==> !in_class(c, s[run_end(s, i, c)]),
    decreases s.len() - i,
{
    if i < s.len() && in_class(c, s[i]) {
        lemma_run_end(s, i + 1, c);
    }
}

/// Maximal run of class `c` from `from`, as executable code.
pub fn scan_run(s: &Vec<u8>, from: usize, c: ByteClass) -> (r: usize)
    requires
        from <= s.len(),
    ensures
        r as int == run_end(s@, from as int, c),
        from <= r <= s.len(),
{
    proof {
        lemma_run_end(s@, from as int, c);
    }
    let mut i: usize = from;
    while i < s.len()
        invariant
            from <= i <= s@.len(),
            run_end(s@, from as int, c) == run_end(s@, i as int, c),
        ensures
            i <= s@.len(),
            run_end(s@, from as int, c) == run_end(s@, i as int, c),
            i == s@.len() || !in_class(c, s@[i as int]),
        decreases s@.len() - i,
    {
        if !byte_in_class(&c, s[i]) {
            break;
        }
        i = i + 1;
    }
    i
}

/// Position of the first occurrence of byte `b` at or after `i`.
pub open spec fn find_byte(s: Seq<u8>, b: u8, i: int) -> Option<int>
    decreases s.len() - i,
{
    if 0 <= i < s.len() {
        if s[i] == b {
            Some(i)
        } else {
            find_byte(s, b, i + 1)
        }
    } else {
        None
    }
}

pub proof fn lemma_find_byte(s: Seq<u8>, b: u8, i: int)
    requires
        0 <= i <= s.len(),
    ensures
        match find_byte(s, b, i) {
            Some(p) => i <= p < s.len() && s[p] == b && forall|k: int| i <= k < p ==> s[k] != b,
            None => forall|k: int| i <= k < s.len() ==> s[k] != b,
        },
    decreases s.len() - i,
{
    if i < s.len() && s[i] != b {
        lemma_find_byte(s, b, i + 1);
    }
}

pub fn scan_find_byte(s: &Vec<u8>, b: u8, from: usize) -> (r: Option<usize>)
    requires
        from <= s.len(),
    ensures
        (r is Some) == (find_byte(s@, b, from as int) is Some),
        r matches Some(p) ==> from <= p < s.len() && find_byte(s@, b, from as int) == Some(
            p as int,
        ),
{
    let mut i: usize = from;
    while i < s.len()
        invariant
            from <= i <= s@.len(),
            find_byte(s@, b, from as int) == find_byte(s@, b, i as int),
        ensures
            from <= i <= s@.len(),
            find_byte(s@, b, from as int) == find_byte(s@, b, i as int),
            i == s@.len() || s@[i as int] == b,
        decreases s@.len() - i,
    {
        if s[i] == b {
            break;
        }
        i = i + 1;
    }
    if i < s.len() {
        Some(i)
    } else {
        None
    }
}

/// The pattern `pat` occurs at position `i` of `s`.
pub open spec fn is_match_at(s: Seq<u8>, pat: Seq<u8>, i: int) -> bool {
    &&& 0 <= i
    &&& i + pat.len() <= s.len()
    &&& s.subrange(i, i + pat.len()) == pat
}

/// `pat` occurs somewhere in `s` entirely within the window `[lo, hi)`.
pub open spec fn contains_in(s: Seq<u8>, pat: Seq<u8>, lo: int, hi: int) -> bool {
    exists|j: int| lo <= j && j + pat.len() <= hi && is_match_at(s, pat, j)
}

/// Position of the first occurrence of `pat` at or after `i`.
pub open spec fn find_pat(s: Seq<u8>, pat: Seq<u8>, i: int) -> Option<int>
    decreases s.len() - i + 1,
{
    if 0 <= i && i + pat.len() <= s.len() {
        if is_match_at(s, pat, i) {
            Some(i)
        } else {
            find_pat(s, pat, i + 1)
        }
    } else {
        None
    }
}

pub proof fn lemma_find_pat(s: Seq<u8>, pat: Seq<u8>, i: int)
    requires
        0 <= i,
    ensures
        match find_pat(s, pat, i) {
            Some(p) => i <= p && p + pat.len() <= s.len() && is_match_at(s, pat, p)
                && forall|k: int| i <= k < p ==> !is_match_at(s, pat, k),
            None => forall|k: int| i <= k ==> !is_match_at(s, pat, k),
        },
    decreases s.len() - i + 1,
{
    if i + pat.len() <= s.len() && !is_match_at(s, pat, i) {
        lemma_find_pat(s, pat, i + 1);
    }
}

/// Compares `s[j .. j + (me - ms)]` against the pattern `s[ms .. me]`.
pub fn match_pat_at(s: &Vec<u8>, ms: usize, me: usize, j: usize) -> (r: bool)
    requires
        ms <= me <= s.len(),
        j <= s.len(),
        me - ms <= s.len() - j,
    ensures
        r == is_match_at(s@, s@.subrange(ms as int, me as int), j as int),
{
    let ghost pat: Seq<u8> = s@.subrange(ms as int, me as int);
    let n: usize = me - ms;
    let mut k: usize = 0;
    while k < n
        invariant
            0 <= k <= n,
            n == me - ms,
            ms <= me <= s@.len(),
            j + n <= s@.len(),
            s@.len() <= usize::MAX,
            pat == s@.subrange(ms as int, me as int),
            forall|m: int| 0 <= m < k ==> s@[j + m] == pat[m],
        ensures
            0 <= k <= n,
            pat == s@.subrange(ms as int, me as int),
            k == n ==> forall|m: int| 0 <= m < n ==> s@[j + m] == pat[m],
            k < n ==> s@[j + k] != pat[k as int],
        decreases n - k,
    {
        if s[j + k] != s[ms + k] {
            break;
        }
        k = k + 1;
    }
    if k == n {
        proof {
            assert(s@.subrange(j as int, j + pat.len()) =~= pat);
        }
        true
    } else {
        proof {
            assert(s@.subrange(j as int, j + pat.len())[k as int] == s@[j + k]);
        }
        false
    }
}

/// First occurrence, at or after `from`, of the pattern `s[ms .. me]`.
pub fn scan_find_pat(s: &Vec<u8>, ms: usize, me: usize, from: usize) -> (r: Option<usize>)
    requires
        ms <= me <= s.len(),
        from <= s.len(),
    ensures
        (r is Some) == (find_pat(s@, s@.subrange(ms as int, me as int), from as int) is Some),
        r matches Some(p) ==> from <= p && p + (me - ms) <= s.len() && find_pat(
            s@,
            s@.subrange(ms as int, me as int),
            from as int,
        ) == Some(p as int),
{
    let ghost pat: Seq<u8> = s@.subrange(ms as int, me as int);
    let n: usize = me - ms;
    let mut j: usize = from;
    loop
        invariant
            from <= j <= s@.len(),
            n == me - ms,
            ms <= me <= s@.len(),
            pat == s@.subrange(ms as int, me as int),
            find_pat(s@, pat, from as int) == find_pat(s@, pat, j as int),
        decreases s@.len() - j,
    {
        if n > s.len() - j {
            proof {
                assert(j + pat.len() > s@.len());
                assert(find_pat(s@, pat, j as int) is None);
            }
            return None;
        }
        if match_pat_at(s, ms, me, j) {
            return Some(j);
        }
        proof {
            if n == 0 {
                assert(s@.subrange(j as int, j as int) =~= pat);
                assert(false);
            }
        }
        j = j + 1;
    }
}

/// Whether the pattern `s[ms .. me]` occurs within the window `[lo, hi)`.
pub fn contains_pat_in(s: &Vec<u8>, ms: usize, me: usize, lo: usize, hi: usize) -> (r: bool)
    requires
        ms <= me <= s.len(),
        lo <= hi <= s.len(),
    ensures
        r == contains_in(s@, s@.subrange(ms as int, me as int), lo as int, hi as int),
{
    let ghost pat: Seq<u8> = s@.subrange(ms as int, me as int);
    let n: usize = me - ms;
    if n > hi - lo {
        proof {
            if contains_in(s@, pat, lo as int, hi as int) {
                let j = choose|j: int|
                    lo <= j && j + pat.len() <= hi && is_match_at(s@, pat, j);
                assert(false);
            }
        }
        return false;
    }
    let mut j: usize = lo;
    let last: usize = hi - n;
    loop
        invariant
            lo <= j <= last,
            n == me - ms,
            last == hi - n,
            ms <= me <= s@.len(),
            lo <= hi <= s@.len(),
            s@.len() <= usize::MAX,
            n <= hi - lo,
            pat == s@.subrange(ms as int, me as int),
            forall|k: int| lo <= k < j ==> !is_match_at(s@, pat, k),
        ensures
            forall|k: int| lo <= k <= last ==> !is_match_at(s@, pat, k),
        decreases last - j,
    {
        if match_pat_at(s, ms, me, j) {
            assert(contains_in(s@, pat, lo as int, hi as int)) by {
                assert(lo <= j && j + pat.len() <= hi && is_match_at(s@, pat, j as int));
            }
            return true;
        }
        if j == last {
            break;
        }
        j = j + 1;
    }
    proof {
        assert forall|k: int| lo <= k && k + pat.len() <= hi implies !is_match_at(
            s@,
            pat,
            k,
        ) by {
            assert(k <= last);
        }
    }
    false
}

/// Copies `s[lo .. hi]` into a fresh vector.
pub fn copy_range(s: &Vec<u8>, lo: usize, hi: usize) -> (r: Vec<u8>)
    requires
        lo <= hi <= s.len(),
    ensures
        r@ == s@.subrange(lo as int, hi as int),
{
    let mut r: Vec<u8> = Vec::new();
    let mut k: usize = lo;
    while k < hi
        invariant
            lo <= k <= hi <= s@.len(),
            r@ == s@.subrange(lo as int, k as int),
        decreases hi - k,
    {
        r.push(s[k]);
        proof {
            assert(r@ =~= s@.subrange(lo as int, k + 1));
        }
        k = k + 1;
    }
    r
}

/// End of the content of the line that starts at `i`: the position of the next
/// newline byte, or the end of the text.
pub open spec fn line_content_end(s: Seq<u8>, i: int) -> int {
    match find_byte(s, 10, i) {
        Some(p) => p,
        None => s.len() as int,
    }
}

/// Start of the line after the one that starts at `i`.
pub open spec fn line_next(s: Seq<u8>, i: int) -> int {
    match find_byte(s, 10, i) {
        Some(p) => p + 1,
        None => s.len() as int,
    }
}

/// Position reached after skipping every consecutive line, starting at `i`,
/// whose content still contains the pattern `pat`.
pub open spec fn skip_pat_lines(s: Seq<u8>, pat: Seq<u8>, i: int) -> int
    decreases s.len() - i,
    when 0 <= i <= s.len()
    via skip_pat_lines_decreases
{
    if 0 <= i < s.len() && contains_in(s, pat, i, line_content_end(s, i)) {
        skip_pat_lines(s, pat, line_next(s, i))
    } else {
        i
    }
}

#[via_fn]
proof fn skip_pat_lines_decreases(s: Seq<u8>, pat: Seq<u8>, i: int) {
    if 0 <= i < s.len() {
        lemma_find_byte(s, 10, i);
    }
}

pub proof fn lemma_skip_pat_lines(s: Seq<u8>, pat: Seq<u8>, i: int)
    requires
        0 <= i <= s.len(),
    ensures
        i <= skip_pat_lines(s, pat, i) <= s.len(),
    decreases s.len() - i,
{
    if i < s.len() && contains_in(s, pat, i, line_content_end(s, i)) {
        lemma_find_byte(s, 10, i);
        lemma_skip_pat_lines(s, pat, line_next(s, i));
    }
}

/// Executable form of `skip_pat_lines` for the pattern `s[ms .. me]`.
pub fn scan_skip_pat_lines(s: &Vec<u8>, ms: usize, me: usize, start: usize) -> (r: usize)
    requires
        ms <= me <= s.len(),
        start <= s.len(),
    ensures
        r as int == skip_pat_lines(s@, s@.subrange(ms as int, me as int), start as int),
        start <= r <= s.len(),
{
    let ghost pat: Seq<u8> = s@.subrange(ms as int, me as int);
    let mut i: usize = start;
    loop
        invariant
            start <= i <= s@.len(),
            ms <= me <= s@.len(),
            pat == s@.subrange(ms as int, me as int),
            skip_pat_lines(s@, pat, start as int) == skip_pat_lines(s@, pat, i as int),
        ensures
            start <= i <= s@.len(),
            i as int == skip_pat_lines(s@, pat, start as int),
        decreases s@.len() - i,
    {
        if i >= s.len() {
            break;
        }
        proof {
            lemma_find_byte(s@, 10, i as int);
        }
        let (ce, ln): (usize, usize) = match scan_find_byte(s, 10, i) {
            Some(p) => (p, p + 1),
            None => (s.len(), s.len()),
        };
        if !contains_pat_in(s, ms, me, i, ce) {
            break;
        }
        i = ln;
    }
    i
}

} // verus!
