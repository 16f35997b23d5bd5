//! Parsing one line of the kernel's memory counter listing: a line of the
//! shape `MemAvailable:<spaces><digits> kB` yields the digits' value.

use vstd::prelude::*;
use crate::chars::{ByteClass, is_digit_byte, digit_value, byte_digit_value};
use crate::scan::{run_end, lemma_run_end, scan_run};

verus! {

/// The bytes of `MemAvailable:` stand at position `i`.
pub open spec fn has_memavail_lit(s: Seq<u8>, i: int) -> bool {
    &&& 0 <= i
    &&& i + 13 <= s.len()
    &&& s[i] == 77
    &&& s[i + 1] == 101
    &&& s[i + 2] == 109
    &&& s[i + 3] == 65
    &&& s[i + 4] == 118
    &&& s[i + 5] == 97
    &&& s[i + 6] == 105
    &&& s[i + 7] == 108
    &&& s[i + 8] == 97
    &&& s[i + 9] == 98
    &&& s[i + 10] == 108
    &&& s[i + 11] == 101
    &&& s[i + 12] == 58
}

/// The bytes of ` kB` stand at position `i`.
pub open spec fn has_kb_lit(s: Seq<u8>, i: int) -> bool {
    &&& 0 <= i
    &&& i + 3 <= s.len()
    &&& s[i] == 32
    &&& s[i + 1] == 107
    &&& s[i + 2] == 66
}

/// Bounds of the digit run of a line `MemAvailable:<spaces><digits> kB`, if
/// the line starts that way.
pub open spec fn memavail_digits(s: Seq<u8>) -> Option<(int, int)> {
    if has_memavail_lit(s, 0) {
        let w = run_end(s, 13, ByteClass::Space);
        let de = run_end(s, w, ByteClass::Digit);
        if de > w && has_kb_lit(s, de) {
            Some((w, de))
        } else {
            None
        }
    } else {
        None
    }
}

/// Value of a string of decimal digits, most significant first.
pub open spec fn dec_value(s: Seq<u8>) -> int
    decreases s.len(),
{
    if s.len() == 0 {
        0
    } else {
        10 * dec_value(s.drop_last()) + digit_value(s.last())
    }
}

proof fn lemma_dec_value_nonneg(s: Seq<u8>)
    ensures
        dec_value(s) >= 0,
    decreases s.len(),
{
    if s.len() > 0 {
        lemma_dec_value_nonneg(s.drop_last());
    }
}

proof fn lemma_dec_value_extend(s: Seq<u8>, a: int, b: int)
    requires
        0 <= a <= b <= s.len(),
    ensures
        dec_value(s.subrange(0, a)) <= dec_value(s.subrange(0, b)),
    decreases b - a,
{
    if a < b {
        lemma_dec_value_extend(s, a, b - 1);
        assert(s.subrange(0, b).drop_last() =~= s.subrange(0, b - 1));
        lemma_dec_value_nonneg(s.subrange(0, b - 1));
    }
}

/// What parsing a counter line yields: the value of the digit run of a
/// well-shaped `MemAvailable:` line, provided that value fits in 128 bits.
pub open spec fn meminfo_spec(s: Seq<u8>) -> Option<int> {
    match memavail_digits(s) {
        Some(p) => {
            let v = dec_value(s.subrange(p.0, p.1));
            if v <= u128::MAX {
                Some(v)
            } else {
                None
            }
        },
        None => None,
    }
}

fn check_memavail_lit(s: &Vec<u8>) -> (r: bool)
    ensures
        r == has_memavail_lit(s@, 0),
{
    s.len() >= 13 && s[0] == 77 && s[1] == 101 && s[2] == 109 && s[3] == 65 && s[4] == 118
        && s[5] == 97 && s[6] == 105 && s[7] == 108 && s[8] == 97 && s[9] == 98 && s[10] == 108
        && s[11] == 101 && s[12] == 58
}

fn check_kb_lit(s: &Vec<u8>, i: usize) -> (r: bool)
    requires
        i <= s.len(),
    ensures
        r == has_kb_lit(s@, i as int),
{
    s.len() - i >= 3 && s[i] == 32 && s[i + 1] == 107 && s[i + 2] == 66
}

/// Parses the decimal digits `s[lo .. hi]`, or reports that their value
/// exceeds the 128-bit range.
fn parse_dec_u128(s: &Vec<u8>, lo: usize, hi: usize) -> (r: Option<u128>)
    requires
        lo <= hi <= s.len(),
        forall|k: int| lo <= k < hi ==> is_digit_byte(s@[k]),
    ensures
        dec_value(s@.subrange(lo as int, hi as int)) <= u128::MAX ==> r == Some(
            dec_value(s@.subrange(lo as int, hi as int)) as u128,
        ),
        dec_value(s@.subrange(lo as int, hi as int)) > u128::MAX ==> r is None,
{
    let ghost t: Seq<u8> = s@.subrange(lo as int, hi as int);
    let mut acc: u128 = 0;
    let mut k: usize = lo;
    while k < hi
        invariant
            lo <= k <= hi <= s@.len(),
            s@.len() <= usize::MAX,
            t == s@.subrange(lo as int, hi as int),
            forall|k2: int| lo <= k2 < hi ==> is_digit_byte(s@[k2]),
            acc as int == dec_value(t.subrange(0, k - lo)),
        ensures
            acc as int == dec_value(t.subrange(0, k - lo)),
            k == hi || dec_value(t) > u128::MAX,
        decreases hi - k,
    {
        let d: u8 = byte_digit_value(s[k]);
        proof {
            assert(t.subrange(0, k - lo + 1).drop_last() =~= t.subrange(0, k - lo));
            assert(t.subrange(0, k - lo + 1).last() == s@[k as int]);
        }
        if acc > (u128::MAX - d as u128) / 10 {
            proof {
                assert(10 * (acc as int) + d > u128::MAX) by (nonlinear_arith)
                    requires
                        acc as int > (u128::MAX - d as int) / 10,
                        0 <= d <= 9,
                ;
                lemma_dec_value_extend(t, k - lo + 1, t.len() as int);
                assert(t.subrange(0, t.len() as int) =~= t);
            }
            break;
        }
        proof {
            assert(10 * (acc as int) + d <= u128::MAX) by (nonlinear_arith)
                requires
                    acc as int <= (u128::MAX - d as int) / 10,
                    0 <= d <= 9,
            ;
        }
        acc = acc * 10 + d as u128;
        k = k + 1;
    }
    if k == hi {
        proof {
            assert(t.subrange(0, hi - lo) =~= t);
        }
        Some(acc)
    } else {
        None
    }
}

/// Parses one line of the memory counter listing, yielding the available
/// memory in kilobytes when the line is the `MemAvailable:` counter.
pub fn parse_meminfo_line(line: &Vec<u8>) -> (r: Option<u128>)
    ensures
        (r is Some) == (meminfo_spec(line@) is Some),
        r matches Some(v) ==> meminfo_spec(line@) == Some(v as int),
{
    if !check_memavail_lit(line) {
        return None;
    }
    let w: usize = scan_run(line, 13, ByteClass::Space);
    let de: usize = scan_run(line, w, ByteClass::Digit);
    if !(de > w && check_kb_lit(line, de)) {
        return None;
    }
    proof {
        lemma_run_end(line@, w as int, ByteClass::Digit);
        lemma_dec_value_nonneg(line@.subrange(w as int, de as int));
    }
    parse_dec_u128(line, w, de)
}

} // verus!
