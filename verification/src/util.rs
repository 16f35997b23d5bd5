//! General text utilities: byte-budgeted truncation with an ellipsis, the
//! last lines of a text, and sanitizing text into a safe identifier.

use vstd::prelude::*;
use crate::chars::is_word_byte;
use crate::scan::{find_byte, lemma_find_byte, scan_find_byte, copy_range};

verus! {

/// Three `.` bytes.
pub open spec fn ellipsis() -> Seq<u8> {
    seq![46u8, 46u8, 46u8]
}

/// `s` cut down to at most `size` bytes: unchanged if it fits, else its first
/// `size - 3` bytes with `...` appended; `...` alone when even that cannot
/// fit.
pub open spec fn elide_spec(s: Seq<u8>, size: int) -> Seq<u8> {
    if size < 3 {
        ellipsis()
    } else if s.len() > size - 3 {
        s.subrange(0, size - 3) + ellipsis()
    } else {
        s
    }
}

pub fn elide_size(s: &Vec<u8>, size: usize) -> (r: Vec<u8>)
    ensures
        r@ == elide_spec(s@, size as int),
{
    if size < 3 {
        let mut r: Vec<u8> = Vec::new();
        r.push(46);
        r.push(46);
        r.push(46);
        proof {
            assert(r@ =~= ellipsis());
        }
        return r;
    }
    let new_size: usize = size - 3;
    if s.len() > new_size {
        let mut r: Vec<u8> = copy_range(s, 0, new_size);
        r.push(46);
        r.push(46);
        r.push(46);
        proof {
            assert(r@ =~= s@.subrange(0, size - 3) + ellipsis());
        }
        r
    } else {
        let r: Vec<u8> = copy_range(s, 0, s.len());
        proof {
            assert(s@.subrange(0, s@.len() as int) =~= s@);
        }
        r
    }
}

/// The fields of `s` split at `\n` bytes, starting at position `i`: each
/// field excludes its terminating newline, and a trailing newline yields a
/// final empty field.
pub open spec fn split_lines_from(s: Seq<u8>, i: int) -> Seq<Seq<u8>>
    decreases s.len() - i,
    when 0 <= i <= s.len()
    via split_lines_from_decreases
{
    match find_byte(s, 10, i) {
        Some(p) => seq![s.subrange(i, p)] + split_lines_from(s, p + 1),
        None => seq![s.subrange(i, s.len() as int)],
    }
}

#[via_fn]
proof fn split_lines_from_decreases(s: Seq<u8>, i: int) {
    lemma_find_byte(s, 10, i);
}

/// All fields of `s` split at `\n` bytes.
pub open spec fn split_lines(s: Seq<u8>) -> Seq<Seq<u8>> {
    split_lines_from(s, 0)
}

/// The last `limit` fields of `s` split at `\n`, in document order; all of
/// them when there are fewer.
pub open spec fn tail_lines_spec(s: Seq<u8>, limit: int) -> Seq<Seq<u8>> {
    let fields = split_lines(s);
    let k = if limit < fields.len() {
        limit
    } else {
        fields.len() as int
    };
    fields.subrange(fields.len() - k, fields.len() as int)
}

/// Sequence of the fields `s[starts[m] .. ends[m]]`.
pub open spec fn field_seq(s: Seq<u8>, starts: Seq<usize>, ends: Seq<usize>) -> Seq<Seq<u8>> {
    Seq::new(starts.len(), |m: int| s.subrange(starts[m] as int, ends[m] as int))
}

pub fn tail_string(chars: &Vec<u8>, limit: usize) -> (r: Vec<Vec<u8>>)
    ensures
        r.deep_view() == tail_lines_spec(chars@, limit as int),
{
    let mut starts: Vec<usize> = Vec::new();
    let mut ends: Vec<usize> = Vec::new();
    let mut pos: usize = 0;
    loop
        invariant_except_break
            split_lines(chars@) == field_seq(chars@, starts@, ends@) + split_lines_from(
                chars@,
                pos as int,
            ),
        invariant
            0 <= pos <= chars@.len(),
            starts@.len() == ends@.len(),
            forall|m: int| 0 <= m < starts@.len() ==> #[trigger] starts@[m] <= ends@[m] <= chars@.len(),
        ensures
            starts@.len() == ends@.len(),
            starts@.len() >= 1,
            forall|m: int| 0 <= m < starts@.len() ==> #[trigger] starts@[m] <= ends@[m] <= chars@.len(),
            split_lines(chars@) == field_seq(chars@, starts@, ends@),
        decreases chars@.len() - pos,
    {
        proof {
            assert(field_seq(chars@, starts@, ends@) + split_lines_from(chars@, pos as int)
                =~= split_lines(chars@));
        }
        match scan_find_byte(chars, 10, pos) {
            Some(p) => {
                starts.push(pos);
                ends.push(p);
                proof {
                    assert(field_seq(chars@, starts@, ends@) =~= field_seq(
                        chars@,
                        starts@.drop_last(),
                        ends@.drop_last(),
                    ).push(chars@.subrange(pos as int, p as int)));
                    assert(split_lines(chars@) =~= field_seq(chars@, starts@, ends@)
                        + split_lines_from(chars@, p + 1));
                }
                pos = p + 1;
            },
            None => {
                starts.push(pos);
                ends.push(chars.len());
                proof {
                    assert(field_seq(chars@, starts@, ends@) =~= field_seq(
                        chars@,
                        starts@.drop_last(),
                        ends@.drop_last(),
                    ).push(chars@.subrange(pos as int, chars@.len() as int)));
                    assert(split_lines(chars@) =~= field_seq(chars@, starts@, ends@));
                }
                break;
            },
        }
    }
    let n: usize = starts.len();
    let k: usize = if limit < n {
        limit
    } else {
        n
    };
    let mut out: Vec<Vec<u8>> = Vec::new();
    let mut j: usize = n - k;
    while j < n
        invariant
            n == starts@.len(),
            starts@.len() == ends@.len(),
            k <= n,
            n - k <= j <= n,
            forall|m: int| 0 <= m < starts@.len() ==> #[trigger] starts@[m] <= ends@[m] <= chars@.len(),
            out@.len() == j - (n - k),
            forall|m: int| 0 <= m < out@.len() ==> #[trigger] out@[m]@ == field_seq(
                chars@,
                starts@,
                ends@,
            )[n - k + m],
        decreases n - j,
    {
        let piece: Vec<u8> = copy_range(chars, starts[j], ends[j]);
        out.push(piece);
        j = j + 1;
    }
    proof {
        let fields = field_seq(chars@, starts@, ends@);
        assert forall|m: int| 0 <= m < out@.len() implies out.deep_view()[m]
            == tail_lines_spec(chars@, limit as int)[m] by {
            assert(out.deep_view()[m] == out@[m].deep_view());
            assert(out@[m].deep_view() =~= out@[m]@);
            assert(tail_lines_spec(chars@, limit as int)[m] == fields[n - k + m]);
        }
        assert(out.deep_view() =~~= tail_lines_spec(chars@, limit as int));
    }
    out
}

/// One sanitized byte: kept if it is a letter, digit, `-` or `_`, else
/// replaced by `_`.
pub open spec fn sanitize_byte(b: u8) -> u8 {
    if is_word_byte(b) {
        b
    } else {
        95
    }
}

/// `s` with every byte outside the safe identifier set replaced by `_`, cut
/// to at most 100 bytes.
pub open spec fn sanitize_spec(s: Seq<u8>) -> Seq<u8> {
    let t = s.map_values(|b: u8| sanitize_byte(b));
    if t.len() > 100 {
        t.subrange(0, 100)
    } else {
        t
    }
}

pub fn sanitize(name: &Vec<u8>) -> (r: Vec<u8>)
    ensures
        r@ == sanitize_spec(name@),
{
    let n: usize = if name.len() > 100 {
        100
    } else {
        name.len()
    };
    let mut r: Vec<u8> = Vec::new();
    let mut i: usize = 0;
    while i < n
        invariant
            0 <= i <= n <= name@.len(),
            r@.len() == i,
            forall|m: int| 0 <= m < i ==> r@[m] == sanitize_byte(name@[m]),
        decreases n - i,
    {
        let b: u8 = name[i];
        if (48 <= b && b <= 57) || (65 <= b && b <= 90) || (97 <= b && b <= 122) || b == 45 || b
            == 95 {
            r.push(b);
        } else {
            r.push(95);
        }
        i = i + 1;
    }
    proof {
        assert(r@ =~= sanitize_spec(name@));
    }
    r
}

} // verus!
