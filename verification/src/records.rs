//! Byte-level model of the record stream.
//!
//! The input is a byte sequence holding newline-terminated records of the
//! form `name;value`.  A record is identified by its start position: position
//! `0`, or any position just after a terminator.  A byte-range chunk
//! `[start, start + size)` claims exactly the records that start inside it,
//! which is what makes chunked scanning sound: the claims of consecutive
//! chunks tile the records of the whole input.
//!
//! A name must be valid UTF-8 text (and cannot hold the delimiter or the
//! terminator); a record whose name is not is malformed, a fatal parse
//! error.  Chunk realignment searches only for the terminator, never inside
//! a name, and a chunk always claims whole records, so a multi-byte
//! character split by a chunk boundary is reassembled and validated inside
//! the one chunk that claims its record.

use vstd::prelude::*;
use crate::fixed::{valid_fixed, fixed_val};

verus! {

/// The record terminator byte, `\n`.
pub const TERMINATOR: u8 = 10;

/// The field delimiter byte, `;`.
pub const DELIMITER: u8 = 59;

/// Position of the first occurrence of `b` at or after `p`, or `s.len()`
/// if there is none.
pub open spec fn find_byte(s: Seq<u8>, b: u8, p: int) -> int
    decreases s.len() - p,
{
    if p < 0 || p >= s.len() {
        s.len() as int
    } else if s[p] == b {
        p
    } else {
        find_byte(s, b, p + 1)
    }
}

pub proof fn lemma_find_byte(s: Seq<u8>, b: u8, p: int)
    requires
        0 <= p,
    ensures
        find_byte(s, b, p) <= s.len(),
        p <= s.len() ==> p <= find_byte(s, b, p),
        find_byte(s, b, p) < s.len() ==> s[find_byte(s, b, p)] == b,
        forall|q: int| p <= q < find_byte(s, b, p) ==> s[q] != b,
    decreases s.len() - p,
{
    if p < s.len() && s[p] != b {
        lemma_find_byte(s, b, p + 1);
    }
}

/// The first occurrence seen from `p` is still the first seen from any
/// position between `p` and it.
pub proof fn lemma_find_byte_stable(s: Seq<u8>, b: u8, p: int, m: int)
    requires
        0 <= p <= m <= find_byte(s, b, p),
    ensures
        find_byte(s, b, m) == find_byte(s, b, p),
    decreases m - p,
{
    lemma_find_byte(s, b, p);
    if p < m {
        lemma_find_byte_stable(s, b, p + 1, m);
    }
}

/// Searching inside the extracted range `s[a..b]` agrees with searching `s`
/// from `a`.
pub proof fn lemma_find_byte_subrange(s: Seq<u8>, b0: u8, a: int, b: int)
    requires
        0 <= a <= b <= s.len(),
    ensures
        ({
            let l = s.subrange(a, b);
            let f = find_byte(s, b0, a);
            if f < b {
                find_byte(l, b0, 0) == f - a
            } else {
                find_byte(l, b0, 0) == l.len()
            }
        }),
{
    let l = s.subrange(a, b);
    let f = find_byte(s, b0, a);
    let fl = find_byte(l, b0, 0);
    lemma_find_byte(s, b0, a);
    lemma_find_byte(l, b0, 0);
    if f < b {
        let k = f - a;
        assert(l[k] == b0);
        assert(forall|q: int| 0 <= q < k ==> l[q] != b0);
        if fl < k {
            assert(l[fl] != b0);
            assert(false);
        }
        if fl > k {
            assert(fl > k ==> l[k] != b0);
            assert(false);
        }
    } else {
        assert(forall|q: int| 0 <= q < l.len() ==> l[q] != b0);
        if fl < l.len() {
            assert(l[fl] == b0);
            assert(false);
        }
    }
}

/// Searching inside the window `s[a..b]` from any position agrees with
/// searching `s` itself; a search that exhausts the window means the next
/// occurrence in `s`, if any, lies at or past the window's end.
pub proof fn lemma_find_byte_window(s: Seq<u8>, b0: u8, a: int, b: int, p: int)
    requires
        0 <= a <= b <= s.len(),
        0 <= p <= b - a,
    ensures
        ({
            let l = s.subrange(a, b);
            let fl = find_byte(l, b0, p);
            let fs = find_byte(s, b0, a + p);
            if fl < l.len() {
                fs == a + fl
            } else {
                fs >= b
            }
        }),
{
    let l = s.subrange(a, b);
    let fl = find_byte(l, b0, p);
    let fs = find_byte(s, b0, a + p);
    lemma_find_byte(l, b0, p);
    lemma_find_byte(s, b0, a + p);
    if fl < l.len() {
        assert(l[fl] == b0);
        assert(s[a + fl] == b0);
        if fs > a + fl {
            assert(s[a + fl] != b0);
            assert(false);
        }
        if fs < a + fl {
            assert(s[fs] == b0);
            assert(l[fs - a] == b0);
            assert(l[fs - a] != b0);
            assert(false);
        }
    } else {
        assert(forall|q: int| p <= q < l.len() ==> l[q] != b0);
        if fs < b {
            assert(s[fs] == b0);
            assert(l[fs - a] == b0);
            assert(false);
        }
    }
}

/// Whether the input ends in a terminator (the empty input qualifies).
pub open spec fn terminated(s: Seq<u8>) -> bool {
    s.len() == 0 || s[s.len() - 1] == TERMINATOR
}

/// In a terminated input every search for the terminator succeeds.
pub proof fn lemma_terminated_find(s: Seq<u8>, p: int)
    requires
        terminated(s),
        0 <= p < s.len(),
    ensures
        find_byte(s, TERMINATOR, p) < s.len(),
    decreases s.len() - p,
{
    if s[p] != TERMINATOR {
        lemma_terminated_find(s, p + 1);
    }
}

/// The terminated records that start in `[p, end)`, each given without its
/// terminator.  A trailing fragment without a terminator yields no record.
pub open spec fn records_from(s: Seq<u8>, p: int, end: int) -> Seq<Seq<u8>>
    decreases s.len() - p,
    via records_from_decreases
{
    if p < 0 || p >= end || p >= s.len() {
        Seq::empty()
    } else {
        let t = find_byte(s, TERMINATOR, p);
        if t >= s.len() {
            Seq::empty()
        } else {
            seq![s.subrange(p, t)] + records_from(s, t + 1, end)
        }
    }
}

#[via_fn]
proof fn records_from_decreases(s: Seq<u8>, p: int, end: int) {
    if 0 <= p && p < end && p < s.len() {
        lemma_find_byte(s, TERMINATOR, p);
    }
}

/// At most one record per byte of input.
pub proof fn lemma_records_len(s: Seq<u8>, p: int, end: int)
    ensures
        records_from(s, p, end).len() <= s.len() - p || records_from(s, p, end).len() == 0,
    decreases s.len() - p,
{
    if 0 <= p && p < end && p < s.len() {
        let t = find_byte(s, TERMINATOR, p);
        if t < s.len() {
            lemma_find_byte(s, TERMINATOR, p);
            lemma_records_len(s, t + 1, end);
        }
    }
}

/// A UTF-8 continuation byte.
pub open spec fn utf8_cont(b: u8) -> bool {
    0x80 <= b <= 0xBF
}

/// Valid UTF-8 from position `i` on: every scalar value in its shortest
/// form, surrogates and values past the last scalar excluded.
pub open spec fn valid_utf8_from(s: Seq<u8>, i: int) -> bool
    decreases s.len() - i,
{
    if i < 0 || i >= s.len() {
        true
    } else {
        let b0 = s[i];
        if b0 <= 0x7F {
            valid_utf8_from(s, i + 1)
        } else if 0xC2 <= b0 <= 0xDF {
            if i + 2 <= s.len() {
                utf8_cont(s[i + 1]) && valid_utf8_from(s, i + 2)
            } else {
                false
            }
        } else if 0xE0 <= b0 <= 0xEF {
            if i + 3 <= s.len() {
                let b1 = s[i + 1];
                let b1_ok = if b0 == 0xE0 {
                    0xA0 <= b1 <= 0xBF
                } else if b0 == 0xED {
                    0x80 <= b1 <= 0x9F
                } else {
                    utf8_cont(b1)
                };
                b1_ok && utf8_cont(s[i + 2]) && valid_utf8_from(s, i + 3)
            } else {
                false
            }
        } else if 0xF0 <= b0 <= 0xF4 {
            if i + 4 <= s.len() {
                let b1 = s[i + 1];
                let b1_ok = if b0 == 0xF0 {
                    0x90 <= b1 <= 0xBF
                } else if b0 == 0xF4 {
                    0x80 <= b1 <= 0x8F
                } else {
                    utf8_cont(b1)
                };
                b1_ok && utf8_cont(s[i + 2]) && utf8_cont(s[i + 3]) && valid_utf8_from(s, i + 4)
            } else {
                false
            }
        } else {
            false
        }
    }
}

/// Whether the byte string is valid UTF-8 text.
pub open spec fn valid_utf8(s: Seq<u8>) -> bool {
    valid_utf8_from(s, 0)
}

/// Name field of a record: the bytes before the first delimiter.
pub open spec fn line_name(l: Seq<u8>) -> Seq<u8> {
    l.subrange(0, find_byte(l, DELIMITER, 0))
}

/// Value field of a record: the scaled fixed-point value of the bytes after
/// the first delimiter.
pub open spec fn line_value(l: Seq<u8>) -> int {
    fixed_val(l.subrange(find_byte(l, DELIMITER, 0) + 1, l.len() as int))
}

/// A well-formed record: it has a delimiter, its name is valid UTF-8 text,
/// and the bytes after the delimiter are a representable fixed-point
/// literal.
pub open spec fn wf_line(l: Seq<u8>) -> bool {
    let d = find_byte(l, DELIMITER, 0);
    &&& d < l.len()
    &&& valid_utf8(l.subrange(0, d))
    &&& valid_fixed(l.subrange(d + 1, l.len() as int))
}

/// The region of `s` claimed from `p` up to record starts below `end` is
/// well formed: every record started there is terminated and well formed.
pub open spec fn wf_region(s: Seq<u8>, p: int, end: int) -> bool
    decreases s.len() - p,
    via wf_region_decreases
{
    if p < 0 || p >= end || p >= s.len() {
        true
    } else {
        let t = find_byte(s, TERMINATOR, p);
        &&& t < s.len()
        &&& wf_line(s.subrange(p, t))
        &&& wf_region(s, t + 1, end)
    }
}

#[via_fn]
proof fn wf_region_decreases(s: Seq<u8>, p: int, end: int) {
    if 0 <= p && p < end && p < s.len() {
        lemma_find_byte(s, TERMINATOR, p);
    }
}

/// In a well-formed region every claimed record is well formed.
pub proof fn lemma_wf_region_lines(s: Seq<u8>, p: int, end: int)
    requires
        wf_region(s, p, end),
    ensures
        forall|k: int|
            0 <= k < records_from(s, p, end).len() ==> wf_line(
                #[trigger] records_from(s, p, end)[k],
            ),
    decreases s.len() - p,
{
    if 0 <= p && p < end && p < s.len() {
        let t = find_byte(s, TERMINATOR, p);
        lemma_find_byte(s, TERMINATOR, p);
        lemma_wf_region_lines(s, t + 1, end);
        let all = records_from(s, p, end);
        let tail = records_from(s, t + 1, end);
        assert forall|k: int| 0 <= k < all.len() implies wf_line(#[trigger] all[k]) by {
            if k > 0 {
                assert(all[k] == tail[k - 1]);
            }
        }
    }
}

/// Where a chunk whose nominal range begins at `start` actually begins
/// claiming records: the first chunk at position zero, every other chunk at
/// the first record start at or after `start` (found by backing up one byte
/// and searching for a terminator).
pub open spec fn claim_start(s: Seq<u8>, start: int) -> int {
    if start == 0 {
        0
    } else {
        find_byte(s, TERMINATOR, start - 1) + 1
    }
}

/// The records claimed by the chunk `[start, start + size)`: those that
/// start inside its nominal range.
pub open spec fn claimed_records(s: Seq<u8>, start: int, size: int) -> Seq<Seq<u8>> {
    records_from(s, claim_start(s, start), start + size)
}

/// Splitting at a boundary `b` loses and duplicates nothing: the records
/// claimed from an aligned position `p` up to `c` are exactly those claimed
/// up to `b` followed by those claimed from the realigned start after `b`.
/// In particular a record whose terminator falls exactly on `b` goes to the
/// left side, and the right side resumes with the very next record.
pub proof fn lemma_records_split(s: Seq<u8>, p: int, b: int, c: int)
    requires
        terminated(s),
        0 <= p <= b <= c,
        p == 0 || s[p - 1] == TERMINATOR,
    ensures
        records_from(s, p, c) == records_from(s, p, b) + records_from(s, claim_start(s, b), c),
    decreases s.len() - p,
{
    let right = records_from(s, claim_start(s, b), c);
    if b == 0 {
        assert(p == 0);
        assert(records_from(s, p, b) =~= Seq::<Seq<u8>>::empty());
        assert(records_from(s, p, c) =~= records_from(s, p, b) + right);
    } else if p >= s.len() {
        lemma_find_byte(s, TERMINATOR, b - 1);
        assert(records_from(s, p, c) =~= Seq::<Seq<u8>>::empty());
        assert(records_from(s, p, b) =~= Seq::<Seq<u8>>::empty());
        if b - 1 >= s.len() {
            assert(claim_start(s, b) >= s.len());
        } else {
            assert(p == s.len());
            assert(b == s.len());
            assert(s[b - 1] == TERMINATOR);
            assert(find_byte(s, TERMINATOR, b - 1) == b - 1);
            assert(claim_start(s, b) == p);
        }
        assert(right =~= Seq::<Seq<u8>>::empty());
    } else if p == b {
        assert(s[b - 1] == TERMINATOR);
        assert(find_byte(s, TERMINATOR, b - 1) == b - 1);
        assert(claim_start(s, b) == p);
        assert(records_from(s, p, b) =~= Seq::<Seq<u8>>::empty());
        assert(records_from(s, p, c) =~= records_from(s, p, b) + right);
    } else {
        // p < b, p < s.len(): the record at p is claimed on the left.
        lemma_terminated_find(s, p);
        let t = find_byte(s, TERMINATOR, p);
        lemma_find_byte(s, TERMINATOR, p);
        let rec = seq![s.subrange(p, t)];
        assert(records_from(s, p, c) == rec + records_from(s, t + 1, c));
        assert(records_from(s, p, b) == rec + records_from(s, t + 1, b));
        if t + 1 <= b {
            lemma_records_split(s, t + 1, b, c);
            assert(records_from(s, p, c) =~= records_from(s, p, b) + right);
        } else {
            // The record at p straddles b: the right side realigns to t + 1.
            assert(p <= b - 1 <= t);
            lemma_find_byte_stable(s, TERMINATOR, p, b - 1);
            assert(claim_start(s, b) == t + 1);
            assert(records_from(s, t + 1, b) =~= Seq::<Seq<u8>>::empty());
            assert(records_from(s, p, c) =~= records_from(s, p, b) + right);
        }
    }
}

} // verus!
