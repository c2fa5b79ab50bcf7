//! The record scanner: one pass over a chunk's byte buffer, driving the
//! aggregate table.
//!
//! A worker hands the scanner the bytes it read.  For the first chunk the
//! buffer begins at the start of the input; every other chunk backs up one
//! byte before its nominal range, so the scanner discards bytes up to the
//! first terminator to align itself to a true record start.  It then folds
//! one record after another into a fresh table, and stops before starting a
//! record at or past `limit`, the buffer position where the chunk's nominal
//! range ends — such a record belongs to the next chunk.

use vstd::prelude::*;
use crate::records::{
    find_byte, records_from, wf_region, wf_line, line_name, line_value, utf8_cont, valid_utf8,
    valid_utf8_from, TERMINATOR, DELIMITER, lemma_find_byte, lemma_find_byte_subrange,
    lemma_find_byte_window, lemma_records_len,
};
use crate::aggregate::{table_model, values_for, lemma_table_model_push};
use crate::table::{Table, counts_bounded};

verus! {

/// The buffer position where a chunk's scan claims its first record.
pub open spec fn scan_start(s: Seq<u8>, first: bool) -> int {
    if first {
        0
    } else {
        find_byte(s, TERMINATOR, 0) + 1
    }
}

/// Whether `b` is a UTF-8 continuation byte.
fn cont_byte(b: u8) -> (r: bool)
    ensures
        r == utf8_cont(b),
{
    0x80 <= b && b <= 0xBF
}

/// Whether the bytes `buf[from..to]` are valid UTF-8 text.
#[verifier::loop_isolation(false)]
fn utf8_ok(buf: &Vec<u8>, from: usize, to: usize) -> (r: bool)
    requires
        from <= to <= buf.len(),
    ensures
        r <==> valid_utf8(buf@.subrange(from as int, to as int)),
{
    let ghost s = buf@.subrange(from as int, to as int);
    let mut i: usize = from;
    while i < to
        invariant
            from <= i <= to,
            valid_utf8(s) == valid_utf8_from(s, i - from),
        decreases to - i,
    {
        let ghost j = i - from;
        proof {
            assert(s[j] == buf@[i as int]);
        }
        let b0 = buf[i];
        if b0 <= 0x7F {
            i = i + 1;
        } else if 0xC2 <= b0 && b0 <= 0xDF {
            if to - i < 2 {
                return false;
            }
            proof {
                assert(s[j + 1] == buf@[i + 1]);
            }
            if !cont_byte(buf[i + 1]) {
                return false;
            }
            i = i + 2;
        } else if 0xE0 <= b0 && b0 <= 0xEF {
            if to - i < 3 {
                return false;
            }
            proof {
                assert(s[j + 1] == buf@[i + 1]);
                assert(s[j + 2] == buf@[i + 2]);
            }
            let b1 = buf[i + 1];
            let b1_ok = if b0 == 0xE0 {
                0xA0 <= b1 && b1 <= 0xBF
            } else if b0 == 0xED {
                0x80 <= b1 && b1 <= 0x9F
            } else {
                cont_byte(b1)
            };
            if !b1_ok || !cont_byte(buf[i + 2]) {
                return false;
            }
            i = i + 3;
        } else if 0xF0 <= b0 && b0 <= 0xF4 {
            if to - i < 4 {
                return false;
            }
            proof {
                assert(s[j + 1] == buf@[i + 1]);
                assert(s[j + 2] == buf@[i + 2]);
                assert(s[j + 3] == buf@[i + 3]);
            }
            let b1 = buf[i + 1];
            let b1_ok = if b0 == 0xF0 {
                0x90 <= b1 && b1 <= 0xBF
            } else if b0 == 0xF4 {
                0x80 <= b1 && b1 <= 0x8F
            } else {
                cont_byte(b1)
            };
            if !b1_ok || !cont_byte(buf[i + 2]) || !cont_byte(buf[i + 3]) {
                return false;
            }
            i = i + 4;
        } else {
            return false;
        }
    }
    true
}

/// First position of `target` in `buf` at or after `start`, or the length.
fn find_from(buf: &Vec<u8>, target: u8, start: usize) -> (r: usize)
    requires
        start <= buf.len(),
    ensures
        r == find_byte(buf@, target, start as int),
        start <= r <= buf.len(),
{
    let mut j: usize = start;
    while j < buf.len()
        invariant
            start <= j <= buf.len(),
            find_byte(buf@, target, start as int) == find_byte(buf@, target, j as int),
        decreases buf.len() - j,
    {
        if buf[j] == target {
            return j;
        }
        j = j + 1;
    }
    j
}

/// Scans the chunk buffer `buf` and returns the table of the records it
/// claims: those starting before `limit`, after realignment unless this is
/// the first chunk.  Returns nothing exactly when the claimed region is
/// malformed: a claimed record runs past the buffer, lacks a delimiter,
/// carries a name that is not valid UTF-8 text, or carries a value that is
/// not a representable fixed-point literal.
#[verifier::loop_isolation(false)]
pub fn process_chunk(buf: &Vec<u8>, first: bool, limit: usize) -> (r: Option<Table>)
    ensures
        ({
            let p0 = scan_start(buf@, first);
            match r {
                Some(t) => wf_region(buf@, p0, limit as int) && t.wf() && t.model() == table_model(
                    records_from(buf@, p0, limit as int),
                ),
                None => !wf_region(buf@, p0, limit as int),
            }
        }),
{
    let ghost s = buf@;
    let mut table = Table::new();
    let mut p: usize = 0;
    if !first {
        let nl = find_from(buf, TERMINATOR, 0);
        proof {
            lemma_find_byte(s, TERMINATOR, 0);
        }
        if nl >= buf.len() {
            proof {
                assert(scan_start(s, first) >= s.len());
                assert(wf_region(s, scan_start(s, first), limit as int));
                assert(records_from(s, scan_start(s, first), limit as int) =~= Seq::<
                    Seq<u8>,
                >::empty());
                assert(forall|n: Seq<u8>|
                    values_for(Seq::<Seq<u8>>::empty(), n).len() == 0);
                assert(table.model() =~= table_model(Seq::<Seq<u8>>::empty()));
            }
            return Some(table);
        }
        p = nl + 1;
    }
    let ghost p0 = scan_start(s, first);
    assert(p as int == p0);
    let ghost mut done: Seq<Seq<u8>> = Seq::empty();
    proof {
        assert(records_from(s, p0, limit as int) =~= done + records_from(
            s,
            p as int,
            limit as int,
        ));
        assert(table.model() =~= table_model(done)) by {
            assert(forall|n: Seq<u8>| values_for(done, n).len() == 0);
        }
    }
    while p < limit && p < buf.len()
        invariant
            0 <= p0 <= p as int,
            table.wf(),
            table.model() == table_model(done),
            counts_bounded(table.rows@, done.len() as int),
            records_from(s, p0, limit as int) == done + records_from(s, p as int, limit as int),
            wf_region(s, p0, limit as int) <==> wf_region(s, p as int, limit as int),
        decreases buf.len() - p,
    {
        let t = find_from(buf, TERMINATOR, p);
        proof {
            lemma_find_byte(s, TERMINATOR, p as int);
        }
        if t >= buf.len() {
            // A record claimed by this chunk is not terminated in the buffer.
            return None;
        }
        let ghost line = s.subrange(p as int, t as int);
        let semi = find_from(buf, DELIMITER, p);
        proof {
            lemma_find_byte(s, DELIMITER, p as int);
            lemma_find_byte_subrange(s, DELIMITER, p as int, t as int);
        }
        if semi >= t {
            // No delimiter inside the record.
            proof {
                assert(find_byte(line, DELIMITER, 0) == line.len());
                assert(!wf_line(line));
            }
            return None;
        }
        let ghost d = (semi - p) as int;
        proof {
            assert(find_byte(line, DELIMITER, 0) == d);
            assert(line.subrange(0, d) =~= s.subrange(p as int, semi as int));
            assert(line.subrange(d + 1, line.len() as int) =~= s.subrange(
                semi + 1,
                t as int,
            ));
        }
        if !utf8_ok(buf, p, semi) {
            // The name is not valid text.
            proof {
                assert(!wf_line(line));
            }
            return None;
        }
        let v = match crate::fixed::parse_fixed_range(buf, semi + 1, t) {
            Some(v) => v,
            None => {
                proof {
                    assert(!wf_line(line));
                }
                return None;
            },
        };
        proof {
            assert(wf_line(line));
            assert(line_name(line) =~= s.subrange(p as int, semi as int));
            assert(line_value(line) == v as int);
            // One more record exists, so every current count has headroom.
            assert(records_from(s, p as int, limit as int) == seq![line] + records_from(
                s,
                t + 1,
                limit as int,
            ));
            lemma_records_len(s, p0, limit as int);
            assert(records_from(s, p0, limit as int).len() >= done.len() + 1);
            assert(done.len() < u64::MAX);
            assert(forall|i: int|
                0 <= i < table.rows@.len() ==> (#[trigger] table.rows@[i]).count < u64::MAX);
        }
        table.record(buf, p, semi, v);
        proof {
            lemma_table_model_push(done, line);
            done = done.push(line);
            assert(records_from(s, p as int, limit as int) == seq![line] + records_from(
                s,
                t + 1,
                limit as int,
            ));
            assert(records_from(s, p0, limit as int) =~= done + records_from(
                s,
                t + 1,
                limit as int,
            ));
        }
        p = t + 1;
    }
    proof {
        assert(records_from(s, p as int, limit as int) =~= Seq::<Seq<u8>>::empty());
        assert(wf_region(s, p as int, limit as int));
        assert(done =~= records_from(s, p0, limit as int));
    }
    Some(table)
}

/// A successful scan of a window claims, record for record, what the same
/// scan claims over the whole input: shifting the window does not change
/// the records found.
proof fn lemma_scan_claims(f: Seq<u8>, base: int, hi: int, p: int, limit: int)
    requires
        0 <= base <= hi <= f.len(),
        0 <= p,
        0 <= limit <= hi - base,
        wf_region(f.subrange(base, hi), p, limit),
    ensures
        records_from(f.subrange(base, hi), p, limit) == records_from(f, base + p, base + limit),
    decreases hi - base - p,
{
    let buf = f.subrange(base, hi);
    if p < limit && p < buf.len() {
        let t = find_byte(buf, TERMINATOR, p);
        lemma_find_byte(buf, TERMINATOR, p);
        lemma_find_byte_window(f, TERMINATOR, base, hi, p);
        assert(t < buf.len());
        assert(find_byte(f, TERMINATOR, base + p) == base + t);
        assert(buf.subrange(p, t) =~= f.subrange(base + p, base + t));
        lemma_scan_claims(f, base, hi, t + 1, limit);
        assert(records_from(buf, p, limit) =~= records_from(f, base + p, base + limit));
    } else {
        assert(records_from(buf, p, limit) =~= Seq::<Seq<u8>>::empty());
        assert(base + p >= base + limit);
        assert(records_from(f, base + p, base + limit) =~= Seq::<Seq<u8>>::empty());
    }
}

/// The byte window a worker reads for the chunk `[start, start + size)`:
/// it backs up one byte unless the chunk is the first.
pub open spec fn window_base(start: int) -> int {
    if start == 0 {
        0
    } else {
        start - 1
    }
}

/// The scan limit inside the window: the window position of the chunk's
/// nominal end.
pub open spec fn window_limit(start: int, size: int) -> int {
    size + if start == 0 {
        0int
    } else {
        1int
    }
}

/// A worker that read the window `f[window_base(start) .. hi)` — covering
/// the chunk's nominal range — and scanned it without error has claimed
/// exactly the chunk's records of the whole input.  Together with the chunk
/// laws this carries each worker's table, and so their merge, back to the
/// single-pass table of the file.
pub proof fn lemma_chunk_scan_correct(f: Seq<u8>, start: int, size: int, hi: int)
    requires
        0 <= start,
        0 <= size,
        window_base(start) + window_limit(start, size) <= hi <= f.len(),
        wf_region(
            f.subrange(window_base(start), hi),
            scan_start(f.subrange(window_base(start), hi), start == 0),
            window_limit(start, size),
        ),
    ensures
        records_from(
            f.subrange(window_base(start), hi),
            scan_start(f.subrange(window_base(start), hi), start == 0),
            window_limit(start, size),
        ) == crate::records::claimed_records(f, start, size),
{
    let base = window_base(start);
    let limit = window_limit(start, size);
    let buf = f.subrange(base, hi);
    let p0 = scan_start(buf, start == 0);
    if start == 0 {
        assert(p0 == 0);
        lemma_scan_claims(f, base, hi, 0, limit);
        assert(crate::records::claim_start(f, start) == 0);
    } else {
        let fb = find_byte(buf, TERMINATOR, 0);
        lemma_find_byte(buf, TERMINATOR, 0);
        lemma_find_byte_window(f, TERMINATOR, base, hi, 0);
        if fb < buf.len() {
            assert(find_byte(f, TERMINATOR, start - 1) == base + fb);
            assert(crate::records::claim_start(f, start) == base + p0);
            lemma_scan_claims(f, base, hi, p0, limit);
        } else {
            assert(p0 >= buf.len());
            assert(records_from(buf, p0, limit) =~= Seq::<Seq<u8>>::empty());
            assert(find_byte(f, TERMINATOR, start - 1) >= hi);
            assert(crate::records::claim_start(f, start) >= start + size);
            assert(records_from(f, crate::records::claim_start(f, start), start + size) =~= Seq::<
                Seq<u8>,
            >::empty());
        }
    }
}

/// The table a worker's successful scan denotes, given the input, its
/// chunk, and how far its read window reached.
pub open spec fn window_scan_table(f: Seq<u8>, start: int, size: int, hi: int) -> Map<
    Seq<u8>,
    crate::aggregate::AggModel,
> {
    table_model(
        records_from(
            f.subrange(window_base(start), hi),
            scan_start(f.subrange(window_base(start), hi), start == 0),
            window_limit(start, size),
        ),
    )
}

/// Chunk `i`'s window reached at least its nominal range, and its scan
/// succeeded.
pub open spec fn chunk_scan_ok(f: Seq<u8>, k: int, his: Seq<int>, i: int) -> bool {
    let start = crate::chunks::chunk_start(f.len() as int, k, i);
    let size = crate::chunks::chunk_len(f.len() as int, k, i);
    &&& window_base(start) + window_limit(start, size) <= his[i] <= f.len()
    &&& wf_region(
        f.subrange(window_base(start), his[i]),
        scan_start(f.subrange(window_base(start), his[i]), start == 0),
        window_limit(start, size),
    )
}

/// The scan tables of chunks `0 .. i`, merged in chunk order.
pub open spec fn scanned_tables(f: Seq<u8>, k: int, his: Seq<int>, i: int) -> Map<
    Seq<u8>,
    crate::aggregate::AggModel,
>
    decreases i,
{
    if i <= 0 {
        Map::empty()
    } else {
        crate::aggregate::table_merge(
            scanned_tables(f, k, his, i - 1),
            window_scan_table(
                f,
                crate::chunks::chunk_start(f.len() as int, k, i - 1),
                crate::chunks::chunk_len(f.len() as int, k, i - 1),
                his[i - 1],
            ),
        )
    }
}

/// The whole engine is sound: over a terminated, well-formed input split
/// among `k` workers, if every worker's read window covered its chunk's
/// nominal range and its scan succeeded, then merging the workers' tables
/// in chunk order yields exactly the table of one pass over the whole
/// input — whatever window sizes `his` the reads happened to reach.
pub proof fn lemma_parallel_scan_correct(f: Seq<u8>, k: int, his: Seq<int>)
    requires
        crate::records::terminated(f),
        wf_region(f, 0, f.len() as int),
        1 <= k,
        his.len() == k,
        forall|i: int| 0 <= i < k ==> chunk_scan_ok(f, k, his, i),
    ensures
        scanned_tables(f, k, his, k) == table_model(records_from(f, 0, f.len() as int)),
{
    lemma_scanned_tables_merged(f, k, his, k);
    crate::chunks::lemma_chunk_invariance(f, k);
}

proof fn lemma_scanned_tables_merged(f: Seq<u8>, k: int, his: Seq<int>, i: int)
    requires
        crate::records::terminated(f),
        1 <= k,
        his.len() == k,
        0 <= i <= k,
        forall|j: int| 0 <= j < k ==> chunk_scan_ok(f, k, his, j),
    ensures
        scanned_tables(f, k, his, i) == crate::chunks::merged_tables(f, k, i),
    decreases i,
{
    if i > 0 {
        lemma_scanned_tables_merged(f, k, his, i - 1);
        let fs = f.len() as int;
        let start = crate::chunks::chunk_start(fs, k, i - 1);
        let size = crate::chunks::chunk_len(fs, k, i - 1);
        crate::chunks::lemma_chunk_geometry(fs, k, i - 1);
        assert(chunk_scan_ok(f, k, his, i - 1));
        lemma_chunk_scan_correct(f, start, size, his[i - 1]);
        assert(window_scan_table(f, start, size, his[i - 1]) == table_model(
            crate::records::claimed_records(f, start, size),
        ));
    }
}

} // verus!
