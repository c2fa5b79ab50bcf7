//! Chunk geometry and the soundness of chunked scanning.
//!
//! The input of `filesize` bytes is divided among `k` workers into
//! contiguous byte ranges of `filesize / k` bytes each, the last absorbing
//! the remainder.  Each chunk claims the records that start inside its
//! range.  The laws below state that the claims of all chunks tile the
//! records of the whole input — no record is dropped or counted twice,
//! wherever its terminator falls — and that merging the per-chunk tables,
//! in chunk order, equals the table of a single pass over the whole input.

use vstd::prelude::*;
use crate::records::{
    records_from, claimed_records, claim_start, terminated, wf_region, wf_line,
    lemma_records_split, lemma_wf_region_lines,
};
use crate::aggregate::{table_model, table_merge, lemma_table_model_concat};
use vstd::arithmetic::mul::{
    lemma_mul_inequality, lemma_mul_is_distributive_add_other_way, lemma_mul_nonnegative,
};
use vstd::arithmetic::div_mod::{lemma_fundamental_div_mod, lemma_div_pos_is_pos, lemma_mod_bound};

verus! {

/// Start offset of chunk `i` of `k` over `filesize` bytes.
pub open spec fn chunk_start(filesize: int, k: int, i: int) -> int {
    i * (filesize / k)
}

/// Nominal byte count of chunk `i`: the common size, plus the remainder for
/// the last chunk.
pub open spec fn chunk_len(filesize: int, k: int, i: int) -> int {
    if i == k - 1 {
        filesize / k + filesize % k
    } else {
        filesize / k
    }
}

/// End offset (exclusive) of chunk `i`.
pub open spec fn chunk_end(filesize: int, k: int, i: int) -> int {
    chunk_start(filesize, k, i) + chunk_len(filesize, k, i)
}

/// The records claimed by chunks `0 .. i`, in chunk order.
pub open spec fn chunks_claims(s: Seq<u8>, k: int, i: int) -> Seq<Seq<u8>>
    decreases i,
{
    if i <= 0 {
        Seq::empty()
    } else {
        chunks_claims(s, k, i - 1) + claimed_records(
            s,
            chunk_start(s.len() as int, k, i - 1),
            chunk_len(s.len() as int, k, i - 1),
        )
    }
}

/// The merge, in chunk order, of the tables of chunks `0 .. i`.
pub open spec fn merged_tables(s: Seq<u8>, k: int, i: int) -> Map<Seq<u8>, crate::aggregate::AggModel>
    decreases i,
{
    if i <= 0 {
        Map::empty()
    } else {
        table_merge(
            merged_tables(s, k, i - 1),
            table_model(
                claimed_records(
                    s,
                    chunk_start(s.len() as int, k, i - 1),
                    chunk_len(s.len() as int, k, i - 1),
                ),
            ),
        )
    }
}

/// Computes the chunk list for `filesize` bytes and `workers` workers: each
/// entry is a `(start, length)` byte range, `filesize / workers` bytes per
/// chunk with the remainder absorbed by the last.
#[verifier::loop_isolation(false)]
pub fn compute_chunks(filesize: u64, workers: u64) -> (r: Vec<(u64, u64)>)
    requires
        workers >= 1,
    ensures
        r@.len() == workers as int,
        forall|i: int|
            0 <= i < workers as int ==> (#[trigger] r@[i]).0 == chunk_start(
                filesize as int,
                workers as int,
                i,
            ) && r@[i].1 == chunk_len(filesize as int, workers as int, i),
{
    let cs: u64 = filesize / workers;
    let rem: u64 = filesize % workers;
    proof {
        lemma_fundamental_div_mod(filesize as int, workers as int);
        lemma_mod_bound(filesize as int, workers as int);
        lemma_div_pos_is_pos(filesize as int, workers as int);
    }
    let mut out: Vec<(u64, u64)> = Vec::new();
    let mut i: u64 = 0;
    while i < workers
        invariant
            0 <= i <= workers,
            out@.len() == i as int,
            forall|j: int|
                0 <= j < i as int ==> (#[trigger] out@[j]).0 == chunk_start(
                    filesize as int,
                    workers as int,
                    j,
                ) && out@[j].1 == chunk_len(filesize as int, workers as int, j),
        decreases workers - i,
    {
        proof {
            lemma_chunk_geometry(filesize as int, workers as int, i as int);
        }
        let start: u64 = cs * i;
        let len: u64 = if i == workers - 1 {
            cs + rem
        } else {
            cs
        };
        proof {
            vstd::arithmetic::mul::lemma_mul_is_commutative(cs as int, i as int);
        }
        out.push((start, len));
        i = i + 1;
    }
    out
}

/// Arithmetic facts about the chunk layout.
pub(crate) proof fn lemma_chunk_geometry(filesize: int, k: int, i: int)
    requires
        0 <= filesize,
        1 <= k,
        0 <= i < k,
    ensures
        0 <= chunk_start(filesize, k, i) <= chunk_end(filesize, k, i) <= filesize,
        chunk_end(filesize, k, i) == if i == k - 1 {
            filesize
        } else {
            chunk_start(filesize, k, i + 1)
        },
        i > 0 ==> chunk_start(filesize, k, i) == chunk_end(filesize, k, i - 1),
{
    let cs = filesize / k;
    lemma_div_pos_is_pos(filesize, k);
    lemma_mod_bound(filesize, k);
    lemma_fundamental_div_mod(filesize, k);
    lemma_mul_nonnegative(i, cs);
    lemma_mul_is_distributive_add_other_way(cs, i, 1);
    assert((i + 1) * cs == i * cs + cs);
    lemma_mul_inequality(i + 1, k, cs);
    assert((i + 1) * cs <= k * cs);
    if i > 0 {
        lemma_mul_is_distributive_add_other_way(cs, i - 1, 1);
        assert(i * cs == (i - 1) * cs + cs);
    }
    if i == k - 1 {
        assert(i + 1 == k);
        assert(k * cs + filesize % k == filesize);
    }
}

/// Boundary correctness: the record claims of the `k` chunks, concatenated
/// in chunk order, are exactly the records of the whole input — each record
/// is claimed exactly once, including any whose terminator falls exactly on
/// a chunk boundary.
pub proof fn lemma_chunks_cover(s: Seq<u8>, k: int)
    requires
        terminated(s),
        1 <= k,
    ensures
        chunks_claims(s, k, k) == records_from(s, 0, s.len() as int),
{
    lemma_chunks_claims_prefix(s, k, k);
    lemma_chunk_geometry(s.len() as int, k, k - 1);
}

/// The claims of chunks `0 .. i` are exactly the records claimed from the
/// beginning of the input up to the end of chunk `i - 1`.
proof fn lemma_chunks_claims_prefix(s: Seq<u8>, k: int, i: int)
    requires
        terminated(s),
        1 <= k,
        0 <= i <= k,
    ensures
        chunks_claims(s, k, i) == records_from(
            s,
            0,
            if i == 0 {
                0
            } else {
                chunk_end(s.len() as int, k, i - 1)
            },
        ),
    decreases i,
{
    let fs = s.len() as int;
    if i == 0 {
        assert(chunks_claims(s, k, 0) =~= records_from(s, 0, 0));
    } else {
        lemma_chunks_claims_prefix(s, k, i - 1);
        lemma_chunk_geometry(fs, k, i - 1);
        let start = chunk_start(fs, k, i - 1);
        let end = chunk_end(fs, k, i - 1);
        lemma_records_split(s, 0, start, end);
        assert(records_from(s, 0, end) == records_from(s, 0, start) + records_from(
            s,
            claim_start(s, start),
            end,
        ));
        if i - 1 == 0 {
            assert(start == 0);
            assert(records_from(s, 0, 0) =~= Seq::<Seq<u8>>::empty());
            assert(chunks_claims(s, k, i - 1) == records_from(s, 0, start));
        } else {
            assert(start == chunk_end(fs, k, i - 2)) by {
                lemma_chunk_geometry(fs, k, i - 1);
            }
            assert(chunks_claims(s, k, i - 1) == records_from(s, 0, start));
        }
        assert(chunks_claims(s, k, i) == chunks_claims(s, k, i - 1) + claimed_records(
            s,
            start,
            chunk_len(fs, k, i - 1),
        ));
        assert(claimed_records(s, start, chunk_len(fs, k, i - 1)) == records_from(
            s,
            claim_start(s, start),
            end,
        ));
    }
}

/// Every record claimed by chunk `i` of a well-formed input is well formed.
proof fn lemma_chunk_lines_wf(s: Seq<u8>, k: int, i: int)
    requires
        terminated(s),
        wf_region(s, 0, s.len() as int),
        1 <= k,
        0 <= i < k,
    ensures
        forall|j: int|
            0 <= j < claimed_records(
                s,
                chunk_start(s.len() as int, k, i),
                chunk_len(s.len() as int, k, i),
            ).len() ==> wf_line(
                #[trigger] claimed_records(
                    s,
                    chunk_start(s.len() as int, k, i),
                    chunk_len(s.len() as int, k, i),
                )[j],
            ),
{
    let fs = s.len() as int;
    let start = chunk_start(fs, k, i);
    let end = chunk_end(fs, k, i);
    lemma_chunk_geometry(fs, k, i);
    lemma_records_split(s, 0, start, end);
    lemma_records_split(s, 0, end, fs);
    lemma_wf_region_lines(s, 0, fs);
    let own = claimed_records(s, start, chunk_len(fs, k, i));
    let before = records_from(s, 0, start);
    let upto = records_from(s, 0, end);
    let all = records_from(s, 0, fs);
    assert forall|j: int| 0 <= j < own.len() implies wf_line(#[trigger] own[j]) by {
        assert(upto[before.len() + j] == own[j]);
        assert(all[before.len() + j] == upto[before.len() + j]);
    }
}

/// Chunk invariance: over a well-formed input, merging the per-chunk tables
/// in chunk order yields exactly the table of one pass over the whole
/// input, for every chunk count `k >= 1`.
pub proof fn lemma_chunk_invariance(s: Seq<u8>, k: int)
    requires
        terminated(s),
        wf_region(s, 0, s.len() as int),
        1 <= k,
    ensures
        merged_tables(s, k, k) == table_model(records_from(s, 0, s.len() as int)),
{
    lemma_merged_tables_prefix(s, k, k);
    lemma_chunks_cover(s, k);
}

proof fn lemma_merged_tables_prefix(s: Seq<u8>, k: int, i: int)
    requires
        terminated(s),
        wf_region(s, 0, s.len() as int),
        1 <= k,
        0 <= i <= k,
    ensures
        merged_tables(s, k, i) == table_model(chunks_claims(s, k, i)),
    decreases i,
{
    if i == 0 {
        assert(merged_tables(s, k, 0) =~= table_model(chunks_claims(s, k, 0))) by {
            assert(forall|n: Seq<u8>|
                crate::aggregate::values_for(chunks_claims(s, k, 0), n).len() == 0);
        }
    } else {
        let fs = s.len() as int;
        lemma_merged_tables_prefix(s, k, i - 1);
        lemma_chunk_lines_wf(s, k, i - 1);
        let own = claimed_records(s, chunk_start(fs, k, i - 1), chunk_len(fs, k, i - 1));
        lemma_table_model_concat(chunks_claims(s, k, i - 1), own);
    }
}

} // verus!
