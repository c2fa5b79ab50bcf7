//! Mathematical model of per-entity aggregation.
//!
//! Each entity's statistics are determined by the sequence of scaled values
//! its records carry; a table maps entity names to those statistics.  Merge
//! is commutative, and aggregating a concatenation of record lists equals
//! merging the tables of the parts — the two facts that make the result
//! independent of how the input was chunked and of the order in which
//! partial tables arrive.

use vstd::prelude::*;
use crate::fixed::{VALUE_MIN, VALUE_MAX};
use crate::records::{line_name, line_value, wf_line};

verus! {

/// Running statistics of one entity: extremes, total and number of its
/// observed scaled values.
pub struct AggModel {
    pub min: int,
    pub max: int,
    pub sum: int,
    pub count: int,
}

/// The statistics before any observation: sentinel extremes, zero total.
pub open spec fn empty_agg() -> AggModel {
    AggModel { min: VALUE_MAX as int, max: VALUE_MIN as int, sum: 0, count: 0 }
}

/// One observation: tighten the extremes, grow total and count.
pub open spec fn agg_step(a: AggModel, v: int) -> AggModel {
    AggModel {
        min: if v < a.min { v } else { a.min },
        max: if v > a.max { v } else { a.max },
        sum: a.sum + v,
        count: a.count + 1,
    }
}

/// Statistics of a whole sequence of observations.
pub open spec fn agg_of(vs: Seq<int>) -> AggModel
    decreases vs.len(),
{
    if vs.len() == 0 {
        empty_agg()
    } else {
        agg_step(agg_of(vs.drop_last()), vs.last())
    }
}

/// Combination of the statistics of two observation sequences.
pub open spec fn agg_merge(a: AggModel, b: AggModel) -> AggModel {
    AggModel {
        min: if a.min <= b.min { a.min } else { b.min },
        max: if a.max >= b.max { a.max } else { b.max },
        sum: a.sum + b.sum,
        count: a.count + b.count,
    }
}

/// The scaled values carried by the records of `lines` whose name is `n`,
/// in input order.
pub open spec fn values_for(lines: Seq<Seq<u8>>, n: Seq<u8>) -> Seq<int>
    decreases lines.len(),
{
    if lines.len() == 0 {
        Seq::empty()
    } else {
        values_for(lines.drop_last(), n) + (if line_name(lines.last()) == n {
            seq![line_value(lines.last())]
        } else {
            Seq::empty()
        })
    }
}

/// The table denoted by a record list: each named entity maps to the
/// statistics of its values.
pub open spec fn table_model(lines: Seq<Seq<u8>>) -> Map<Seq<u8>, AggModel> {
    Map::new(
        |n: Seq<u8>| values_for(lines, n).len() > 0,
        |n: Seq<u8>| agg_of(values_for(lines, n)),
    )
}

/// One more observation of `v` under name `n` added to a table.
pub open spec fn table_add(m: Map<Seq<u8>, AggModel>, n: Seq<u8>, v: int) -> Map<Seq<u8>, AggModel> {
    m.insert(n, agg_step(if m.dom().contains(n) { m[n] } else { empty_agg() }, v))
}

/// Merge of two tables: union of entities, statistics combined where both
/// sides know the entity.
pub open spec fn table_merge(a: Map<Seq<u8>, AggModel>, b: Map<Seq<u8>, AggModel>) -> Map<
    Seq<u8>,
    AggModel,
> {
    Map::new(
        |n: Seq<u8>| a.dom().contains(n) || b.dom().contains(n),
        |n: Seq<u8>|
            if a.dom().contains(n) && b.dom().contains(n) {
                agg_merge(a[n], b[n])
            } else if a.dom().contains(n) {
                a[n]
            } else {
                b[n]
            },
    )
}

/// Merging one entity's statistics is commutative: folding `b` into `a`
/// leaves the same minimum, maximum, total and count as folding `a` into
/// `b` — which is what makes the result independent of the order in which
/// workers' rows arrive.
pub proof fn lemma_agg_merge_commutative(a: AggModel, b: AggModel)
    ensures
        agg_merge(a, b) == agg_merge(b, a),
{
}

/// Merging one entity's statistics is associative: folding `b` into `a` and
/// then `c`, or first folding `c` into `b` and folding the result into `a`,
/// yields the same statistics — so any fold order over partial tables gives
/// one deterministic result.
pub proof fn lemma_agg_merge_associative(a: AggModel, b: AggModel, c: AggModel)
    ensures
        agg_merge(agg_merge(a, b), c) == agg_merge(a, agg_merge(b, c)),
{
}

/// Merging tables is commutative: for every entity, merging table `a` into
/// `b` gives the same statistics as merging `b` into `a`.
pub proof fn lemma_table_merge_commutative(a: Map<Seq<u8>, AggModel>, b: Map<Seq<u8>, AggModel>)
    ensures
        table_merge(a, b) == table_merge(b, a),
{
    assert(table_merge(a, b) =~= table_merge(b, a));
}

/// Appending one record to a list updates its table pointwise.
pub proof fn lemma_table_model_push(lines: Seq<Seq<u8>>, l: Seq<u8>)
    ensures
        table_model(lines.push(l)) == table_add(table_model(lines), line_name(l), line_value(l)),
{
    let n = line_name(l);
    let v = line_value(l);
    assert forall|k: Seq<u8>| true implies values_for(lines.push(l), k) == values_for(lines, k)
        + (if k == n {
        seq![v]
    } else {
        Seq::<int>::empty()
    }) by {
        assert(lines.push(l).drop_last() =~= lines);
        assert(lines.push(l).last() == l);
    }
    assert forall|k: Seq<u8>| k != n implies values_for(lines.push(l), k) == values_for(
        lines,
        k,
    ) by {
        assert(values_for(lines, k) + Seq::<int>::empty() =~= values_for(lines, k));
    }
    assert(values_for(lines.push(l), n).drop_last() =~= values_for(lines, n));
    assert(values_for(lines.push(l), n).last() == v);
    assert(agg_of(values_for(lines.push(l), n)) == agg_step(agg_of(values_for(lines, n)), v));
    if values_for(lines, n).len() == 0 {
        assert(agg_of(values_for(lines, n)) == empty_agg());
    }
    assert(table_model(lines.push(l)) =~= table_add(table_model(lines), n, v));
}

/// Aggregating a concatenation equals merging the parts' tables.  The
/// records of the second part must be well formed so their values lie in
/// the representable range.
pub proof fn lemma_table_model_concat(a: Seq<Seq<u8>>, b: Seq<Seq<u8>>)
    requires
        forall|k: int| 0 <= k < b.len() ==> wf_line(#[trigger] b[k]),
    ensures
        table_model(a + b) == table_merge(table_model(a), table_model(b)),
    decreases b.len(),
{
    if b.len() == 0 {
        assert(a + b =~= a);
        assert forall|k: Seq<u8>| true implies values_for(b, k).len() == 0 by {}
        assert(table_merge(table_model(a), table_model(b)) =~= table_model(a));
    } else {
        let b0 = b.drop_last();
        let l = b.last();
        assert(forall|k: int| 0 <= k < b0.len() ==> wf_line(#[trigger] b0[k]));
        lemma_table_model_concat(a, b0);
        let n = line_name(l);
        let v = line_value(l);
        assert(wf_line(b[b.len() - 1]));
        lemma_line_value_range(l);
        assert(a + b =~= (a + b0).push(l));
        lemma_table_model_push(a + b0, l);
        lemma_table_model_push(b0, l);
        assert(b0.push(l) =~= b);
        // It remains to push one observation through the merge.
        let ta = table_model(a);
        let tb0 = table_model(b0);
        lemma_agg_of_in_range(values_for(b0, n));
        assert(table_add(table_merge(ta, tb0), n, v) =~= table_merge(ta, table_add(tb0, n, v)));
    }
}

/// A well-formed record's value is representable.
pub proof fn lemma_line_value_range(l: Seq<u8>)
    requires
        wf_line(l),
    ensures
        VALUE_MIN <= line_value(l) <= VALUE_MAX,
{
}

/// Observed statistics keep their extremes inside the representable range
/// extended by the sentinels.
pub proof fn lemma_agg_of_in_range(vs: Seq<int>)
    ensures
        agg_of(vs).min <= VALUE_MAX,
        agg_of(vs).max >= VALUE_MIN,
    decreases vs.len(),
{
    if vs.len() > 0 {
        lemma_agg_of_in_range(vs.drop_last());
    }
}

} // verus!
