//! The aggregate table: per-entity running statistics, updated record by
//! record while a chunk is scanned, and merged table by table afterwards.
//!
//! A table is a vector of rows with pairwise distinct names; its model is
//! the map from entity name to statistics that `aggregate` reasons about.

use vstd::prelude::*;
use crate::aggregate::{
    AggModel, empty_agg, agg_step, agg_merge, table_add, table_merge,
};
use crate::fixed::{VALUE_MIN, VALUE_MAX};

verus! {

/// One entity's row: its name and the running statistics of its observed
/// scaled values, as in the model's `AggModel`.
pub struct Measurement {
    pub name: Vec<u8>,
    pub min: i32,
    pub max: i32,
    pub sum: i128,
    pub count: u64,
}

impl Measurement {
    /// The statistics this row denotes.
    pub open spec fn agg(self) -> AggModel {
        AggModel {
            min: self.min as int,
            max: self.max as int,
            sum: self.sum as int,
            count: self.count as int,
        }
    }

    /// The total stays within `count` times the value range, so sums and
    /// merges cannot overflow.
    pub open spec fn wf(self) -> bool {
        (self.count as int) * (VALUE_MIN as int) <= self.sum as int <= (self.count as int) * (
        VALUE_MAX as int)
    }

    /// A fresh row: sentinel extremes so the first observation sets both.
    pub fn new(name: Vec<u8>) -> (r: Measurement)
        ensures
            r.name@ == name@,
            r.agg() == empty_agg(),
            r.wf(),
            r.count == 0,
    {
        Measurement { name, min: i32::MAX, max: i32::MIN, sum: 0, count: 0 }
    }

    /// Fold one observed scaled value into the row.
    pub fn take_measure(&mut self, measure: i32)
        requires
            old(self).wf(),
            old(self).count < u64::MAX,
        ensures
            final(self).wf(),
            final(self).name == old(self).name,
            final(self).count == old(self).count + 1,
            final(self).agg() == agg_step(old(self).agg(), measure as int),
    {
        if measure < self.min {
            self.min = measure;
        }
        if measure > self.max {
            self.max = measure;
        }
        self.sum = self.sum + (measure as i128);
        self.count = self.count + 1;
    }

    /// Fold another row's statistics into this row, as when a partial
    /// table's row for the same entity arrives.
    pub fn add_measurement(&mut self, measurement: Measurement)
        requires
            old(self).wf(),
            measurement.wf(),
            old(self).count + measurement.count <= u64::MAX,
        ensures
            final(self).wf(),
            final(self).name == old(self).name,
            final(self).count == old(self).count + measurement.count,
            final(self).agg() == agg_merge(old(self).agg(), measurement.agg()),
    {
        if measurement.min < self.min {
            self.min = measurement.min;
        }
        if measurement.max > self.max {
            self.max = measurement.max;
        }
        self.sum = self.sum + measurement.sum;
        self.count = self.count + measurement.count;
    }
}

impl Default for Measurement {
    /// A fresh row with an empty name.
    fn default() -> (r: Measurement)
        ensures
            r.name@ == Seq::<u8>::empty(),
            r.agg() == empty_agg(),
            r.wf(),
            r.count == 0,
    {
        Measurement::new(Vec::new())
    }
}

/// Pairwise distinct row names.
pub open spec fn unique_names(rows: Seq<Measurement>) -> bool {
    forall|i: int, j: int|
        0 <= i < j < rows.len() ==> (#[trigger] rows[i]).name@ != (#[trigger] rows[j]).name@
}

/// The map denoted by a row vector.
pub open spec fn rows_model(rows: Seq<Measurement>) -> Map<Seq<u8>, AggModel>
    decreases rows.len(),
{
    if rows.len() == 0 {
        Map::empty()
    } else {
        rows_model(rows.drop_last()).insert(rows.last().name@, rows.last().agg())
    }
}

pub proof fn lemma_rows_model_contains(rows: Seq<Measurement>, n: Seq<u8>)
    ensures
        rows_model(rows).dom().contains(n) <==> exists|i: int|
            0 <= i < rows.len() && (#[trigger] rows[i]).name@ == n,
    decreases rows.len(),
{
    if rows.len() > 0 {
        let r0 = rows.drop_last();
        lemma_rows_model_contains(r0, n);
        if rows.last().name@ == n {
            assert(rows[rows.len() - 1].name@ == n);
        } else {
            if rows_model(rows).dom().contains(n) {
                let i = choose|i: int| 0 <= i < r0.len() && (#[trigger] r0[i]).name@ == n;
                assert(rows[i].name@ == n);
            }
            if exists|i: int| 0 <= i < rows.len() && (#[trigger] rows[i]).name@ == n {
                let i = choose|i: int| 0 <= i < rows.len() && (#[trigger] rows[i]).name@ == n;
                assert(i < rows.len() - 1);
                assert(r0[i].name@ == n);
            }
        }
    }
}

pub proof fn lemma_rows_model_index(rows: Seq<Measurement>, i: int)
    requires
        unique_names(rows),
        0 <= i < rows.len(),
    ensures
        rows_model(rows).dom().contains(rows[i].name@),
        rows_model(rows)[rows[i].name@] == rows[i].agg(),
    decreases rows.len(),
{
    let r0 = rows.drop_last();
    if i < rows.len() - 1 {
        assert(unique_names(r0));
        lemma_rows_model_index(r0, i);
        assert(r0[i] == rows[i]);
        assert(rows.last().name@ != rows[i].name@);
    }
}

pub proof fn lemma_rows_model_update(rows: Seq<Measurement>, i: int, m: Measurement)
    requires
        unique_names(rows),
        0 <= i < rows.len(),
        m.name@ == rows[i].name@,
    ensures
        rows_model(rows.update(i, m)) == rows_model(rows).insert(m.name@, m.agg()),
    decreases rows.len(),
{
    let rows2 = rows.update(i, m);
    if i == rows.len() - 1 {
        assert(rows2.drop_last() =~= rows.drop_last());
        assert(rows2.last() == m);
        assert(rows_model(rows2) =~= rows_model(rows).insert(m.name@, m.agg()));
    } else {
        let r0 = rows.drop_last();
        assert(unique_names(r0));
        assert(r0[i] == rows[i]);
        lemma_rows_model_update(r0, i, m);
        assert(rows2.drop_last() =~= r0.update(i, m));
        assert(rows2.last() == rows.last());
        assert(rows.last().name@ != m.name@);
        assert(rows_model(rows2) =~= rows_model(rows).insert(m.name@, m.agg()));
    }
}

/// Every row count is at most `c`.
pub open spec fn counts_bounded(rows: Seq<Measurement>, c: int) -> bool {
    forall|i: int| 0 <= i < rows.len() ==> (#[trigger] rows[i]).count <= c
}

/// Two rows for the same entity whose counts can be added without overflow.
pub open spec fn row_pair_ok(a: Measurement, b: Measurement) -> bool {
    a.name@ == b.name@ ==> a.count + b.count <= u64::MAX
}

/// No pair of rows for the same entity would overflow the merged count.
pub open spec fn counts_compatible(a: Map<Seq<u8>, AggModel>, b: Map<Seq<u8>, AggModel>) -> bool {
    forall|n: Seq<u8>|
        #![auto]
        a.dom().contains(n) && b.dom().contains(n) ==> a[n].count + b[n].count <= u64::MAX
}

/// A partial or merged aggregate table.
pub struct Table {
    pub rows: Vec<Measurement>,
}

impl Table {
    /// The entity-to-statistics map this table denotes.
    pub open spec fn model(self) -> Map<Seq<u8>, AggModel> {
        rows_model(self.rows@)
    }

    /// Distinct names, well-formed rows, every row observed at least once.
    pub open spec fn wf(self) -> bool {
        &&& unique_names(self.rows@)
        &&& forall|i: int|
            0 <= i < self.rows@.len() ==> (#[trigger] self.rows@[i]).wf() && self.rows@[i].count
                >= 1
    }

    /// An empty table.
    pub fn new() -> (r: Table)
        ensures
            r.wf(),
            r.model() == Map::<Seq<u8>, AggModel>::empty(),
            r.rows@.len() == 0,
    {
        Table { rows: Vec::new() }
    }

    /// Index of the row named by `buf[from..to]`, if any.
    fn find_row(&self, buf: &Vec<u8>, from: usize, to: usize) -> (r: Option<usize>)
        requires
            from <= to <= buf.len(),
        ensures
            ({
                let n = buf@.subrange(from as int, to as int);
                match r {
                    Some(i) => i < self.rows@.len() && self.rows@[i as int].name@ == n,
                    None => forall|i: int|
                        0 <= i < self.rows@.len() ==> (#[trigger] self.rows@[i]).name@ != n,
                }
            }),
    {
        let ghost n = buf@.subrange(from as int, to as int);
        let mut i: usize = 0;
        while i < self.rows.len()
            invariant
                0 <= i <= self.rows@.len(),
                from <= to <= buf.len(),
                n == buf@.subrange(from as int, to as int),
                forall|j: int| 0 <= j < i ==> (#[trigger] self.rows@[j]).name@ != n,
            decreases self.rows@.len() - i,
        {
            if range_eq(&self.rows[i].name, buf, from, to) {
                return Some(i);
            }
            i = i + 1;
        }
        None
    }

    /// Fold one record — name `buf[from..to]`, scaled value `measure` —
    /// into the table, creating the entity's row on first encounter.
    pub fn record(&mut self, buf: &Vec<u8>, from: usize, to: usize, measure: i32)
        requires
            old(self).wf(),
            from <= to <= buf.len(),
            forall|i: int|
                0 <= i < old(self).rows@.len() ==> (#[trigger] old(self).rows@[i]).count
                    < u64::MAX,
        ensures
            final(self).wf(),
            final(self).model() == table_add(
                old(self).model(),
                buf@.subrange(from as int, to as int),
                measure as int,
            ),
            forall|c: int|
                c >= 0 && counts_bounded(old(self).rows@, c) ==> counts_bounded(
                    final(self).rows@,
                    c + 1,
                ),
    {
        let ghost n = buf@.subrange(from as int, to as int);
        let ghost rows0 = self.rows@;
        proof {
            lemma_rows_model_contains(rows0, n);
        }
        match self.find_row(buf, from, to) {
            Some(i) => {
                proof {
                    lemma_rows_model_index(rows0, i as int);
                }
                let mut m = self.rows.remove(i);
                m.take_measure(measure);
                self.rows.insert(i, m);
                proof {
                    assert(self.rows@ =~= rows0.update(i as int, m));
                    lemma_rows_model_update(rows0, i as int, m);
                    assert(self.model() =~= table_add(rows_model(rows0), n, measure as int));
                    assert forall|c: int|
                        counts_bounded(rows0, c) implies counts_bounded(self.rows@, c + 1) by {
                        assert(forall|j: int|
                            0 <= j < self.rows@.len() && j != i ==> self.rows@[j]
                                == rows0[j]);
                    }
                }
            },
            None => {
                let name = copy_range(buf, from, to);
                let mut m = Measurement::new(name);
                m.take_measure(measure);
                self.rows.push(m);
                proof {
                    assert(self.rows@.drop_last() =~= rows0);
                    assert(self.rows@.last() == m);
                    assert(!rows_model(rows0).dom().contains(n));
                    assert(self.model() =~= table_add(rows_model(rows0), n, measure as int));
                    assert(forall|j: int|
                        0 <= j < rows0.len() ==> #[trigger] self.rows@[j] == rows0[j]);
                    assert forall|c: int|
                        c >= 0 && counts_bounded(rows0, c) implies counts_bounded(
                        self.rows@,
                        c + 1,
                    ) by {
                        assert(self.rows@[self.rows@.len() - 1].count == 1);
                    }
                }
            },
        }
    }

    /// Whether merging `other` into this table would keep every entity's
    /// record count representable.
    pub fn compatible(&self, other: &Table) -> (r: bool)
        requires
            self.wf(),
            other.wf(),
        ensures
            r <==> counts_compatible(self.model(), other.model()),
    {
        let mut j: usize = 0;
        while j < other.rows.len()
            invariant
                0 <= j <= other.rows@.len(),
                self.wf(),
                other.wf(),
                forall|jj: int, i: int|
                    0 <= jj < j && 0 <= i < self.rows@.len() ==> row_pair_ok(
                        #[trigger] self.rows@[i],
                        #[trigger] other.rows@[jj],
                    ),
            decreases other.rows@.len() - j,
        {
            let o = &other.rows[j];
            match self.find_row(&o.name, 0, o.name.len()) {
                Some(i) => {
                    proof {
                        assert(o.name@.subrange(0, o.name@.len() as int) =~= o.name@);
                    }
                    if self.rows[i].count > u64::MAX - o.count {
                        proof {
                            lemma_rows_model_index(self.rows@, i as int);
                            lemma_rows_model_index(other.rows@, j as int);
                        }
                        return false;
                    }
                    proof {
                        assert forall|i2: int|
                            0 <= i2 < self.rows@.len() implies row_pair_ok(
                            #[trigger] self.rows@[i2],
                            other.rows@[j as int],
                        ) by {
                            if i2 != i as int {
                                assert(self.rows@[i2].name@ != self.rows@[i as int].name@);
                            }
                        }
                    }
                },
                None => {
                    proof {
                        assert(o.name@.subrange(0, o.name@.len() as int) =~= o.name@);
                        assert forall|i2: int|
                            0 <= i2 < self.rows@.len() implies row_pair_ok(
                            #[trigger] self.rows@[i2],
                            other.rows@[j as int],
                        ) by {}
                    }
                },
            }
            j = j + 1;
        }
        proof {
            assert forall|n: Seq<u8>|
                #![auto]
                self.model().dom().contains(n) && other.model().dom().contains(
                    n,
                ) implies self.model()[n].count + other.model()[n].count <= u64::MAX by {
                lemma_rows_model_contains(self.rows@, n);
                lemma_rows_model_contains(other.rows@, n);
                let i = choose|i: int| 0 <= i < self.rows@.len() && (#[trigger] self.rows@[i]).name@ == n;
                let jj = choose|jj: int|
                    0 <= jj < other.rows@.len() && (#[trigger] other.rows@[jj]).name@ == n;
                lemma_rows_model_index(self.rows@, i);
                lemma_rows_model_index(other.rows@, jj);
                assert(row_pair_ok(self.rows@[i], other.rows@[jj]));
            }
        }
        true
    }

    /// Merge a partial table into this one: statistics combine per entity,
    /// unseen entities join as they are.
    #[verifier::loop_isolation(false)]
    pub fn merge_into(&mut self, other: Table)
        requires
            old(self).wf(),
            other.wf(),
            counts_compatible(old(self).model(), other.model()),
        ensures
            final(self).wf(),
            final(self).model() == table_merge(old(self).model(), other.model()),
    {
        let ghost target = table_merge(old(self).model(), other.model());
        proof {
            assert forall|n: Seq<u8>| #![auto] target.dom().contains(n) implies 0 <= target[n].count
                <= u64::MAX by {
                if old(self).model().dom().contains(n) {
                    lemma_rows_model_count_range(old(self).rows@, n);
                }
                if other.model().dom().contains(n) {
                    lemma_rows_model_count_range(other.rows@, n);
                }
            }
        }
        let mut rest = other;
        while rest.rows.len() > 0
            invariant
                self.wf(),
                rest.wf(),
                table_merge(self.model(), rest.model()) == target,
            decreases rest.rows@.len(),
        {
            let ghost rrows = rest.rows@;
            match rest.rows.pop() {
                None => {
                    proof {
                        assert(false);
                    }
                },
                Some(m) => {
                    let ghost n = m.name@;
                    proof {
                        assert(rrows.drop_last() =~= rest.rows@);
                        assert(rrows.last() == m);
                        assert(rest.model().insert(n, m.agg()) == rows_model(rrows));
                        lemma_rows_model_contains(rest.rows@, n);
                        assert(forall|i: int|
                            0 <= i < rest.rows@.len() ==> #[trigger] rest.rows@[i]
                                == rrows[i]);
                        assert(!rest.model().dom().contains(n));
                    }
                    let ghost selfrows = self.rows@;
                    match self.find_row(&m.name, 0, m.name.len()) {
                        Some(i) => {
                            proof {
                                assert(m.name@.subrange(0, m.name@.len() as int) =~= m.name@);
                                lemma_rows_model_index(selfrows, i as int);
                                // The merged count fits: the invariant equates it
                                // with an entry of the target, which the
                                // compatibility premise bounds.
                                assert(rows_model(rrows).dom().contains(n));
                                assert(rows_model(rrows)[n] == m.agg());
                                assert(table_merge(self.model(), rows_model(rrows)).dom().contains(
                                    n,
                                ));
                                assert(target[n].count == self.model()[n].count + m.count);
                                assert(target[n].count <= u64::MAX);
                            }
                            let mut mm = self.rows.remove(i);
                            mm.add_measurement(m);
                            self.rows.insert(i, mm);
                            proof {
                                assert(self.rows@ =~= selfrows.update(i as int, mm));
                                lemma_rows_model_update(selfrows, i as int, mm);
                                assert(table_merge(self.model(), rest.model()) =~= target);
                            }
                        },
                        None => {
                            proof {
                                assert(m.name@.subrange(0, m.name@.len() as int) =~= m.name@);
                                lemma_rows_model_contains(selfrows, n);
                            }
                            self.rows.push(m);
                            proof {
                                assert(self.rows@.drop_last() =~= selfrows);
                                assert(self.rows@.last() == m);
                                assert(!rows_model(selfrows).dom().contains(n));
                                assert(forall|j: int|
                                    0 <= j < selfrows.len() ==> #[trigger] self.rows@[j]
                                        == selfrows[j]);
                                assert(table_merge(self.model(), rest.model()) =~= target);
                            }
                        },
                    }
                },
            }
        }
        proof {
            assert(rest.model() =~= Map::<Seq<u8>, AggModel>::empty());
            assert(self.model() =~= table_merge(self.model(), rest.model()));
        }
    }
}

/// Every entity of a table of well-formed rows has a representable count.
pub proof fn lemma_rows_model_count_range(rows: Seq<Measurement>, n: Seq<u8>)
    requires
        unique_names(rows),
        rows_model(rows).dom().contains(n),
    ensures
        0 <= rows_model(rows)[n].count <= u64::MAX,
{
    lemma_rows_model_contains(rows, n);
    let i = choose|i: int| 0 <= i < rows.len() && (#[trigger] rows[i]).name@ == n;
    lemma_rows_model_index(rows, i);
}

/// Whether `a` holds exactly the bytes `buf[from..to]`.
fn range_eq(a: &Vec<u8>, buf: &Vec<u8>, from: usize, to: usize) -> (r: bool)
    requires
        from <= to <= buf.len(),
    ensures
        r <==> a@ == buf@.subrange(from as int, to as int),
{
    let n = to - from;
    if a.len() != n {
        return false;
    }
    let mut j: usize = 0;
    while j < n
        invariant
            0 <= j <= n,
            a@.len() == n,
            from + n <= buf.len(),
            to == from + n,
            forall|q: int| 0 <= q < j ==> a@[q] == buf@[from + q],
        decreases n - j,
    {
        if a[j] != buf[from + j] {
            return false;
        }
        j = j + 1;
    }
    proof {
        assert(a@ =~= buf@.subrange(from as int, to as int));
    }
    true
}

/// A fresh vector holding the bytes `buf[from..to]`.
pub(crate) fn copy_range(buf: &Vec<u8>, from: usize, to: usize) -> (r: Vec<u8>)
    requires
        from <= to <= buf.len(),
    ensures
        r@ == buf@.subrange(from as int, to as int),
{
    let mut out: Vec<u8> = Vec::new();
    let mut j: usize = from;
    while j < to
        invariant
            from <= j <= to <= buf.len(),
            out@ == buf@.subrange(from as int, j as int),
        decreases to - j,
    {
        out.push(buf[j]);
        j = j + 1;
        proof {
            assert(out@ =~= buf@.subrange(from as int, j as int));
        }
    }
    out
}

} // verus!
