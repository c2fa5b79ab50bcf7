//! Sorted output: entities in strictly ascending byte order of their names,
//! one line `name;min;mean;max` per entity, each number with one fractional
//! digit.
//!
//! The mean is the truncating integer division of the scaled sum by the
//! count, taken toward zero, then printed as a scaled value — sub-unit
//! precision beyond one fractional digit is deliberately discarded.

use vstd::prelude::*;
use crate::aggregate::AggModel;
use crate::fixed::{fixed_repr, format_fixed, VALUE_MIN, VALUE_MAX};
use crate::records::{TERMINATOR, DELIMITER};
use crate::table::{Measurement, Table, unique_names, copy_range};
use vstd::arithmetic::div_mod::{lemma_div_is_ordered, lemma_div_multiples_vanish};
use vstd::multiset::Multiset;

verus! {

/// Strict lexicographic order on byte strings; a proper prefix comes first.
pub open spec fn lex_lt(a: Seq<u8>, b: Seq<u8>) -> bool
    decreases a.len(),
{
    if b.len() == 0 {
        false
    } else if a.len() == 0 {
        true
    } else if a[0] < b[0] {
        true
    } else if a[0] > b[0] {
        false
    } else {
        lex_lt(a.skip(1), b.skip(1))
    }
}

/// The order is total: two byte strings are ordered or equal.
pub proof fn lemma_lex_total(a: Seq<u8>, b: Seq<u8>)
    ensures
        lex_lt(a, b) || lex_lt(b, a) || a == b,
    decreases a.len(),
{
    if a.len() > 0 && b.len() > 0 && a[0] == b[0] {
        lemma_lex_total(a.skip(1), b.skip(1));
        if a.skip(1) == b.skip(1) {
            assert forall|i: int| 0 <= i < a.len() implies a[i] == b[i] by {
                if i > 0 {
                    assert(a.skip(1)[i - 1] == a[i]);
                    assert(b.skip(1)[i - 1] == b[i]);
                }
            }
            assert(a =~= b);
        }
    }
}

/// Nothing is below itself.
pub proof fn lemma_lex_irrefl(a: Seq<u8>)
    ensures
        !lex_lt(a, a),
    decreases a.len(),
{
    if a.len() > 0 {
        lemma_lex_irrefl(a.skip(1));
    }
}

/// The order is transitive.
pub proof fn lemma_lex_trans(a: Seq<u8>, b: Seq<u8>, c: Seq<u8>)
    requires
        lex_lt(a, b),
        lex_lt(b, c),
    ensures
        lex_lt(a, c),
    decreases a.len(),
{
    if a.len() > 0 && b.len() > 0 && c.len() > 0 && a[0] == b[0] && b[0] == c[0] {
        lemma_lex_trans(a.skip(1), b.skip(1), c.skip(1));
    }
}

/// Compares two byte strings in lexicographic order.
#[verifier::loop_isolation(false)]
pub fn lex_lt_bytes(a: &Vec<u8>, b: &Vec<u8>) -> (r: bool)
    ensures
        r == lex_lt(a@, b@),
{
    let mut i: usize = 0;
    proof {
        assert(a@.skip(0) =~= a@);
        assert(b@.skip(0) =~= b@);
    }
    loop
        invariant
            0 <= i <= a.len(),
            i <= b.len(),
            lex_lt(a@, b@) == lex_lt(a@.skip(i as int), b@.skip(i as int)),
        decreases a.len() - i,
    {
        if i >= b.len() {
            return false;
        }
        if i >= a.len() {
            return true;
        }
        if a[i] < b[i] {
            return true;
        }
        if a[i] > b[i] {
            return false;
        }
        proof {
            assert(a@.skip(i as int).skip(1) =~= a@.skip(i + 1));
            assert(b@.skip(i as int).skip(1) =~= b@.skip(i + 1));
        }
        i = i + 1;
    }
}

/// The mean of a scaled total over a positive count, truncated toward zero.
pub open spec fn mean_scaled(sum: int, count: int) -> int {
    if sum >= 0 {
        sum / count
    } else {
        -((-sum) / count)
    }
}

/// One output line: `name;min;mean;max` and a terminator, each number in
/// fixed-point text.
pub open spec fn row_line(name: Seq<u8>, a: AggModel) -> Seq<u8> {
    name + seq![DELIMITER] + fixed_repr(a.min) + seq![DELIMITER] + fixed_repr(
        mean_scaled(a.sum, a.count),
    ) + seq![DELIMITER] + fixed_repr(a.max) + seq![TERMINATOR]
}

impl Measurement {
    /// Renders this row as one output line.
    pub fn summary_line(&self) -> (r: Vec<u8>)
        requires
            self.wf(),
            self.count >= 1,
        ensures
            r@ == row_line(self.name@, self.agg()),
    {
        let mut out = copy_range(&self.name, 0, self.name.len());
        proof {
            assert(self.name@.subrange(0, self.name@.len() as int) =~= self.name@);
        }
        out.push(DELIMITER);
        let mut part = format_fixed(self.min as i64);
        out.append(&mut part);
        out.push(DELIMITER);
        let mean = self.mean();
        let mut part = format_fixed(mean);
        out.append(&mut part);
        out.push(DELIMITER);
        let mut part = format_fixed(self.max as i64);
        out.append(&mut part);
        out.push(TERMINATOR);
        proof {
            assert(out@ =~= row_line(self.name@, self.agg()));
        }
        out
    }

    /// The truncated scaled mean of this row's observations.
    pub fn mean(&self) -> (r: i64)
        requires
            self.wf(),
            self.count >= 1,
        ensures
            r == mean_scaled(self.sum as int, self.count as int),
            VALUE_MIN <= r <= VALUE_MAX,
    {
        let c = self.count as u128;
        if self.sum >= 0 {
            let q = (self.sum as u128) / c;
            proof {
                lemma_div_is_ordered(
                    self.sum as int,
                    (self.count as int) * (VALUE_MAX as int),
                    self.count as int,
                );
                lemma_div_multiples_vanish(VALUE_MAX as int, self.count as int);
                assert((self.count as int) * (VALUE_MAX as int) == (self.count as int) * (
                VALUE_MAX as int));
                assert(((self.count as int) * (VALUE_MAX as int)) / (self.count as int)
                    == VALUE_MAX as int);
            }
            q as i64
        } else {
            let mag = (-self.sum) as u128;
            let q = mag / c;
            proof {
                lemma_div_is_ordered(
                    mag as int,
                    (self.count as int) * (-(VALUE_MIN as int)),
                    self.count as int,
                );
                lemma_div_multiples_vanish(-(VALUE_MIN as int), self.count as int);
            }
            -(q as i64)
        }
    }
}

/// The output text of a row vector, in vector order.
pub open spec fn render_rows(rows: Seq<Measurement>) -> Seq<u8>
    decreases rows.len(),
{
    if rows.len() == 0 {
        Seq::empty()
    } else {
        render_rows(rows.drop_last()) + row_line(rows.last().name@, rows.last().agg())
    }
}

/// Renders every row, in order, as one output line each.
#[verifier::loop_isolation(false)]
pub fn render(rows: &Vec<Measurement>) -> (r: Vec<u8>)
    requires
        forall|i: int|
            0 <= i < rows@.len() ==> (#[trigger] rows@[i]).wf() && rows@[i].count >= 1,
    ensures
        r@ == render_rows(rows@),
{
    let mut out: Vec<u8> = Vec::new();
    let mut i: usize = 0;
    proof {
        assert(rows@.subrange(0, 0) =~= Seq::<Measurement>::empty());
    }
    while i < rows.len()
        invariant
            0 <= i <= rows@.len(),
            out@ == render_rows(rows@.subrange(0, i as int)),
        decreases rows@.len() - i,
    {
        let mut line = rows[i].summary_line();
        out.append(&mut line);
        proof {
            let pre = rows@.subrange(0, i as int);
            let ext = rows@.subrange(0, i + 1);
            assert(ext.drop_last() =~= pre);
            assert(ext.last() == rows@[i as int]);
        }
        i = i + 1;
    }
    proof {
        assert(rows@.subrange(0, rows@.len() as int) =~= rows@);
    }
    out
}

/// Sorts a table's rows into strictly ascending name order.  The result
/// holds exactly the table's rows — the same multiset — and its order is
/// pinned by strict ascent.
#[verifier::loop_isolation(false)]
pub fn sorted_rows(t: Table) -> (r: Vec<Measurement>)
    requires
        t.wf(),
    ensures
        r@.to_multiset() == t.rows@.to_multiset(),
        forall|i: int, j: int|
            0 <= i < j < r@.len() ==> lex_lt((#[trigger] r@[i]).name@, (#[trigger] r@[j]).name@),
        forall|i: int| 0 <= i < r@.len() ==> (#[trigger] r@[i]).wf() && r@[i].count >= 1,
{
    broadcast use vstd::seq_lib::group_to_multiset_ensures;

    let mut rest = t.rows;
    let mut out: Vec<Measurement> = Vec::new();
    while rest.len() > 0
        invariant
            out@.to_multiset().add(rest@.to_multiset()) == t.rows@.to_multiset(),
            unique_names(rest@),
            forall|i: int|
                0 <= i < rest@.len() ==> (#[trigger] rest@[i]).wf() && rest@[i].count >= 1,
            forall|i: int| 0 <= i < out@.len() ==> (#[trigger] out@[i]).wf() && out@[i].count >= 1,
            forall|i: int, j: int|
                0 <= i < j < out@.len() ==> lex_lt(
                    (#[trigger] out@[i]).name@,
                    (#[trigger] out@[j]).name@,
                ),
            forall|i: int, j: int|
                0 <= i < out@.len() && 0 <= j < rest@.len() ==> lex_lt(
                    (#[trigger] out@[i]).name@,
                    (#[trigger] rest@[j]).name@,
                ),
        decreases rest@.len(),
    {
        // Index of the least remaining name.
        let mut mi: usize = 0;
        let mut j: usize = 1;
        while j < rest.len()
            invariant
                0 <= mi < j <= rest@.len(),
                forall|q: int|
                    0 <= q < j && q != mi ==> !lex_lt(
                        (#[trigger] rest@[q]).name@,
                        rest@[mi as int].name@,
                    ),
            decreases rest@.len() - j,
        {
            if lex_lt_bytes(&rest[j].name, &rest[mi].name) {
                let ghost old_mi = mi as int;
                mi = j;
                proof {
                    assert forall|q: int| 0 <= q < j + 1 && q != mi as int implies !lex_lt(
                        (#[trigger] rest@[q]).name@,
                        rest@[mi as int].name@,
                    ) by {
                        if lex_lt(rest@[q].name@, rest@[mi as int].name@) {
                            lemma_lex_trans(
                                rest@[q].name@,
                                rest@[mi as int].name@,
                                rest@[old_mi].name@,
                            );
                            if q == old_mi {
                                lemma_lex_irrefl(rest@[old_mi].name@);
                            }
                        }
                    }
                }
            }
            j = j + 1;
        }
        let ghost rest0 = rest@;
        let m = rest.remove(mi);
        proof {
            assert(rest@ =~= rest0.remove(mi as int));
            assert forall|q: int| 0 <= q < rest@.len() implies #[trigger] rest@[q] == (if q < mi
                as int {
                rest0[q]
            } else {
                rest0[q + 1]
            }) by {}
            // The removed row's name is strictly below every remaining name.
            assert forall|q: int| 0 <= q < rest@.len() implies lex_lt(
                m.name@,
                (#[trigger] rest@[q]).name@,
            ) by {
                let q0 = if q < mi as int {
                    q
                } else {
                    q + 1
                };
                assert(rest0[q0].name@ != m.name@);
                assert(!lex_lt(rest0[q0].name@, m.name@));
                lemma_lex_total(m.name@, rest0[q0].name@);
            }
        }
        let ghost out0 = out@;
        out.push(m);
        proof {
            assert(out@.drop_last() =~= out0);
            assert(forall|i: int| 0 <= i < out0.len() ==> #[trigger] out@[i] == out0[i]);
            assert(out@.to_multiset() =~= out0.to_multiset().insert(m));
            assert(rest@.to_multiset() =~= rest0.to_multiset().remove(m));
            assert(out@.to_multiset().add(rest@.to_multiset()) =~= out0.to_multiset().add(
                rest0.to_multiset(),
            ));
        }
    }
    proof {
        assert(rest@.to_multiset() =~= Multiset::<Measurement>::empty());
        assert(out@.to_multiset() =~= out@.to_multiset().add(rest@.to_multiset()));
    }
    out
}

} // verus!
