//! Run-time tests of the machine limits that the operators ask for.

use vstd::prelude::*;
use core::ops::Add;
use crate::combine::{lemma_floor_div, lemma_towards_zero_bounds, Operation};
use crate::distribution::{pairs, Distribution};
use crate::evaluate::{lemma_sums_prefix, tables};
use crate::expression::Ranker;
use crate::repeat::{lemma_repeated, most_rolls, power, rolls_weight};
use crate::table::{lemma_negated, Table};
use crate::tally::{in_reach, lemma_entries, lemma_entries_order, reach};

verus! {

/// The greatest magnitude within reach, as a machine integer.
fn reach_limit() -> (r: i128)
    ensures
        r == reach(),
{
    ((isize::MAX / 32 - 1) / 2) as i128
}

impl Operation {
    /// Computes the value that the operator gives for the pair `v1`, `v2`,
    /// in integers wide enough for every such value.
    pub fn compute_wide(self, v1: isize, v2: isize) -> (v: i128)
        requires
            self is Floor ==> v2 != 0,
        ensures
            v == self.apply(v1 as int, v2 as int),
    {
        let a: i128 = v1 as i128;
        let b: i128 = v2 as i128;
        match self {
            Operation::Sum => a + b,
            Operation::Product => {
                assert(-0x8000_0000_0000_0000 <= a <= 0x7fff_ffff_ffff_ffff);
                assert(-0x8000_0000_0000_0000 <= b <= 0x7fff_ffff_ffff_ffff);
                assert(-0x4000_0000_0000_0000_0000_0000_0000_0000 <= a * b
                    <= 0x4000_0000_0000_0000_0000_0000_0000_0000) by (nonlinear_arith)
                    requires
                        -0x8000_0000_0000_0000 <= a <= 0x7fff_ffff_ffff_ffff,
                        -0x8000_0000_0000_0000 <= b <= 0x7fff_ffff_ffff_ffff,
                ;
                a * b
            },
            Operation::Floor => {
                proof {
                    lemma_floor_div(a as int, b as int);
                    lemma_towards_zero_bounds(a as int, b as int);
                }
                let towards_zero: i128 = a / b;
                let rest: i128 = a % b;
                if rest != 0 && ((rest < 0) != (b < 0)) {
                    towards_zero - 1
                } else {
                    towards_zero
                }
            },
            Operation::Compare(op) => if op.test(v1, v2) {
                1
            } else {
                0
            },
        }
    }
}

/// Tests whether `op` can be worked out on `a` and `b` within machine
/// limits.
pub fn can_combine(op: Operation, a: &Distribution, b: &Distribution) -> (r: bool)
    requires
        a.wf(),
        b.wf(),
        op is Floor ==> b@.at(0) == 0,
    ensures
        r == Table::combines(op, a@, b@),
{
    if a.total().checked_mul(b.total()).is_none() {
        return false;
    }
    let xs = a.occurrences().collect();
    let ys = b.occurrences().collect();
    let limit: i128 = reach_limit();
    proof {
        lemma_entries(a@);
        lemma_entries(b@);
        lemma_entries_order(a@);
        lemma_entries_order(b@);
    }
    let mut i: usize = 0;
    while i < xs.len()
        invariant
            i <= xs.len(),
            a.wf(),
            b.wf(),
            limit == reach(),
            pairs(xs@) == a@.entries(),
            pairs(ys@) == b@.entries(),
            op is Floor ==> b@.at(0) == 0,
            forall|p: int, q: int|
                0 <= p < i && 0 <= q < ys.len() ==> in_reach(
                    #[trigger] op.apply(a@.entries()[p].0, b@.entries()[q].0),
                ),
        decreases xs.len() - i,
    {
        let mut j: usize = 0;
        while j < ys.len()
            invariant
                i < xs.len(),
                j <= ys.len(),
                a.wf(),
                b.wf(),
                limit == reach(),
                pairs(xs@) == a@.entries(),
                pairs(ys@) == b@.entries(),
                op is Floor ==> b@.at(0) == 0,
                forall|p: int, q: int|
                    0 <= p < i && 0 <= q < ys.len() ==> in_reach(
                        #[trigger] op.apply(a@.entries()[p].0, b@.entries()[q].0),
                    ),
                forall|q: int|
                    0 <= q < j ==> in_reach(
                        #[trigger] op.apply(a@.entries()[i as int].0, b@.entries()[q].0),
                    ),
            decreases ys.len() - j,
        {
            proof {
                lemma_entries(a@);
                lemma_entries(b@);
                assert(a@.entries()[i as int] == (xs@[i as int].0 as int, xs@[i as int].1 as nat));
                assert(b@.entries()[j as int] == (ys@[j as int].0 as int, ys@[j as int].1 as nat));
            }
            let value: i128 = op.compute_wide(xs[i].0, ys[j].0);
            if value < -limit || value > limit {
                return false;
            }
            j += 1;
        }
        i += 1;
    }
    proof {
        assert forall|v1: int, v2: int| a@.at(v1) > 0 && b@.at(v2) > 0 implies in_reach(
            #[trigger] op.apply(v1, v2),
        ) by {
            let p = choose|p: int|
                0 <= p < a@.entries().len() && a@.entries()[p] == (v1, a@.at(v1));
            let q = choose|q: int|
                0 <= q < b@.entries().len() && b@.entries()[q] == (v2, b@.at(v2));
            assert(in_reach(op.apply(a@.entries()[p].0, b@.entries()[q].0)));
        }
    }
    true
}

/// Tests whether the reflection of `d` about zero is a table that a machine
/// can hold.
pub fn can_negate(d: &Distribution) -> (r: bool)
    requires
        d.wf(),
    ensures
        r == d@.negated().representable(),
{
    proof {
        lemma_negated(d@);
    }
    d.min() > isize::MIN && d.max() > isize::MIN
}

/// One to any power is one, nothing to a power above zero is nothing, and
/// from a base of one or more a higher power is no smaller.
pub proof fn lemma_power(base: nat, low: nat, high: nat)
    requires
        low <= high,
    ensures
        base == 1 ==> power(base, high) == 1,
        base == 0 && high > 0 ==> power(base, high) == 0,
        base >= 1 ==> 1 <= power(base, low) <= power(base, high),
    decreases high,
{
    if high > 0 {
        if low < high {
            lemma_power(base, low, (high - 1) as nat);
        } else {
            lemma_power(base, (low - 1) as nat, (high - 1) as nat);
        }
        let p = power(base, (high - 1) as nat);
        if base >= 1 {
            assert(p * base >= p) by (nonlinear_arith)
                requires
                    base >= 1,
                    p >= 1,
            ;
        } else {
            assert(p * 0 == 0) by (nonlinear_arith);
        }
    }
}

/// `base` to the power `exponent`, where it fits.
fn checked_power(base: usize, exponent: usize) -> (r: Option<usize>)
    ensures
        match r {
            Some(p) => p == power(base as nat, exponent as nat),
            None => power(base as nat, exponent as nat) > usize::MAX,
        },
{
    if base <= 1 {
        proof {
            lemma_power(base as nat, 0, exponent as nat);
        }
        if base == 0 && exponent > 0 {
            Some(0)
        } else {
            Some(1)
        }
    } else {
        let mut p: usize = 1;
        let mut i: usize = 0;
        while i < exponent
            invariant
                i <= exponent,
                base >= 2,
                p == power(base as nat, i as nat),
            decreases exponent - i,
        {
            p = match p.checked_mul(base) {
                Some(q) => q,
                None => {
                    proof {
                        lemma_power(base as nat, (i + 1) as nat, exponent as nat);
                    }
                    return None;
                },
            };
            i += 1;
        }
        Some(p)
    }
}

/// The rolls of the first numbers of rolls are no more than those of all,
/// and one number more adds its rolls.
pub proof fn lemma_rolls_weight_prefix(counts: Seq<(int, nat)>, total: nat, i: int)
    requires
        0 <= i <= counts.len(),
    ensures
        rolls_weight(counts.take(i), total) <= rolls_weight(counts, total),
        i < counts.len() ==> rolls_weight(counts.take(i + 1), total) == rolls_weight(
            counts.take(i),
            total,
        ) + power(total, counts[i].0 as nat) * counts[i].1,
    decreases counts.len(),
{
    if i == counts.len() {
        assert(counts.take(i) =~= counts);
    } else {
        lemma_rolls_weight_prefix(counts.drop_last(), total, i);
        assert(counts.drop_last().take(i) =~= counts.take(i));
        assert(counts.take(i + 1).drop_last() =~= counts.take(i));
    }
}

/// Tests whether a repetition can be worked out within machine limits.
pub fn can_repeat(count: &Distribution, value: &Distribution, ranker: &Ranker) -> (r: bool)
    requires
        count.wf(),
        value.wf(),
        count@.min() >= ranker.keep(),
    ensures
        r == Table::repeats(count@, value@, *ranker),
{
    let numbers = count.occurrences().collect();
    let pool = value.occurrences().collect();
    let total: usize = value.total();
    let keep_count: usize = ranker.count();
    let limit: i128 = reach_limit();
    let most: isize = isize::MAX / 64;
    let ghost counts = count@.entries();
    proof {
        lemma_entries(count@);
        lemma_entries(value@);
        lemma_entries_order(count@);
        lemma_entries_order(value@);
        lemma_repeated(count@, value@, *ranker);
    }
    let mut rolls: usize = 0;
    let mut i: usize = 0;
    while i < numbers.len()
        invariant
            i <= numbers.len(),
            count.wf(),
            value.wf(),
            limit == reach(),
            most == most_rolls(),
            total == value@.total(),
            keep_count == ranker.keep(),
            count@.min() >= keep_count,
            counts == count@.entries(),
            pairs(numbers@) == counts,
            pairs(pool@) == value@.entries(),
            rolls == rolls_weight(counts.take(i as int), total as nat),
            Table::repeated(count@, value@, *ranker).total() == rolls_weight(counts, total as nat),
            forall|p: int| 0 <= p < i ==> (#[trigger] counts[p]).0 <= most_rolls(),
            forall|p: int, q: int|
                #![trigger counts[p], value@.entries()[q]]
                0 <= p < i && 0 <= q < pool.len() ==> in_reach(
                    ranker.kept_of(counts[p].0) * value@.entries()[q].0,
                ),
        decreases numbers.len() - i,
    {
        let number: isize = numbers[i].0;
        let frequency: usize = numbers[i].1;
        proof {
            lemma_entries(count@);
            assert(counts[i as int] == (number as int, frequency as nat));
            lemma_rolls_weight_prefix(counts, total as nat, i as int);
            lemma_rolls_weight_prefix(counts, total as nat, i + 1);
        }
        if number > most {
            return false;
        }
        let ghost next = rolls_weight(counts.take(i + 1), total as nat);
        assert(next == rolls + power(total as nat, number as nat) * frequency);
        assert(next <= rolls_weight(counts, total as nat));
        let rolled = match checked_power(total, number as usize) {
            Some(p) => p,
            None => {
                proof {
                    let p = power(total as nat, number as nat);
                    assert(p * frequency >= p) by (nonlinear_arith)
                        requires
                            frequency >= 1,
                            p >= 0,
                    ;
                }
                return false;
            },
        };
        let weighted = match rolled.checked_mul(frequency) {
            Some(w) => w,
            None => {
                return false;
            },
        };
        rolls = match rolls.checked_add(weighted) {
            Some(sum) => sum,
            None => {
                return false;
            },
        };
        let kept: i128 = match ranker {
            Ranker::All => number as i128,
            _ => keep_count as i128,
        };
        assert(kept == ranker.kept_of(number as int));
        let mut j: usize = 0;
        while j < pool.len()
            invariant
                j <= pool.len(),
                i < numbers.len(),
                i < counts.len(),
                value.wf(),
                limit == reach(),
                counts == count@.entries(),
                counts[i as int] == (number as int, frequency as nat),
                count@.at(number as int) > 0,
                pairs(pool@) == value@.entries(),
                kept == ranker.kept_of(number as int),
                0 <= kept <= isize::MAX,
                forall|q: int|
                    0 <= q < j ==> in_reach(
                        ranker.kept_of(number as int) * (#[trigger] value@.entries()[q]).0,
                    ),
            decreases pool.len() - j,
        {
            let v: i128 = pool[j].0 as i128;
            proof {
                lemma_entries(value@);
                assert(value@.entries()[j as int] == (pool@[j as int].0 as int, pool@[j as int].1 as nat));
                assert(-0x4000_0000_0000_0000_0000_0000_0000_0000 <= kept * v
                    <= 0x4000_0000_0000_0000_0000_0000_0000_0000) by (nonlinear_arith)
                    requires
                        0 <= kept <= 0x7fff_ffff_ffff_ffff,
                        -0x8000_0000_0000_0000 <= v <= 0x7fff_ffff_ffff_ffff,
                ;
            }
            let taken: i128 = kept * v;
            if taken < -limit || taken > limit {
                return false;
            }
            j += 1;
        }
        i += 1;
    }
    proof {
        assert(counts.take(i as int) =~= counts);
        assert forall|n: int| #[trigger] count@.at(n) > 0 implies n <= most_rolls() by {
            let p = choose|p: int| 0 <= p < counts.len() && counts[p] == (n, count@.at(n));
            assert(counts[p].0 <= most_rolls());
        }
        assert forall|n: int, v: int|
            #![trigger count@.at(n), value@.at(v)]
            count@.at(n) > 0 && value@.at(v) > 0 implies in_reach(ranker.kept_of(n) * v) by {
            let p = choose|p: int| 0 <= p < counts.len() && counts[p] == (n, count@.at(n));
            let q = choose|q: int|
                0 <= q < value@.entries().len() && value@.entries()[q] == (v, value@.at(v));
            assert(in_reach(ranker.kept_of(counts[p].0) * value@.entries()[q].0));
        }
    }
    true
}

impl Distribution {
    /// The distribution of the sum of independent outcomes of all the terms,
    /// where it can be worked out within machine limits.
    pub fn checked_sum(terms: Vec<Distribution>) -> (r: Option<Distribution>)
        requires
            forall|j: int| 0 <= j < terms@.len() ==> (#[trigger] terms@[j]).wf(),
        ensures
            match r {
                Some(d) => Table::sums(tables(terms@)) && d.wf() && d@ == Table::sum_of(
                    tables(terms@),
                ),
                None => !Table::sums(tables(terms@)),
            },
    {
        let ghost all = tables(terms@);
        if terms.len() == 0 {
            return Some(Distribution::modifier(0));
        }
        if terms.len() == 1 {
            let mut only = terms;
            return Some(only.remove(0));
        }
        proof {
            assert(all.take(2).drop_last() =~= all.take(1));
            assert(all.take(1).len() == 1);
            assert(all.take(2).last() == all[1]);
            assert(Table::sum_of(all.take(1)) == all[0]);
            assert(Table::sums(all.take(1)));
            if Table::sums(all) {
                lemma_sums_prefix(all, 2);
            }
        }
        if !can_combine(Operation::Sum, &terms[0], &terms[1]) {
            return None;
        }
        assert(Table::sums(all.take(2)));
        let mut total = (&terms[0]).add(&terms[1]);
        let mut i: usize = 2;
        while i < terms.len()
            invariant
                2 <= i <= terms.len(),
                all == tables(terms@),
                forall|j: int| 0 <= j < terms@.len() ==> (#[trigger] terms@[j]).wf(),
                Table::sums(all.take(i as int)),
                total.wf(),
                total@ == Table::sum_of(all.take(i as int)),
            decreases terms.len() - i,
        {
            proof {
                assert(all.take(i + 1).drop_last() =~= all.take(i as int));
                assert(all.take(i + 1).last() == all[i as int]);
                if Table::sums(all) {
                    lemma_sums_prefix(all, i + 1);
                }
            }
            if !can_combine(Operation::Sum, &total, &terms[i]) {
                return None;
            }
            assert(Table::sums(all.take(i + 1)));
            total = (&total).add(&terms[i]);
            i += 1;
        }
        assert(all.take(i as int) =~= all);
        Some(total)
    }
}

} // verus!
