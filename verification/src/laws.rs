//! Laws of the operations, stated over tables.

use vstd::prelude::*;
use crate::combine::{contributions, lemma_combined, lemma_contributions, Operation};
use crate::expression::{ComparisonOp, Ranker};
use crate::probability::{lemma_lowest_terms_unique, Probability};
use crate::table::{
    lemma_cleaned, lemma_negated, lemma_point_total, lemma_sum_bounds_entry, lemma_uniform_total,
    sum, Table,
};
use crate::tally::{lemma_cleaned_entries, lemma_tally, lemma_weight_at_single, weight_at};

verus! {

/// A fair die: on a die with `n` faces, `n` at least one, every value from
/// one to `n` has probability exactly `1 / n`, and every other integer has
/// probability `0 / 1`.
pub proof fn law_die_is_fair(n: nat, v: int, p: Probability)
    requires
        n >= 1,
        Table::uniform(n).has_probability(v, p),
    ensures
        1 <= v <= n ==> p.numer == 1 && p.denom == n,
        !(1 <= v <= n) ==> p.numer == 0 && p.denom == 1,
{
    lemma_uniform_total(n);
    if 1 <= v <= n {
        let a = p.numer as nat;
        let b = p.denom as nat;
        assert(Table::uniform(n).at(v) == 1);
        assert(p.equals(1, n));
        assert(b == a * n) by (nonlinear_arith)
            requires
                a * n == 1 * b,
        ;
        if a == 0 {
            assert(0 * n == 0) by (nonlinear_arith);
        } else if a > 1 {
            assert(a % a == 0 && (a * n) % a == 0) by (nonlinear_arith)
                requires
                    a > 1,
            ;
        } else {
            assert(1 * n == n) by (nonlinear_arith);
        }
    }
}

/// Convolution is exact: the sum of two independent distributions has as
/// many rolls as the two have together, the product of their totals.
pub proof fn law_sum_total(a: Table, b: Table)
    ensures
        Table::combined(Operation::Sum, a, b).total() == a.total() * b.total(),
{
    lemma_combined(Operation::Sum, a, b);
}

/// Negation reflects about zero, and negating twice gives the distribution
/// back: the probability of `v` after negation is that of `-v` before.
pub proof fn law_negation(d: Table, v: int)
    ensures
        d.negated().negated() == d,
        d.negated().at(v) == d.at(-v),
        d.negated().total() == d.total(),
{
    lemma_negated(d);
}

/// A value has one probability only.
pub proof fn law_probability_unique(t: Table, v: int, p: Probability, q: Probability)
    requires
        t.has_probability(v, p),
        t.has_probability(v, q),
    ensures
        p == q,
{
    if t.at(v) > 0 {
        lemma_sum_bounds_entry(t.counts, v - t.base);
        let total = t.total();
        let count = t.at(v);
        let (a, b) = (p.numer as nat, p.denom as nat);
        let (c, d) = (q.numer as nat, q.denom as nat);
        assert((a * d) * total == (c * b) * total) by (nonlinear_arith)
            requires
                a * total == count * b,
                c * total == count * d,
        ;
        assert(a * d == c * b) by (nonlinear_arith)
            requires
                (a * d) * total == (c * b) * total,
                total > 0,
        ;
        lemma_lowest_terms_unique(a, b, c, d);
    }
}

/// Negation reflects the probabilities: the probability of `v` after
/// negation is the probability of `-v` before, the same fraction.
pub proof fn law_negation_probability(d: Table, v: int, p: Probability, q: Probability)
    requires
        d.negated().has_probability(v, p),
        d.has_probability(-v, q),
    ensures
        p == q,
{
    lemma_negated(d);
    law_probability_unique(d, -v, p, q);
}

/// Of a table that holds a roll, the cleaned table starts at the least value
/// that occurs and ends at the greatest.
pub proof fn law_canonical_bounds(t: Table)
    requires
        t.total() > 0,
    ensures
        t.at(t.cleaned().min()) > 0,
        t.at(t.cleaned().max()) > 0,
        forall|v: int| #[trigger] t.at(v) > 0 ==> t.cleaned().min() <= v <= t.cleaned().max(),
{
    lemma_cleaned(t);
    let c = t.cleaned();
    if c.counts.len() == 0 {
        assert(sum(c.counts) == 0);
    }
    assert(c.at(c.min()) == c.counts.first());
    assert(c.at(c.max()) == c.counts.last());
    assert forall|v: int| #[trigger] t.at(v) > 0 implies c.min() <= v <= c.max() by {
        assert(c.at(v) == t.at(v));
    }
}

/// What is rolled decides, not what is stored: an operator gives the same
/// table for operands in canonical form as for the operands as they are.
pub proof fn law_cleaning_changes_no_result(op: Operation, a: Table, b: Table, ranker: Ranker)
    ensures
        Table::combined(op, a.cleaned(), b.cleaned()) == Table::combined(op, a, b),
        Table::repeated(a.cleaned(), b.cleaned(), ranker) == Table::repeated(a, b, ranker),
{
    lemma_cleaned_entries(a);
    lemma_cleaned_entries(b);
}

/// Comparison collapse: where both operands can occur at all, a comparison
/// that holds of every pair of values that occur is the point mass at one,
/// and one that holds of none is the point mass at zero; either has a
/// total of one, not the number of pairs.
pub proof fn law_comparison_collapse(a: Table, op: ComparisonOp, b: Table)
    requires
        a.total() > 0,
        b.total() > 0,
    ensures
        (forall|v1: int, v2: int| a.at(v1) > 0 && b.at(v2) > 0 ==> op.holds(v1, v2))
            ==> Table::compared(a, op, b) == Table::point(1),
        (forall|v1: int, v2: int| a.at(v1) > 0 && b.at(v2) > 0 ==> !op.holds(v1, v2))
            ==> Table::compared(a, op, b) == Table::point(0),
        (forall|v1: int, v2: int| a.at(v1) > 0 && b.at(v2) > 0 ==> op.holds(v1, v2)) || (forall|
            v1: int,
            v2: int,
        |
            a.at(v1) > 0 && b.at(v2) > 0 ==> !op.holds(v1, v2)) ==> Table::compared(
            a,
            op,
            b,
        ).total() == 1,
{
    let operation = Operation::Compare(op);
    let all = contributions(operation, a.entries(), b.entries());
    let d = Table::combined(operation, a, b);
    lemma_combined(operation, a, b);
    lemma_tally(all);
    lemma_point_total(0);
    lemma_point_total(1);
    assert(a.total() * b.total() > 0) by (nonlinear_arith)
        requires
            a.total() > 0,
            b.total() > 0,
    ;
    if forall|v1: int, v2: int| a.at(v1) > 0 && b.at(v2) > 0 ==> op.holds(v1, v2) {
        assert forall|i: int| 0 <= i < all.len() implies (#[trigger] all[i]).0 == 1 by {
            lemma_contributions(operation, a, b, i);
        }
        lemma_weight_at_single(all, 1);
        lemma_weight_at_none(all, 0);
    }
    if forall|v1: int, v2: int| a.at(v1) > 0 && b.at(v2) > 0 ==> !op.holds(v1, v2) {
        assert forall|i: int| 0 <= i < all.len() implies (#[trigger] all[i]).0 == 0 by {
            lemma_contributions(operation, a, b, i);
        }
        lemma_weight_at_single(all, 0);
    }
}

/// A value that no contribution goes to has no weight.
pub proof fn lemma_weight_at_none(s: Seq<(int, nat)>, v: int)
    requires
        forall|i: int| 0 <= i < s.len() ==> (#[trigger] s[i]).0 != v,
    ensures
        weight_at(s, v) == 0,
    decreases s.len(),
{
    if s.len() > 0 {
        let rest = s.drop_last();
        assert forall|i: int| 0 <= i < rest.len() implies (#[trigger] rest[i]).0 != v by {
            assert(rest[i] == s[i]);
        }
        lemma_weight_at_none(rest, v);
    }
}

} // verus!
