//! Accumulation: the table that a list of weighted contributions adds up to.

use vstd::prelude::*;
use crate::table::{
    leading_zeros, lemma_cleaned, lemma_leading_zeros, lemma_sum_concat, lemma_sum_singleton,
    lemma_with, most_counts, sum, Table,
};

verus! {

/// The sum of the weights of a list of `(value, weight)` contributions.
pub open spec fn weight(s: Seq<(int, nat)>) -> nat
    decreases s.len(),
{
    if s.len() == 0 {
        0
    } else {
        weight(s.drop_last()) + s.last().1
    }
}

/// The sum of the weights of the contributions to the value `v`.
pub open spec fn weight_at(s: Seq<(int, nat)>, v: int) -> nat
    decreases s.len(),
{
    if s.len() == 0 {
        0
    } else {
        weight_at(s.drop_last(), v) + if s.last().0 == v {
            s.last().1
        } else {
            0
        }
    }
}

/// The greatest magnitude that an accumulated value may have: a table
/// that starts at zero holds any two such values.
pub open spec fn reach() -> int {
    (most_counts() - 1) / 2
}

/// Whether a value may be accumulated.
pub open spec fn in_reach(v: int) -> bool {
    -reach() <= v <= reach()
}

impl Table {
    /// The table that accumulating the contributions, one after the other,
    /// into the empty accumulator gives.
    pub open spec fn tally(s: Seq<(int, nat)>) -> Table
        decreases s.len(),
    {
        if s.len() == 0 {
            Table::empty()
        } else {
            Table::tally(s.drop_last()).with(s.last().0, s.last().1)
        }
    }
}

/// All pairs of an element of `xs` with an element of `ys`, the pairs of the
/// first element of `xs` first, each group in the order of `ys`.
pub open spec fn cross<A, B>(xs: Seq<A>, ys: Seq<B>) -> Seq<(A, B)> {
    Seq::new(xs.len() * ys.len(), |k: int| (xs[k / (ys.len() as int)], ys[k % (ys.len() as int)]))
}

/// What a tally holds: the count of a value is the weight contributed to it,
/// the total is the weight of all contributions, and the stored range runs
/// from the least value, or zero at most, to the greatest, or minus one at
/// least.
pub proof fn lemma_tally(s: Seq<(int, nat)>)
    ensures
        Table::tally(s).total() == weight(s),
        forall|v: int| #[trigger] Table::tally(s).at(v) == weight_at(s, v),
        Table::tally(s).min() <= 0,
        Table::tally(s).max() >= -1,
        forall|i: int|
            0 <= i < s.len() ==> Table::tally(s).min() <= (#[trigger] s[i]).0 <= Table::tally(s).max(),
    decreases s.len(),
{
    if s.len() > 0 {
        let rest = s.drop_last();
        lemma_tally(rest);
        lemma_with(Table::tally(rest), s.last().0, s.last().1);
        assert forall|i: int| 0 <= i < s.len() implies Table::tally(s).min() <= (#[trigger] s[i]).0
            <= Table::tally(s).max() by {
            if i < s.len() - 1 {
                assert(s[i] == rest[i]);
            }
        }
    }
}

/// Where every contribution has a positive weight, a stored range that
/// reaches below zero starts at a value that occurs, and one that reaches
/// zero or above ends at a value that occurs.
pub proof fn lemma_tally_anchored(s: Seq<(int, nat)>)
    requires
        forall|i: int| 0 <= i < s.len() ==> (#[trigger] s[i]).1 > 0,
    ensures
        Table::tally(s).min() < 0 ==> Table::tally(s).at(Table::tally(s).min()) > 0,
        Table::tally(s).max() >= 0 ==> Table::tally(s).at(Table::tally(s).max()) > 0,
        s.len() == 0 ==> Table::tally(s) == Table::empty(),
        s.len() > 0 ==> Table::tally(s).total() > 0,
    decreases s.len(),
{
    if s.len() > 0 {
        let rest = s.drop_last();
        assert forall|i: int| 0 <= i < rest.len() implies (#[trigger] rest[i]).1 > 0 by {
            assert(rest[i] == s[i]);
        }
        lemma_tally_anchored(rest);
        lemma_tally(rest);
        lemma_with(Table::tally(rest), s.last().0, s.last().1);
    }
}

/// A tally of values within a bound stays within that bound.
pub proof fn lemma_tally_bounded(s: Seq<(int, nat)>, bound: int)
    requires
        bound >= 0,
        forall|i: int| 0 <= i < s.len() ==> -bound <= (#[trigger] s[i]).0 <= bound,
    ensures
        -bound <= Table::tally(s).min(),
        Table::tally(s).max() <= bound,
    decreases s.len(),
{
    if s.len() > 0 {
        let rest = s.drop_last();
        assert forall|i: int| 0 <= i < rest.len() implies -bound <= (#[trigger] rest[i]).0
            <= bound by {
            assert(rest[i] == s[i]);
        }
        lemma_tally_bounded(rest, bound);
        lemma_with(Table::tally(rest), s.last().0, s.last().1);
    }
}

/// The weight of a concatenation is the sum of the weights.
pub proof fn lemma_weight_concat(a: Seq<(int, nat)>, b: Seq<(int, nat)>)
    ensures
        weight(a + b) == weight(a) + weight(b),
    decreases b.len(),
{
    if b.len() == 0 {
        assert(a + b =~= a);
    } else {
        lemma_weight_concat(a, b.drop_last());
        assert((a + b).drop_last() =~= a + b.drop_last());
    }
}

/// A prefix weighs no more than the whole, and one contribution more adds
/// its weight.
pub proof fn lemma_weight_prefix(s: Seq<(int, nat)>, k: int)
    requires
        0 <= k <= s.len(),
    ensures
        weight(s.take(k)) <= weight(s),
        k < s.len() ==> weight(s.take(k + 1)) == weight(s.take(k)) + s[k].1,
    decreases s.len(),
{
    if k == s.len() {
        assert(s.take(k) =~= s);
    } else {
        lemma_weight_prefix(s.drop_last(), k);
        assert(s.drop_last().take(k) =~= s.take(k));
        assert(s.take(k + 1).drop_last() =~= s.take(k));
        if k + 1 < s.len() {
            assert(s.drop_last().take(k + 1) =~= s.take(k + 1));
        } else {
            assert(s.take(k + 1) =~= s);
        }
    }
}

/// Contributions that all go to one value weigh there what they weigh in all.
pub proof fn lemma_weight_at_single(s: Seq<(int, nat)>, v: int)
    requires
        forall|i: int| 0 <= i < s.len() ==> (#[trigger] s[i]).0 == v,
    ensures
        weight_at(s, v) == weight(s),
    decreases s.len(),
{
    if s.len() > 0 {
        let rest = s.drop_last();
        assert forall|i: int| 0 <= i < rest.len() implies (#[trigger] rest[i]).0 == v by {
            assert(rest[i] == s[i]);
        }
        lemma_weight_at_single(rest, v);
    }
}

/// The entries of a table are its values with a count above zero, each with
/// that count, and they weigh the table's total.
pub proof fn lemma_entries_from(t: Table, j: int)
    requires
        0 <= j <= t.counts.len(),
    ensures
        forall|i: int|
            0 <= i < t.entries_from(j).len() ==> {
                let e = #[trigger] t.entries_from(j)[i];
                e.1 > 0 && t.at(e.0) == e.1 && t.base + j <= e.0 <= t.max()
            },
        weight(t.entries_from(j)) == sum(t.counts.skip(j)),
        t.entries_from(j).len() <= t.counts.len() - j,
    decreases t.counts.len() - j,
{
    if j < t.counts.len() {
        lemma_entries_from(t, j + 1);
        let rest = t.entries_from(j + 1);
        assert(t.counts.skip(j) =~= seq![t.counts[j]] + t.counts.skip(j + 1));
        lemma_sum_concat(seq![t.counts[j]], t.counts.skip(j + 1));
        lemma_sum_singleton(t.counts[j]);
        if t.counts[j] != 0 {
            let head = seq![(t.base + j, t.counts[j])];
            lemma_weight_concat(head, rest);
            assert(head.drop_last() =~= Seq::<(int, nat)>::empty());
            assert(weight(head) == t.counts[j]) by {
                reveal_with_fuel(weight, 2);
            }
            assert forall|i: int| 0 <= i < t.entries_from(j).len() implies {
                let e = #[trigger] t.entries_from(j)[i];
                e.1 > 0 && t.at(e.0) == e.1 && t.base + j <= e.0 <= t.max()
            } by {
                if i > 0 {
                    assert(t.entries_from(j)[i] == rest[i - 1]);
                }
            }
        }
    } else {
        assert(t.counts.skip(j) =~= Seq::<nat>::empty());
    }
}

/// The entries of a table: see [`lemma_entries_from`].
pub proof fn lemma_entries(t: Table)
    ensures
        forall|i: int|
            0 <= i < t.entries().len() ==> {
                let e = #[trigger] t.entries()[i];
                e.1 > 0 && t.at(e.0) == e.1 && t.min() <= e.0 <= t.max()
            },
        weight(t.entries()) == t.total(),
        t.entries().len() <= t.counts.len(),
        t.entries().len() <= t.total(),
{
    lemma_entries_from(t, 0);
    assert(t.counts.skip(0) =~= t.counts);
    lemma_weight_counts(t.entries());
}

/// The entries of a table come in ascending order of value, and every value
/// that occurs is among them.
pub proof fn lemma_entries_from_order(t: Table, j: int)
    requires
        0 <= j <= t.counts.len(),
    ensures
        forall|i: int, k: int|
            0 <= i < k < t.entries_from(j).len() ==> (#[trigger] t.entries_from(j)[i]).0 < (
            #[trigger] t.entries_from(j)[k]).0,
        forall|v: int|
            t.base + j <= v && #[trigger] t.at(v) > 0 ==> t.entries_from(j).contains((v, t.at(v))),
    decreases t.counts.len() - j,
{
    if j < t.counts.len() {
        lemma_entries_from_order(t, j + 1);
        lemma_entries_from(t, j + 1);
        let rest = t.entries_from(j + 1);
        let all = t.entries_from(j);
        if t.counts[j] != 0 {
            let head = (t.base + j, t.counts[j]);
            assert(all =~= seq![head] + rest);
            assert forall|i: int, k: int| 0 <= i < k < all.len() implies (#[trigger] all[i]).0 < (
            #[trigger] all[k]).0 by {
                assert(all[k] == rest[k - 1]);
                if i > 0 {
                    assert(all[i] == rest[i - 1]);
                }
            }
            assert forall|v: int| t.base + j <= v && #[trigger] t.at(v) > 0 implies all.contains(
                (v, t.at(v)),
            ) by {
                if v == t.base + j {
                    assert(all[0] == (v, t.at(v)));
                } else {
                    let i = choose|i: int| 0 <= i < rest.len() && rest[i] == (v, t.at(v));
                    assert(all[i + 1] == (v, t.at(v)));
                }
            }
        }
    }
}

/// The entries of a table come in ascending order of value, and every value
/// that occurs is among them.
pub proof fn lemma_entries_order(t: Table)
    ensures
        forall|i: int, k: int|
            0 <= i < k < t.entries().len() ==> (#[trigger] t.entries()[i]).0 < (
            #[trigger] t.entries()[k]).0,
        forall|v: int| #[trigger] t.at(v) > 0 ==> t.entries().contains((v, t.at(v))),
{
    lemma_entries_from_order(t, 0);
}

/// Two tables that agree in the count of every value from `v` on have the
/// same entries from there on.
pub proof fn lemma_entries_agree(t: Table, u: Table, i: int, j: int)
    requires
        0 <= i <= t.counts.len(),
        0 <= j <= u.counts.len(),
        t.base + i == u.base + j,
        forall|v: int| t.base + i <= v ==> #[trigger] t.at(v) == u.at(v),
    ensures
        t.entries_from(i) == u.entries_from(j),
    decreases t.counts.len() - i,
{
    if i < t.counts.len() && j < u.counts.len() {
        assert(t.at(t.base + i) == t.counts[i]);
        assert(u.at(u.base + j) == u.counts[j]);
        lemma_entries_agree(t, u, i + 1, j + 1);
    } else if i < t.counts.len() {
        assert forall|k: int| i <= k < t.counts.len() implies t.counts[k] == 0 by {
            assert(t.at(t.base + k) == t.counts[k]);
            assert(u.at(t.base + k) == 0);
        }
        lemma_entries_none(t, i);
    } else if j < u.counts.len() {
        assert forall|k: int| j <= k < u.counts.len() implies u.counts[k] == 0 by {
            assert(u.at(u.base + k) == u.counts[k]);
            assert(t.at(u.base + k) == 0);
        }
        lemma_entries_none(u, j);
    }
}

/// Zero counts to the end give no entries.
pub proof fn lemma_entries_none(t: Table, i: int)
    requires
        0 <= i <= t.counts.len(),
        forall|k: int| i <= k < t.counts.len() ==> t.counts[k] == 0,
    ensures
        t.entries_from(i) == Seq::<(int, nat)>::empty(),
    decreases t.counts.len() - i,
{
    if i < t.counts.len() {
        lemma_entries_none(t, i + 1);
    }
}

/// Leading zero counts give no entries.
pub proof fn lemma_entries_skip_zeros(t: Table, i: int)
    requires
        0 <= i <= t.counts.len(),
        forall|k: int| 0 <= k < i ==> t.counts[k] == 0,
    ensures
        t.entries() == t.entries_from(i),
    decreases i,
{
    if i > 0 {
        lemma_entries_skip_zeros(t, i - 1);
    }
}

/// Cleaning keeps the entries of a table.
pub proof fn lemma_cleaned_entries(t: Table)
    ensures
        t.cleaned().entries() == t.entries(),
{
    let lead = leading_zeros(t.counts) as int;
    lemma_leading_zeros(t.counts);
    lemma_cleaned(t);
    lemma_entries_skip_zeros(t, lead);
    let c = t.cleaned();
    assert forall|v: int| t.base + lead <= v implies #[trigger] t.at(v) == c.at(v) by {
        assert(c.at(v) == t.at(v));
    }
    lemma_entries_agree(t, c, lead, 0);
}

/// Contributions of positive weight are no more than they weigh.
pub proof fn lemma_weight_counts(s: Seq<(int, nat)>)
    requires
        forall|i: int| 0 <= i < s.len() ==> (#[trigger] s[i]).1 > 0,
    ensures
        s.len() <= weight(s),
    decreases s.len(),
{
    if s.len() > 0 {
        let rest = s.drop_last();
        assert forall|i: int| 0 <= i < rest.len() implies (#[trigger] rest[i]).1 > 0 by {
            assert(rest[i] == s[i]);
        }
        lemma_weight_counts(rest);
    }
}

/// Where the sequences are not empty, position `i * ys.len() + j` of the
/// cross holds the pair of `xs[i]` and `ys[j]`.
pub proof fn lemma_cross_index(m: int, n: int, k: int)
    requires
        0 <= k < m * n,
        0 <= m,
        0 <= n,
    ensures
        n > 0,
        0 <= k / n < m,
        0 <= k % n < n,
        k == (k / n) * n + k % n,
{
    assert(n > 0) by (nonlinear_arith)
        requires
            0 <= k < m * n,
            0 <= n,
    ;
    assert(0 <= k / n < m && 0 <= k % n < n && k == (k / n) * n + k % n) by (nonlinear_arith)
        requires
            0 <= k < m * n,
            n > 0,
    ;
}

} // verus!
