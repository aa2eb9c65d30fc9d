//! Repetition with ranking: roll a number of times, keep some of the values
//! by a rule, and add up what is kept.

use vstd::prelude::*;
use vstd::relations::{sorted_by, total_ordering};
use vstd::seq_lib::lemma_sorted_unique;
use itertools::structs::MultiProduct;
use itertools::Itertools;
use std::vec::IntoIter;
use crate::combine::{contributions, lemma_contributions_weight, Operation};
use crate::distribution::{pairs, Distribution};
use crate::expression::{Error, Expression, Ranker};
use crate::table::{lemma_with, Table};
use crate::tally::{
    in_reach, lemma_cross_index, lemma_entries, lemma_tally, lemma_weight_concat,
    lemma_weight_counts, lemma_weight_prefix, reach, weight, weight_at,
};

verus! {

/// All sequences of `n` items of `pool`, in the order of their positions in
/// `pool`, the last item changing fastest. There is one sequence of no items.
pub open spec fn tuples<A>(pool: Seq<A>, n: nat) -> Seq<Seq<A>>
    decreases n,
{
    if n == 0 {
        seq![Seq::empty()]
    } else {
        let shorter = tuples(pool, (n - 1) as nat);
        Seq::new(
            shorter.len() * pool.len(),
            |k: int| shorter[k / (pool.len() as int)].push(pool[k % (pool.len() as int)]),
        )
    }
}

/// Machine integers as integers.
pub open spec fn ints(s: Seq<isize>) -> Seq<int> {
    s.map_values(|v: isize| v as int)
}

/// The sum of a sequence of integers.
pub open spec fn total_of(values: Seq<int>) -> int
    decreases values.len(),
{
    if values.len() == 0 {
        0
    } else {
        total_of(values.drop_last()) + values.last()
    }
}

/// The order of the integers.
pub open spec fn at_most() -> spec_fn(int, int) -> bool {
    |a: int, b: int| a <= b
}

/// The values in ascending order.
pub open spec fn ascending(values: Seq<int>) -> Seq<int> {
    values.sort_by(at_most())
}

/// The values of a sequence of entries.
pub open spec fn values_of(t: Seq<(int, nat)>) -> Seq<int> {
    t.map_values(|e: (int, nat)| e.0)
}

/// The product of the counts of a sequence of entries.
pub open spec fn product_of_counts(t: Seq<(int, nat)>) -> nat
    decreases t.len(),
{
    if t.len() == 0 {
        1
    } else {
        product_of_counts(t.drop_last()) * t.last().1
    }
}

impl Ranker {
    /// The number of values that the rule keeps of `n` rolled ones: all of
    /// them, or `keep()` of them (all, where there are fewer).
    pub open spec fn kept_of(self, n: int) -> int {
        match self {
            Ranker::All => n,
            _ => if self.keep() <= n {
                self.keep() as int
            } else {
                n
            },
        }
    }

    /// The sum of the values that the rule keeps: all of them, or the
    /// largest, or the smallest, as many as `kept_of` says.
    pub open spec fn kept_sum(self, values: Seq<int>) -> int {
        let kept = self.kept_of(values.len() as int);
        match self {
            Ranker::All => total_of(values),
            Ranker::Highest(_) => total_of(
                ascending(values).subrange(values.len() - kept, values.len() as int),
            ),
            Ranker::Lowest(_) => total_of(ascending(values).subrange(0, kept)),
        }
    }
}

/// What one sequence of rolled entries contributes when it is rolled with
/// weight `w`: the sum of the kept values, with the product of all counts,
/// kept or not, times `w`.
pub open spec fn roll(ranker: Ranker, w: nat, t: Seq<(int, nat)>) -> (int, nat) {
    (ranker.kept_sum(values_of(t)), product_of_counts(t) * w)
}

/// The contributions of rolling `n` times, with weight `w`: one for each
/// sequence of `n` entries of `pool`.
pub open spec fn rolls(ranker: Ranker, n: nat, w: nat, pool: Seq<(int, nat)>) -> Seq<(int, nat)> {
    tuples(pool, n).map_values(|t: Seq<(int, nat)>| roll(ranker, w, t))
}

/// The contributions of rolling each number of times in `counts`, a list of
/// `(number, weight)`, one number after the other.
pub open spec fn all_rolls(ranker: Ranker, counts: Seq<(int, nat)>, pool: Seq<(int, nat)>) -> Seq<
    (int, nat),
>
    decreases counts.len(),
{
    if counts.len() == 0 {
        Seq::empty()
    } else {
        all_rolls(ranker, counts.drop_last(), pool) + rolls(
            ranker,
            counts.last().0 as nat,
            counts.last().1,
            pool,
        )
    }
}

impl Table {
    /// The table of rolling `value` as often as `count` says and adding up
    /// what `ranker` keeps.
    pub open spec fn repeated(count: Table, value: Table, ranker: Ranker) -> Table {
        Table::tally(all_rolls(ranker, count.entries(), value.entries()))
    }

    /// Whether a repetition can be worked out within machine limits: the
    /// number of rolls of the result fits, no sequence of rolled values is
    /// longer than a machine holds, and each value that occurs, taken as
    /// often as values are kept, is within reach.
    pub open spec fn repeats(count: Table, value: Table, ranker: Ranker) -> bool {
        &&& Table::repeated(count, value, ranker).total() <= usize::MAX
        &&& forall|n: int| #[trigger] count.at(n) > 0 ==> n <= most_rolls()
        &&& forall|n: int, v: int|
            #![trigger count.at(n), value.at(v)]
            count.at(n) > 0 && value.at(v) > 0 ==> in_reach(ranker.kept_of(n) * v)
    }
}

/// The longest sequence of rolled values that is formed. No machine holds
/// more than `isize::MAX` bytes in one piece, and for each value of a
/// sequence the enumeration holds two cursors of four machine words.
pub open spec fn most_rolls() -> int {
    isize::MAX / 64
}

/// The iterator that `itertools::Itertools::multi_cartesian_product` returns
/// over copies of one list of entries. Its inside is not read here.
#[verifier::external_body]
pub struct Sequences {
    inner: MultiProduct<IntoIter<(isize, usize)>>,
}

/// The sequences that the iterator has yet to yield, in order.
pub uninterp spec fn sequences_left(it: Sequences) -> Seq<Seq<(isize, usize)>>;

/// Calls `itertools::Itertools::multi_cartesian_product` on `n` copies of
/// the items of `pool`.
///
/// Believed of it: the iterator will yield every sequence of `n` items of
/// `pool`, in the order of the items' positions, the last item changing
/// fastest; for `n` zero it will yield the one sequence of no items. It
/// holds its `n` cursors in one piece of memory, which `most_rolls` allows.
#[verifier::external_body]
fn multi_cartesian_product(pool: &Vec<(isize, usize)>, n: usize) -> (it: Sequences)
    requires
        n <= most_rolls(),
    ensures
        sequences_left(it) == tuples(pool@, n as nat),
{
    Sequences {
        inner: std::iter::repeat(pool.clone().into_iter()).take(n).multi_cartesian_product(),
    }
}

/// Calls `next` of the iterator of a multiple cartesian product.
///
/// Believed of it: it yields the first of the sequences that are left and
/// leaves the others, or yields nothing where none is left.
#[verifier::external_body]
fn next_sequence(it: &mut Sequences) -> (item: Option<Vec<(isize, usize)>>)
    ensures
        match item {
            Some(sequence) => {
                &&& sequences_left(*old(it)).len() > 0
                &&& sequence@ == sequences_left(*old(it)).first()
                &&& sequences_left(*final(it)) == sequences_left(*old(it)).drop_first()
            },
            None => sequences_left(*old(it)).len() == 0 && sequences_left(*final(it)).len() == 0,
        },
{
    it.inner.next()
}

/// Calls `sort` of the slice of `values`.
///
/// Believed of it: afterwards the vector holds the same integers, each as
/// often as before, in ascending order.
#[verifier::external_body]
fn sort(values: &mut Vec<isize>)
    ensures
        ints(final(values)@).to_multiset() == ints(old(values)@).to_multiset(),
        forall|i: int, j: int|
            0 <= i < j < final(values)@.len() ==> final(values)@[i] <= final(values)@[j],
{
    values.sort();
}

/// The order of the integers is a total order.
pub proof fn lemma_at_most_total()
    ensures
        total_ordering(at_most()),
{
    let leq = at_most();
    assert(vstd::relations::reflexive(leq));
    assert(vstd::relations::antisymmetric(leq));
    assert(vstd::relations::transitive(leq));
    assert(vstd::relations::strongly_connected(leq));
}

/// The ascending order of a sequence holds the items of the sequence.
pub proof fn lemma_ascending(values: Seq<int>)
    ensures
        ascending(values).len() == values.len(),
        ascending(values).to_multiset() == values.to_multiset(),
        sorted_by(ascending(values), at_most()),
        forall|i: int|
            0 <= i < values.len() ==> values.contains(#[trigger] ascending(values)[i]),
{
    lemma_at_most_total();
    values.lemma_sort_by_ensures(at_most());
    let sorted = ascending(values);
    values.to_multiset_ensures();
    sorted.to_multiset_ensures();
    assert forall|i: int| 0 <= i < sorted.len() implies values.contains(#[trigger] sorted[i]) by {
        assert(sorted.contains(sorted[i]));
    }
}

/// A sum of at most `n` values, each of which is within `bound` when it is
/// taken `n` times, is within `bound`.
pub proof fn lemma_total_of_bounded(values: Seq<int>, n: int, bound: int)
    requires
        values.len() <= n,
        bound >= 0,
        forall|i: int| 0 <= i < values.len() ==> -bound <= n * #[trigger] values[i] <= bound,
    ensures
        -bound <= total_of(values) <= bound,
        -(values.len() * bound) <= n * total_of(values) <= values.len() * bound,
    decreases values.len(),
{
    if values.len() == 0 {
        assert(n * 0 == 0 && 0 * bound == 0) by (nonlinear_arith);
    } else {
        let rest = values.drop_last();
        assert forall|i: int| 0 <= i < rest.len() implies -bound <= n * #[trigger] rest[i]
            <= bound by {
            assert(rest[i] == values[i]);
        }
        lemma_total_of_bounded(rest, n, bound);
        let s = total_of(rest);
        let v = values.last();
        let k = rest.len() as int;
        assert(-((k + 1) * bound) <= n * (s + v) <= (k + 1) * bound) by (nonlinear_arith)
            requires
                -(k * bound) <= n * s <= k * bound,
                -bound <= n * v <= bound,
        ;
        assert((k + 1) * bound <= n * bound) by (nonlinear_arith)
            requires
                0 <= k + 1 <= n,
                bound >= 0,
        ;
        let x = s + v;
        assert(x <= bound) by (nonlinear_arith)
            requires
                n * x <= n * bound,
                n > 0,
        ;
        assert(-bound <= x) by (nonlinear_arith)
            requires
                -(n * bound) <= n * x,
                n > 0,
        ;
    }
}

/// A product of positive counts is positive.
pub proof fn lemma_product_positive(t: Seq<(int, nat)>)
    requires
        forall|i: int| 0 <= i < t.len() ==> (#[trigger] t[i]).1 > 0,
    ensures
        product_of_counts(t) > 0,
    decreases t.len(),
{
    if t.len() > 0 {
        let rest = t.drop_last();
        assert forall|i: int| 0 <= i < rest.len() implies (#[trigger] rest[i]).1 > 0 by {
            assert(rest[i] == t[i]);
        }
        lemma_product_positive(rest);
        assert(product_of_counts(rest) * t.last().1 > 0) by (nonlinear_arith)
            requires
                product_of_counts(rest) > 0,
                t.last().1 > 0,
        ;
    }
}

/// Of positive counts, no prefix has a larger product than the whole, and
/// one entry more multiplies the product by its count.
pub proof fn lemma_product_prefix(t: Seq<(int, nat)>, k: int)
    requires
        0 <= k <= t.len(),
        forall|i: int| 0 <= i < t.len() ==> (#[trigger] t[i]).1 > 0,
    ensures
        0 < product_of_counts(t.take(k)) <= product_of_counts(t),
        k < t.len() ==> product_of_counts(t.take(k + 1)) == product_of_counts(t.take(k)) * t[k].1,
    decreases t.len(),
{
    if k == t.len() {
        assert(t.take(k) =~= t);
        lemma_product_positive(t);
    } else {
        let rest = t.drop_last();
        assert forall|i: int| 0 <= i < rest.len() implies (#[trigger] rest[i]).1 > 0 by {
            assert(rest[i] == t[i]);
        }
        lemma_product_prefix(rest, k);
        assert(rest.take(k) =~= t.take(k));
        assert(product_of_counts(rest) * t.last().1 >= product_of_counts(rest))
            by (nonlinear_arith)
            requires
                t.last().1 > 0,
        ;
        assert(t.take(k + 1).drop_last() =~= t.take(k));
    }
}

/// Every sequence of `n` entries of a table has `n` entries, each a value
/// that occurs with its count.
pub proof fn lemma_tuples(value: Table, n: nat, k: int)
    requires
        0 <= k < tuples(value.entries(), n).len(),
    ensures
        tuples(value.entries(), n)[k].len() == n,
        forall|j: int|
            0 <= j < n ==> {
                let e = #[trigger] tuples(value.entries(), n)[k][j];
                e.1 > 0 && value.at(e.0) == e.1
            },
    decreases n,
{
    let pool = value.entries();
    if n > 0 {
        let shorter = tuples(pool, (n - 1) as nat);
        let m = pool.len() as int;
        lemma_cross_index(shorter.len() as int, m, k);
        lemma_tuples(value, (n - 1) as nat, k / m);
        lemma_entries(value);
        let t = tuples(pool, n)[k];
        assert(t == shorter[k / m].push(pool[k % m]));
        assert forall|j: int| 0 <= j < n implies {
            let e = #[trigger] t[j];
            e.1 > 0 && value.at(e.0) == e.1
        } by {
            if j < n - 1 {
                assert(t[j] == shorter[k / m][j]);
            } else {
                assert(t[j] == pool[k % m]);
            }
        }
    }
}

/// What the contributions of rolling `n` times hold: as many as there are
/// sequences, each with a weight above zero.
pub proof fn lemma_rolls(ranker: Ranker, n: nat, w: nat, value: Table)
    requires
        w > 0,
    ensures
        rolls(ranker, n, w, value.entries()).len() == tuples(value.entries(), n).len(),
        forall|k: int|
            0 <= k < rolls(ranker, n, w, value.entries()).len() ==> (#[trigger] rolls(
                ranker,
                n,
                w,
                value.entries(),
            )[k]).1 > 0,
        rolls(ranker, n, w, value.entries()).len() <= weight(rolls(ranker, n, w, value.entries())),
{
    let all = rolls(ranker, n, w, value.entries());
    assert forall|k: int| 0 <= k < all.len() implies (#[trigger] all[k]).1 > 0 by {
        let t = tuples(value.entries(), n)[k];
        lemma_tuples(value, n, k);
        lemma_product_positive(t);
        assert(product_of_counts(t) * w > 0) by (nonlinear_arith)
            requires
                product_of_counts(t) > 0,
                w > 0,
        ;
    }
    lemma_weight_counts(all);
}

/// The contributions of the first numbers of rolls weigh no more than those
/// of all, and one number more appends its contributions.
pub proof fn lemma_all_rolls_prefix(
    ranker: Ranker,
    counts: Seq<(int, nat)>,
    pool: Seq<(int, nat)>,
    i: int,
)
    requires
        0 <= i <= counts.len(),
    ensures
        weight(all_rolls(ranker, counts.take(i), pool)) <= weight(all_rolls(ranker, counts, pool)),
        i < counts.len() ==> all_rolls(ranker, counts.take(i + 1), pool) == all_rolls(
            ranker,
            counts.take(i),
            pool,
        ) + rolls(ranker, counts[i].0 as nat, counts[i].1, pool),
    decreases counts.len(),
{
    if i == counts.len() {
        assert(counts.take(i) =~= counts);
    } else {
        let rest = counts.drop_last();
        lemma_all_rolls_prefix(ranker, rest, pool, i);
        assert(rest.take(i) =~= counts.take(i));
        lemma_weight_concat(
            all_rolls(ranker, rest, pool),
            rolls(ranker, counts.last().0 as nat, counts.last().1, pool),
        );
        assert(counts.take(i + 1).drop_last() =~= counts.take(i));
    }
}

/// `base` multiplied by itself `exponent` times.
pub open spec fn power(base: nat, exponent: nat) -> nat
    decreases exponent,
{
    if exponent == 0 {
        1
    } else {
        power(base, (exponent - 1) as nat) * base
    }
}

/// The number of rolls of a repetition: for each number of rolls `n` in
/// `counts`, with its weight, the weight times `total` to the power `n`.
pub open spec fn rolls_weight(counts: Seq<(int, nat)>, total: nat) -> nat
    decreases counts.len(),
{
    if counts.len() == 0 {
        0
    } else {
        rolls_weight(counts.drop_last(), total) + power(total, counts.last().0 as nat)
            * counts.last().1
    }
}

/// Lists that agree in every weight, up to a common factor, weigh the same
/// up to that factor.
pub proof fn lemma_weight_scaled(s: Seq<(int, nat)>, t: Seq<(int, nat)>, w: nat)
    requires
        s.len() == t.len(),
        forall|i: int| 0 <= i < s.len() ==> (#[trigger] t[i]).1 == s[i].1 * w,
    ensures
        weight(t) == weight(s) * w,
    decreases s.len(),
{
    if s.len() == 0 {
        assert(0 * w == 0) by (nonlinear_arith);
    } else {
        let s0 = s.drop_last();
        let t0 = t.drop_last();
        assert forall|i: int| 0 <= i < s0.len() implies (#[trigger] t0[i]).1 == s0[i].1 * w by {
            assert(t0[i] == t[i]);
        }
        lemma_weight_scaled(s0, t0, w);
        assert(t.last() == t[t.len() - 1]);
        assert((weight(s0) + s.last().1) * w == weight(s0) * w + s.last().1 * w)
            by (nonlinear_arith);
    }
}

/// The sequences of `n` entries, each with the product of its counts.
pub open spec fn tuple_weights(pool: Seq<(int, nat)>, n: nat) -> Seq<(int, nat)> {
    tuples(pool, n).map_values(|t: Seq<(int, nat)>| (0int, product_of_counts(t)))
}

/// The products of the counts of all sequences of `n` entries add up to the
/// weight of the pool to the power `n`.
pub proof fn lemma_tuples_weight(pool: Seq<(int, nat)>, n: nat)
    ensures
        weight(tuple_weights(pool, n)) == power(weight(pool), n),
    decreases n,
{
    let all = tuple_weights(pool, n);
    if n == 0 {
        assert(all.drop_last() =~= Seq::<(int, nat)>::empty());
        assert(all.last().1 == 1);
        assert(weight(all) == 1) by {
            reveal_with_fuel(weight, 2);
        }
    } else {
        let before = tuple_weights(pool, (n - 1) as nat);
        let shorter = tuples(pool, (n - 1) as nat);
        let paired = contributions(Operation::Sum, before, pool);
        let m = pool.len() as int;
        lemma_tuples_weight(pool, (n - 1) as nat);
        lemma_contributions_weight(Operation::Sum, before, pool);
        assert forall|k: int| 0 <= k < paired.len() implies (#[trigger] all[k]).1 == paired[k].1
            * 1 by {
            lemma_cross_index(shorter.len() as int, m, k);
            let t = shorter[k / m].push(pool[k % m]);
            assert(t.drop_last() =~= shorter[k / m]);
            assert(paired[k].1 * 1 == paired[k].1) by (nonlinear_arith);
        }
        lemma_weight_scaled(paired, all, 1);
        assert(weight(paired) * 1 == weight(paired)) by (nonlinear_arith);
    }
}

/// Rolling `n` times with weight `w` gives the weight of the pool to the
/// power `n`, times `w`, rolls.
pub proof fn lemma_rolls_weight(ranker: Ranker, n: nat, w: nat, pool: Seq<(int, nat)>)
    ensures
        weight(rolls(ranker, n, w, pool)) == power(weight(pool), n) * w,
{
    lemma_tuples_weight(pool, n);
    lemma_weight_scaled(tuple_weights(pool, n), rolls(ranker, n, w, pool), w);
}

/// The rolls of all numbers of rolls together.
pub proof fn lemma_all_rolls_weight(ranker: Ranker, counts: Seq<(int, nat)>, pool: Seq<(int, nat)>)
    ensures
        weight(all_rolls(ranker, counts, pool)) == rolls_weight(counts, weight(pool)),
    decreases counts.len(),
{
    if counts.len() > 0 {
        lemma_all_rolls_weight(ranker, counts.drop_last(), pool);
        lemma_rolls_weight(ranker, counts.last().0 as nat, counts.last().1, pool);
        lemma_weight_concat(
            all_rolls(ranker, counts.drop_last(), pool),
            rolls(ranker, counts.last().0 as nat, counts.last().1, pool),
        );
    }
}

/// The law of repetition: the table counts, at each value, the weight of
/// the rolls that give it, and its total is, for each number of rolls that
/// occurs, the count of that number times the total of `value` to the power
/// of the number.
pub proof fn lemma_repeated(count: Table, value: Table, ranker: Ranker)
    ensures
        Table::repeated(count, value, ranker).total() == rolls_weight(
            count.entries(),
            value.total(),
        ),
        forall|v: int| #[trigger]
            Table::repeated(count, value, ranker).at(v) == weight_at(
                all_rolls(ranker, count.entries(), value.entries()),
                v,
            ),
        Table::repeated(count, value, ranker).min() <= 0,
        Table::repeated(count, value, ranker).max() >= -1,
{
    lemma_tally(all_rolls(ranker, count.entries(), value.entries()));
    lemma_all_rolls_weight(ranker, count.entries(), value.entries());
    lemma_entries(value);
}

/// Where no number of rolls occurs, the repetition holds nothing.
pub proof fn lemma_repeated_nothing(count: Table, value: Table, ranker: Ranker)
    requires
        count.total() == 0,
    ensures
        Table::repeated(count, value, ranker) == Table::empty(),
{
    lemma_entries(count);
}

/// The values of a list of entries.
fn values_in(combo: &Vec<(isize, usize)>) -> (values: Vec<isize>)
    ensures
        ints(values@) == values_of(pairs(combo@)),
        values@.len() == combo@.len(),
{
    let mut values: Vec<isize> = Vec::new();
    let mut i: usize = 0;
    while i < combo.len()
        invariant
            i <= combo.len(),
            values@.len() == i,
            forall|j: int| 0 <= j < i ==> values@[j] == combo@[j].0,
        decreases combo.len() - i,
    {
        values.push(combo[i].0);
        i += 1;
    }
    assert(ints(values@) =~= values_of(pairs(combo@)));
    values
}

/// The product of the counts of a list of entries.
fn weight_of(combo: &Vec<(isize, usize)>) -> (product: usize)
    requires
        forall|i: int| 0 <= i < combo@.len() ==> (#[trigger] combo@[i]).1 > 0,
        product_of_counts(pairs(combo@)) <= usize::MAX,
    ensures
        product == product_of_counts(pairs(combo@)),
{
    let ghost t = pairs(combo@);
    let mut product: usize = 1;
    let mut i: usize = 0;
    while i < combo.len()
        invariant
            i <= combo.len(),
            t == pairs(combo@),
            forall|j: int| 0 <= j < t.len() ==> (#[trigger] t[j]).1 > 0,
            product_of_counts(t) <= usize::MAX,
            product == product_of_counts(t.take(i as int)),
        decreases combo.len() - i,
    {
        proof {
            lemma_product_prefix(t, i as int);
            lemma_product_prefix(t, i + 1);
        }
        product = product * combo[i].1;
        i += 1;
    }
    assert(t.take(i as int) =~= t);
    product
}

/// The sum of the values from position `from` up to position `to`.
fn sum_between(values: &Vec<isize>, from: usize, to: usize) -> (total: isize)
    requires
        from <= to <= values@.len(),
        forall|i: int| from <= i < to ==> in_reach((to - from) * #[trigger] values@[i]),
    ensures
        total == total_of(ints(values@).subrange(from as int, to as int)),
        in_reach(total as int),
{
    let ghost kept = ints(values@).subrange(from as int, to as int);
    let ghost n = to - from;
    let mut total: isize = 0;
    let mut i: usize = from;
    proof {
        assert(reach() >= 0) by {
            assert(isize::MAX >= 0);
        }
    }
    while i < to
        invariant
            from <= i <= to,
            to <= values@.len(),
            n == to - from,
            kept == ints(values@).subrange(from as int, to as int),
            forall|j: int| 0 <= j < kept.len() ==> -reach() <= n * #[trigger] kept[j] <= reach(),
            total == total_of(kept.take(i - from)),
            in_reach(total as int),
            reach() >= 0,
        decreases to - i,
    {
        proof {
            let next = kept.take(i - from + 1);
            assert(next.drop_last() =~= kept.take(i - from));
            lemma_total_of_bounded(next, n, reach());
        }
        total = total + values[i];
        i += 1;
    }
    assert(kept.take(i - from) =~= kept);
    total
}

/// Applies the rule to the rolled values and adds up what it keeps. The
/// values are left in the order that the rule put them in.
fn kept_total(ranker: &Ranker, values: &mut Vec<isize>, keep_count: usize) -> (total: isize)
    requires
        keep_count == ranker.keep(),
        keep_count <= old(values)@.len(),
        forall|i: int|
            0 <= i < old(values)@.len() ==> in_reach(
                ranker.kept_of(old(values)@.len() as int) * #[trigger] old(values)@[i],
            ),
    ensures
        total == ranker.kept_sum(ints(old(values)@)),
        in_reach(total as int),
{
    let ghost rolled = ints(values@);
    let n: usize = values.len();
    match ranker {
        Ranker::All => {
            assert(rolled.subrange(0, n as int) =~= rolled);
            sum_between(values, 0, n)
        },
        Ranker::Highest(_) => {
            sort(values);
            proof {
                lemma_sorted(rolled, ints(values@));
                lemma_ascending(rolled);
            }
            assert forall|i: int| 0 <= i < n implies in_reach(
                keep_count * #[trigger] values@[i],
            ) by {
                let v = ascending(rolled)[i];
                assert(rolled.contains(v));
            }
            sum_between(values, n - keep_count, n)
        },
        Ranker::Lowest(_) => {
            sort(values);
            proof {
                lemma_sorted(rolled, ints(values@));
                lemma_ascending(rolled);
            }
            assert forall|i: int| 0 <= i < n implies in_reach(
                keep_count * #[trigger] values@[i],
            ) by {
                let v = ascending(rolled)[i];
                assert(rolled.contains(v));
            }
            sum_between(values, 0, keep_count)
        },
    }
}

/// A sequence in ascending order that holds the items of `values` is the
/// ascending order of `values`.
pub proof fn lemma_sorted(values: Seq<int>, sorted: Seq<int>)
    requires
        sorted.to_multiset() == values.to_multiset(),
        forall|i: int, j: int| 0 <= i < j < sorted.len() ==> sorted[i] <= sorted[j],
    ensures
        sorted == ascending(values),
{
    lemma_at_most_total();
    lemma_ascending(values);
    assert(sorted_by(sorted, at_most()));
    lemma_sorted_unique(sorted, ascending(values), at_most());
}

/// The distribution of rolling `value` as often as `count` says and adding
/// up what `ranker` keeps of the rolled values.
///
/// For each number of rolls that occurs, every sequence of that many values
/// that occur contributes, at the sum of the values that the rule keeps, the
/// product of all the values' counts times the count of the number.
///
/// Fails, with the text of `expression`, where `count.min()`, the least
/// stored number of rolls, is negative, or is less than the number of values
/// to keep. Of a count in canonical form that is the least number of rolls
/// that occurs; the evaluator hands its counts over in that form.
pub fn repeat(expression: &Expression, count: Distribution, value: Distribution, ranker: &Ranker) -> (r:
    Result<Distribution, Error>)
    requires
        count.wf(),
        value.wf(),
        count@.min() >= ranker.keep() ==> Table::repeats(count@, value@, *ranker),
    ensures
        match r {
            Ok(d) => {
                &&& count@.min() >= ranker.keep()
                &&& d.wf()
                &&& d@ == Table::repeated(count@, value@, *ranker)
            },
            Err(Error::NegativeCount(text)) => count@.min() < 0 && text@ == expression.rendering(),
            Err(Error::KeepTooFew(text)) => 0 <= count@.min() < ranker.keep() && text@
                == expression.rendering(),
            Err(_) => false,
        },
{
    let mut result = Distribution::empty();
    if count.min() < 0 {
        return Err(Error::NegativeCount(expression.to_text()));
    }
    if (count.min() as usize) < ranker.count() {
        return Err(Error::KeepTooFew(expression.to_text()));
    }
    let keep_count: usize = ranker.count();
    let numbers = count.occurrences().collect();
    let pool = value.occurrences().collect();
    let ghost all = all_rolls(*ranker, count@.entries(), value@.entries());
    proof {
        lemma_tally(all);
        lemma_entries(count@);
        assert(reach() >= 0) by {
            assert(isize::MAX >= 0);
        }
    }
    let mut i: usize = 0;
    while i < numbers.len()
        invariant
            i <= numbers.len(),
            count.wf(),
            value.wf(),
            keep_count == ranker.keep(),
            count@.min() >= keep_count,
            pairs(numbers@) == count@.entries(),
            pairs(pool@) == value@.entries(),
            all == all_rolls(*ranker, count@.entries(), value@.entries()),
            weight(all) <= usize::MAX,
            Table::repeats(count@, value@, *ranker),
            result.wf(),
            result@ == Table::tally(all_rolls(*ranker, count@.entries().take(i as int), value@.entries())),
            -reach() <= result@.min(),
            result@.max() <= reach(),
            reach() >= 0,
        decreases numbers.len() - i,
    {
        let number: isize = numbers[i].0;
        let frequency: usize = numbers[i].1;
        proof {
            lemma_entries(count@);
            assert(count@.entries()[i as int] == (number as int, frequency as nat));
        }
        let ghost done = all_rolls(*ranker, count@.entries().take(i as int), value@.entries());
        let ghost these = rolls(*ranker, number as nat, frequency as nat, value@.entries());
        proof {
            lemma_tuples_mapped(pool@, number as nat);
            lemma_all_rolls_prefix(*ranker, count@.entries(), value@.entries(), i as int);
            lemma_all_rolls_prefix(*ranker, count@.entries(), value@.entries(), i + 1);
            lemma_weight_concat(done, these);
            lemma_rolls(*ranker, number as nat, frequency as nat, value@);
        }
        let mut combos = multi_cartesian_product(&pool, number as usize);
        let ghost every = tuples(pool@, number as nat);
        let ghost mut k: int = 0;
        loop
            invariant_except_break
                0 <= k <= every.len(),
                sequences_left(combos) == every.skip(k),
                result@ == Table::tally(done + these.take(k)),
            invariant
                value.wf(),
                keep_count == ranker.keep(),
                keep_count <= number,
                frequency > 0,
                count@.at(number as int) > 0,
                pairs(pool@) == value@.entries(),
                every == tuples(pool@, number as nat),
                these == rolls(*ranker, number as nat, frequency as nat, value@.entries()),
                these.len() == every.len(),
                weight(done) + weight(these) <= usize::MAX,
                Table::repeats(count@, value@, *ranker),
                result.wf(),
                -reach() <= result@.min(),
                result@.max() <= reach(),
                reach() >= 0,
            ensures
                result@ == Table::tally(done + these),
            decreases every.len() - k,
        {
            let combo = match next_sequence(&mut combos) {
                Some(sequence) => sequence,
                None => {
                    assert(these.take(k) =~= these);
                    break ;
                },
            };
            let ghost t = tuples(value@.entries(), number as nat)[k];
            proof {
                assert(every.skip(k).first() == every[k]);
                assert(every.skip(k).drop_first() =~= every.skip(k + 1));
                lemma_tuples_mapped(pool@, number as nat);
                assert(pairs(combo@) == t);
                lemma_tuples(value@, number as nat, k);
                assert forall|j: int| 0 <= j < combo@.len() implies (#[trigger] combo@[j]).1 > 0 by {
                    assert(t[j].1 == combo@[j].1);
                }
                lemma_product_positive(t);
                lemma_weight_prefix(these, k);
                lemma_weight_prefix(these, k + 1);
                lemma_weight_concat(done, these.take(k));
                assert(these[k] == roll(*ranker, frequency as nat, t));
                assert(product_of_counts(t) <= product_of_counts(t) * frequency) by (nonlinear_arith)
                    requires
                        frequency > 0,
                ;
                lemma_tally(done + these.take(k));
            }
            let mut values = values_in(&combo);
            assert forall|j: int| 0 <= j < values@.len() implies in_reach(
                ranker.kept_of(values@.len() as int) * #[trigger] values@[j],
            ) by {
                assert(values@[j] == ints(values@)[j]);
                assert(ints(values@)[j] == t[j].0);
                assert(value@.at(t[j].0) > 0);
            }
            let occurrences: usize = weight_of(&combo) * frequency;
            let total: isize = kept_total(ranker, &mut values, keep_count);
            result.add_occurrences(total, occurrences);
            proof {
                let next = done + these.take(k + 1);
                assert(next.drop_last() =~= done + these.take(k));
                assert(next.last() == these[k]);
                lemma_with(Table::tally(done + these.take(k)), total as int, occurrences as nat);
                k = k + 1;
            }
        }
        i += 1;
    }
    proof {
        assert(count@.entries().take(i as int) =~= count@.entries());
    }
    Ok(result)
}

/// Reading machine pairs as entries goes through the forming of sequences.
proof fn lemma_tuples_mapped(pool: Seq<(isize, usize)>, n: nat)
    ensures
        tuples(pairs(pool), n).len() == tuples(pool, n).len(),
        forall|k: int|
            0 <= k < tuples(pool, n).len() ==> pairs(#[trigger] tuples(pool, n)[k]) == tuples(
                pairs(pool),
                n,
            )[k],
    decreases n,
{
    if n == 0 {
        assert(pairs(Seq::<(isize, usize)>::empty()) =~= Seq::<(int, nat)>::empty());
    } else {
        lemma_tuples_mapped(pool, (n - 1) as nat);
        let shorter = tuples(pool, (n - 1) as nat);
        let m = pool.len() as int;
        assert forall|k: int| 0 <= k < tuples(pool, n).len() implies pairs(
            #[trigger] tuples(pool, n)[k],
        ) == tuples(pairs(pool), n)[k] by {
            lemma_cross_index(shorter.len() as int, m, k);
            assert(pairs(shorter[k / m].push(pool[k % m])) =~= pairs(shorter[k / m]).push(
                pairs(pool)[k % m],
            ));
        }
    }
}

} // verus!
