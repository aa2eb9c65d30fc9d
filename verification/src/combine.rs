//! The binary operators: sum, product, floor division and comparison of two
//! independent distributions.

use vstd::prelude::*;
use vstd::arithmetic::div_mod::lemma_fundamental_div_mod_converse;
use core::ops::Add;
use itertools::structs::Product;
use itertools::Itertools;
use std::vec::IntoIter;
use crate::distribution::{pairs, Distribution};
use crate::expression::{ComparisonOp, Error, Expression};
use crate::probability::lemma_lowest_terms_one;
use crate::table::Table;
use crate::tally::{
    cross, in_reach, lemma_cross_index, lemma_entries, lemma_tally, lemma_tally_anchored,
    lemma_tally_bounded, lemma_weight_concat, lemma_weight_prefix, reach, weight, weight_at,
};

verus! {

/// What a binary operator does to a pair of values.
#[derive(Debug, Clone, Copy, PartialEq, Eq)]
pub enum Operation {
    Sum,
    Product,
    Floor,
    Compare(ComparisonOp),
}

/// The quotient of `a` by `b`, rounded towards minus infinity.
pub open spec fn floor_div(a: int, b: int) -> int {
    if b > 0 {
        a / b
    } else {
        (-a) / (-b)
    }
}

impl Operation {
    /// The value that the operator gives for the pair `v1`, `v2`.
    pub open spec fn apply(self, v1: int, v2: int) -> int {
        match self {
            Operation::Sum => v1 + v2,
            Operation::Product => v1 * v2,
            Operation::Floor => floor_div(v1, v2),
            Operation::Compare(op) => if op.holds(v1, v2) {
                1
            } else {
                0
            },
        }
    }

    /// Computes the value that the operator gives for the pair `v1`, `v2`.
    pub fn compute(self, v1: isize, v2: isize) -> (v: isize)
        requires
            isize::MIN <= self.apply(v1 as int, v2 as int) <= isize::MAX,
            self is Floor ==> v2 != 0,
        ensures
            v == self.apply(v1 as int, v2 as int),
    {
        match self {
            Operation::Sum => v1 + v2,
            Operation::Product => v1 * v2,
            Operation::Floor => {
                proof {
                    lemma_floor_div(v1 as int, v2 as int);
                    lemma_towards_zero_bounds(v1 as int, v2 as int);
                }
                let towards_zero: isize = v1 / v2;
                let rest: isize = v1 % v2;
                if rest != 0 && ((rest < 0) != (v2 < 0)) {
                    towards_zero - 1
                } else {
                    towards_zero
                }
            },
            Operation::Compare(op) => if op.test(v1, v2) {
                1
            } else {
                0
            },
        }
    }
}

/// The quotient and the rest of a division that rounds towards zero.
pub open spec fn quotient_towards_zero(a: int, b: int) -> int {
    if a >= 0 {
        a / b
    } else {
        -((-a) / b)
    }
}

/// The rest of a division that rounds towards zero.
pub open spec fn rest_towards_zero(a: int, b: int) -> int {
    if a >= 0 {
        a % b
    } else {
        -((-a) % b)
    }
}

/// Rounding down differs from rounding towards zero by one, exactly where a
/// rest is left whose sign is not that of the divisor.
pub proof fn lemma_floor_div(a: int, b: int)
    requires
        b != 0,
    ensures
        floor_div(a, b) == if rest_towards_zero(a, b) != 0 && ((rest_towards_zero(a, b) < 0) != (b
            < 0)) {
            quotient_towards_zero(a, b) - 1
        } else {
            quotient_towards_zero(a, b)
        },
        a == isize::MIN && b == -1 ==> floor_div(a, b) == isize::MAX + 1,
{
    if a >= 0 && b > 0 {
        assert(0 <= a % b) by (nonlinear_arith)
            requires
                b > 0,
        ;
    } else if a >= 0 && b < 0 {
        let d = -b;
        assert(a / b == -(a / d) && a % b == a % d && 0 <= a % d < d && a == d * (a / d) + a % d)
            by (nonlinear_arith)
            requires
                d == -b,
                d > 0,
        ;
        assert((-a) / d == if a % d == 0 {
            -(a / d)
        } else {
            -(a / d) - 1
        }) by (nonlinear_arith)
            requires
                d > 0,
                0 <= a % d < d,
                a == d * (a / d) + a % d,
        ;
    } else if a < 0 && b > 0 {
        let p = -a;
        assert(0 <= p % b < b && p == b * (p / b) + p % b) by (nonlinear_arith)
            requires
                b > 0,
        ;
        assert(a / b == if p % b == 0 {
            -(p / b)
        } else {
            -(p / b) - 1
        }) by (nonlinear_arith)
            requires
                b > 0,
                p == -a,
                0 <= p % b < b,
                p == b * (p / b) + p % b,
        ;
    } else {
        let p = -a;
        let d = -b;
        assert(p / b == -(p / d) && p % b == p % d && 0 <= p % d) by (nonlinear_arith)
            requires
                d == -b,
                d > 0,
        ;
    }
}

/// Rounding towards zero gives a quotient no larger in magnitude than the
/// dividend, and a rest smaller in magnitude than the divisor.
pub proof fn lemma_towards_zero_bounds(a: int, b: int)
    requires
        b != 0,
    ensures
        a >= 0 ==> -a <= quotient_towards_zero(a, b) <= a,
        a < 0 ==> a <= quotient_towards_zero(a, b) <= -a,
        b > 0 ==> -b < rest_towards_zero(a, b) < b,
        b < 0 ==> b < rest_towards_zero(a, b) < -b,
{
    let p = if a >= 0 { a } else { -a };
    assert(-p <= p / b <= p && 0 <= p % b && (b > 0 ==> p % b < b) && (b < 0 ==> p % b < -b))
        by (nonlinear_arith)
        requires
            p >= 0,
            b != 0,
    ;
}

/// What one pair of entries contributes: the operator's value for the two
/// values, with the product of the two counts.
pub open spec fn contribution(op: Operation, x: (int, nat), y: (int, nat)) -> (int, nat) {
    (op.apply(x.0, y.0), x.1 * y.1)
}

/// The contributions of all pairs of an entry of `xs` with an entry of `ys`,
/// in the order of [`cross`].
pub open spec fn contributions(op: Operation, xs: Seq<(int, nat)>, ys: Seq<(int, nat)>) -> Seq<
    (int, nat),
> {
    Seq::new(
        xs.len() * ys.len(),
        |k: int| contribution(op, xs[k / (ys.len() as int)], ys[k % (ys.len() as int)]),
    )
}

impl Table {
    /// The table of `op` applied to independent outcomes of `a` and `b`: each
    /// pair of values that occur contributes the product of their counts to
    /// the value that `op` gives.
    pub open spec fn combined(op: Operation, a: Table, b: Table) -> Table {
        Table::tally(contributions(op, a.entries(), b.entries()))
    }

    /// The table of a comparison: that of the operator, but a comparison that
    /// always holds or never holds gives the point mass at one or at zero.
    pub open spec fn compared(a: Table, op: ComparisonOp, b: Table) -> Table {
        let d = Table::combined(Operation::Compare(op), a, b);
        if d.total() > 0 && d.at(0) == d.total() {
            Table::point(0)
        } else if d.total() > 0 && d.at(1) == d.total() {
            Table::point(1)
        } else {
            d
        }
    }

    /// Whether `op` can be worked out on `a` and `b` within machine limits:
    /// the number of combined rolls fits, and every value that comes out is
    /// within reach.
    pub open spec fn combines(op: Operation, a: Table, b: Table) -> bool {
        &&& a.total() * b.total() <= usize::MAX
        &&& forall|v1: int, v2: int|
            a.at(v1) > 0 && b.at(v2) > 0 ==> in_reach(#[trigger] op.apply(v1, v2))
    }
}

/// The iterator that `itertools::Itertools::cartesian_product` returns. Its
/// inside is not read here.
#[verifier::external_type_specification]
#[verifier::external_body]
#[verifier::reject_recursive_types(I)]
#[verifier::reject_recursive_types(J)]
pub struct ExProduct<I: Iterator, J>(Product<I, J>);

/// The pairs that a cartesian product of two lists of entries has yet to
/// yield, in order.
pub uninterp spec fn pairs_left(
    it: Product<IntoIter<(isize, usize)>, IntoIter<(isize, usize)>>,
) -> Seq<((isize, usize), (isize, usize))>;

/// Calls `itertools::Itertools::cartesian_product` on the items of `a` and
/// of `b`.
///
/// Believed of it: the iterator will yield every pair of an item of `a` with
/// an item of `b`, the pairs of the first item of `a` first, each group in
/// the order of `b`.
#[verifier::external_body]
fn cartesian_product(a: Vec<(isize, usize)>, b: Vec<(isize, usize)>) -> (it: Product<
    IntoIter<(isize, usize)>,
    IntoIter<(isize, usize)>,
>)
    ensures
        pairs_left(it) == cross(a@, b@),
{
    a.into_iter().cartesian_product(b)
}

/// Calls `next` of the iterator of a cartesian product.
///
/// Believed of it: it yields the first of the pairs that are left and leaves
/// the others, or yields nothing where none is left.
#[verifier::external_body]
fn next_pair(it: &mut Product<IntoIter<(isize, usize)>, IntoIter<(isize, usize)>>) -> (item:
    Option<((isize, usize), (isize, usize))>)
    ensures
        match item {
            Some(pair) => {
                &&& pairs_left(*old(it)).len() > 0
                &&& pair == pairs_left(*old(it)).first()
                &&& pairs_left(*final(it)) == pairs_left(*old(it)).drop_first()
            },
            None => pairs_left(*old(it)).len() == 0 && pairs_left(*final(it)).len() == 0,
        },
{
    it.next()
}

/// The contributions of one entry with all of `ys` weigh its count times the
/// weight of `ys`.
proof fn lemma_row_weight(op: Operation, x: (int, nat), ys: Seq<(int, nat)>)
    ensures
        weight(Seq::new(ys.len(), |j: int| contribution(op, x, ys[j]))) == x.1 * weight(ys),
    decreases ys.len(),
{
    let row = Seq::new(ys.len(), |j: int| contribution(op, x, ys[j]));
    if ys.len() == 0 {
        assert(x.1 * 0 == 0) by (nonlinear_arith);
    } else {
        let rest = ys.drop_last();
        lemma_row_weight(op, x, rest);
        assert(row.drop_last() =~= Seq::new(rest.len(), |j: int| contribution(op, x, rest[j])));
        assert(x.1 * (weight(rest) + ys.last().1) == x.1 * weight(rest) + x.1 * ys.last().1)
            by (nonlinear_arith);
    }
}

/// The contributions of all pairs weigh the product of the two weights.
pub proof fn lemma_contributions_weight(op: Operation, xs: Seq<(int, nat)>, ys: Seq<(int, nat)>)
    ensures
        weight(contributions(op, xs, ys)) == weight(xs) * weight(ys),
    decreases xs.len(),
{
    let all = contributions(op, xs, ys);
    let m = xs.len() as int;
    let n = ys.len() as int;
    if m == 0 {
        assert(0 * n == 0) by (nonlinear_arith);
        assert(0 * weight(ys) == 0) by (nonlinear_arith);
        assert(all.len() == 0);
    } else {
        let rest = xs.drop_last();
        let before = contributions(op, rest, ys);
        let row = Seq::new(ys.len(), |j: int| contribution(op, xs.last(), ys[j]));
        lemma_contributions_weight(op, rest, ys);
        lemma_row_weight(op, xs.last(), ys);
        assert(m * n == (m - 1) * n + n) by (nonlinear_arith);
        assert forall|k: int| 0 <= k < all.len() implies all[k] == (before + row)[k] by {
            lemma_cross_index(m, n, k);
            if k < (m - 1) * n {
                lemma_cross_index(m - 1, n, k);
            } else {
                let j = k - (m - 1) * n;
                lemma_fundamental_div_mod_converse(k, n, m - 1, j);
            }
        }
        assert(all =~= before + row);
        lemma_weight_concat(before, row);
        assert((weight(rest) + xs.last().1) * weight(ys) == weight(rest) * weight(ys)
            + xs.last().1 * weight(ys)) by (nonlinear_arith);
    }
}

/// What the contributions of two tables hold: entries that occur, with
/// counts above zero.
pub proof fn lemma_contributions(op: Operation, a: Table, b: Table, k: int)
    requires
        0 <= k < contributions(op, a.entries(), b.entries()).len(),
    ensures
        ({
            let n = b.entries().len() as int;
            let x = a.entries()[k / n];
            let y = b.entries()[k % n];
            &&& 0 <= k / n < a.entries().len()
            &&& 0 <= k % n < n
            &&& contributions(op, a.entries(), b.entries())[k] == contribution(op, x, y)
            &&& a.at(x.0) == x.1
            &&& b.at(y.0) == y.1
            &&& x.1 > 0
            &&& y.1 > 0
            &&& x.1 * y.1 > 0
        }),
{
    let n = b.entries().len() as int;
    lemma_cross_index(a.entries().len() as int, n, k);
    lemma_entries(a);
    lemma_entries(b);
    let x = a.entries()[k / n];
    let y = b.entries()[k % n];
    assert(x.1 * y.1 > 0) by (nonlinear_arith)
        requires
            x.1 > 0,
            y.1 > 0,
    ;
}

/// The law of combination: the combined table counts, at each value, the
/// weight of the pairs that give it; its total is the product of the two
/// totals; and its stored range runs from the least value that comes out, or
/// zero at most, to the greatest, or minus one at least.
pub proof fn lemma_combined(op: Operation, a: Table, b: Table)
    ensures
        Table::combined(op, a, b).total() == a.total() * b.total(),
        forall|v: int| #[trigger]
            Table::combined(op, a, b).at(v) == weight_at(
                contributions(op, a.entries(), b.entries()),
                v,
            ),
        Table::combined(op, a, b).min() <= 0,
        Table::combined(op, a, b).max() >= -1,
        Table::combined(op, a, b).min() < 0 ==> Table::combined(op, a, b).at(
            Table::combined(op, a, b).min(),
        ) > 0,
        Table::combined(op, a, b).max() >= 0 ==> Table::combined(op, a, b).at(
            Table::combined(op, a, b).max(),
        ) > 0,
{
    let all = contributions(op, a.entries(), b.entries());
    lemma_tally(all);
    lemma_contributions_weight(op, a.entries(), b.entries());
    lemma_entries(a);
    lemma_entries(b);
    assert forall|i: int| 0 <= i < all.len() implies (#[trigger] all[i]).1 > 0 by {
        lemma_contributions(op, a, b, i);
    }
    lemma_tally_anchored(all);
}

/// Accumulates, for every pair of values that occur in `a` and in `b`, the
/// product of their counts at the value that `op` gives.
fn accumulate(op: Operation, a: &Distribution, b: &Distribution) -> (d: Distribution)
    requires
        a.wf(),
        b.wf(),
        Table::combines(op, a@, b@),
        op is Floor ==> b@.at(0) == 0,
    ensures
        d.wf(),
        d@ == Table::combined(op, a@, b@),
{
    let xs = a.occurrences().collect();
    let ys = b.occurrences().collect();
    let ghost all = contributions(op, a@.entries(), b@.entries());
    let ghost first = xs@;
    let ghost second = ys@;
    let ghost every = cross(first, second);
    proof {
        lemma_entries(a@);
        lemma_entries(b@);
        lemma_contributions_weight(op, a@.entries(), b@.entries());
    }
    let mut both = cartesian_product(xs, ys);
    let mut d = Distribution::empty();
    let ghost mut k: int = 0;
    loop
        invariant
            0 <= k <= every.len(),
            pairs_left(both) == every.skip(k),
            every == cross(first, second),
            every.len() == all.len(),
            pairs(first) == a@.entries(),
            pairs(second) == b@.entries(),
            all == contributions(op, a@.entries(), b@.entries()),
            weight(all) <= usize::MAX,
            Table::combines(op, a@, b@),
            op is Floor ==> b@.at(0) == 0,
            d.wf(),
            d@ == Table::tally(all.take(k)),
            forall|i: int| 0 <= i < k ==> in_reach((#[trigger] all[i]).0),
        decreases every.len() - k,
    {
        let (x, y) = match next_pair(&mut both) {
            Some(pair) => pair,
            None => {
                assert(all.take(k) =~= all);
                return d;
            },
        };
        proof {
            assert(every.skip(k).first() == every[k]);
            assert(every.skip(k).drop_first() =~= every.skip(k + 1));
            lemma_contributions(op, a@, b@, k);
            lemma_weight_prefix(all, k);
            lemma_weight_prefix(all, k + 1);
            lemma_tally(all.take(k));
            lemma_tally_bounded(all.take(k), reach());
            assert(in_reach(op.apply(x.0 as int, y.0 as int)));
        }
        let value: isize = op.compute(x.0, y.0);
        let occurrences: usize = x.1 * y.1;
        d.add_occurrences(value, occurrences);
        proof {
            assert(all.take(k + 1).drop_last() =~= all.take(k));
            k = k + 1;
        }
    }
}

impl core::ops::Add<&Distribution> for &Distribution {
    type Output = Distribution;

    /// The distribution of the sum of independent outcomes of `self` and of
    /// `rhs`: the convolution of the two.
    fn add(self, rhs: &Distribution) -> (d: Distribution)
        ensures
            d.wf(),
            d@ == Table::combined(Operation::Sum, self@, rhs@),
            d@.total() == self@.total() * rhs@.total(),
    {
        proof {
            lemma_combined(Operation::Sum, self@, rhs@);
        }
        accumulate(Operation::Sum, self, rhs)
    }
}

/// What `+` asks of two distributions. Its result is stated by `add`
/// itself, over the views.
impl vstd::std_specs::ops::AddSpecImpl<&Distribution> for &Distribution {
    open spec fn obeys_add_spec() -> bool {
        false
    }

    open spec fn add_req(self, rhs: &Distribution) -> bool {
        self.wf() && rhs.wf() && Table::combines(Operation::Sum, self@, rhs@)
    }

    open spec fn add_spec(self, rhs: &Distribution) -> Distribution {
        *self
    }
}

impl core::ops::Add<Distribution> for Distribution {
    type Output = Distribution;

    /// The distribution of the sum of independent outcomes of `self` and of
    /// `rhs`.
    fn add(self, rhs: Distribution) -> (d: Distribution)
        ensures
            d.wf(),
            d@ == Table::combined(Operation::Sum, self@, rhs@),
            d@.total() == self@.total() * rhs@.total(),
    {
        (&self).add(&rhs)
    }
}

/// What `+` asks of two distributions. Its result is stated by `add`
/// itself, over the views.
impl vstd::std_specs::ops::AddSpecImpl<Distribution> for Distribution {
    open spec fn obeys_add_spec() -> bool {
        false
    }

    open spec fn add_req(self, rhs: Distribution) -> bool {
        self.wf() && rhs.wf() && Table::combines(Operation::Sum, self@, rhs@)
    }

    open spec fn add_spec(self, rhs: Distribution) -> Distribution {
        self
    }
}

/// The distribution of the product of independent outcomes of `a` and `b`.
pub fn product(a: Distribution, b: Distribution) -> (d: Distribution)
    requires
        a.wf(),
        b.wf(),
        Table::combines(Operation::Product, a@, b@),
    ensures
        d.wf(),
        d@ == Table::combined(Operation::Product, a@, b@),
        d@.total() == a@.total() * b@.total(),
{
    proof {
        lemma_combined(Operation::Product, a@, b@);
    }
    accumulate(Operation::Product, &a, &b)
}

/// The distribution of an outcome of `a` divided by an independent outcome
/// of `b`, rounded down; the error of division by zero, tagged with the
/// text of `e`, where `b` can be zero.
pub fn floor(e: &Expression, a: Distribution, b: Distribution) -> (r: Result<Distribution, Error>)
    requires
        a.wf(),
        b.wf(),
        b@.at(0) == 0 ==> Table::combines(Operation::Floor, a@, b@),
    ensures
        match r {
            Ok(d) => {
                &&& b@.at(0) == 0
                &&& d.wf()
                &&& d@ == Table::combined(Operation::Floor, a@, b@)
                &&& d@.total() == a@.total() * b@.total()
            },
            Err(Error::DivideByZero(text)) => b@.at(0) != 0 && text@ == e.rendering(),
            Err(_) => false,
        },
{
    let zero = b.probability(0);
    if zero.numer() != 0 {
        return Err(Error::DivideByZero(e.to_text()));
    }
    proof {
        assert(b@.at(0) == 0) by (nonlinear_arith)
            requires
                0 * b@.total() == b@.at(0) * zero.denom,
                zero.denom > 0,
        ;
        lemma_combined(Operation::Floor, a@, b@);
    }
    Ok(accumulate(Operation::Floor, &a, &b))
}

/// The distribution of a comparison of independent outcomes of `a` and `b`:
/// one where it holds, zero where it does not. A comparison that always
/// holds, or never, gives the point mass at one, or at zero.
pub fn comparison(a: Distribution, op: ComparisonOp, b: Distribution) -> (d: Distribution)
    requires
        a.wf(),
        b.wf(),
        a@.total() * b@.total() <= usize::MAX,
    ensures
        d.wf(),
        d@ == Table::compared(a@, op, b@),
{
    proof {
        assert(reach() >= 1) by {
            assert(isize::MAX >= 2147483647);
        }
    }
    let d = accumulate(Operation::Compare(op), &a, &b);
    let never = d.probability(0);
    let always = d.probability(1);
    proof {
        if d@.total() > 0 {
            lemma_lowest_terms_one(
                never.numer as nat,
                never.denom as nat,
                d@.at(0),
                d@.total(),
            );
            lemma_lowest_terms_one(
                always.numer as nat,
                always.denom as nat,
                d@.at(1),
                d@.total(),
            );
        }
    }
    if never.is_one() {
        Distribution::modifier(0)
    } else if always.is_one() {
        Distribution::modifier(1)
    } else {
        d
    }
}

} // verus!
