//! Exact probabilities, as fractions in lowest terms.

use vstd::prelude::*;
use vstd::arithmetic::div_mod::{lemma_fundamental_div_mod, lemma_mod_multiples_basic};
use num::rational::Ratio;
use crate::distribution::Distribution;
use crate::table::Table;

verus! {

/// Whether no number above one divides both `a` and `b`.
pub open spec fn coprime(a: nat, b: nat) -> bool {
    forall|d: nat| 1 < d ==> !(#[trigger] (a % d) == 0 && b % d == 0)
}

/// An exact probability: a fraction in lowest terms.
#[derive(Debug, Clone, Copy, PartialEq, Eq)]
pub struct Probability {
    pub numer: usize,
    pub denom: usize,
}

impl Probability {
    /// Lowest terms: a positive denominator that shares no divisor with the
    /// numerator.
    pub open spec fn wf(self) -> bool {
        self.denom > 0 && coprime(self.numer as nat, self.denom as nat)
    }

    /// Whether the fraction equals `count / total`.
    pub open spec fn equals(self, count: nat, total: nat) -> bool {
        self.numer * total == count * self.denom
    }

    /// The numerator.
    pub fn numer(&self) -> (n: usize)
        ensures
            n == self.numer,
    {
        self.numer
    }

    /// The denominator.
    pub fn denom(&self) -> (n: usize)
        ensures
            n == self.denom,
    {
        self.denom
    }

    /// Whether the probability is exactly one.
    pub fn is_one(&self) -> (r: bool)
        ensures
            r == (self.numer == 1 && self.denom == 1),
    {
        self.numer == 1 && self.denom == 1
    }
}

/// Calls `num::rational::Ratio::new`, which puts `numer / denom` into lowest
/// terms and panics on a zero denominator, and hands back the numerator and
/// the denominator that it holds.
///
/// Believed of it: the result is the same fraction, its denominator is
/// positive, and no number above one divides both of its parts.
#[verifier::external_body]
fn lowest_terms(numer: usize, denom: usize) -> (r: (usize, usize))
    requires
        denom != 0,
    ensures
        r.1 > 0,
        r.0 * denom == numer * r.1,
        coprime(r.0 as nat, r.1 as nat),
{
    let ratio = Ratio::new(numer, denom);
    (*ratio.numer(), *ratio.denom())
}

/// A fraction in lowest terms that equals zero is `0 / 1`.
pub proof fn lemma_lowest_terms_zero(n: nat, d: nat, total: nat)
    requires
        d > 0,
        total > 0,
        coprime(n, d),
        n * total == 0,
    ensures
        n == 0,
        d == 1,
{
    assert(n == 0) by (nonlinear_arith)
        requires
            n * total == 0,
            total > 0,
    ;
    if d > 1 {
        assert(n % d == 0);
        assert(d % d == 0) by (nonlinear_arith)
            requires
                d > 1,
        ;
    }
}

/// A fraction in lowest terms equals one exactly where it is `1 / 1`.
pub proof fn lemma_lowest_terms_one(n: nat, d: nat, count: nat, total: nat)
    requires
        d > 0,
        total > 0,
        coprime(n, d),
        n * total == count * d,
    ensures
        (n == 1 && d == 1) <==> count == total,
{
    if count == total {
        assert(n == d) by (nonlinear_arith)
            requires
                n * total == total * d,
                total > 0,
        ;
        if d > 1 {
            assert(d % d == 0) by (nonlinear_arith)
                requires
                    d > 1,
            ;
        }
    }
    if n == 1 && d == 1 {
        assert(count == total) by (nonlinear_arith)
            requires
                1 * total == count * 1,
        ;
    }
}

/// Of the fractions `x / y` that equal `a / b` in lowest terms, none has a
/// smaller denominator than `b`.
pub proof fn lemma_lowest_denominator(a: nat, b: nat, x: nat, y: nat)
    requires
        b > 0,
        y > 0,
        coprime(a, b),
        x * b == a * y,
    ensures
        b <= y,
    decreases y,
{
    if y < b {
        let k = b / y;
        let r = b % y;
        lemma_fundamental_div_mod(b as int, y as int);
        assert(b == y * k + r);
        assert(0 <= r < y) by (nonlinear_arith)
            requires
                r == b % y,
                y > 0,
        ;
        let rest: int = a - k * x;
        assert(rest * b == a * r) by (nonlinear_arith)
            requires
                x * b == a * y,
                b == y * k + r,
                rest == a - k * x,
        ;
        assert(rest >= 0) by (nonlinear_arith)
            requires
                rest * b == a * r,
                b > 0,
                a >= 0,
                r >= 0,
        ;
        if r == 0 {
            assert(rest == 0) by (nonlinear_arith)
                requires
                    rest * b == a * r,
                    r == 0,
                    b > 0,
            ;
            assert(k >= 2) by (nonlinear_arith)
                requires
                    b == y * k + r,
                    r == 0,
                    0 < y < b,
            ;
            lemma_mod_multiples_basic(x as int, k as int);
            lemma_mod_multiples_basic(y as int, k as int);
            assert(x * k == k * x && y * k == b) by (nonlinear_arith)
                requires
                    b == y * k + r,
                    r == 0,
            ;
            assert(a % k == 0);
            assert(b % k == 0);
            assert(false);
        } else {
            lemma_lowest_denominator(a, b, rest as nat, r);
        }
    }
}

/// A fraction has one form in lowest terms only.
pub proof fn lemma_lowest_terms_unique(a: nat, b: nat, c: nat, d: nat)
    requires
        b > 0,
        d > 0,
        coprime(a, b),
        coprime(c, d),
        a * d == c * b,
    ensures
        a == c,
        b == d,
{
    lemma_lowest_denominator(a, b, c, d);
    lemma_lowest_denominator(c, d, a, b);
    assert(a == c) by (nonlinear_arith)
        requires
            a * d == c * b,
            b == d,
            b > 0,
    ;
}

impl Table {
    /// Whether `p` is the probability of `v`: the count of `v` over the
    /// total, in lowest terms, and `0 / 1` where `v` does not occur.
    pub open spec fn has_probability(self, v: int, p: Probability) -> bool {
        &&& p.wf()
        &&& p.equals(self.at(v), self.total())
        &&& (self.at(v) == 0 ==> p.numer == 0 && p.denom == 1)
    }
}

impl Distribution {
    /// The exact probability of `value`: its occurrence count over the total,
    /// in lowest terms; `0 / 1` for a value that does not occur.
    pub fn probability(&self, value: isize) -> (p: Probability)
        requires
            self.wf(),
        ensures
            self@.has_probability(value as int, p),
    {
        if self.min() <= value && value <= self.max() {
            let count: usize = self.count_at(value);
            let total: usize = self.total();
            let r = lowest_terms(count, total);
            proof {
                if count == 0 {
                    lemma_lowest_terms_zero(r.0 as nat, r.1 as nat, total as nat);
                }
            }
            Probability { numer: r.0, denom: r.1 }
        } else {
            let r = lowest_terms(0, 1);
            proof {
                lemma_lowest_terms_zero(r.0 as nat, r.1 as nat, 1);
                assert(r.0 * self@.total() == 0) by (nonlinear_arith)
                    requires
                        r.0 == 0,
                ;
            }
            Probability { numer: r.0, denom: r.1 }
        }
    }
}

} // verus!
