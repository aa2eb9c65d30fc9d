//! The mathematical model: tables of occurrence counts, unbounded.

use vstd::prelude::*;

verus! {

/// Sum of a sequence of counts.
pub open spec fn sum(s: Seq<nat>) -> nat
    decreases s.len(),
{
    if s.len() == 0 {
        0
    } else {
        sum(s.drop_last()) + s.last()
    }
}

/// The number of zeros at the front of a sequence of counts.
pub open spec fn leading_zeros(s: Seq<nat>) -> nat
    decreases s.len(),
{
    if s.len() == 0 || s.first() != 0 {
        0
    } else {
        1 + leading_zeros(s.drop_first())
    }
}

/// The number of zeros at the back of a sequence of counts.
pub open spec fn trailing_zeros(s: Seq<nat>) -> nat
    decreases s.len(),
{
    if s.len() == 0 || s.last() != 0 {
        0
    } else {
        1 + trailing_zeros(s.drop_last())
    }
}

/// The most counts that one table holds. No machine holds more than
/// `isize::MAX` bytes in one piece; a count takes up to eight of them, one
/// of the table's entries, when they are listed, sixteen, and a list that
/// grows may claim twice the room that it fills.
pub open spec fn most_counts() -> int {
    isize::MAX / 32
}

/// A table of occurrence counts: `counts[i]` belongs to the value `base + i`.
///
/// The probability of a value is its count over `total()`.
pub struct Table {
    pub base: int,
    pub counts: Seq<nat>,
}

impl Table {
    /// The least value of the stored range.
    pub open spec fn min(self) -> int {
        self.base
    }

    /// The greatest value of the stored range; `min() - 1` when nothing is stored.
    pub open spec fn max(self) -> int {
        self.base + self.counts.len() - 1
    }

    /// The occurrence count of `v`; zero outside the stored range.
    pub open spec fn at(self, v: int) -> nat {
        if self.base <= v <= self.max() {
            self.counts[v - self.base]
        } else {
            0
        }
    }

    /// The sum of all occurrence counts, the denominator of every probability.
    pub open spec fn total(self) -> nat {
        sum(self.counts)
    }

    /// The accumulator that holds nothing yet, anchored at zero.
    pub open spec fn empty() -> Table {
        Table { base: 0, counts: Seq::empty() }
    }

    /// The point mass at `v`.
    pub open spec fn point(v: int) -> Table {
        Table { base: v, counts: seq![1nat] }
    }

    /// The uniform distribution on `1..=n`.
    pub open spec fn uniform(n: nat) -> Table {
        Table { base: 1, counts: Seq::new(n, |i: int| 1nat) }
    }

    /// Whether the stored range, grown to hold `v`, is still within what a
    /// machine table can span.
    pub open spec fn spans(self, v: int) -> bool {
        let lo = if v < self.base { v } else { self.base };
        let hi = if v > self.max() { v } else { self.max() };
        hi - lo < most_counts()
    }

    /// The table after `c` more occurrences of `v`: the stored range grows, at
    /// either end, just far enough to hold `v`, and nothing else changes.
    pub open spec fn with(self, v: int, c: nat) -> Table {
        let lo = if v < self.base { v } else { self.base };
        let hi = if v > self.max() { v } else { self.max() };
        Table {
            base: lo,
            counts: Seq::new(
                (hi - lo + 1) as nat,
                |i: int| if lo + i == v { self.at(v) + c } else { self.at(lo + i) },
            ),
        }
    }

    /// The values that occur, each with its count, in ascending order of
    /// value, from index `i` of the stored range on.
    pub open spec fn entries_from(self, i: int) -> Seq<(int, nat)>
        decreases self.counts.len() - i,
    {
        if i < 0 || i >= self.counts.len() {
            Seq::empty()
        } else if self.counts[i] == 0 {
            self.entries_from(i + 1)
        } else {
            seq![(self.base + i, self.counts[i])] + self.entries_from(i + 1)
        }
    }

    /// The values that occur, each with its count, in ascending order of value.
    pub open spec fn entries(self) -> Seq<(int, nat)> {
        self.entries_from(0)
    }

    /// The reflection about zero: the count of `v` becomes the count of `-v`.
    pub open spec fn negated(self) -> Table {
        Table { base: -self.max(), counts: self.counts.reverse() }
    }

    /// The table without its leading and trailing zero counts.
    pub open spec fn cleaned(self) -> Table {
        let lead = leading_zeros(self.counts);
        let rest = self.counts.skip(lead as int);
        let trail = trailing_zeros(rest);
        Table { base: self.base + lead, counts: rest.take(rest.len() - trail) }
    }

    /// Canonical form: the first and the last stored count are not zero.
    pub open spec fn canonical(self) -> bool {
        self.counts.len() > 0 ==> self.counts.first() != 0 && self.counts.last() != 0
    }

    /// Whether a machine table can hold this one: bounds within `isize`, at
    /// most `most_counts()` counts, a total within `usize`, and no table
    /// made of zeros alone.
    pub open spec fn representable(self) -> bool {
        &&& isize::MIN <= self.base <= isize::MAX
        &&& isize::MIN <= self.max() <= isize::MAX
        &&& self.counts.len() <= most_counts()
        &&& self.total() <= usize::MAX
        &&& (self.counts.len() > 0 ==> self.total() > 0)
    }
}

/// The sum of a concatenation is the sum of the sums.
pub proof fn lemma_sum_concat(a: Seq<nat>, b: Seq<nat>)
    ensures
        sum(a + b) == sum(a) + sum(b),
    decreases b.len(),
{
    if b.len() == 0 {
        assert(a + b =~= a);
    } else {
        lemma_sum_concat(a, b.drop_last());
        assert((a + b).drop_last() =~= a + b.drop_last());
    }
}

/// A sequence of zeros sums to zero.
pub proof fn lemma_sum_zeros(s: Seq<nat>)
    requires
        forall|i: int| 0 <= i < s.len() ==> s[i] == 0,
    ensures
        sum(s) == 0,
    decreases s.len(),
{
    if s.len() > 0 {
        lemma_sum_zeros(s.drop_last());
    }
}

/// Changing one entry changes the sum by the difference.
pub proof fn lemma_sum_update(s: Seq<nat>, k: int, c: nat)
    requires
        0 <= k < s.len(),
    ensures
        sum(s.update(k, c)) + s[k] == sum(s) + c,
{
    let t = s.update(k, c);
    assert(s =~= s.take(k) + seq![s[k]] + s.skip(k + 1));
    assert(t =~= s.take(k) + seq![c] + s.skip(k + 1));
    lemma_sum_concat(s.take(k), seq![s[k]]);
    lemma_sum_concat(s.take(k) + seq![s[k]], s.skip(k + 1));
    lemma_sum_concat(s.take(k), seq![c]);
    lemma_sum_concat(s.take(k) + seq![c], s.skip(k + 1));
    assert(seq![c].drop_last() =~= Seq::<nat>::empty());
    assert(seq![s[k]].drop_last() =~= Seq::<nat>::empty());
    assert(sum(seq![c]) == c) by {
        reveal_with_fuel(sum, 2);
    }
    assert(sum(seq![s[k]]) == s[k]) by {
        reveal_with_fuel(sum, 2);
    }
}

/// Recording `c` occurrences raises the total by `c` and changes the count
/// of no other value.
pub proof fn lemma_with(t: Table, v: int, c: nat)
    ensures
        t.with(v, c).total() == t.total() + c,
        t.with(v, c).at(v) == t.at(v) + c,
        forall|x: int| x != v ==> #[trigger] t.with(v, c).at(x) == t.at(x),
        t.with(v, c).min() == if v < t.min() { v } else { t.min() },
        t.with(v, c).max() == if v > t.max() { v } else { t.max() },
{
    let lo = if v < t.base { v } else { t.base };
    let hi = if v > t.max() { v } else { t.max() };
    let left = Seq::new((t.base - lo) as nat, |i: int| 0nat);
    let right = Seq::new((hi - t.max()) as nat, |i: int| 0nat);
    let padded = left + t.counts + right;
    lemma_sum_zeros(left);
    lemma_sum_zeros(right);
    lemma_sum_concat(left, t.counts);
    lemma_sum_concat(left + t.counts, right);
    lemma_sum_update(padded, v - lo, t.at(v) + c);
    assert(t.with(v, c).counts =~= padded.update(v - lo, t.at(v) + c));
    assert(padded[v - lo] == t.at(v));
}

/// Reversing a sequence keeps its sum.
pub proof fn lemma_sum_reverse(s: Seq<nat>)
    ensures
        sum(s.reverse()) == sum(s),
    decreases s.len(),
{
    if s.len() > 0 {
        lemma_sum_reverse(s.drop_last());
        assert(s.reverse() =~= seq![s.last()] + s.drop_last().reverse());
        lemma_sum_concat(seq![s.last()], s.drop_last().reverse());
        lemma_sum_singleton(s.last());
    } else {
        assert(s.reverse() =~= s);
    }
}

/// A single count sums to itself.
pub proof fn lemma_sum_singleton(c: nat)
    ensures
        sum(seq![c]) == c,
{
    assert(seq![c].drop_last() =~= Seq::<nat>::empty());
    reveal_with_fuel(sum, 2);
}

/// A die has as many rolls as faces.
pub proof fn lemma_uniform_total(n: nat)
    ensures
        Table::uniform(n).total() == n,
    decreases n,
{
    if n > 0 {
        lemma_uniform_total((n - 1) as nat);
        assert(Table::uniform(n).counts.drop_last() =~= Table::uniform((n - 1) as nat).counts);
    }
}

/// A point mass has one roll.
pub proof fn lemma_point_total(v: int)
    ensures
        Table::point(v).total() == 1,
{
    lemma_sum_singleton(1);
}

/// The zeros counted at the front are zeros, and the entry after them is not.
pub proof fn lemma_leading_zeros(s: Seq<nat>)
    ensures
        leading_zeros(s) <= s.len(),
        forall|i: int| 0 <= i < leading_zeros(s) ==> s[i] == 0,
        leading_zeros(s) < s.len() ==> s[leading_zeros(s) as int] != 0,
    decreases s.len(),
{
    if s.len() == 0 || s.first() != 0 {
    } else {
        let rest = s.drop_first();
        lemma_leading_zeros(rest);
        assert forall|i: int| 0 <= i < leading_zeros(s) implies s[i] == 0 by {
            if i > 0 {
                assert(s[i] == rest[i - 1]);
            }
        }
        if leading_zeros(s) < s.len() {
            assert(s[leading_zeros(s) as int] == rest[leading_zeros(rest) as int]);
        }
    }
}

/// The zeros counted at the back are zeros, and the entry before them is not.
pub proof fn lemma_trailing_zeros(s: Seq<nat>)
    ensures
        trailing_zeros(s) <= s.len(),
        forall|i: int| s.len() - trailing_zeros(s) <= i < s.len() ==> s[i] == 0,
        trailing_zeros(s) < s.len() ==> s[s.len() - trailing_zeros(s) - 1] != 0,
    decreases s.len(),
{
    if s.len() == 0 || s.last() != 0 {
    } else {
        let rest = s.drop_last();
        lemma_trailing_zeros(rest);
        assert forall|i: int| s.len() - trailing_zeros(s) <= i < s.len() implies s[i] == 0 by {
            if i < s.len() - 1 {
                assert(s[i] == rest[i]);
            }
        }
        if trailing_zeros(s) < s.len() {
            assert(s[s.len() - trailing_zeros(s) - 1] == rest[rest.len() - trailing_zeros(rest) - 1]);
        }
    }
}

/// Counting the zeros at the front from a known first nonzero entry.
pub proof fn lemma_leading_zeros_is(s: Seq<nat>, k: int)
    requires
        0 <= k <= s.len(),
        forall|i: int| 0 <= i < k ==> s[i] == 0,
        k < s.len() ==> s[k] != 0,
    ensures
        leading_zeros(s) == k,
{
    lemma_leading_zeros(s);
    let z = leading_zeros(s) as int;
    if z < k {
        assert(s[z] != 0);
    } else if z > k {
        assert(s[k] == 0);
    }
}

/// Counting the zeros at the back from a known last nonzero entry.
pub proof fn lemma_trailing_zeros_is(s: Seq<nat>, k: int)
    requires
        0 <= k <= s.len(),
        forall|i: int| s.len() - k <= i < s.len() ==> s[i] == 0,
        k < s.len() ==> s[s.len() - k - 1] != 0,
    ensures
        trailing_zeros(s) == k,
{
    lemma_trailing_zeros(s);
    let z = trailing_zeros(s) as int;
    if z < k {
        assert(s[s.len() - z - 1] != 0);
    } else if z > k {
        assert(s[s.len() - k - 1] == 0);
    }
}

/// Cleaning changes the count of no value, keeps the total, and leaves the
/// table in canonical form.
pub proof fn lemma_cleaned(t: Table)
    ensures
        forall|v: int| #[trigger] t.cleaned().at(v) == t.at(v),
        t.cleaned().total() == t.total(),
        t.cleaned().canonical(),
        t.min() <= t.cleaned().min(),
        t.cleaned().max() <= t.max(),
{
    let lead = leading_zeros(t.counts);
    let rest = t.counts.skip(lead as int);
    let trail = trailing_zeros(rest);
    let kept = rest.take(rest.len() - trail);
    lemma_leading_zeros(t.counts);
    lemma_trailing_zeros(rest);
    let front = t.counts.take(lead as int);
    let back = rest.skip(rest.len() - trail);
    assert(t.counts =~= front + rest);
    assert(rest =~= kept + back);
    lemma_sum_zeros(front);
    lemma_sum_zeros(back);
    lemma_sum_concat(front, rest);
    lemma_sum_concat(kept, back);
    assert forall|v: int| #[trigger] t.cleaned().at(v) == t.at(v) by {
        if t.base <= v <= t.max() {
            let i = v - t.base;
            if i < lead {
            } else if i >= lead + kept.len() {
                assert(t.counts[i] == rest[i - lead]);
            } else {
                assert(t.counts[i] == rest[i - lead]);
            }
        }
    }
    if kept.len() > 0 {
        assert(kept.first() == t.counts[lead as int]);
        assert(kept.last() == rest[rest.len() - trail - 1]);
    }
}

/// Negating reflects every count about zero and keeps the total; negating
/// twice gives the table back.
pub proof fn lemma_negated(t: Table)
    ensures
        forall|v: int| #[trigger] t.negated().at(v) == t.at(-v),
        t.negated().total() == t.total(),
        t.negated().negated() == t,
        t.negated().min() == -t.max(),
        t.negated().max() == -t.min(),
{
    lemma_sum_reverse(t.counts);
    assert(t.negated().negated().counts =~= t.counts);
}

/// A prefix sums to no more than the whole.
pub proof fn lemma_sum_prefix(s: Seq<nat>, k: int)
    requires
        0 <= k <= s.len(),
    ensures
        sum(s.take(k)) <= sum(s),
    decreases s.len(),
{
    if k == s.len() {
        assert(s.take(k) =~= s);
    } else {
        lemma_sum_prefix(s.drop_last(), k);
        assert(s.drop_last().take(k) =~= s.take(k));
    }
}

/// Extending a prefix by one entry adds that entry.
pub proof fn lemma_sum_step(s: Seq<nat>, k: int)
    requires
        0 <= k < s.len(),
    ensures
        sum(s.take(k + 1)) == sum(s.take(k)) + s[k],
{
    assert(s.take(k + 1).drop_last() =~= s.take(k));
}

/// Every entry is at most the sum.
pub proof fn lemma_sum_bounds_entry(s: Seq<nat>, k: int)
    requires
        0 <= k < s.len(),
    ensures
        s[k] <= sum(s),
{
    lemma_sum_prefix(s, k + 1);
    lemma_sum_step(s, k);
}

} // verus!
