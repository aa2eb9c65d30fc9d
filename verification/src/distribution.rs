//! The executable table and its elementary operations.

use vstd::prelude::*;
use core::ops::Neg;
use crate::table::{
    lemma_cleaned, lemma_leading_zeros_is, lemma_negated, lemma_sum_bounds_entry,
    lemma_point_total, lemma_sum_prefix, lemma_sum_step, lemma_sum_zeros, lemma_trailing_zeros_is,
    lemma_uniform_total, lemma_with, most_counts, sum, Table,
};

verus! {

/// A computed distribution for a bounded dice expression.
///
/// Probabilities are tracked by integers: each value has an occurrence count,
/// and all counts share the implied denominator `total()`.
#[derive(Debug, Clone, PartialEq, Eq)]
pub struct Distribution {
    occurrence_by_value: Vec<usize>,
    /// Index `i` of `occurrence_by_value` counts the occurrences of `i + offset`.
    offset: isize,
}

impl View for Distribution {
    type V = Table;

    closed spec fn view(&self) -> Table {
        Table {
            base: self.offset as int,
            counts: self.occurrence_by_value@.map_values(|c: usize| c as nat),
        }
    }
}

impl Distribution {
    /// Well-formedness: the table is one that a machine can hold.
    pub open spec fn wf(&self) -> bool {
        self@.representable()
    }

    /// The uniform distribution on the closed interval `[1, size]`: a die with
    /// `size` faces.
    pub fn die(size: usize) -> (d: Distribution)
        requires
            size <= most_counts(),
        ensures
            d.wf(),
            d@ == Table::uniform(size as nat),
            d@.total() == size,
    {
        let mut v: Vec<usize> = Vec::new();
        v.resize(size, 1);
        let d = Distribution { occurrence_by_value: v, offset: 1 };
        proof {
            assert(d@.counts =~= Table::uniform(size as nat).counts);
            lemma_uniform_total(size as nat);
        }
        d
    }

    /// The point mass at `value`: probability 1 of producing it.
    pub fn modifier(value: isize) -> (d: Distribution)
        ensures
            d.wf(),
            d@ == Table::point(value as int),
            d@.total() == 1,
    {
        let d = Distribution { occurrence_by_value: vec![1], offset: value };
        proof {
            assert(d@.counts =~= seq![1nat]);
            lemma_point_total(value as int);
        }
        d
    }

    /// The accumulator that holds nothing yet.
    pub(crate) fn empty() -> (d: Distribution)
        ensures
            d.wf(),
            d@ == Table::empty(),
    {
        let d = Distribution { occurrence_by_value: Vec::new(), offset: 0 };
        assert(d@.counts =~= Seq::<nat>::empty());
        d
    }

    /// Adds `occurrences` to the count of `value`, growing the stored range at
    /// either end as far as needed and keeping every count already there.
    ///
    /// Nothing may be added only to a table that holds a roll: added to a
    /// table that holds none, it would leave a table of zeros alone, of
    /// which no probability can be taken.
    pub(crate) fn add_occurrences(&mut self, value: isize, occurrences: usize)
        requires
            old(self).wf(),
            occurrences > 0 || old(self)@.total() > 0,
            old(self)@.spans(value as int),
            old(self)@.total() + occurrences <= usize::MAX,
        ensures
            final(self).wf(),
            final(self)@ == old(self)@.with(value as int, occurrences as nat),
            final(self)@.at(value as int) == old(self)@.at(value as int) + occurrences,
            forall|v: int| v != value ==> #[trigger] final(self)@.at(v) == old(self)@.at(v),
            final(self)@.total() == old(self)@.total() + occurrences,
            final(self)@.min() == if value < old(self)@.min() {
                value as int
            } else {
                old(self)@.min()
            },
            final(self)@.max() == if value > old(self)@.max() {
                value as int
            } else {
                old(self)@.max()
            },
    {
        let ghost before = self@;
        if value < self.offset {
            let diff: usize = (self.offset - value) as usize;
            let old_len: usize = self.occurrence_by_value.len();
            let new_len: usize = old_len + diff;
            let ghost stored = self.occurrence_by_value@;
            self.occurrence_by_value.resize(new_len, 0);
            // Swap "upwards", starting from the newly long end.
            let mut i: usize = new_len;
            while i > diff
                invariant
                    diff <= i <= new_len,
                    diff >= 1,
                    new_len == old_len + diff,
                    stored.len() == old_len,
                    self.occurrence_by_value@.len() == new_len,
                    self.offset == old(self).offset,
                    forall|k: int|
                        0 <= k < new_len ==> #[trigger] self.occurrence_by_value@[k] == (if k >= i {
                            stored[k - diff]
                        } else if k >= i - diff {
                            0
                        } else {
                            stored[k]
                        }),
                decreases i,
            {
                i -= 1;
                let upper: usize = self.occurrence_by_value[i];
                let lower: usize = self.occurrence_by_value[i - diff];
                self.occurrence_by_value.set(i, lower);
                self.occurrence_by_value.set(i - diff, upper);
            }
            self.offset = value;
        }
        let index: usize = (value - self.offset) as usize;
        if index >= self.occurrence_by_value.len() {
            self.occurrence_by_value.resize(index + 1, 0);
        }
        assert(forall|k: int|
            0 <= k < self.occurrence_by_value@.len() ==> #[trigger] self.occurrence_by_value@[k]
                == before.at(self.offset + k));
        proof {
            lemma_with(before, value as int, occurrences as nat);
            if before.base <= value <= before.max() {
                lemma_sum_bounds_entry(before.counts, value - before.base);
            }
        }
        let count: usize = self.occurrence_by_value[index];
        self.occurrence_by_value.set(index, count + occurrences);
        assert(self@.counts =~= before.with(value as int, occurrences as nat).counts);
    }

    /// The least value of the stored range.
    pub fn min(&self) -> (v: isize)
        ensures
            v == self@.min(),
    {
        self.offset
    }

    /// The greatest value of the stored range (inclusive).
    pub fn max(&self) -> (v: isize)
        requires
            self.wf(),
        ensures
            v == self@.max(),
    {
        let len: usize = self.occurrence_by_value.len();
        if len == 0 {
            self.offset - 1
        } else {
            self.offset + ((len - 1) as isize)
        }
    }

    /// The occurrence count of a value of the stored range.
    pub(crate) fn count_at(&self, value: isize) -> (c: usize)
        requires
            self.wf(),
            self@.min() <= value <= self@.max(),
        ensures
            c == self@.at(value as int),
    {
        let index: usize = (value - self.offset) as usize;
        self.occurrence_by_value[index]
    }

    /// Whether `value` occurs: whether its count is above zero.
    pub fn occurs(&self, value: isize) -> (r: bool)
        requires
            self.wf(),
        ensures
            r == (self@.at(value as int) > 0),
    {
        self.offset <= value && value <= self.max() && self.count_at(value) > 0
    }

    /// The total number of occurrences: the number of possible rolls, not the
    /// number of distinct values.
    pub fn total(&self) -> (t: usize)
        requires
            self.wf(),
        ensures
            t == self@.total(),
    {
        let mut t: usize = 0;
        let mut i: usize = 0;
        let ghost counts = self@.counts;
        while i < self.occurrence_by_value.len()
            invariant
                i <= self.occurrence_by_value.len(),
                counts == self@.counts,
                counts.len() == self.occurrence_by_value.len(),
                sum(counts) <= usize::MAX,
                t == sum(counts.take(i as int)),
            decreases self.occurrence_by_value.len() - i,
        {
            proof {
                lemma_sum_step(counts, i as int);
                lemma_sum_prefix(counts, i + 1);
            }
            t = t + self.occurrence_by_value[i];
            i += 1;
        }
        assert(counts.take(i as int) =~= counts);
        t
    }

    /// The values that occur, each with its count, in ascending order of value.
    pub fn occurrences(&self) -> (it: Occurrences<'_>)
        ensures
            it.source() == *self,
            it.remaining() == self@.entries(),
    {
        Occurrences { distribution: self, position: 0 }
    }

    /// Removes the zero counts at both ends of the stored range.
    pub fn clean(&mut self)
        requires
            old(self).wf(),
        ensures
            final(self).wf(),
            final(self)@ == old(self)@.cleaned(),
            final(self)@.canonical(),
            final(self)@.total() == old(self)@.total(),
            forall|v: int| #[trigger] final(self)@.at(v) == old(self)@.at(v),
    {
        let ghost before = self@;
        proof {
            lemma_cleaned(before);
        }
        let len: usize = self.occurrence_by_value.len();
        let mut lead: usize = 0;
        while lead < len && self.occurrence_by_value[lead] == 0
            invariant
                lead <= len,
                len == self.occurrence_by_value@.len(),
                forall|k: int| 0 <= k < lead ==> self.occurrence_by_value@[k] == 0,
            decreases len - lead,
        {
            lead += 1;
        }
        proof {
            lemma_leading_zeros_is(before.counts, lead as int);
            if lead == len && len > 0 {
                lemma_sum_zeros(before.counts);
            }
        }
        if lead > 0 {
            let kept: Vec<usize> = self.occurrence_by_value.split_off(lead);
            self.occurrence_by_value = kept;
            self.offset = self.offset + (lead as isize);
        }
        let ghost rest = before.counts.skip(lead as int);
        assert(self@.counts =~= rest);
        let rest_len: usize = self.occurrence_by_value.len();
        let mut trail: usize = 0;
        while trail < rest_len && self.occurrence_by_value[rest_len - trail - 1] == 0
            invariant
                trail <= rest_len,
                rest_len == self.occurrence_by_value@.len(),
                forall|k: int| rest_len - trail <= k < rest_len ==> self.occurrence_by_value@[k] == 0,
            decreases rest_len - trail,
        {
            trail += 1;
        }
        proof {
            lemma_trailing_zeros_is(rest, trail as int);
        }
        self.occurrence_by_value.truncate(rest_len - trail);
        assert(self@.counts =~= before.cleaned().counts);
    }
}

impl Default for Distribution {
    /// The point mass at zero: the sum of no terms.
    fn default() -> (d: Distribution)
        ensures
            d.wf(),
            d@ == Table::point(0),
    {
        Distribution::modifier(0)
    }
}

impl core::ops::Neg for &Distribution {
    type Output = Distribution;

    /// The reflection about zero: the distribution of the negated outcome.
    fn neg(self) -> (d: Distribution)
        ensures
            d.wf(),
            d@ == self@.negated(),
    {
        let magnitude: isize = self.max();
        let len: usize = self.occurrence_by_value.len();
        let mut reversed: Vec<usize> = Vec::new();
        let mut i: usize = len;
        while i > 0
            invariant
                i <= len,
                len == self.occurrence_by_value@.len(),
                reversed@.len() == len - i,
                forall|k: int|
                    0 <= k < reversed@.len() ==> reversed@[k] == self.occurrence_by_value@[len - 1 - k],
            decreases i,
        {
            i -= 1;
            reversed.push(self.occurrence_by_value[i]);
        }
        let d = Distribution { occurrence_by_value: reversed, offset: -magnitude };
        proof {
            lemma_negated(self@);
            assert(d@.counts =~= self@.negated().counts);
        }
        d
    }
}

/// What `-` asks of a distribution. Its result is stated by `neg` itself,
/// over the view.
impl vstd::std_specs::ops::NegSpecImpl for &Distribution {
    open spec fn obeys_neg_spec() -> bool {
        false
    }

    open spec fn neg_req(self) -> bool {
        self.wf() && self@.negated().representable()
    }

    open spec fn neg_spec(self) -> Distribution {
        *self
    }
}

impl core::ops::Neg for Distribution {
    type Output = Distribution;

    /// The reflection about zero: the distribution of the negated outcome.
    fn neg(self) -> (d: Distribution)
        ensures
            d.wf(),
            d@ == self@.negated(),
    {
        (&self).neg()
    }
}

/// What `-` asks of a distribution. Its result is stated by `neg` itself,
/// over the view.
impl vstd::std_specs::ops::NegSpecImpl for Distribution {
    open spec fn obeys_neg_spec() -> bool {
        false
    }

    open spec fn neg_req(self) -> bool {
        self.wf() && self@.negated().representable()
    }

    open spec fn neg_spec(self) -> Distribution {
        self
    }
}

/// A cursor over the occurrences in a distribution: the values whose count
/// is not zero, in ascending order, each with its count.
#[derive(Debug, Clone)]
pub struct Occurrences<'a> {
    distribution: &'a Distribution,
    position: usize,
}

impl<'a> Occurrences<'a> {
    /// The distribution that the cursor walks.
    pub closed spec fn source(&self) -> Distribution {
        *self.distribution
    }

    /// What the cursor has yet to hand out.
    pub closed spec fn remaining(&self) -> Seq<(int, nat)> {
        self.distribution@.entries_from(self.position as int)
    }

    /// Hands out the next value that occurs, with its count.
    pub fn next(&mut self) -> (item: Option<(isize, usize)>)
        requires
            old(self).source().wf(),
        ensures
            final(self).source() == old(self).source(),
            match item {
                Some(e) => {
                    &&& old(self).remaining().len() > 0
                    &&& (e.0 as int, e.1 as nat) == old(self).remaining().first()
                    &&& final(self).remaining() == old(self).remaining().drop_first()
                },
                None => old(self).remaining().len() == 0 && final(self).remaining().len() == 0,
            },
    {
        let len: usize = self.distribution.occurrence_by_value.len();
        loop
            invariant
                self.distribution == old(self).distribution,
                self.distribution.wf(),
                len == self.distribution.occurrence_by_value@.len(),
                self.remaining() == old(self).remaining(),
            decreases len - self.position,
        {
            let index: usize = self.position;
            if index < len {
                self.position = index + 1;
                let occ: usize = self.distribution.occurrence_by_value[index];
                if occ != 0 {
                    let value: isize = self.distribution.offset + (index as isize);
                    proof {
                        let t = self.distribution@;
                        let rest = t.entries_from(index + 1);
                        assert((seq![(t.base + index, t.counts[index as int])] + rest).drop_first()
                            =~= rest);
                    }
                    return Some((value, occ));
                }
            } else {
                return None;
            }
        }
    }

    /// Hands out everything that is left, in order.
    pub fn collect(self) -> (items: Vec<(isize, usize)>)
        requires
            self.source().wf(),
        ensures
            pairs(items@) == self.remaining(),
    {
        let mut cursor = self;
        let mut items: Vec<(isize, usize)> = Vec::new();
        loop
            invariant
                cursor.source() == self.source(),
                cursor.source().wf(),
                pairs(items@) + cursor.remaining() == self.remaining(),
            decreases cursor.remaining().len(),
        {
            let ghost left = cursor.remaining();
            let ghost had = pairs(items@);
            match cursor.next() {
                Some(e) => {
                    items.push(e);
                    assert(pairs(items@) =~= had.push((e.0 as int, e.1 as nat)));
                    assert(had.push(left.first()) + left.drop_first() =~= had + left);
                },
                None => {
                    assert(had + cursor.remaining() =~= had);
                    return items;
                },
            }
        }
    }
}

/// The mathematical reading of a list of `(value, count)` pairs.
pub open spec fn pairs(items: Seq<(isize, usize)>) -> Seq<(int, nat)> {
    items.map_values(|e: (isize, usize)| (e.0 as int, e.1 as nat))
}

} // verus!
