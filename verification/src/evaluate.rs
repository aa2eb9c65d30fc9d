//! The evaluator: folds an expression tree into one distribution.

use vstd::prelude::*;
use core::ops::{Add, Neg};
use crate::combine::{comparison, floor, lemma_combined, product, Operation};
use crate::distribution::Distribution;
use crate::expression::{Error, Expression};
use crate::limits::{can_combine, can_negate, can_repeat, lemma_power};
use crate::repeat::{lemma_repeated, lemma_repeated_nothing, power, repeat, rolls_weight};
use crate::table::{
    lemma_cleaned, lemma_negated, lemma_point_total, lemma_uniform_total, most_counts, Table,
};
use crate::tally::lemma_entries;

verus! {

/// The mathematical reading of an [`Error`]: its kind, with the text that it
/// carries.
pub enum Fault {
    NegativeCount(Seq<char>),
    KeepTooFew(Seq<char>),
    DivideByZero(Seq<char>),
}

impl View for Error {
    type V = Fault;

    open spec fn view(&self) -> Fault {
        match self {
            Error::NegativeCount(text) => Fault::NegativeCount(text@),
            Error::KeepTooFew(text) => Fault::KeepTooFew(text@),
            Error::DivideByZero(text) => Fault::DivideByZero(text@),
        }
    }
}

/// The tables of a list of distributions.
pub open spec fn tables(terms: Seq<Distribution>) -> Seq<Table> {
    terms.map_values(|d: Distribution| d@)
}

impl Table {
    /// The sum of independent outcomes of all the tables: the point mass at
    /// zero for none, the table itself for one, and otherwise the first two
    /// added, then each further one added to what came before.
    pub open spec fn sum_of(terms: Seq<Table>) -> Table
        decreases terms.len(),
    {
        if terms.len() == 0 {
            Table::point(0)
        } else if terms.len() == 1 {
            terms[0]
        } else {
            Table::combined(Operation::Sum, Table::sum_of(terms.drop_last()), terms.last())
        }
    }

    /// Whether the sum of the tables can be worked out within machine
    /// limits: each addition can.
    pub open spec fn sums(terms: Seq<Table>) -> bool
        decreases terms.len(),
    {
        terms.len() <= 1 || (Table::sums(terms.drop_last()) && Table::combines(
            Operation::Sum,
            Table::sum_of(terms.drop_last()),
            terms.last(),
        ))
    }
}

/// The tables of the first `n` terms, or the error of the first term that
/// has one.
pub open spec fn terms_evaluated(terms: Vec<Expression>, n: nat) -> Result<Seq<Table>, Fault>
    decreases terms, n,
{
    if n == 0 || n > terms.len() {
        Ok(Seq::empty())
    } else {
        match terms_evaluated(terms, (n - 1) as nat) {
            Err(fault) => Err(fault),
            Ok(before) => match terms[n - 1].evaluated() {
                Err(fault) => Err(fault),
                Ok(table) => Ok(before.push(table)),
            },
        }
    }
}

/// Whether the first `n` terms, as far as they are evaluated, are within
/// machine limits.
pub open spec fn terms_within_limits(terms: Vec<Expression>, n: nat) -> bool
    decreases terms, n,
{
    if n == 0 || n > terms.len() {
        true
    } else {
        terms_within_limits(terms, (n - 1) as nat) && (terms_evaluated(terms, (n - 1) as nat) is Ok
            ==> terms[n - 1].within_limits())
    }
}

impl Expression {
    /// The table of the expression before cleaning, or the error of the
    /// first subexpression, in order of evaluation, that has none.
    ///
    /// The count of a repetition is taken in canonical form: its least
    /// stored number of rolls is then the least that occurs, and it is that
    /// number which must not be negative, nor less than the rule keeps.
    /// Where no number of rolls occurs at all, none is too small, and the
    /// repetition holds no roll.
    pub open spec fn evaluated(self) -> Result<Table, Fault>
        decreases self, 0nat,
    {
        match self {
            Expression::Modifier(m) => Ok(Table::point(m as int)),
            Expression::Die(d) => Ok(Table::uniform(d as nat)),
            Expression::Negated(e) => match e.evaluated() {
                Err(fault) => Err(fault),
                Ok(t) => Ok(t.negated()),
            },
            Expression::Repeated { count, value, ranker } => match count.evaluated() {
                Err(fault) => Err(fault),
                Ok(c) => match value.evaluated() {
                    Err(fault) => Err(fault),
                    Ok(v) => if c.total() > 0 && c.cleaned().min() < 0 {
                        Err(Fault::NegativeCount(self.rendering()))
                    } else if c.total() > 0 && c.cleaned().min() < ranker.keep() {
                        Err(Fault::KeepTooFew(self.rendering()))
                    } else {
                        Ok(Table::repeated(c.cleaned(), v, ranker))
                    },
                },
            },
            Expression::Product(a, b) => match a.evaluated() {
                Err(fault) => Err(fault),
                Ok(x) => match b.evaluated() {
                    Err(fault) => Err(fault),
                    Ok(y) => Ok(Table::combined(Operation::Product, x, y)),
                },
            },
            Expression::Floor(a, b) => match a.evaluated() {
                Err(fault) => Err(fault),
                Ok(x) => match b.evaluated() {
                    Err(fault) => Err(fault),
                    Ok(y) => if y.at(0) != 0 {
                        Err(Fault::DivideByZero(self.rendering()))
                    } else {
                        Ok(Table::combined(Operation::Floor, x, y))
                    },
                },
            },
            Expression::Sum(terms) => match terms_evaluated(terms, terms.len() as nat) {
                Err(fault) => Err(fault),
                Ok(all) => Ok(Table::sum_of(all)),
            },
            Expression::Comparison(a, op, b) => match a.evaluated() {
                Err(fault) => Err(fault),
                Ok(x) => match b.evaluated() {
                    Err(fault) => Err(fault),
                    Ok(y) => Ok(Table::compared(x, op, y)),
                },
            },
        }
    }

    /// Whether the expression can be evaluated within machine limits: every
    /// step of the evaluation, as far as it gets, gives a table that a
    /// machine can hold.
    pub open spec fn within_limits(self) -> bool
        decreases self, 0nat,
    {
        match self {
            Expression::Modifier(_) => true,
            Expression::Die(d) => d <= most_counts(),
            Expression::Negated(e) => {
                &&& e.within_limits()
                &&& e.evaluated() matches Ok(t) ==> t.negated().representable()
            },
            Expression::Repeated { count, value, ranker } => {
                &&& count.within_limits()
                &&& count.evaluated() matches Ok(c) ==> {
                    &&& value.within_limits()
                    &&& value.evaluated() matches Ok(v) ==> (c.total() > 0 && c.cleaned().min()
                        >= ranker.keep() ==> Table::repeats(c.cleaned(), v, ranker))
                }
            },
            Expression::Product(a, b) => {
                &&& a.within_limits()
                &&& a.evaluated() matches Ok(x) ==> {
                    &&& b.within_limits()
                    &&& b.evaluated() matches Ok(y) ==> Table::combines(Operation::Product, x, y)
                }
            },
            Expression::Floor(a, b) => {
                &&& a.within_limits()
                &&& a.evaluated() matches Ok(x) ==> {
                    &&& b.within_limits()
                    &&& b.evaluated() matches Ok(y) ==> (y.at(0) == 0 ==> Table::combines(
                        Operation::Floor,
                        x,
                        y,
                    ))
                }
            },
            Expression::Sum(terms) => {
                &&& terms_within_limits(terms, terms.len() as nat)
                &&& terms_evaluated(terms, terms.len() as nat) matches Ok(all) ==> Table::sums(all)
            },
            Expression::Comparison(a, _, b) => {
                &&& a.within_limits()
                &&& a.evaluated() matches Ok(x) ==> {
                    &&& b.within_limits()
                    &&& b.evaluated() matches Ok(y) ==> x.total() * y.total() <= usize::MAX
                }
            },
        }
    }

    /// Whether every die of the expression has a face.
    pub open spec fn has_faces(self) -> bool
        decreases self, 0nat,
    {
        match self {
            Expression::Modifier(_) => true,
            Expression::Die(d) => d > 0,
            Expression::Negated(e) => e.has_faces(),
            Expression::Repeated { count, value, ranker } => count.has_faces() && value.has_faces(),
            Expression::Product(a, b) => a.has_faces() && b.has_faces(),
            Expression::Floor(a, b) => a.has_faces() && b.has_faces(),
            Expression::Sum(terms) => terms_have_faces(terms, terms.len() as nat),
            Expression::Comparison(a, _, b) => a.has_faces() && b.has_faces(),
        }
    }

    /// Whether `r` is what the evaluation gives before cleaning: the table
    /// of the expression, or its error.
    pub open spec fn gives(self, r: Result<Distribution, Error>) -> bool {
        match r {
            Ok(d) => d.wf() && self.evaluated() == Ok::<Table, Fault>(d@),
            Err(e) => self.evaluated() == Err::<Table, Fault>(e@),
        }
    }

    /// Whether `r` is what the evaluation gives in the end: the table of the
    /// expression in canonical form, with the count of every value as it
    /// was before cleaning, or the error of the expression.
    pub open spec fn gives_clean(self, r: Result<Distribution, Error>) -> bool {
        match r {
            Ok(d) => {
                &&& d.wf()
                &&& d@.canonical()
                &&& self.evaluated() matches Ok(t)
                &&& d@ == t.cleaned()
                &&& d@.total() == t.total()
                &&& forall|v: int| #[trigger] d@.at(v) == t.at(v)
                &&& self.has_faces() ==> d@.total() > 0
            },
            Err(e) => self.evaluated() == Err::<Table, Fault>(e@),
        }
    }

    /// The distribution of the expression, in canonical form.
    pub fn distribution(&self) -> (r: Result<Distribution, Error>)
        requires
            self.within_limits(),
        ensures
            self.gives_clean(r),
    {
        match self.distribution_internal() {
            Ok(mut d) => {
                proof {
                    lemma_cleaned(d@);
                    if self.has_faces() {
                        lemma_total_positive(*self);
                    }
                }
                d.clean();
                Ok(d)
            },
            Err(e) => Err(e),
        }
    }

    /// The distribution of the expression as the operators leave it, not yet
    /// cleaned.
    pub fn distribution_internal(&self) -> (r: Result<Distribution, Error>)
        requires
            self.within_limits(),
        ensures
            self.gives(r),
        decreases self,
    {
        match self {
            Expression::Modifier(m) => Ok(Distribution::modifier(*m)),
            Expression::Die(d) => Ok(Distribution::die(*d)),
            Expression::Negated(expression) => {
                let inner = match expression.distribution_internal() {
                    Ok(d) => d,
                    Err(e) => {
                        return Err(e);
                    },
                };
                Ok((&inner).neg())
            },
            Expression::Repeated { count, value, ranker } => {
                let mut c = match count.distribution_internal() {
                    Ok(d) => d,
                    Err(e) => {
                        return Err(e);
                    },
                };
                let v = match value.distribution_internal() {
                    Ok(d) => d,
                    Err(e) => {
                        return Err(e);
                    },
                };
                // The least number of rolls that occurs decides, not the
                // least that is stored.
                c.clean();
                if c.total() == 0 {
                    proof {
                        lemma_repeated_nothing(c@, v@, *ranker);
                    }
                    return Ok(Distribution::empty());
                }
                repeat(self, c, v, ranker)
            },
            Expression::Product(a, b) => {
                let x = match a.distribution_internal() {
                    Ok(d) => d,
                    Err(e) => {
                        return Err(e);
                    },
                };
                let y = match b.distribution_internal() {
                    Ok(d) => d,
                    Err(e) => {
                        return Err(e);
                    },
                };
                Ok(product(x, y))
            },
            Expression::Floor(a, b) => {
                let x = match a.distribution_internal() {
                    Ok(d) => d,
                    Err(e) => {
                        return Err(e);
                    },
                };
                let y = match b.distribution_internal() {
                    Ok(d) => d,
                    Err(e) => {
                        return Err(e);
                    },
                };
                floor(self, x, y)
            },
            Expression::Sum(expressions) => {
                let mut terms: Vec<Distribution> = Vec::with_capacity(expressions.len());
                let mut i: usize = 0;
                assert(tables(terms@) =~= Seq::<Table>::empty());
                while i < expressions.len()
                    invariant
                        i <= expressions.len(),
                        decreases_to!(*self => *expressions),
                        *self == Expression::Sum(*expressions),
                        terms_within_limits(*expressions, expressions.len() as nat),
                        terms_evaluated(*expressions, i as nat) == Ok::<Seq<Table>, Fault>(
                            tables(terms@),
                        ),
                        forall|j: int| 0 <= j < terms@.len() ==> (#[trigger] terms@[j]).wf(),
                    decreases expressions.len() - i,
                {
                    proof {
                        lemma_terms_prefix(*expressions, (i + 1) as nat, expressions.len() as nat);
                        assert(decreases_to!(*expressions => expressions[i as int]));
                    }
                    let ghost before = tables(terms@);
                    match expressions[i].distribution_internal() {
                        Ok(d) => {
                            terms.push(d);
                            assert(tables(terms@) =~= before.push(d@));
                        },
                        Err(e) => {
                            proof {
                                lemma_terms_prefix(
                                    *expressions,
                                    (i + 1) as nat,
                                    expressions.len() as nat,
                                );
                            }
                            return Err(e);
                        },
                    }
                    i += 1;
                }
                Ok(Distribution::sum(terms))
            },
            Expression::Comparison(a, op, b) => {
                let x = match a.distribution_internal() {
                    Ok(d) => d,
                    Err(e) => {
                        return Err(e);
                    },
                };
                let y = match b.distribution_internal() {
                    Ok(d) => d,
                    Err(e) => {
                        return Err(e);
                    },
                };
                Ok(comparison(x, *op, y))
            },
        }
    }
}

impl Expression {
    /// The distribution of the expression, in canonical form, where it can
    /// be worked out within machine limits; nothing where it cannot.
    pub fn checked_distribution(&self) -> (r: Option<Result<Distribution, Error>>)
        ensures
            match r {
                Some(outcome) => self.within_limits() && self.gives_clean(outcome),
                None => !self.within_limits(),
            },
    {
        match self.checked_distribution_internal() {
            Some(Ok(mut d)) => {
                proof {
                    lemma_cleaned(d@);
                    if self.has_faces() {
                        lemma_total_positive(*self);
                    }
                }
                d.clean();
                Some(Ok(d))
            },
            Some(Err(e)) => Some(Err(e)),
            None => None,
        }
    }

    /// The distribution of the expression as the operators leave it, where
    /// it can be worked out within machine limits; nothing where it cannot.
    pub fn checked_distribution_internal(&self) -> (r: Option<Result<Distribution, Error>>)
        ensures
            match r {
                Some(outcome) => self.within_limits() && self.gives(outcome),
                None => !self.within_limits(),
            },
        decreases self,
    {
        match self {
            Expression::Modifier(m) => Some(Ok(Distribution::modifier(*m))),
            Expression::Die(d) => {
                if *d > (isize::MAX / 32) as usize {
                    return None;
                }
                Some(Ok(Distribution::die(*d)))
            },
            Expression::Negated(expression) => {
                let inner = match expression.checked_distribution_internal() {
                    Some(Ok(d)) => d,
                    Some(Err(e)) => {
                        return Some(Err(e));
                    },
                    None => {
                        return None;
                    },
                };
                if !can_negate(&inner) {
                    return None;
                }
                Some(Ok((&inner).neg()))
            },
            Expression::Repeated { count, value, ranker } => {
                let c = match count.checked_distribution_internal() {
                    Some(Ok(d)) => d,
                    Some(Err(e)) => {
                        return Some(Err(e));
                    },
                    None => {
                        return None;
                    },
                };
                let v = match value.checked_distribution_internal() {
                    Some(Ok(d)) => d,
                    Some(Err(e)) => {
                        return Some(Err(e));
                    },
                    None => {
                        return None;
                    },
                };
                let mut c = c;
                c.clean();
                if c.total() == 0 {
                    proof {
                        lemma_repeated_nothing(c@, v@, *ranker);
                    }
                    return Some(Ok(Distribution::empty()));
                }
                if c.min() >= 0 && c.min() as usize >= ranker.count() && !can_repeat(&c, &v, ranker) {
                    return None;
                }
                Some(repeat(self, c, v, ranker))
            },
            Expression::Product(a, b) => {
                let x = match a.checked_distribution_internal() {
                    Some(Ok(d)) => d,
                    Some(Err(e)) => {
                        return Some(Err(e));
                    },
                    None => {
                        return None;
                    },
                };
                let y = match b.checked_distribution_internal() {
                    Some(Ok(d)) => d,
                    Some(Err(e)) => {
                        return Some(Err(e));
                    },
                    None => {
                        return None;
                    },
                };
                if !can_combine(Operation::Product, &x, &y) {
                    return None;
                }
                Some(Ok(product(x, y)))
            },
            Expression::Floor(a, b) => {
                let x = match a.checked_distribution_internal() {
                    Some(Ok(d)) => d,
                    Some(Err(e)) => {
                        return Some(Err(e));
                    },
                    None => {
                        return None;
                    },
                };
                let y = match b.checked_distribution_internal() {
                    Some(Ok(d)) => d,
                    Some(Err(e)) => {
                        return Some(Err(e));
                    },
                    None => {
                        return None;
                    },
                };
                if y.occurs(0) {
                    return Some(floor(self, x, y));
                }
                if !can_combine(Operation::Floor, &x, &y) {
                    return None;
                }
                Some(floor(self, x, y))
            },
            Expression::Sum(expressions) => {
                let mut terms: Vec<Distribution> = Vec::with_capacity(expressions.len());
                let mut i: usize = 0;
                assert(tables(terms@) =~= Seq::<Table>::empty());
                while i < expressions.len()
                    invariant
                        i <= expressions.len(),
                        decreases_to!(*self => *expressions),
                        *self == Expression::Sum(*expressions),
                        terms_within_limits(*expressions, i as nat),
                        terms_evaluated(*expressions, i as nat) == Ok::<Seq<Table>, Fault>(
                            tables(terms@),
                        ),
                        forall|j: int| 0 <= j < terms@.len() ==> (#[trigger] terms@[j]).wf(),
                    decreases expressions.len() - i,
                {
                    proof {
                        lemma_terms_prefix(*expressions, (i + 1) as nat, expressions.len() as nat);
                        assert(decreases_to!(*expressions => expressions[i as int]));
                    }
                    let ghost before = tables(terms@);
                    match expressions[i].checked_distribution_internal() {
                        Some(Ok(d)) => {
                            terms.push(d);
                            assert(tables(terms@) =~= before.push(d@));
                        },
                        Some(Err(e)) => {
                            return Some(Err(e));
                        },
                        None => {
                            return None;
                        },
                    }
                    i += 1;
                }
                match Distribution::checked_sum(terms) {
                    Some(d) => Some(Ok(d)),
                    None => None,
                }
            },
            Expression::Comparison(a, op, b) => {
                let x = match a.checked_distribution_internal() {
                    Some(Ok(d)) => d,
                    Some(Err(e)) => {
                        return Some(Err(e));
                    },
                    None => {
                        return None;
                    },
                };
                let y = match b.checked_distribution_internal() {
                    Some(Ok(d)) => d,
                    Some(Err(e)) => {
                        return Some(Err(e));
                    },
                    None => {
                        return None;
                    },
                };
                if x.total().checked_mul(y.total()).is_none() {
                    return None;
                }
                Some(Ok(comparison(x, *op, y)))
            },
        }
    }
}

/// Whether every die of the first `n` terms has a face.
pub open spec fn terms_have_faces(terms: Vec<Expression>, n: nat) -> bool
    decreases terms, n,
{
    if n == 0 || n > terms.len() {
        true
    } else {
        terms_have_faces(terms, (n - 1) as nat) && terms[n - 1].has_faces()
    }
}

/// An expression whose dice all have faces has a table that holds a roll.
pub proof fn lemma_total_positive(e: Expression)
    requires
        e.has_faces(),
        e.evaluated() is Ok,
    ensures
        e.evaluated()->Ok_0.total() > 0,
    decreases e, 0nat,
{
    match e {
        Expression::Modifier(m) => {
            lemma_point_total(m as int);
        },
        Expression::Die(d) => {
            lemma_uniform_total(d as nat);
        },
        Expression::Negated(x) => {
            lemma_total_positive(*x);
            lemma_negated(x.evaluated()->Ok_0);
        },
        Expression::Repeated { count, value, ranker } => {
            lemma_total_positive(*count);
            lemma_total_positive(*value);
            let c = count.evaluated()->Ok_0.cleaned();
            let v = value.evaluated()->Ok_0;
            lemma_cleaned(count.evaluated()->Ok_0);
            lemma_repeated(c, v, ranker);
            lemma_entries(c);
            lemma_rolls_weight_positive(c.entries(), v.total());
        },
        Expression::Product(a, b) => {
            lemma_total_positive(*a);
            lemma_total_positive(*b);
            let x = a.evaluated()->Ok_0;
            let y = b.evaluated()->Ok_0;
            lemma_combined(Operation::Product, x, y);
            assert(x.total() * y.total() > 0) by (nonlinear_arith)
                requires
                    x.total() > 0,
                    y.total() > 0,
            ;
        },
        Expression::Floor(a, b) => {
            lemma_total_positive(*a);
            lemma_total_positive(*b);
            let x = a.evaluated()->Ok_0;
            let y = b.evaluated()->Ok_0;
            lemma_combined(Operation::Floor, x, y);
            assert(x.total() * y.total() > 0) by (nonlinear_arith)
                requires
                    x.total() > 0,
                    y.total() > 0,
            ;
        },
        Expression::Sum(terms) => {
            lemma_terms_positive(terms, terms.len() as nat);
            lemma_sum_positive(terms_evaluated(terms, terms.len() as nat)->Ok_0);
        },
        Expression::Comparison(a, op, b) => {
            lemma_total_positive(*a);
            lemma_total_positive(*b);
            let x = a.evaluated()->Ok_0;
            let y = b.evaluated()->Ok_0;
            lemma_combined(Operation::Compare(op), x, y);
            lemma_point_total(0);
            lemma_point_total(1);
            assert(x.total() * y.total() > 0) by (nonlinear_arith)
                requires
                    x.total() > 0,
                    y.total() > 0,
            ;
        },
    }
}

/// Terms whose dice all have faces have tables that each hold a roll.
pub proof fn lemma_terms_positive(terms: Vec<Expression>, n: nat)
    requires
        n <= terms.len(),
        terms_have_faces(terms, n),
        terms_evaluated(terms, n) is Ok,
    ensures
        terms_evaluated(terms, n)->Ok_0.len() == n,
        forall|i: int|
            0 <= i < n ==> (#[trigger] terms_evaluated(terms, n)->Ok_0[i]).total() > 0,
    decreases terms, n,
{
    if n > 0 {
        lemma_terms_positive(terms, (n - 1) as nat);
        lemma_total_positive(terms[n - 1]);
    }
}

/// A sum of tables that each hold a roll holds a roll.
pub proof fn lemma_sum_positive(terms: Seq<Table>)
    requires
        forall|i: int| 0 <= i < terms.len() ==> (#[trigger] terms[i]).total() > 0,
    ensures
        Table::sum_of(terms).total() > 0,
    decreases terms.len(),
{
    if terms.len() == 0 {
        lemma_point_total(0);
    } else if terms.len() > 1 {
        let rest = terms.drop_last();
        assert forall|i: int| 0 <= i < rest.len() implies (#[trigger] rest[i]).total() > 0 by {
            assert(rest[i] == terms[i]);
        }
        lemma_sum_positive(rest);
        lemma_combined(Operation::Sum, Table::sum_of(rest), terms.last());
        assert(Table::sum_of(rest).total() * terms.last().total() > 0) by (nonlinear_arith)
            requires
                Table::sum_of(rest).total() > 0,
                terms.last().total() > 0,
        ;
    }
}

/// Numbers of rolls that occur, of a value that can be rolled, give a roll.
pub proof fn lemma_rolls_weight_positive(counts: Seq<(int, nat)>, total: nat)
    requires
        counts.len() > 0,
        total > 0,
        forall|i: int| 0 <= i < counts.len() ==> (#[trigger] counts[i]).1 > 0,
    ensures
        rolls_weight(counts, total) > 0,
{
    let p = power(total, counts.last().0 as nat);
    lemma_power(total, 0, counts.last().0 as nat);
    assert(p * counts.last().1 > 0) by (nonlinear_arith)
        requires
            p >= 1,
            counts.last().1 > 0,
    ;
}

/// The evaluation of a list of terms goes on from that of its first terms:
/// an error there stays the error and ends the evaluation, and limits that
/// hold of all hold of the first.
pub proof fn lemma_terms_prefix(terms: Vec<Expression>, i: nat, n: nat)
    requires
        i <= n <= terms.len(),
    ensures
        terms_within_limits(terms, n) ==> terms_within_limits(terms, i),
        terms_evaluated(terms, i) is Err ==> terms_evaluated(terms, n) == terms_evaluated(terms, i),
        terms_evaluated(terms, i) is Err && terms_within_limits(terms, i) ==> terms_within_limits(
            terms,
            n,
        ),
    decreases n,
{
    if i < n {
        lemma_terms_prefix(terms, i, (n - 1) as nat);
    }
}

impl Distribution {
    /// The distribution of the sum of independent outcomes of all the terms;
    /// the point mass at zero where there is none.
    pub fn sum(terms: Vec<Distribution>) -> (d: Distribution)
        requires
            forall|j: int| 0 <= j < terms@.len() ==> (#[trigger] terms@[j]).wf(),
            Table::sums(tables(terms@)),
        ensures
            d.wf(),
            d@ == Table::sum_of(tables(terms@)),
    {
        let ghost all = tables(terms@);
        if terms.len() == 0 {
            return Distribution::modifier(0);
        }
        if terms.len() == 1 {
            let mut only = terms;
            return only.remove(0);
        }
        proof {
            lemma_sums_prefix(all, 2);
            assert(all.take(2).drop_last() =~= all.take(1));
            assert(all.take(1).len() == 1);
        }
        let mut total = (&terms[0]).add(&terms[1]);
        let mut i: usize = 2;
        while i < terms.len()
            invariant
                2 <= i <= terms.len(),
                all == tables(terms@),
                forall|j: int| 0 <= j < terms@.len() ==> (#[trigger] terms@[j]).wf(),
                Table::sums(all),
                total.wf(),
                total@ == Table::sum_of(all.take(i as int)),
            decreases terms.len() - i,
        {
            proof {
                lemma_sums_prefix(all, i + 1);
                assert(all.take(i + 1).drop_last() =~= all.take(i as int));
            }
            total = (&total).add(&terms[i]);
            i += 1;
        }
        assert(all.take(i as int) =~= all);
        total
    }
}

/// Where a sum can be worked out, the sum of any of its first terms can.
pub proof fn lemma_sums_prefix(terms: Seq<Table>, k: int)
    requires
        0 <= k <= terms.len(),
        Table::sums(terms),
    ensures
        Table::sums(terms.take(k)),
    decreases terms.len(),
{
    if k == terms.len() {
        assert(terms.take(k) =~= terms);
    } else if terms.len() > 1 {
        lemma_sums_prefix(terms.drop_last(), k);
        assert(terms.drop_last().take(k) =~= terms.take(k));
    }
}

} // verus!
