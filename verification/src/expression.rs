//! Expression trees, the errors of their evaluation, and their textual form.

use vstd::prelude::*;
use vstd::string::StringExecFns;

verus! {

/// The operator of a comparison node.
#[derive(Debug, Clone, Copy, PartialEq, Eq)]
pub enum ComparisonOp {
    Gt,
    Ge,
    Eq,
    Le,
    Lt,
}

impl ComparisonOp {
    /// Whether the comparison holds of `a` and `b`.
    pub open spec fn holds(self, a: int, b: int) -> bool {
        match self {
            ComparisonOp::Gt => a > b,
            ComparisonOp::Ge => a >= b,
            ComparisonOp::Eq => a == b,
            ComparisonOp::Le => a <= b,
            ComparisonOp::Lt => a < b,
        }
    }

    /// The operator as it is written.
    pub open spec fn symbol(self) -> Seq<char> {
        match self {
            ComparisonOp::Gt => seq!['>'],
            ComparisonOp::Ge => seq!['>', '='],
            ComparisonOp::Eq => seq!['=', '='],
            ComparisonOp::Le => seq!['<', '='],
            ComparisonOp::Lt => seq!['<'],
        }
    }

    /// Decides the comparison of `a` and `b`.
    pub fn test(&self, a: isize, b: isize) -> (r: bool)
        ensures
            r == self.holds(a as int, b as int),
    {
        match self {
            ComparisonOp::Gt => a > b,
            ComparisonOp::Ge => a >= b,
            ComparisonOp::Eq => a == b,
            ComparisonOp::Le => a <= b,
            ComparisonOp::Lt => a < b,
        }
    }

    fn symbol_text(&self) -> (s: &'static str)
        ensures
            s@ == self.symbol(),
    {
        proof {
            reveal_strlit(">");
            reveal_strlit(">=");
            reveal_strlit("==");
            reveal_strlit("<=");
            reveal_strlit("<");
        }
        let s = match self {
            ComparisonOp::Gt => ">",
            ComparisonOp::Ge => ">=",
            ComparisonOp::Eq => "==",
            ComparisonOp::Le => "<=",
            ComparisonOp::Lt => "<",
        };
        assert(s@ =~= self.symbol());
        s
    }
}

/// The rule by which a repetition keeps rolled values.
#[derive(Debug, Clone, Copy, PartialEq, Eq)]
pub enum Ranker {
    /// Keep every rolled value.
    All,
    /// Keep the given number of the largest values.
    Highest(usize),
    /// Keep the given number of the smallest values.
    Lowest(usize),
}

impl Ranker {
    /// The number of values that the rule asks for; none for `All`, which
    /// keeps as many as are rolled.
    pub open spec fn keep(self) -> nat {
        match self {
            Ranker::All => 0,
            Ranker::Highest(n) => n as nat,
            Ranker::Lowest(n) => n as nat,
        }
    }

    /// The rule as it is written behind a repetition.
    pub open spec fn suffix(self) -> Seq<char> {
        match self {
            Ranker::All => Seq::empty(),
            Ranker::Highest(n) => seq!['k', 'h'] + digits(n as nat),
            Ranker::Lowest(n) => seq!['k', 'l'] + digits(n as nat),
        }
    }

    /// The number of values that the rule asks for.
    pub fn count(&self) -> (n: usize)
        ensures
            n == self.keep(),
    {
        match self {
            Ranker::All => 0,
            Ranker::Highest(n) => *n,
            Ranker::Lowest(n) => *n,
        }
    }
}

/// A dice expression.
#[derive(Debug, PartialEq, Eq)]
pub enum Expression {
    /// A constant.
    Modifier(isize),
    /// One die with the given number of faces.
    Die(usize),
    /// The negation of an expression.
    Negated(Box<Expression>),
    /// Roll `count` times `value` and keep by `ranker`.
    Repeated { count: Box<Expression>, value: Box<Expression>, ranker: Ranker },
    /// The product of two expressions.
    Product(Box<Expression>, Box<Expression>),
    /// The first expression divided by the second, rounded down.
    Floor(Box<Expression>, Box<Expression>),
    /// The sum of any number of expressions.
    Sum(Vec<Expression>),
    /// One for a comparison that holds, zero for one that does not.
    Comparison(Box<Expression>, ComparisonOp, Box<Expression>),
}

/// Why an expression has no distribution. Each error carries the textual
/// form of the expression that failed.
#[derive(Debug, Clone, PartialEq, Eq)]
pub enum Error {
    /// The number of rolls of a repetition can be negative.
    NegativeCount(String),
    /// A repetition keeps more values than it may roll.
    KeepTooFew(String),
    /// The divisor of a division can be zero.
    DivideByZero(String),
}

/// The decimal digit for `d`.
pub open spec fn digit(d: nat) -> char {
    if d == 0 {
        '0'
    } else if d == 1 {
        '1'
    } else if d == 2 {
        '2'
    } else if d == 3 {
        '3'
    } else if d == 4 {
        '4'
    } else if d == 5 {
        '5'
    } else if d == 6 {
        '6'
    } else if d == 7 {
        '7'
    } else if d == 8 {
        '8'
    } else {
        '9'
    }
}

/// The decimal digits of `n`, without leading zeros.
pub open spec fn digits(n: nat) -> Seq<char>
    decreases n,
{
    if n < 10 {
        seq![digit(n)]
    } else {
        digits(n / 10).push(digit(n % 10))
    }
}

/// The decimal form of `v`, with a minus sign where it is negative.
pub open spec fn number(v: int) -> Seq<char> {
    if v < 0 {
        seq!['-'] + digits((-v) as nat)
    } else {
        digits(v as nat)
    }
}

/// The textual forms of the first `n` of `terms`, joined by `" + "`.
pub open spec fn rendering_of_terms(terms: Vec<Expression>, n: nat) -> Seq<char>
    decreases terms, n,
{
    if n == 0 || n > terms.len() {
        Seq::empty()
    } else if n == 1 {
        terms[0].rendering()
    } else {
        rendering_of_terms(terms, (n - 1) as nat) + seq![' ', '+', ' '] + terms[n - 1].rendering()
    }
}

impl Expression {
    /// The textual form of the expression, fully parenthesised.
    pub open spec fn rendering(self) -> Seq<char>
        decreases self, 0nat,
    {
        match self {
            Expression::Modifier(m) => number(m as int),
            Expression::Die(n) => seq!['d'] + digits(n as nat),
            Expression::Negated(e) => seq!['-', '('] + e.rendering() + seq![')'],
            Expression::Repeated { count, value, ranker } => seq!['('] + count.rendering() + seq![
                ')',
                '(',
            ] + value.rendering() + seq![')'] + ranker.suffix(),
            Expression::Product(a, b) => seq!['('] + a.rendering() + seq![' ', '*', ' ']
                + b.rendering() + seq![')'],
            Expression::Floor(a, b) => seq!['('] + a.rendering() + seq![' ', '/', '_', ' ']
                + b.rendering() + seq![')'],
            Expression::Sum(terms) => seq!['('] + rendering_of_terms(terms, terms.len() as nat)
                + seq![')'],
            Expression::Comparison(a, op, b) => seq!['('] + a.rendering() + seq![' ']
                + op.symbol() + seq![' '] + b.rendering() + seq![')'],
        }
    }

    /// The textual form of the expression.
    pub fn to_text(&self) -> (s: String)
        ensures
            s@ == self.rendering(),
        decreases self,
    {
        proof {
            reveal_strlit("d");
            reveal_strlit("-(");
            reveal_strlit(")");
            reveal_strlit("(");
            reveal_strlit(")(");
            reveal_strlit(" * ");
            reveal_strlit(" /_ ");
            reveal_strlit(" + ");
            reveal_strlit(" ");
            reveal_strlit("kh");
            reveal_strlit("kl");
        }
        match self {
            Expression::Modifier(m) => number_text(*m),
            Expression::Die(n) => {
                let mut s = String::from_str("d");
                append_digits(&mut s, *n);
                s
            },
            Expression::Negated(e) => {
                let mut s = String::from_str("-(");
                let inner = e.to_text();
                s.append(inner.as_str());
                s.append(")");
                s
            },
            Expression::Repeated { count, value, ranker } => {
                let mut s = String::from_str("(");
                let c = count.to_text();
                s.append(c.as_str());
                s.append(")(");
                let v = value.to_text();
                s.append(v.as_str());
                s.append(")");
                match ranker {
                    Ranker::All => {
                        assert(s@ + Seq::<char>::empty() =~= s@);
                    },
                    Ranker::Highest(n) => {
                        s.append("kh");
                        append_digits(&mut s, *n);
                    },
                    Ranker::Lowest(n) => {
                        s.append("kl");
                        append_digits(&mut s, *n);
                    },
                }
                assert(s@ =~= self.rendering());
                s
            },
            Expression::Product(a, b) => {
                let mut s = String::from_str("(");
                let l = a.to_text();
                s.append(l.as_str());
                s.append(" * ");
                let r = b.to_text();
                s.append(r.as_str());
                s.append(")");
                s
            },
            Expression::Floor(a, b) => {
                let mut s = String::from_str("(");
                let l = a.to_text();
                s.append(l.as_str());
                s.append(" /_ ");
                let r = b.to_text();
                s.append(r.as_str());
                s.append(")");
                s
            },
            Expression::Sum(terms) => {
                let mut s = String::from_str("(");
                let mut i: usize = 0;
                while i < terms.len()
                    invariant
                        i <= terms.len(),
                        decreases_to!(*self => *terms),
                        s@ == seq!['('] + rendering_of_terms(*terms, i as nat),
                    decreases terms.len() - i,
                {
                    if i > 0 {
                        proof {
                            reveal_strlit(" + ");
                        }
                        s.append(" + ");
                    }
                    assert(decreases_to!(*terms => terms[i as int]));
                    let t = terms[i].to_text();
                    s.append(t.as_str());
                    assert(rendering_of_terms(*terms, (i + 1) as nat) =~= if i == 0 {
                        terms[0].rendering()
                    } else {
                        rendering_of_terms(*terms, i as nat) + seq![' ', '+', ' ']
                            + terms[i as int].rendering()
                    });
                    assert(s@ =~= seq!['('] + rendering_of_terms(*terms, (i + 1) as nat));
                    i += 1;
                }
                s.append(")");
                s
            },
            Expression::Comparison(a, op, b) => {
                let mut s = String::from_str("(");
                let l = a.to_text();
                s.append(l.as_str());
                s.append(" ");
                s.append(op.symbol_text());
                s.append(" ");
                let r = b.to_text();
                s.append(r.as_str());
                s.append(")");
                s
            },
        }
    }
}

fn digit_text(d: usize) -> (s: &'static str)
    requires
        d < 10,
    ensures
        s@ == seq![digit(d as nat)],
{
    proof {
        reveal_strlit("0");
        reveal_strlit("1");
        reveal_strlit("2");
        reveal_strlit("3");
        reveal_strlit("4");
        reveal_strlit("5");
        reveal_strlit("6");
        reveal_strlit("7");
        reveal_strlit("8");
        reveal_strlit("9");
    }
    let s = if d == 0 {
        "0"
    } else if d == 1 {
        "1"
    } else if d == 2 {
        "2"
    } else if d == 3 {
        "3"
    } else if d == 4 {
        "4"
    } else if d == 5 {
        "5"
    } else if d == 6 {
        "6"
    } else if d == 7 {
        "7"
    } else if d == 8 {
        "8"
    } else {
        "9"
    };
    assert(s@ =~= seq![digit(d as nat)]);
    s
}

fn append_digits(s: &mut String, n: usize)
    ensures
        final(s)@ == old(s)@ + digits(n as nat),
    decreases n,
{
    if n >= 10 {
        append_digits(s, n / 10);
    }
    s.append(digit_text(n % 10));
    assert(s@ =~= old(s)@ + digits(n as nat));
}

fn number_text(v: isize) -> (s: String)
    ensures
        s@ == number(v as int),
{
    if v < 0 {
        proof {
            reveal_strlit("-");
        }
        let mut s = String::from_str("-");
        let magnitude: usize = ((-(v + 1)) as usize) + 1;
        append_digits(&mut s, magnitude);
        s
    } else {
        let mut s = String::new();
        append_digits(&mut s, v as usize);
        assert(s@ =~= number(v as int));
        s
    }
}

} // verus!
