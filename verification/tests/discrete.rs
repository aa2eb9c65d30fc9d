use dice_odds::{ComparisonOp, Distribution, Error, Expression, Ranker};
use num::rational::Ratio;
use num::ToPrimitive;

fn modifier(value: isize) -> Expression {
    Expression::Modifier(value)
}

fn negated(e: Expression) -> Expression {
    Expression::Negated(Box::new(e))
}

fn repeated(count: Expression, value: Expression, ranker: Ranker) -> Expression {
    Expression::Repeated { count: Box::new(count), value: Box::new(value), ranker }
}

/// `{count}d{faces}`
fn dice(count: isize, faces: usize) -> Expression {
    repeated(modifier(count), Expression::Die(faces), Ranker::All)
}

fn sum(terms: Vec<Expression>) -> Expression {
    Expression::Sum(terms)
}

fn times(a: Expression, b: Expression) -> Expression {
    Expression::Product(Box::new(a), Box::new(b))
}

fn divide(a: Expression, b: Expression) -> Expression {
    Expression::Floor(Box::new(a), Box::new(b))
}

fn compare(a: Expression, op: ComparisonOp, b: Expression) -> Expression {
    Expression::Comparison(Box::new(a), op, Box::new(b))
}

fn distribution_of(e: Expression) -> Distribution {
    e.distribution_internal().unwrap()
}

fn probability(d: &Distribution, value: isize) -> Ratio<usize> {
    let p = d.probability(value);
    Ratio::new(p.numer(), p.denom())
}

fn probability_f64(d: &Distribution, value: isize) -> f64 {
    Ratio::to_f64(&probability(d, value)).expect("should convert probability to f64")
}

fn mean(d: &Distribution) -> f64 {
    (d.min()..=d.max()).map(|v| (v as f64) * probability_f64(d, v)).sum()
}

#[test]
fn d20() {
    // d20
    let d = distribution_of(Expression::Die(20));

    for i in 1..=20isize {
        assert_eq!(probability(&d, i), Ratio::new(1, 20));
    }

    for i in [-1, -2, -3, 0, 21, 22, 32] {
        assert_eq!(*probability(&d, i).numer(), 0);
    }
}

#[test]
fn d20_plus1() {
    // d20 + 1
    let d = distribution_of(sum(vec![Expression::Die(20), modifier(1)]));

    for i in 2..=21isize {
        assert_eq!(probability(&d, i), Ratio::new(1, 20));
    }

    for i in [-1, -2, -3, 0, 1, 22, 22, 32] {
        assert_eq!(*probability(&d, i).numer(), 0);
    }
}

#[test]
fn two_d4() {
    // 2d4
    let d = distribution_of(dice(2, 4));

    for (v, p) in [(2, 1), (3, 2), (4, 3), (5, 4), (6, 3), (7, 2), (8, 1)] {
        assert_eq!(probability(&d, v), Ratio::new(p, 16));
    }
}

#[test]
fn advantage_disadvantage() {
    // 2d20kh, 1d20, 2d20kl
    let a = distribution_of(repeated(modifier(2), Expression::Die(20), Ranker::Highest(1)));
    let b = distribution_of(dice(1, 20));
    let c = distribution_of(repeated(modifier(2), Expression::Die(20), Ranker::Lowest(1)));

    assert!(mean(&a) > mean(&b));
    assert!(mean(&b) > mean(&c));
}

#[test]
fn stat_roll() {
    // 4d6kh3
    let stat = distribution_of(repeated(modifier(4), Expression::Die(6), Ranker::Highest(3)));
    let diff = mean(&stat) - 12.25;

    assert!(diff < 0.01, "{}", mean(&stat));
}

#[test]
fn require_positive_roll_count() {
    // (1d3-2)d4, (-1)d10
    for expr in [
        repeated(
            sum(vec![dice(1, 3), negated(modifier(2))]),
            Expression::Die(4),
            Ranker::All,
        ),
        repeated(negated(modifier(1)), Expression::Die(10), Ranker::All),
    ] {
        let e = expr.distribution_internal().unwrap_err();
        assert!(matches!(e, Error::NegativeCount(_)));
    }
}

#[test]
fn require_dice_to_keep() {
    // 2d4kh3, (1d4)(4)kl2
    for expr in [
        repeated(modifier(2), Expression::Die(4), Ranker::Highest(3)),
        repeated(dice(1, 4), modifier(4), Ranker::Lowest(2)),
    ] {
        let e = expr.distribution_internal().unwrap_err();
        assert!(matches!(e, Error::KeepTooFew(_)));
    }
}

#[test]
fn negative_modifier() {
    // 1d4 + -1
    let d = distribution_of(sum(vec![dice(1, 4), negated(modifier(1))]));
    for i in 0..3isize {
        assert_eq!(probability(&d, i), Ratio::new(1, 4));
    }
}

#[test]
fn negative_die() {
    let d = -Distribution::die(4) + Distribution::modifier(1);
    for i in -3..=0isize {
        assert_eq!(probability(&d, i), Ratio::new(1, 4), "{d:?}");
    }
}

#[test]
fn product() {
    // 1d4 * 3
    let d = distribution_of(times(dice(1, 4), modifier(3)));
    let ps: Vec<_> = d.occurrences().collect();
    assert_eq!(&ps, &vec![(3, 1), (6, 1), (9, 1), (12, 1)])
}

#[test]
fn comparison() {
    // 1d4 > 3
    let d = distribution_of(compare(dice(1, 4), ComparisonOp::Gt, modifier(3)));
    let ps: Vec<_> = d.occurrences().collect();
    assert_eq!(&ps, &vec![(0, 3), (1, 1)])
}

#[test]
fn simplify_false() {
    // 1d4 < 0
    let d = distribution_of(compare(dice(1, 4), ComparisonOp::Lt, modifier(0)));
    let ps: Vec<_> = d.occurrences().collect();
    assert_eq!(&ps, &vec![(0, 1)])
}

#[test]
fn simplify_true() {
    // 1d4 <= 4
    let d = distribution_of(compare(dice(1, 4), ComparisonOp::Le, modifier(4)));
    let ps: Vec<_> = d.occurrences().collect();
    assert_eq!(&ps, &vec![(1, 1)])
}

#[test]
fn floor_div() {
    // 1d4 /_ 2
    let d = distribution_of(divide(dice(1, 4), modifier(2)));
    let ps: Vec<_> = d.occurrences().collect();
    assert_eq!(&ps, &vec![(0, 1), (1, 2), (2, 1)])
}

#[test]
fn complex_expressions() {
    // (1d20+3 >= 17) * 2d10
    let fireball = distribution_of(times(
        compare(sum(vec![dice(1, 20), modifier(3)]), ComparisonOp::Ge, modifier(17)),
        dice(2, 10),
    ));
    // 2((1d20+3 >= 17) * 1d10)
    let eldritch_blast = distribution_of(repeated(
        modifier(2),
        times(
            compare(sum(vec![dice(1, 20), modifier(3)]), ComparisonOp::Ge, modifier(17)),
            dice(1, 10),
        ),
        Ranker::All,
    ));

    assert_eq!(mean(&fireball), mean(&eldritch_blast));
}
