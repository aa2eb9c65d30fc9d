use dice_odds::{
    can_combine, can_negate, can_repeat, ComparisonOp, Distribution, Error, Expression, Operation,
    Ranker,
};

fn boxed(e: Expression) -> Box<Expression> {
    Box::new(e)
}

fn roll(count: Expression, value: Expression, ranker: Ranker) -> Expression {
    Expression::Repeated { count: boxed(count), value: boxed(value), ranker }
}

const MOST_COUNTS: isize = isize::MAX / 32;
const REACH: isize = (MOST_COUNTS - 1) / 2;

#[test]
fn within_limits_the_checked_evaluation_is_the_evaluation() {
    let e = Expression::Product(
        boxed(Expression::Comparison(
            boxed(Expression::Sum(vec![
                roll(Expression::Modifier(1), Expression::Die(20), Ranker::All),
                Expression::Modifier(3),
            ])),
            ComparisonOp::Ge,
            boxed(Expression::Modifier(17)),
        )),
        boxed(roll(Expression::Modifier(2), Expression::Die(10), Ranker::Highest(1))),
    );
    assert_eq!(e.checked_distribution(), Some(e.distribution()));
    assert_eq!(e.checked_distribution_internal(), Some(e.distribution_internal()));
    let f = Expression::Floor(
        boxed(Expression::Negated(boxed(Expression::Die(6)))),
        boxed(Expression::Die(2)),
    );
    assert_eq!(f.checked_distribution(), Some(f.distribution()));
    assert_eq!(
        f.distribution().unwrap().occurrences().collect(),
        vec![(-6, 1), (-5, 1), (-4, 1), (-3, 3), (-2, 3), (-1, 3)]
    );
}

#[test]
fn the_checked_evaluation_reports_errors() {
    let keep = roll(Expression::Modifier(2), Expression::Die(4), Ranker::Highest(3));
    assert_eq!(
        keep.checked_distribution(),
        Some(Err(Error::KeepTooFew(String::from("(2)(d4)kh3"))))
    );
    let negative = roll(Expression::Modifier(-2), Expression::Die(4), Ranker::All);
    assert_eq!(
        negative.checked_distribution(),
        Some(Err(Error::NegativeCount(String::from("(-2)(d4)"))))
    );
    let zero = Expression::Floor(boxed(Expression::Die(4)), boxed(Expression::Modifier(0)));
    assert_eq!(
        zero.checked_distribution(),
        Some(Err(Error::DivideByZero(String::from("(d4 /_ 0)"))))
    );
    let later = Expression::Sum(vec![Expression::Die(2), zero]);
    assert!(matches!(later.checked_distribution(), Some(Err(Error::DivideByZero(_)))));
}

#[test]
fn a_die_with_too_many_faces_is_beyond_the_limits() {
    assert_eq!(Expression::Die(usize::MAX).checked_distribution(), None);
    assert_eq!(Expression::Die(isize::MAX as usize + 1).checked_distribution(), None);
    assert_eq!(Expression::Die(MOST_COUNTS as usize + 1).checked_distribution(), None);
}

#[test]
fn too_many_rolls_are_beyond_the_limits() {
    // two to the power seventy
    let e = roll(Expression::Modifier(70), Expression::Die(2), Ranker::Highest(1));
    assert_eq!(e.checked_distribution(), None);
    assert!(!can_repeat(&Distribution::modifier(70), &Distribution::die(2), &Ranker::Highest(1)));
    assert!(can_repeat(&Distribution::modifier(10), &Distribution::die(2), &Ranker::Highest(1)));
    assert!(can_repeat(&Distribution::modifier(3), &Distribution::die(0), &Ranker::All));
    // one roll of each of very many values that are all the same
    assert!(can_repeat(&Distribution::modifier(1000), &Distribution::modifier(7), &Ranker::All));
    assert!(!can_repeat(
        &Distribution::modifier(isize::MAX / 64 + 1),
        &Distribution::modifier(0),
        &Ranker::All
    ));
}

#[test]
fn kept_values_out_of_reach_are_beyond_the_limits() {
    let high = Distribution::modifier(REACH / 2 + 1);
    assert!(!can_repeat(&Distribution::modifier(2), &high, &Ranker::All));
    assert!(can_repeat(&Distribution::modifier(2), &high, &Ranker::Highest(1)));
    assert!(can_repeat(&Distribution::modifier(2), &Distribution::modifier(REACH / 2), &Ranker::All));
    assert!(!can_repeat(&Distribution::modifier(2), &(-&high), &Ranker::Lowest(2)));
}

#[test]
fn values_out_of_reach_are_beyond_the_limits() {
    let far = Distribution::modifier(REACH);
    let one = Distribution::modifier(1);
    let two = Distribution::modifier(2);
    assert!(can_combine(Operation::Sum, &far, &Distribution::modifier(0)));
    assert!(!can_combine(Operation::Sum, &far, &one));
    assert!(can_combine(Operation::Sum, &far, &Distribution::modifier(-1)));
    assert!(can_combine(Operation::Product, &far, &one));
    assert!(!can_combine(Operation::Product, &far, &two));
    assert!(!can_combine(Operation::Product, &Distribution::modifier(isize::MIN), &Distribution::modifier(isize::MIN)));
    assert!(!can_combine(Operation::Floor, &Distribution::modifier(isize::MAX), &two));
    assert!(can_combine(Operation::Floor, &Distribution::modifier(2 * REACH), &two));
    assert!(!can_combine(Operation::Floor, &Distribution::modifier(-2 * REACH - 1), &two));
    assert!(!can_combine(Operation::Floor, &Distribution::modifier(isize::MIN), &Distribution::modifier(-1)));
    assert!(!can_combine(Operation::Floor, &Distribution::modifier(isize::MIN), &one));
    assert!(can_combine(
        Operation::Compare(ComparisonOp::Lt),
        &Distribution::modifier(isize::MIN),
        &Distribution::modifier(isize::MAX)
    ));
    assert!(can_combine(Operation::Sum, &Distribution::die(0), &far));

    let sum = Expression::Sum(vec![Expression::Modifier(REACH), Expression::Modifier(1)]);
    assert_eq!(sum.checked_distribution(), None);
    let single = Expression::Sum(vec![Expression::Modifier(isize::MAX)]);
    assert_eq!(single.checked_distribution(), Some(Ok(Distribution::modifier(isize::MAX))));
    let product = Expression::Product(
        boxed(Expression::Modifier(isize::MAX)),
        boxed(Expression::Modifier(2)),
    );
    assert_eq!(product.checked_distribution(), None);
    let quotient = Expression::Floor(
        boxed(Expression::Modifier(isize::MAX)),
        boxed(Expression::Modifier(4)),
    );
    assert_eq!(quotient.checked_distribution(), None);
    let near = Expression::Floor(
        boxed(Expression::Modifier(isize::MAX)),
        boxed(Expression::Modifier(isize::MAX / 1000)),
    );
    assert_eq!(
        near.checked_distribution().unwrap().unwrap().occurrences().collect(),
        vec![(1000, 1)]
    );
}

#[test]
fn a_reflection_that_does_not_fit_is_beyond_the_limits() {
    assert!(can_negate(&Distribution::die(6)));
    assert!(can_negate(&Distribution::modifier(isize::MAX)));
    assert!(!can_negate(&Distribution::modifier(isize::MIN)));
    assert!(can_negate(&Distribution::die(0)));
    let e = Expression::Negated(boxed(Expression::Modifier(isize::MIN)));
    assert_eq!(e.checked_distribution(), None);
    let f = Expression::Negated(boxed(Expression::Modifier(isize::MIN + 1)));
    assert_eq!(f.checked_distribution(), Some(Ok(Distribution::modifier(isize::MAX))));
}

#[test]
fn a_checked_sum_is_the_sum() {
    let terms = || vec![Distribution::die(2), Distribution::die(3), Distribution::modifier(-1)];
    assert_eq!(Distribution::checked_sum(terms()), Some(Distribution::sum(terms())));
    assert_eq!(Distribution::checked_sum(vec![]), Some(Distribution::modifier(0)));
    assert_eq!(
        Distribution::checked_sum(vec![Distribution::modifier(isize::MIN)]),
        Some(Distribution::modifier(isize::MIN))
    );
    assert_eq!(
        Distribution::checked_sum(vec![
            Distribution::modifier(REACH),
            Distribution::modifier(1),
            Distribution::modifier(-2),
        ]),
        None
    );
}

#[test]
fn the_wide_value_of_every_operator() {
    assert_eq!(Operation::Sum.compute_wide(isize::MAX, isize::MAX), 2 * (isize::MAX as i128));
    assert_eq!(
        Operation::Product.compute_wide(isize::MIN, isize::MIN),
        (isize::MIN as i128) * (isize::MIN as i128)
    );
    assert_eq!(Operation::Floor.compute_wide(isize::MIN, -1), -(isize::MIN as i128));
    assert_eq!(Operation::Floor.compute_wide(-7, 2), -4);
    assert_eq!(Operation::Compare(ComparisonOp::Ge).compute_wide(3, 3), 1);
    assert_eq!(Operation::Compare(ComparisonOp::Gt).compute_wide(3, 3), 0);
    assert_eq!(Operation::Sum.compute(2, 3), 5);
    assert_eq!(Operation::Product.compute(-2, 3), -6);
    assert_eq!(Operation::Floor.compute(7, -2), -4);
    assert_eq!(Operation::Compare(ComparisonOp::Lt).compute(2, 3), 1);
}

#[test]
fn whether_a_value_occurs() {
    let d = dice_odds::product(Distribution::die(2), Distribution::modifier(3));
    assert!(d.occurs(3));
    assert!(d.occurs(6));
    assert!(!d.occurs(4));
    assert!(!d.occurs(0));
    assert!(!d.occurs(7));
    assert!(!d.occurs(isize::MIN));
}
