use dice_odds::{
    comparison, floor, product, repeat, ComparisonOp, Distribution, Error, Expression, Probability,
    Ranker,
};

fn dice(count: isize, faces: usize) -> Expression {
    Expression::Repeated {
        count: Box::new(Expression::Modifier(count)),
        value: Box::new(Expression::Die(faces)),
        ranker: Ranker::All,
    }
}

fn keep(count: isize, faces: usize, ranker: Ranker) -> Expression {
    Expression::Repeated {
        count: Box::new(Expression::Modifier(count)),
        value: Box::new(Expression::Die(faces)),
        ranker,
    }
}

fn table(d: &Distribution) -> Vec<(isize, usize)> {
    d.occurrences().collect()
}

fn fraction(d: &Distribution, value: isize) -> (usize, usize) {
    let p = d.probability(value);
    (p.numer(), p.denom())
}

fn mean(d: &Distribution) -> f64 {
    (d.min()..=d.max())
        .map(|v| {
            let (n, m) = fraction(d, v);
            (v as f64) * (n as f64 / m as f64)
        })
        .sum()
}

#[test]
fn every_face_of_a_die_is_as_likely() {
    for faces in [1usize, 2, 6, 20, 100] {
        let d = Distribution::die(faces);
        assert_eq!(d.total(), faces);
        assert_eq!(d.min(), 1);
        assert_eq!(d.max(), faces as isize);
        for v in 1..=(faces as isize) {
            assert_eq!(fraction(&d, v), (1, faces));
        }
        for v in [-5isize, 0, faces as isize + 1, faces as isize + 7] {
            assert_eq!(fraction(&d, v), (0, 1));
        }
    }
}

#[test]
fn a_die_without_faces_holds_nothing() {
    let d = Distribution::die(0);
    assert_eq!(d.total(), 0);
    assert_eq!(d.min(), 1);
    assert_eq!(d.max(), 0);
    assert_eq!(table(&d), vec![]);
    assert_eq!(fraction(&d, 1), (0, 1));
}

#[test]
fn a_modifier_is_a_point_mass() {
    for v in [-7isize, 0, 3, isize::MAX, isize::MIN] {
        let d = Distribution::modifier(v);
        assert_eq!(d.total(), 1);
        assert_eq!(d.min(), v);
        assert_eq!(d.max(), v);
        assert_eq!(table(&d), vec![(v, 1)]);
        assert_eq!(fraction(&d, v), (1, 1));
    }
    assert_eq!(fraction(&Distribution::modifier(3), 4), (0, 1));
}

#[test]
fn the_default_is_the_point_mass_at_zero() {
    assert_eq!(Distribution::default(), Distribution::modifier(0));
}

#[test]
fn probabilities_come_in_lowest_terms() {
    let d = dice(2, 4).distribution().unwrap();
    assert_eq!(d.probability(5), Probability { numer: 1, denom: 4 });
    assert_eq!(d.probability(4), Probability { numer: 3, denom: 16 });
    assert_eq!(d.probability(3), Probability { numer: 1, denom: 8 });
    assert_eq!(d.probability(9), Probability { numer: 0, denom: 1 });
    assert!(Distribution::modifier(2).probability(2).is_one());
    assert!(!d.probability(5).is_one());
}

#[test]
fn a_sum_has_the_product_of_the_totals() {
    let a = Distribution::die(4);
    let b = Distribution::die(6);
    let c = &a + &b;
    assert_eq!(c.total(), a.total() * b.total());
    assert_eq!(
        table(&c),
        vec![(2, 1), (3, 2), (4, 3), (5, 4), (6, 4), (7, 4), (8, 3), (9, 2), (10, 1)]
    );
    let d = c + Distribution::die(3);
    assert_eq!(d.total(), 72);
}

#[test]
fn a_sum_is_stored_from_zero() {
    let c = &Distribution::die(4) + &Distribution::die(6);
    assert_eq!(c.min(), 0);
    assert_eq!(c.max(), 10);
    let below = &Distribution::modifier(-5) + &Distribution::die(2);
    assert_eq!(below.min(), -4);
    assert_eq!(below.max(), -1);
    assert_eq!(table(&below), vec![(-4, 1), (-3, 1)]);
}

#[test]
fn negation_reflects_and_undoes_itself() {
    let d = &Distribution::die(4) + &Distribution::modifier(3);
    let n = -&d;
    assert_eq!(n.min(), -d.max());
    assert_eq!(n.max(), -d.min());
    assert_eq!(n.total(), d.total());
    for v in -10..=10isize {
        assert_eq!(n.probability(v), d.probability(-v));
    }
    assert_eq!(-&n, d);
    assert_eq!(-(-Distribution::die(0)), Distribution::die(0));
}

#[test]
fn a_settled_comparison_has_one_roll() {
    let never = comparison(Distribution::die(4), ComparisonOp::Lt, Distribution::modifier(0));
    assert_eq!(never, Distribution::modifier(0));
    assert_eq!(never.total(), 1);
    let always = comparison(Distribution::die(4), ComparisonOp::Ge, Distribution::die(1));
    assert_eq!(always, Distribution::modifier(1));
    assert_eq!(always.total(), 1);
    let open = comparison(Distribution::die(4), ComparisonOp::Eq, Distribution::die(4));
    assert_eq!(table(&open), vec![(0, 12), (1, 4)]);
    assert_eq!(open.total(), 16);
}

#[test]
fn a_comparison_of_nothing_holds_nothing() {
    let d = comparison(Distribution::die(0), ComparisonOp::Lt, Distribution::die(4));
    assert_eq!(d.total(), 0);
    assert_eq!(table(&d), vec![]);
}

#[test]
fn every_comparison_operator() {
    let cases = [
        (ComparisonOp::Gt, 1usize),
        (ComparisonOp::Ge, 2),
        (ComparisonOp::Eq, 1),
        (ComparisonOp::Le, 3),
        (ComparisonOp::Lt, 2),
    ];
    for (op, holds) in cases {
        let d = comparison(Distribution::die(4), op, Distribution::modifier(3));
        assert_eq!(table(&d), vec![(0, 4 - holds), (1, holds)]);
    }
    assert!(ComparisonOp::Gt.test(2, 1));
    assert!(!ComparisonOp::Gt.test(1, 1));
    assert!(ComparisonOp::Ge.test(1, 1));
    assert!(ComparisonOp::Eq.test(-1, -1));
    assert!(ComparisonOp::Le.test(-2, -1));
    assert!(!ComparisonOp::Lt.test(-1, -1));
}

#[test]
fn a_product_multiplies_values_and_counts() {
    let d = product(Distribution::die(3), Distribution::die(2));
    assert_eq!(table(&d), vec![(1, 1), (2, 2), (3, 1), (4, 1), (6, 1)]);
    assert_eq!(d.total(), 6);
    let n = product(Distribution::die(2), Distribution::modifier(-3));
    assert_eq!(table(&n), vec![(-6, 1), (-3, 1)]);
}

#[test]
fn division_rounds_down() {
    let e = Expression::Die(1);
    let cases = [(7isize, 2isize, 3isize), (-7, 2, -4), (7, -2, -4), (-7, -2, 3), (6, 3, 2), (-6, 3, -2), (0, 5, 0)];
    for (a, b, q) in cases {
        let d = floor(&e, Distribution::modifier(a), Distribution::modifier(b)).unwrap();
        assert_eq!(table(&d), vec![(q, 1)]);
    }
}

#[test]
fn division_by_a_possible_zero_fails() {
    let divisor = Expression::Sum(vec![Expression::Die(3), Expression::Modifier(-2)]);
    let e = Expression::Floor(Box::new(Expression::Die(4)), Box::new(divisor));
    let text = String::from("(d4 /_ (d3 + -2))");
    assert_eq!(e.to_text(), text);
    assert_eq!(e.distribution(), Err(Error::DivideByZero(text.clone())));
    assert_eq!(e.distribution_internal(), Err(Error::DivideByZero(text)));
}

#[test]
fn a_negative_count_fails_with_the_text() {
    let e = Expression::Repeated {
        count: Box::new(Expression::Negated(Box::new(Expression::Modifier(1)))),
        value: Box::new(Expression::Die(10)),
        ranker: Ranker::All,
    };
    assert_eq!(e.distribution(), Err(Error::NegativeCount(String::from("(-(1))(d10)"))));
    let direct = repeat(&e, Distribution::modifier(-1), Distribution::die(10), &Ranker::Highest(5));
    assert_eq!(direct, Err(Error::NegativeCount(String::from("(-(1))(d10)"))));
}

#[test]
fn keeping_more_than_rolled_fails_with_the_text() {
    let e = keep(2, 4, Ranker::Highest(3));
    assert_eq!(e.distribution(), Err(Error::KeepTooFew(String::from("(2)(d4)kh3"))));
    let l = keep(2, 4, Ranker::Lowest(3));
    assert_eq!(l.distribution(), Err(Error::KeepTooFew(String::from("(2)(d4)kl3"))));
}

#[test]
fn keeping_is_tested_against_the_least_count_that_occurs() {
    // (1d4)d6kh1: one die at least is rolled, and one is kept.
    let e = Expression::Repeated {
        count: Box::new(dice(1, 4)),
        value: Box::new(Expression::Die(6)),
        ranker: Ranker::Highest(1),
    };
    let d = e.distribution().unwrap();
    assert_eq!(table(&d), vec![(1, 4), (2, 26), (3, 90), (4, 220), (5, 440), (6, 774)]);
    assert_eq!(d.total(), 1554);
    assert_eq!(e.checked_distribution(), Some(Ok(d)));
    assert_eq!(table(&e.distribution_internal().unwrap()), table(&e.distribution().unwrap()));

    // d3 + 2 is stored from zero on, though it is three at least.
    let count = || Expression::Sum(vec![Expression::Die(3), Expression::Modifier(2)]);
    assert_eq!(count().distribution_internal().unwrap().min(), 0);
    let three = Expression::Repeated {
        count: Box::new(count()),
        value: Box::new(Expression::Die(2)),
        ranker: Ranker::Lowest(3),
    };
    let kept = three.distribution().unwrap();
    assert_eq!(kept.total(), 8 + 16 + 32);
    assert_eq!((kept.min(), kept.max()), (3, 6));
    let four = Expression::Repeated {
        count: Box::new(count()),
        value: Box::new(Expression::Die(2)),
        ranker: Ranker::Lowest(4),
    };
    assert_eq!(
        four.distribution(),
        Err(Error::KeepTooFew(String::from("((d3 + 2))(d2)kl4")))
    );

    // (1d4)d6kh2: one die may be all that is rolled.
    let two = Expression::Repeated {
        count: Box::new(dice(1, 4)),
        value: Box::new(Expression::Die(6)),
        ranker: Ranker::Highest(2),
    };
    assert!(matches!(two.distribution(), Err(Error::KeepTooFew(_))));
    assert!(matches!(two.checked_distribution(), Some(Err(Error::KeepTooFew(_)))));
}

#[test]
fn a_count_that_may_be_negative_fails() {
    // (1d3-2)d4: the count is minus one, zero or one.
    let count = Expression::Sum(vec![dice(1, 3), Expression::Modifier(-2)]);
    let e = Expression::Repeated {
        count: Box::new(count),
        value: Box::new(Expression::Die(4)),
        ranker: Ranker::All,
    };
    assert_eq!(
        e.distribution(),
        Err(Error::NegativeCount(String::from("(((1)(d3) + -2))(d4)")))
    );
    // (1d3-1)d4: the count is zero, one or two.
    let count = Expression::Sum(vec![dice(1, 3), Expression::Modifier(-1)]);
    let e = Expression::Repeated {
        count: Box::new(count),
        value: Box::new(Expression::Die(4)),
        ranker: Ranker::All,
    };
    let d = e.distribution().unwrap();
    assert_eq!(d.total(), 1 + 4 + 16);
    assert_eq!(fraction(&d, 0), (1, 21));
}

#[test]
fn repeating_by_a_count_in_canonical_form() {
    let mut count = &Distribution::die(3) + &Distribution::modifier(2);
    count.clean();
    assert_eq!(count.min(), 3);
    let d = repeat(&Expression::Die(1), count, Distribution::die(2), &Ranker::Lowest(3)).unwrap();
    assert_eq!(d.total(), 8 + 16 + 32);
}

#[test]
fn the_first_error_in_order_is_reported() {
    let bad_count = keep(-1, 4, Ranker::All);
    let bad_keep = keep(1, 4, Ranker::Highest(2));
    let e = Expression::Sum(vec![Expression::Die(2), bad_keep, bad_count]);
    assert_eq!(e.distribution(), Err(Error::KeepTooFew(String::from("(1)(d4)kh2"))));
    let bad_count = keep(-1, 4, Ranker::All);
    let bad_keep = keep(1, 4, Ranker::Highest(2));
    let p = Expression::Product(Box::new(bad_count), Box::new(bad_keep));
    assert_eq!(p.distribution(), Err(Error::NegativeCount(String::from("(-1)(d4)"))));
}

#[test]
fn the_highest_of_two_dice() {
    let d = keep(2, 4, Ranker::Highest(1)).distribution().unwrap();
    assert_eq!(table(&d), vec![(1, 1), (2, 3), (3, 5), (4, 7)]);
    assert_eq!(d.total(), 16);
}

#[test]
fn the_lowest_of_two_dice() {
    let d = keep(2, 4, Ranker::Lowest(1)).distribution().unwrap();
    assert_eq!(table(&d), vec![(1, 7), (2, 5), (3, 3), (4, 1)]);
}

#[test]
fn the_two_highest_of_three_dice() {
    let d = keep(3, 2, Ranker::Highest(2)).distribution().unwrap();
    // 111 -> 2; 112, 121, 211 -> 3; the other four -> 4
    assert_eq!(table(&d), vec![(2, 1), (3, 3), (4, 4)]);
    let l = keep(3, 2, Ranker::Lowest(2)).distribution().unwrap();
    assert_eq!(table(&l), vec![(2, 4), (3, 3), (4, 1)]);
}

#[test]
fn keeping_none_gives_zero() {
    let d = keep(2, 4, Ranker::Highest(0)).distribution().unwrap();
    assert_eq!(table(&d), vec![(0, 16)]);
}

#[test]
fn a_count_that_is_rolled() {
    // (1d2)d2: one die, or two
    let e = Expression::Repeated {
        count: Box::new(Expression::Die(2)),
        value: Box::new(Expression::Die(2)),
        ranker: Ranker::All,
    };
    let d = e.distribution().unwrap();
    assert_eq!(table(&d), vec![(1, 1), (2, 2), (3, 2), (4, 1)]);
    assert_eq!(d.total(), 2 + 4);
}

#[test]
fn a_weighted_count_weighs_its_rolls() {
    // (2d2)d2: two dice once, three dice twice, four dice once
    let e = Expression::Repeated {
        count: Box::new(dice(2, 2)),
        value: Box::new(Expression::Die(2)),
        ranker: Ranker::All,
    };
    let d = e.distribution().unwrap();
    assert_eq!(d.total(), 4 + 2 * 8 + 16);
    assert_eq!(d.occurrences().collect()[0], (2, 1));
    assert_eq!(fraction(&d, 8), (1, 36));
}

#[test]
fn no_rolls_give_zero() {
    let d = dice(0, 6).distribution().unwrap();
    assert_eq!(table(&d), vec![(0, 1)]);
    let none = repeat(&Expression::Die(1), Distribution::modifier(3), Distribution::die(0), &Ranker::All)
        .unwrap();
    assert_eq!(none.total(), 0);
}

#[test]
fn a_sum_of_no_terms_is_zero() {
    let d = Expression::Sum(vec![]).distribution().unwrap();
    assert_eq!(d, Distribution::modifier(0));
    assert_eq!(Distribution::sum(vec![]), Distribution::modifier(0));
}

#[test]
fn a_sum_of_one_term_is_the_term() {
    let d = Expression::Sum(vec![Expression::Die(4)]).distribution_internal().unwrap();
    assert_eq!(d, Distribution::die(4));
    assert_eq!(Distribution::sum(vec![Distribution::die(4)]), Distribution::die(4));
}

#[test]
fn a_sum_of_three_terms() {
    let d = Distribution::sum(vec![
        Distribution::die(2),
        Distribution::die(2),
        Distribution::modifier(-4),
    ]);
    assert_eq!(table(&d), vec![(-2, 1), (-1, 2), (0, 1)]);
    assert_eq!(d.min(), -2);
    assert_eq!(d.max(), 0);
}

#[test]
fn cleaning_strips_the_zeros_at_both_ends() {
    let mut low = product(Distribution::die(2), Distribution::modifier(-3));
    let before = table(&low);
    assert_eq!((low.min(), low.max()), (-6, -1));
    low.clean();
    assert_eq!((low.min(), low.max()), (-6, -3));
    assert_eq!(table(&low), before);
    assert_eq!(low.total(), 2);
    let again = low.clone();
    low.clean();
    assert_eq!(low, again);
    let mut both = -&product(Distribution::die(2), Distribution::modifier(3));
    assert_eq!((both.min(), both.max()), (-6, 0));
    both.clean();
    assert_eq!((both.min(), both.max()), (-6, -3));
    let mut nothing = Distribution::die(0);
    nothing.clean();
    assert_eq!(nothing, Distribution::die(0));
}

#[test]
fn cleaning_keeps_the_zeros_between() {
    let mut d = product(Distribution::die(2), Distribution::modifier(3));
    assert_eq!((d.min(), d.max()), (0, 6));
    d.clean();
    assert_eq!((d.min(), d.max()), (3, 6));
    assert_eq!(table(&d), vec![(3, 1), (6, 1)]);
    assert_eq!(fraction(&d, 4), (0, 1));
}

#[test]
fn the_entry_point_cleans() {
    let e = dice(2, 4);
    let raw = e.distribution_internal().unwrap();
    let clean = e.distribution().unwrap();
    assert_eq!((raw.min(), raw.max()), (0, 8));
    assert_eq!((clean.min(), clean.max()), (2, 8));
    assert_eq!(table(&raw), table(&clean));
}

#[test]
fn occurrences_step_by_step() {
    let d = product(Distribution::die(2), Distribution::modifier(3));
    let mut it = d.occurrences();
    assert_eq!(it.next(), Some((3, 1)));
    assert_eq!(it.next(), Some((6, 1)));
    assert_eq!(it.next(), None);
    assert_eq!(it.next(), None);
    let again = d.occurrences().collect();
    assert_eq!(again, vec![(3, 1), (6, 1)]);
    let mut rest = d.occurrences();
    rest.next();
    assert_eq!(rest.collect(), vec![(6, 1)]);
}

#[test]
fn the_mean_of_a_die() {
    assert_eq!(mean(&Distribution::die(6)), 3.5);
    assert!((mean(&dice(2, 6).distribution().unwrap()) - 7.0).abs() < 1e-12);
    assert_eq!(mean(&dice(2, 4).distribution().unwrap()), 5.0);
    assert_eq!(mean(&Distribution::modifier(-3)), -3.0);
}

#[test]
fn the_mean_of_the_three_best_of_four() {
    let d = keep(4, 6, Ranker::Highest(3)).distribution().unwrap();
    assert_eq!(d.total(), 1296);
    assert_eq!((d.min(), d.max()), (3, 18));
    // 15869 / 1296
    assert!((mean(&d) - 12.2446).abs() < 0.0001);
    assert_eq!(fraction(&d, 18), (7, 432));
    assert_eq!(fraction(&d, 3), (1, 1296));
}

#[test]
fn the_text_of_every_node() {
    let d = |n: usize| Box::new(Expression::Die(n));
    assert_eq!(Expression::Modifier(0).to_text(), "0");
    assert_eq!(Expression::Modifier(-12).to_text(), "-12");
    assert_eq!(Expression::Modifier(1905).to_text(), "1905");
    assert_eq!(Expression::Modifier(isize::MIN).to_text(), isize::MIN.to_string());
    assert_eq!(Expression::Modifier(isize::MAX).to_text(), isize::MAX.to_string());
    assert_eq!(Expression::Die(20).to_text(), "d20");
    assert_eq!(Expression::Negated(d(6)).to_text(), "-(d6)");
    assert_eq!(dice(2, 4).to_text(), "(2)(d4)");
    assert_eq!(keep(4, 6, Ranker::Highest(3)).to_text(), "(4)(d6)kh3");
    assert_eq!(keep(4, 6, Ranker::Lowest(10)).to_text(), "(4)(d6)kl10");
    assert_eq!(Expression::Product(d(4), d(6)).to_text(), "(d4 * d6)");
    assert_eq!(Expression::Floor(d(4), d(6)).to_text(), "(d4 /_ d6)");
    assert_eq!(Expression::Sum(vec![]).to_text(), "()");
    assert_eq!(Expression::Sum(vec![Expression::Die(4)]).to_text(), "(d4)");
    assert_eq!(
        Expression::Sum(vec![Expression::Die(4), Expression::Modifier(1), Expression::Die(2)])
            .to_text(),
        "(d4 + 1 + d2)"
    );
    for (op, text) in [
        (ComparisonOp::Gt, "(d4 > d6)"),
        (ComparisonOp::Ge, "(d4 >= d6)"),
        (ComparisonOp::Eq, "(d4 == d6)"),
        (ComparisonOp::Le, "(d4 <= d6)"),
        (ComparisonOp::Lt, "(d4 < d6)"),
    ] {
        assert_eq!(Expression::Comparison(d(4), op, d(6)).to_text(), text);
    }
}

#[test]
fn the_count_of_a_ranker() {
    assert_eq!(Ranker::All.count(), 0);
    assert_eq!(Ranker::Highest(3).count(), 3);
    assert_eq!(Ranker::Lowest(2).count(), 2);
}

#[test]
fn scaling_and_summing_agree_in_the_mean() {
    let hit = |times: isize| {
        let check = Expression::Comparison(
            Box::new(Expression::Sum(vec![dice(1, 20), Expression::Modifier(3)])),
            ComparisonOp::Ge,
            Box::new(Expression::Modifier(17)),
        );
        Expression::Product(Box::new(check), Box::new(dice(times, 10)))
    };
    let once = hit(2).distribution().unwrap();
    let twice = Expression::Repeated {
        count: Box::new(Expression::Modifier(2)),
        value: Box::new(hit(1)),
        ranker: Ranker::All,
    }
    .distribution()
    .unwrap();
    assert_eq!(once.total(), 2000);
    assert_eq!(twice.total(), 40000);
    assert!((mean(&once) - 3.85).abs() < 1e-9);
    assert!((mean(&twice) - 3.85).abs() < 1e-9);
}

#[test]
fn only_a_die_without_faces_leaves_no_roll() {
    let nothing = Expression::Die(0).distribution().unwrap();
    assert_eq!(nothing.total(), 0);
    let compared = Expression::Comparison(
        Box::new(Expression::Die(0)),
        ComparisonOp::Lt,
        Box::new(Expression::Die(4)),
    )
    .distribution()
    .unwrap();
    assert_eq!(compared.total(), 0);
    let rolled = Expression::Repeated {
        count: Box::new(Expression::Modifier(2)),
        value: Box::new(Expression::Die(0)),
        ranker: Ranker::All,
    }
    .distribution()
    .unwrap();
    assert_eq!(rolled.total(), 0);
    for e in [
        dice(3, 2),
        keep(3, 2, Ranker::Lowest(1)),
        Expression::Sum(vec![]),
        Expression::Negated(Box::new(Expression::Die(3))),
        Expression::Floor(Box::new(Expression::Die(3)), Box::new(Expression::Die(2))),
    ] {
        assert!(e.distribution().unwrap().total() > 0);
    }
}

#[test]
fn a_count_that_never_occurs_rolls_nothing() {
    for count in [Expression::Die(0), dice(1, 0)] {
        let e = Expression::Repeated {
            count: Box::new(count),
            value: Box::new(Expression::Die(6)),
            ranker: Ranker::Highest(2),
        };
        let d = e.distribution().unwrap();
        assert_eq!(d.total(), 0);
        assert_eq!(table(&d), vec![]);
        assert_eq!(e.checked_distribution(), Some(Ok(d)));
    }
}

#[test]
fn cleaning_an_operand_changes_no_result() {
    let stored = || &Distribution::die(3) + &Distribution::modifier(2);
    let cleaned = || {
        let mut d = stored();
        d.clean();
        d
    };
    assert_ne!(stored(), cleaned());
    assert_eq!(&stored() + &stored(), &cleaned() + &cleaned());
    assert_eq!(product(stored(), Distribution::die(2)), product(cleaned(), Distribution::die(2)));
    assert_eq!(
        comparison(stored(), ComparisonOp::Gt, Distribution::die(4)),
        comparison(cleaned(), ComparisonOp::Gt, Distribution::die(4))
    );
    assert_eq!(
        repeat(&Expression::Die(1), Distribution::modifier(2), stored(), &Ranker::Highest(1)),
        repeat(&Expression::Die(1), Distribution::modifier(2), cleaned(), &Ranker::Highest(1))
    );
}
