use dice_parser::{
    d100_face, decimal_value, is_ascii_digit, is_white_space, utf8_width, DiceError, DiceExpr, ExprResult,
    Keep, ParseErrorKind, RollDetail, RollResult, RollSpec, Roller,
};
use rand::{rngs::StdRng, Rng, SeedableRng};

fn roll_seeded(input: &str, seed: u64) -> Result<ExprResult, DiceError> {
    DiceExpr::parse(input)
        .unwrap()
        .roll_with_rng(StdRng::seed_from_u64(seed))
}

// ==== Character classes ====

#[test]
fn white_space_agrees_with_std() {
    for u in 0..=0x10FFFFu32 {
        if let Some(c) = char::from_u32(u) {
            assert_eq!(is_white_space(c), c.is_whitespace(), "char {:#x}", u);
            assert_eq!(is_ascii_digit(c), c.is_ascii_digit(), "char {:#x}", u);
            assert_eq!(utf8_width(c), c.len_utf8(), "char {:#x}", u);
        }
    }
}

#[test]
fn decimal_value_reads_digits_and_detects_overflow() {
    let chars: Vec<char> = "x4294967295y".chars().collect();
    assert_eq!(decimal_value(&chars, 1, 11, u32::MAX), Some(4294967295));
    assert_eq!(decimal_value(&chars, 1, 11, 2147483647), None);
    assert_eq!(decimal_value(&chars, 1, 1, 0), Some(0));
    let chars: Vec<char> = "0000000000000000000007".chars().collect();
    assert_eq!(decimal_value(&chars, 0, chars.len(), 10), Some(7));
    let chars: Vec<char> = "4294967296".chars().collect();
    assert_eq!(decimal_value(&chars, 0, chars.len(), u32::MAX), None);
}

// ==== Parsing ====

#[test]
fn parse_ignores_whitespace_between_tokens() {
    let a = format!("{:?}", DiceExpr::parse("2d6+3").unwrap());
    let b = format!("{:?}", DiceExpr::parse("  2 d 6 +\t3 \n").unwrap());
    let c = format!("{:?}", DiceExpr::parse("2d6\u{00A0}+\u{2003}3").unwrap());
    assert_eq!(a, b);
    assert_eq!(a, c);
}

#[test]
fn parse_groups_from_the_left() {
    let e = DiceExpr::parse("1 - 2 + 3").unwrap();
    match e {
        DiceExpr::Sum(lhs, rhs) => {
            assert!(matches!(*lhs, DiceExpr::Difference(_, _)));
            assert!(matches!(*rhs, DiceExpr::Literal(3)));
        }
        other => panic!("unexpected {:?}", other),
    }
    assert_eq!(roll_seeded("1 - 2 + 3", 0).unwrap().total, 2);
    assert_eq!(roll_seeded("1 - -3", 0).unwrap().total, 4);
}

#[test]
fn parse_keep_suffixes() {
    let e = DiceExpr::parse("4d6 kh 3 + 2d20kl").unwrap();
    match e {
        DiceExpr::Sum(lhs, rhs) => {
            match *lhs {
                DiceExpr::Roll(spec) => {
                    assert_eq!(spec, RollSpec::new(4, 6, Some(Keep::Highest(3))))
                }
                other => panic!("unexpected {:?}", other),
            }
            match *rhs {
                DiceExpr::Roll(spec) => {
                    assert_eq!(spec, RollSpec::new(2, 20, Some(Keep::Lowest(1))))
                }
                other => panic!("unexpected {:?}", other),
            }
        }
        other => panic!("unexpected {:?}", other),
    }
}

#[test]
fn parse_extreme_literals() {
    assert!(matches!(
        DiceExpr::parse("-2147483648").unwrap(),
        DiceExpr::Literal(i32::MIN)
    ));
    assert!(matches!(
        DiceExpr::parse("2147483647").unwrap(),
        DiceExpr::Literal(i32::MAX)
    ));
    assert!(matches!(
        DiceExpr::parse("0d4294967295").unwrap(),
        DiceExpr::Roll(RollSpec { count: 0, sides: 4294967295, keep: None })
    ));
}

#[test]
fn parse_error_expected_number() {
    match DiceExpr::parse("2d").unwrap_err() {
        DiceError::ParseError { kind, input, start, stop } => {
            assert_eq!(kind, ParseErrorKind::ExpectedNumber);
            assert_eq!(input, "2d");
            assert_eq!(start, 2);
            assert_eq!(stop, None);
        }
        other => panic!("unexpected {:?}", other),
    }
    match DiceExpr::parse("invalid").unwrap_err() {
        DiceError::ParseError { kind, start, stop, .. } => {
            assert_eq!(kind, ParseErrorKind::ExpectedNumber);
            assert_eq!((start, stop), (0, None));
        }
        other => panic!("unexpected {:?}", other),
    }
}

#[test]
fn parse_error_invalid_u32() {
    match DiceExpr::parse("1d99999999999").unwrap_err() {
        DiceError::ParseError { kind, start, stop, .. } => {
            assert_eq!(kind, ParseErrorKind::InvalidU32);
            assert_eq!((start, stop), (2, Some(13)));
        }
        other => panic!("unexpected {:?}", other),
    }
}

#[test]
fn parse_error_invalid_i32() {
    match DiceExpr::parse("2147483648").unwrap_err() {
        DiceError::ParseError { kind, start, stop, .. } => {
            assert_eq!(kind, ParseErrorKind::InvalidI32);
            assert_eq!((start, stop), (0, Some(10)));
        }
        other => panic!("unexpected {:?}", other),
    }
    match DiceExpr::parse("-2147483649").unwrap_err() {
        DiceError::ParseError { kind, start, stop, .. } => {
            assert_eq!(kind, ParseErrorKind::InvalidI32);
            assert_eq!((start, stop), (0, Some(11)));
        }
        other => panic!("unexpected {:?}", other),
    }
}

#[test]
fn parse_error_lone_minus() {
    let mut p = dice_parser::Parser::new("   -");
    match p.parse_i32().unwrap_err() {
        DiceError::ParseError { kind, input, start, stop } => {
            assert_eq!(kind, ParseErrorKind::ExpectedNumber);
            assert_eq!(input, "   -");
            assert_eq!((start, stop), (3, Some(4)));
        }
        other => panic!("unexpected {:?}", other),
    }
    match DiceExpr::parse("-abc").unwrap_err() {
        DiceError::ParseError { kind, start, stop, .. } => {
            assert_eq!(kind, ParseErrorKind::ExpectedNumber);
            assert_eq!((start, stop), (0, Some(1)));
        }
        other => panic!("unexpected {:?}", other),
    }
}

#[test]
fn parse_error_negative_count() {
    match DiceExpr::parse("-2d6").unwrap_err() {
        DiceError::SyntaxError { input, start, stop, expected } => {
            assert_eq!(input, "-2d6");
            assert_eq!((start, stop), (0, Some(2)));
            assert_eq!(expected.unwrap(), "non-negative value for dice count");
        }
        other => panic!("unexpected {:?}", other),
    }
}

#[test]
fn parse_error_bad_keep() {
    match DiceExpr::parse("1 + 4d6kr").unwrap_err() {
        DiceError::SyntaxError { start, stop, expected, .. } => {
            assert_eq!((start, stop), (3, Some(8)));
            assert_eq!(
                expected.unwrap(),
                "'kh' for keep highest or 'kl' for keep lowest"
            );
        }
        other => panic!("unexpected {:?}", other),
    }
}

#[test]
fn parse_error_trailing_input() {
    match DiceExpr::parse("2d6 extra").unwrap_err() {
        DiceError::TrailingInput { input, pos } => {
            assert_eq!(input, "2d6 extra");
            assert_eq!(pos, 4);
        }
        other => panic!("unexpected {:?}", other),
    }
}

#[test]
fn error_positions_are_byte_offsets() {
    match DiceExpr::parse("1\u{3000}+\u{3000}x").unwrap_err() {
        DiceError::ParseError { kind, start, .. } => {
            assert_eq!(kind, ParseErrorKind::ExpectedNumber);
            assert_eq!(start, 8);
        }
        other => panic!("unexpected {:?}", other),
    }
    match DiceExpr::parse("1\u{3000}\u{3000}x").unwrap_err() {
        DiceError::TrailingInput { pos, .. } => assert_eq!(pos, 7),
        other => panic!("unexpected {:?}", other),
    }
}

// ==== Error messages ====

#[test]
fn messages_mark_the_faulty_text() {
    assert_eq!(
        DiceExpr::parse("2d").unwrap_err().to_string(),
        "expected number in input, found nothing here:\n2d\n  ^"
    );
    assert_eq!(
        DiceExpr::parse("1d99999999999").unwrap_err().to_string(),
        "invalid u32 literal in input, parse errored here:\n1d99999999999\n  ^^^^^^^^^^^"
    );
    assert_eq!(
        DiceExpr::parse("-").unwrap_err().to_string(),
        "expected number in input, found nothing here:\n-\n^"
    );
    assert_eq!(
        DiceExpr::parse("-2d6").unwrap_err().to_string(),
        "syntax error in dice expression here:\n-2d6\n^^\nexpected: non-negative value for dice count"
    );
    assert_eq!(
        DiceExpr::parse("2d6 extra").unwrap_err().to_string(),
        "trailing input encountered in expression:\n2d6 extra\n    ^^^^^"
    );
    let err = DiceError::SyntaxError {
        input: String::from("abc"),
        start: 1,
        stop: None,
        expected: None,
    };
    assert_eq!(err.to_string(), "syntax error in dice expression here:\nabc\n ^");
}

#[test]
fn messages_of_evaluation_errors() {
    let spec = RollSpec::new(2, 6, Some(Keep::Highest(5)));
    let err = DiceExpr::Roll(spec).roll().unwrap_err();
    assert_eq!(
        err.to_string(),
        format!(
            "invalid RollSpec error: tried to keep more than total amount of rolled dice, {:?}",
            spec
        )
    );
    assert_eq!(
        err.to_string(),
        "invalid RollSpec error: tried to keep more than total amount of rolled dice, RollSpec { count: 2, sides: 6, keep: Some(Highest(5)) }"
    );
    let spec = RollSpec::new(4294967295, 0, Some(Keep::Lowest(10)));
    let err = DiceError::InvalidSpec(spec, String::from("m"));
    assert_eq!(err.to_string(), format!("invalid RollSpec error: m, {:?}", spec));
    let err = DiceError::InvalidSpec(RollSpec::new(0, 10, None), String::from("m"));
    assert_eq!(
        err.to_string(),
        "invalid RollSpec error: m, RollSpec { count: 0, sides: 10, keep: None }"
    );
    assert_eq!(
        roll_seeded("2147483647 + 1", 0).unwrap_err().to_string(),
        "dice overflow error: attempt to add with overflow"
    );
}

// ==== Evaluation with given dice ====

#[test]
fn evaluate_sums_the_kept_dice() {
    let dice = vec![3, 5, 1];
    let r = RollSpec::new(3, 6, None).evaluate(dice.clone()).unwrap();
    assert_eq!(r.total, 9);
    assert_eq!(r.detail, RollDetail::Dice(vec![3, 5, 1]));
    let r = RollSpec::new(3, 6, Some(Keep::Highest(2)))
        .evaluate(dice.clone())
        .unwrap();
    assert_eq!(r.total, 8);
    assert_eq!(r.detail, RollDetail::Dice(vec![3, 5, 1]));
    let r = RollSpec::new(3, 6, Some(Keep::Lowest(2)))
        .evaluate(dice.clone())
        .unwrap();
    assert_eq!(r.total, 4);
    let r = RollSpec::new(3, 6, Some(Keep::Highest(0)))
        .evaluate(dice.clone())
        .unwrap();
    assert_eq!(r.total, 0);
    let r = RollSpec::new(3, 6, Some(Keep::Lowest(3))).evaluate(dice).unwrap();
    assert_eq!(r.total, 9);
}

#[test]
fn evaluate_without_dice_is_constant() {
    let r = RollSpec::new(0, 6, Some(Keep::Highest(4)))
        .evaluate(vec![])
        .unwrap();
    assert_eq!(r.total, 0);
    assert_eq!(r.detail, RollDetail::Constant(0));
    let r = RollSpec::new(7, 0, None).evaluate(vec![]).unwrap();
    assert_eq!(r.total, 7);
    assert_eq!(r.detail, RollDetail::Constant(7));
    let r = RollSpec::new(3_000_000_000, 0, None).evaluate(vec![]).unwrap();
    assert_eq!(r.total, 3_000_000_000);
    assert_eq!(r.detail, RollDetail::Constant(3_000_000_000u32 as i32));
}

#[test]
fn evaluate_errors() {
    match RollSpec::new(2, 6, Some(Keep::Lowest(3))).evaluate(vec![1, 2]) {
        Err(DiceError::InvalidSpec(spec, msg)) => {
            assert_eq!(spec, RollSpec::new(2, 6, Some(Keep::Lowest(3))));
            assert_eq!(msg, "tried to keep more than total amount of rolled dice");
        }
        other => panic!("unexpected {:?}", other),
    }
    match RollSpec::new(2, u32::MAX, None).evaluate(vec![u32::MAX, 1]) {
        Err(DiceError::Overflow(msg)) => assert_eq!(msg, "attempt to add with overflow"),
        other => panic!("unexpected {:?}", other),
    }
    match RollSpec::new(3, u32::MAX, Some(Keep::Lowest(2))).evaluate(vec![u32::MAX, 2, u32::MAX - 1]) {
        Err(DiceError::Overflow(msg)) => assert_eq!(msg, "attempt to add with overflow"),
        other => panic!("unexpected {:?}", other),
    }
}

// ==== Combining outcomes ====

#[test]
fn outcomes_add_negate_and_subtract() {
    let a = ExprResult::new(7, vec![3, 4], 0);
    let b = ExprResult::new(-2, vec![-5], 3);
    let s = a.clone().add(b.clone());
    assert_eq!((s.total, s.rolls.clone(), s.modifier), (5, vec![3, 4, -5], 3));
    let n = b.clone().neg();
    assert_eq!((n.total, n.rolls.clone(), n.modifier), (2, vec![5], -3));
    let d = a.sub(b);
    assert_eq!((d.total, d.rolls, d.modifier), (9, vec![3, 4, 5], -3));
}

#[test]
fn negating_twice_gives_back_the_outcome() {
    let a = ExprResult::new(-11, vec![1, -6, 2147483647], 2147483647);
    let back = a.clone().neg().neg();
    assert_eq!((back.total, back.rolls, back.modifier), (a.total, a.rolls, a.modifier));
}

#[test]
fn conversion_of_roll_outcomes() {
    let r = ExprResult::try_from(RollResult::new(2147483647, RollDetail::Constant(-1))).unwrap();
    assert_eq!((r.total, r.rolls, r.modifier), (2147483647, vec![], -1));
    match ExprResult::try_from(RollResult::new(2147483648, RollDetail::Constant(0))) {
        Err(DiceError::Overflow(msg)) => {
            assert_eq!(msg, "out of range integral type conversion attempted")
        }
        other => panic!("unexpected {:?}", other),
    }
    match ExprResult::try_from(RollResult::new(1, RollDetail::Dice(vec![1, 2147483648]))) {
        Err(DiceError::Overflow(_)) => {}
        other => panic!("unexpected {:?}", other),
    }
}

// ==== Rolling ====

#[test]
fn total_is_rolls_plus_modifier_without_keep() {
    for seed in 0..50 {
        let r = roll_seeded("3d6 + 2 - 1d4 + 0d5 + 3d0 - 2d100", seed).unwrap();
        assert_eq!(r.total, r.rolls.iter().sum::<i32>() + r.modifier);
        assert_eq!(r.modifier, 5);
        assert_eq!(r.rolls.len(), 6);
        assert!(r.rolls[3] < 0 && r.rolls[4] < 0 && r.rolls[5] < 0);
    }
}

#[test]
fn all_dice_are_recorded_even_when_not_kept() {
    for seed in 0..20 {
        let r = roll_seeded("4d6kh3 + 2d8kl1 - 3d4kh1", seed).unwrap();
        assert_eq!(r.rolls.len(), 9);
    }
}

#[test]
fn modifier_is_the_constant_part() {
    let r = roll_seeded("5 - 2 + 3d0 - 0d6 + 1d6", 3).unwrap();
    assert_eq!(r.modifier, 6);
}

#[test]
fn total_stays_within_bounds() {
    for seed in 0..200 {
        let r = roll_seeded("2d6 - 1d4 + 4d6kh3", seed).unwrap();
        assert!(r.total >= 1 && r.total <= 29, "total {}", r.total);
        let r = roll_seeded("1d100", seed).unwrap();
        assert!(r.total >= 1 && r.total <= 100);
    }
}

#[test]
fn keep_highest_at_least_keep_lowest() {
    for seed in 0..50 {
        let high = roll_seeded("5d20kh2", seed).unwrap();
        let low = roll_seeded("5d20kl2", seed).unwrap();
        assert_eq!(high.rolls, low.rolls);
        assert!(high.total >= low.total);
        let mut sorted = high.rolls.clone();
        sorted.sort();
        assert_eq!(high.total, sorted[3] + sorted[4]);
        assert_eq!(low.total, sorted[0] + sorted[1]);
    }
}

#[test]
fn same_seed_same_outcome() {
    let a = roll_seeded("2d6+3", 42).unwrap();
    let b = roll_seeded("2d6+3", 42).unwrap();
    assert_eq!((a.total, a.rolls, a.modifier), (b.total, b.rolls, b.modifier));
}

#[test]
fn dice_are_not_constant() {
    let mut seen = std::collections::BTreeSet::new();
    for seed in 0..100 {
        let r = roll_seeded("1d20", seed).unwrap();
        assert!(r.total >= 1 && r.total <= 20);
        seen.insert(r.total);
    }
    assert!(seen.len() > 5);
    assert!(!seen.contains(&0));
}

#[test]
fn default_roller_rolls_in_range() {
    let mut roller = Roller::default();
    for _ in 0..50 {
        let r = roller.roll_spec(&RollSpec::new(3, 8, None)).unwrap();
        match r.detail {
            RollDetail::Dice(d) => {
                assert_eq!(d.len(), 3);
                assert!(d.iter().all(|&x| (1..=8).contains(&x)));
                assert_eq!(r.total, d.iter().sum::<u32>());
            }
            other => panic!("unexpected {:?}", other),
        }
    }
}

#[test]
fn evaluation_errors_when_rolling() {
    match roll_seeded("2147483647 + 1", 0) {
        Err(DiceError::Overflow(msg)) => assert_eq!(msg, "attempt to add with overflow"),
        other => panic!("unexpected {:?}", other),
    }
    match roll_seeded("0 - -2147483648", 0) {
        Err(DiceError::Overflow(msg)) => assert_eq!(msg, "attempt to negate with overflow"),
        other => panic!("unexpected {:?}", other),
    }
    let huge = DiceExpr::Roll(RollSpec::new(3_000_000_000, 0, None));
    match huge.roll() {
        Err(DiceError::Overflow(msg)) => {
            assert_eq!(msg, "out of range integral type conversion attempted")
        }
        other => panic!("unexpected {:?}", other),
    }
    match roll_seeded("1d6 + 2d6kl3", 0) {
        Err(DiceError::InvalidSpec(spec, _)) => {
            assert_eq!(spec, RollSpec::new(2, 6, Some(Keep::Lowest(3))))
        }
        other => panic!("unexpected {:?}", other),
    }
}

#[test]
fn kept_dice_never_total_more_than_all_dice() {
    for seed in 0..50 {
        let r = roll_seeded("6d10kh2", seed).unwrap();
        assert!(r.total <= r.rolls.iter().sum::<i32>());
        let r = roll_seeded("6d10kl4", seed).unwrap();
        assert!(r.total <= r.rolls.iter().sum::<i32>());
    }
}

#[test]
fn keeping_every_die_is_the_plain_sum() {
    for seed in 0..50 {
        let plain = roll_seeded("4d6", seed).unwrap();
        let high = roll_seeded("4d6kh4", seed).unwrap();
        let low = roll_seeded("4d6kl4", seed).unwrap();
        assert_eq!(plain.total, high.total);
        assert_eq!(plain.total, low.total);
    }
}

#[test]
fn parse_errors_on_ascii_input_have_messages() {
    for input in ["", "d", "2d", "+", "1+", "1 - -", "3d6k", "3d6kx", "-1d2", "1 2", "1d2kh99999999999"] {
        let err = DiceExpr::parse(input).unwrap_err();
        let message = err.to_string();
        assert!(message.contains(input));
    }
}

#[test]
fn trailing_input_marks_each_trailing_character() {
    let err = DiceExpr::parse("\u{a0}1 xxxxx").unwrap_err();
    match &err {
        DiceError::TrailingInput { pos, .. } => assert_eq!(*pos, 4),
        other => panic!("unexpected {:?}", other),
    }
    assert_eq!(
        err.to_string(),
        "trailing input encountered in expression:\n\u{a0}1 xxxxx\n    ^^^^^"
    );
    let err = DiceExpr::parse("1\u{3000}\u{3000}\u{3000}x").unwrap_err();
    match &err {
        DiceError::TrailingInput { pos, .. } => assert_eq!(*pos, 10),
        other => panic!("unexpected {:?}", other),
    }
    assert_eq!(
        err.to_string(),
        format!(
            "trailing input encountered in expression:\n1\u{3000}\u{3000}\u{3000}x\n{}^",
            " ".repeat(10)
        )
    );
}

#[test]
fn rolls_without_dice_leave_the_generator_untouched() {
    let mut a = Roller::from_rng(StdRng::seed_from_u64(36));
    let mut b = Roller::from_rng(StdRng::seed_from_u64(36));
    let zero = a.roll_spec(&RollSpec::new(0, 12, None)).unwrap();
    assert_eq!((zero.total, zero.detail), (0, RollDetail::Constant(0)));
    let three = a.roll_spec(&RollSpec::new(3, 0, None)).unwrap();
    assert_eq!((three.total, three.detail), (3, RollDetail::Constant(3)));
    let lit = a.roll_expr(&DiceExpr::parse("5 - 2d0").unwrap()).unwrap();
    assert_eq!(lit.total, 3);
    let after = a.roll_spec(&RollSpec::new(4, 20, None)).unwrap();
    let fresh = b.roll_spec(&RollSpec::new(4, 20, None)).unwrap();
    assert_eq!(after.detail, fresh.detail);
}

#[test]
fn dice_follow_the_requested_ranges() {
    let mut roller = Roller::from_rng(StdRng::seed_from_u64(7));
    let mut reference = StdRng::seed_from_u64(7);
    let r = roller.roll_spec(&RollSpec::new(3, 12, None)).unwrap();
    let expected: Vec<u32> = (0..3).map(|_| reference.random_range(1..=12)).collect();
    assert_eq!(r.detail, RollDetail::Dice(expected));
    let r = roller.roll_spec(&RollSpec::new(2, 100, None)).unwrap();
    let expected: Vec<u32> = (0..2)
        .map(|_| {
            let ones: u32 = reference.random_range(1..=10);
            let tens: u32 = reference.random_range(0..=9);
            if tens == 0 { ones } else { ones + tens * 10 }
        })
        .collect();
    assert_eq!(r.detail, RollDetail::Dice(expected));
}

#[test]
fn message_of_missing_randomness() {
    assert_eq!(
        DiceError::RandomnessUnavailable.to_string(),
        "dice generator unavailable: the operating system provided no entropy"
    );
}

// ==== Dice from given faces ====

#[test]
fn d100_face_joins_ones_and_tens() {
    assert_eq!(d100_face(1, 0), 1);
    assert_eq!(d100_face(10, 0), 10);
    assert_eq!(d100_face(3, 4), 43);
    assert_eq!(d100_face(10, 9), 100);
}

#[test]
fn roller_from_seeded_with_and_without_generator() {
    let mut none = Roller::from_seeded(None);
    let expr = DiceExpr::parse("1d6").unwrap();
    assert!(matches!(
        none.roll_expr(&expr),
        Err(DiceError::RandomnessUnavailable)
    ));
    let constant = none.roll_expr(&DiceExpr::parse("4 + 2d0").unwrap()).unwrap();
    assert_eq!(constant.total, 6);
    let mut seeded = Roller::from_seeded(Some(StdRng::seed_from_u64(11)));
    let mut direct = Roller::from_rng(StdRng::seed_from_u64(11));
    let expr = DiceExpr::parse("5d20").unwrap();
    assert_eq!(
        seeded.roll_expr(&expr).unwrap().rolls,
        direct.roll_expr(&expr).unwrap().rolls
    );
}

#[test]
fn count_dice_counts_rolls_that_draw() {
    let expr = DiceExpr::parse("2d6 + 1d0 - 3d100 + 5 - 0d4").unwrap();
    assert_eq!(expr.count_dice(), Some(5));
    assert_eq!(DiceExpr::parse("7").unwrap().count_dice(), Some(0));
}

#[test]
fn evaluate_with_given_faces() {
    let expr = DiceExpr::parse("2d6 + 3").unwrap();
    let r = expr.evaluate(&vec![4, 5]).unwrap();
    assert_eq!((r.total, r.rolls, r.modifier), (12, vec![4, 5], 3));

    let expr = DiceExpr::parse("4d6kh3 - 1d4").unwrap();
    let r = expr.evaluate(&vec![1, 2, 3, 4, 2]).unwrap();
    assert_eq!((r.total, r.rolls, r.modifier), (7, vec![1, 2, 3, 4, -2], 0));

    let expr = DiceExpr::parse("2d6kl3").unwrap();
    assert!(matches!(
        expr.evaluate(&vec![1, 2]),
        Err(DiceError::InvalidSpec(_, _))
    ));

    let expr = DiceExpr::parse("3 - 2d0").unwrap();
    let r = expr.evaluate(&vec![]).unwrap();
    assert_eq!((r.total, r.modifier), (1, 1));
}

#[test]
fn evaluate_agrees_with_rolling() {
    for seed in 0..20u64 {
        let expr = DiceExpr::parse("3d6 + 2d100kh1 - 1d8 + 4").unwrap();
        let rolled = expr.roll_with_rng(StdRng::seed_from_u64(seed)).unwrap();
        let faces: Vec<u32> = rolled.rolls.iter().map(|x| x.unsigned_abs()).collect();
        assert_eq!(faces.len(), expr.count_dice().unwrap());
        let evaluated = expr.evaluate(&faces).unwrap();
        assert_eq!(evaluated.total, rolled.total);
        assert_eq!(evaluated.rolls, rolled.rolls);
        assert_eq!(evaluated.modifier, rolled.modifier);
    }
}

// ==== Whitespace between tokens ====

#[test]
fn whitespace_between_tokens_parses_the_same() {
    let pairs = [
        ("1+-3", " 1 + -3 "),
        ("4d6kh3-1", "\t4 d 6 kh 3 - 1\n"),
        ("2d10kl+7", "2d10 kl + 7"),
        ("1d100", "\u{3000}1d100\u{3000}"),
    ];
    for (plain, spaced) in pairs {
        assert_eq!(
            format!("{:?}", DiceExpr::parse(spaced).unwrap()),
            format!("{:?}", DiceExpr::parse(plain).unwrap())
        );
    }
    assert!(DiceExpr::parse(" 1 + ").is_err() && DiceExpr::parse("1+").is_err());
}

#[test]
fn whitespace_inside_a_token_changes_the_parse() {
    assert!(DiceExpr::parse("1+-3").is_ok());
    assert!(DiceExpr::parse("1+- 3").is_err());
    assert!(DiceExpr::parse("4d6kh").is_ok());
    assert!(DiceExpr::parse("4d6k h").is_err());
    assert!(DiceExpr::parse("12").is_ok());
    assert!(DiceExpr::parse("1 2").is_err());
}
