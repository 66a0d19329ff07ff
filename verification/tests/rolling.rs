use diceroll::parse::{DiceError, Roll};
use diceroll::simulate::{evaluate, roll_total, simulate_roll};

#[test]
fn simulated_values_stay_in_range() {
    let roll = Roll { times: 200, sides: 6, delta: 0 };
    let values = simulate_roll(&roll);
    assert_eq!(values.len(), 200);
    for v in values {
        assert!(1 <= v && v <= 6);
    }
}

#[test]
fn one_sided_dice_always_show_one() {
    let roll = Roll { times: 5, sides: 1, delta: 0 };
    assert_eq!(simulate_roll(&roll), vec![1, 1, 1, 1, 1]);
}

#[test]
fn roll_total_is_sum_plus_modifier() {
    assert_eq!(roll_total(&vec![3, 4, 5], 2), 14);
    assert_eq!(roll_total(&vec![1], -5), -4);
    assert_eq!(roll_total(&vec![], -7), -7);
    assert_eq!(roll_total(&vec![2, 2], 0), 4);
}

#[test]
fn evaluate_example_invocation() {
    let tokens = vec![b"1d20+3".to_vec()];
    let ev = evaluate(&tokens).unwrap();
    assert_eq!(ev.rolls.len(), 1);
    let outcome = &ev.rolls[0];
    assert_eq!(outcome.values.len(), 1);
    let v = outcome.values[0];
    assert!(1 <= v && v <= 20);
    assert_eq!(outcome.delta, 3);
    assert_eq!(outcome.total, v as i64 + 3);
    assert!(4 <= outcome.total && outcome.total <= 23);
    assert_eq!(ev.grand_total, outcome.total as i128);
}

#[test]
fn evaluate_totals_are_exact() {
    let tokens = vec![b"2d6+1".to_vec(), b"3d4-2".to_vec(), b"d8".to_vec()];
    let ev = evaluate(&tokens).unwrap();
    assert_eq!(ev.rolls.len(), 3);
    let mut grand: i128 = 0;
    for outcome in &ev.rolls {
        let sum: i64 = outcome.values.iter().map(|v| *v as i64).sum();
        assert_eq!(outcome.total, sum + outcome.delta as i64);
        grand += outcome.total as i128;
    }
    assert_eq!(ev.grand_total, grand);
}

#[test]
fn evaluate_one_sided_dice_deterministically() {
    let tokens = vec![b"3d1+2".to_vec(), b"2d1-4".to_vec()];
    let ev = evaluate(&tokens).unwrap();
    assert_eq!(ev.rolls[0].values, vec![1, 1, 1]);
    assert_eq!(ev.rolls[0].total, 5);
    assert_eq!(ev.rolls[1].values, vec![1, 1]);
    assert_eq!(ev.rolls[1].total, -2);
    assert_eq!(ev.grand_total, 3);
}

#[test]
fn evaluate_empty_batch_is_no_input() {
    let tokens: Vec<Vec<u8>> = vec![];
    assert!(matches!(evaluate(&tokens), Err(DiceError::NoInput)));
}

#[test]
fn evaluate_rejects_invalid_token_without_rolling() {
    let tokens = vec![b"abc".to_vec()];
    match evaluate(&tokens) {
        Err(DiceError::InvalidSyntax(t)) => assert_eq!(t, b"abc".to_vec()),
        other => panic!("expected a syntax error, got {:?}", other),
    }
}

#[test]
fn evaluate_rejects_oversized_number() {
    let tokens = vec![b"1d20+999999999999999999".to_vec()];
    match evaluate(&tokens) {
        Err(DiceError::NumberTooLarge(c)) => {
            assert_eq!(c, b"999999999999999999".to_vec())
        },
        other => panic!("expected an oversized number, got {:?}", other),
    }
}

#[test]
fn evaluate_late_syntax_error_stops_the_whole_batch() {
    let tokens = vec![b"2d6".to_vec(), b"nonsense".to_vec()];
    match evaluate(&tokens) {
        Err(DiceError::InvalidSyntax(t)) => assert_eq!(t, b"nonsense".to_vec()),
        other => panic!("expected a syntax error, got {:?}", other),
    }
}
