use diceroll::parse::{check_token, parse_rolls, parse_token, DiceError, Roll};

#[test]
fn parse_plain_token() {
    assert_eq!(
        parse_token(b"2d6"),
        Ok(Roll { times: 2, sides: 6, delta: 0 })
    );
}

#[test]
fn parse_plus_modifier() {
    assert_eq!(
        parse_token(b"1d20+3"),
        Ok(Roll { times: 1, sides: 20, delta: 3 })
    );
}

#[test]
fn parse_minus_modifier() {
    assert_eq!(
        parse_token(b"4d8-2"),
        Ok(Roll { times: 4, sides: 8, delta: -2 })
    );
}

#[test]
fn parse_omitted_count_means_one_die() {
    assert_eq!(
        parse_token(b"d12"),
        Ok(Roll { times: 1, sides: 12, delta: 0 })
    );
}

#[test]
fn parse_capital_die_marker() {
    assert_eq!(
        parse_token(b"3D4"),
        Ok(Roll { times: 3, sides: 4, delta: 0 })
    );
}

#[test]
fn parse_multi_digit_components() {
    assert_eq!(
        parse_token(b"12d100+250"),
        Ok(Roll { times: 12, sides: 100, delta: 250 })
    );
}

#[test]
fn invalid_syntax_word() {
    assert_eq!(
        parse_token(b"abc"),
        Err(DiceError::InvalidSyntax(b"abc".to_vec()))
    );
}

#[test]
fn invalid_syntax_shapes() {
    for bad in [
        &b""[..],
        b"d",
        b"1d",
        b"2d+3",
        b"1d6+",
        b"1d6-",
        b"+3",
        b"0d6",
        b"1d0",
        b"1d06",
        b"01d6",
        b"1d6+03",
        b"1d6+0",
        b"1x6",
        b"1d6 ",
        b" 1d6",
        b"1d6+2d4",
        b"1d2d3",
        b"-1d6",
    ] {
        assert!(!check_token(bad), "accepted {:?}", bad);
        assert_eq!(
            parse_token(bad),
            Err(DiceError::InvalidSyntax(bad.to_vec())),
            "token {:?}",
            bad
        );
    }
}

#[test]
fn widest_components_still_fit() {
    assert_eq!(
        parse_token(b"2147483647d2147483647+2147483647"),
        Ok(Roll {
            times: 2147483647,
            sides: 2147483647,
            delta: 2147483647,
        })
    );
    assert_eq!(
        parse_token(b"1d5-2147483647"),
        Ok(Roll { times: 1, sides: 5, delta: -2147483647 })
    );
}

#[test]
fn number_too_large_count() {
    assert_eq!(
        parse_token(b"2147483648d6"),
        Err(DiceError::NumberTooLarge(b"2147483648".to_vec()))
    );
}

#[test]
fn number_too_large_sides() {
    assert_eq!(
        parse_token(b"1d2147483648"),
        Err(DiceError::NumberTooLarge(b"2147483648".to_vec()))
    );
}

#[test]
fn number_too_large_magnitude() {
    assert_eq!(
        parse_token(b"1d20+999999999999999999"),
        Err(DiceError::NumberTooLarge(b"999999999999999999".to_vec()))
    );
}

#[test]
fn number_too_large_reports_count_first() {
    assert_eq!(
        parse_token(b"99999999999d99999999999+99999999999"),
        Err(DiceError::NumberTooLarge(b"99999999999".to_vec()))
    );
}

#[test]
fn parse_rolls_whole_batch() {
    let tokens = vec![b"2d6".to_vec(), b"d10-1".to_vec(), b"1D8+5".to_vec()];
    assert_eq!(
        parse_rolls(&tokens),
        Ok(vec![
            Roll { times: 2, sides: 6, delta: 0 },
            Roll { times: 1, sides: 10, delta: -1 },
            Roll { times: 1, sides: 8, delta: 5 },
        ])
    );
}

#[test]
fn parse_rolls_reports_first_invalid_token() {
    let tokens = vec![b"1d6".to_vec(), b"abc".to_vec(), b"xyz".to_vec()];
    assert_eq!(
        parse_rolls(&tokens),
        Err(DiceError::InvalidSyntax(b"abc".to_vec()))
    );
}

#[test]
fn parse_rolls_checks_syntax_of_all_tokens_before_widths() {
    let tokens = vec![b"1d99999999999".to_vec(), b"abc".to_vec()];
    assert_eq!(
        parse_rolls(&tokens),
        Err(DiceError::InvalidSyntax(b"abc".to_vec()))
    );
}

#[test]
fn parse_rolls_reports_first_oversized_component() {
    let tokens = vec![
        b"1d6".to_vec(),
        b"2d99999999999".to_vec(),
        b"99999999999d6".to_vec(),
    ];
    assert_eq!(
        parse_rolls(&tokens),
        Err(DiceError::NumberTooLarge(b"99999999999".to_vec()))
    );
}
