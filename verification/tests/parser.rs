use dice_roller::parse::{parse_command, Command, ParseError};
use dice_roller::DiceExpression;

fn roll(count: u32, sides: u32, modifier: i32) -> Result<Command, ParseError> {
    Ok(Command::Roll(DiceExpression { count, sides, modifier }))
}

#[test]
fn parses_plain_expression() {
    assert_eq!(parse_command(b"1d20"), roll(1, 20, 0));
    assert_eq!(parse_command(b"3d6"), roll(3, 6, 0));
}

#[test]
fn parses_positive_modifier() {
    assert_eq!(parse_command(b"2d8+5"), roll(2, 8, 5));
}

#[test]
fn parses_negative_modifier() {
    assert_eq!(parse_command(b"4d6-1"), roll(4, 6, -1));
}

#[test]
fn missing_count_defaults_to_one() {
    assert_eq!(parse_command(b"d20"), roll(1, 20, 0));
    assert_eq!(parse_command(b"d6+2"), roll(1, 6, 2));
}

#[test]
fn trims_surrounding_whitespace() {
    assert_eq!(parse_command(b"  2d8+5 \n"), roll(2, 8, 5));
    assert_eq!(parse_command(b"\t1d20\r\n"), roll(1, 20, 0));
}

#[test]
fn input_is_case_insensitive() {
    assert_eq!(parse_command(b"2D8+5"), roll(2, 8, 5));
    assert_eq!(parse_command(b"HELP"), Ok(Command::Help));
    assert_eq!(parse_command(b"Quit"), Ok(Command::Quit));
    assert_eq!(parse_command(b"eXiT"), Ok(Command::Quit));
}

#[test]
fn recognizes_reserved_words() {
    assert_eq!(parse_command(b"help"), Ok(Command::Help));
    assert_eq!(parse_command(b"quit"), Ok(Command::Quit));
    assert_eq!(parse_command(b"exit"), Ok(Command::Quit));
    assert_eq!(parse_command(b" help \n"), Ok(Command::Help));
}

#[test]
fn accepts_leading_zeros() {
    assert_eq!(parse_command(b"02d08+005"), roll(2, 8, 5));
}

#[test]
fn rejects_text_without_dice() {
    assert_eq!(parse_command(b"banana"), Err(ParseError::MissingDice));
    assert_eq!(parse_command(b""), Err(ParseError::MissingDice));
    assert_eq!(parse_command(b"   \n"), Err(ParseError::MissingDice));
    assert_eq!(parse_command(b"1x20"), Err(ParseError::MissingDice));
}

#[test]
fn rejects_zero_or_oversized_count() {
    assert_eq!(parse_command(b"0d6"), Err(ParseError::BadCount));
    assert_eq!(parse_command(b"4294967296d6"), Err(ParseError::BadCount));
    assert_eq!(parse_command(b"4294967295d1"), roll(4294967295, 1, 0));
}

#[test]
fn rejects_zero_missing_or_oversized_sides() {
    assert_eq!(parse_command(b"2d0"), Err(ParseError::BadSides));
    assert_eq!(parse_command(b"2d"), Err(ParseError::BadSides));
    assert_eq!(parse_command(b"2d4294967296"), Err(ParseError::BadSides));
    assert_eq!(parse_command(b"2d4294967295"), roll(2, 4294967295, 0));
}

#[test]
fn rejects_missing_or_oversized_modifier() {
    assert_eq!(parse_command(b"2d6+"), Err(ParseError::BadModifier));
    assert_eq!(parse_command(b"2d6-"), Err(ParseError::BadModifier));
    assert_eq!(parse_command(b"2d6+2147483648"), Err(ParseError::BadModifier));
    assert_eq!(parse_command(b"2d6+2147483647"), roll(2, 6, 2147483647));
    assert_eq!(parse_command(b"2d6-2147483647"), roll(2, 6, -2147483647));
}

#[test]
fn rejects_leftover_bytes() {
    assert_eq!(parse_command(b"2d6+1x"), Err(ParseError::TrailingInput));
    assert_eq!(parse_command(b"2d6^1"), Err(ParseError::TrailingInput));
    assert_eq!(parse_command(b"2d8 +5"), Err(ParseError::TrailingInput));
}

#[test]
fn parsing_is_idempotent() {
    let first = parse_command(b"4d6-1");
    let second = parse_command(b"4d6-1");
    assert_eq!(first, second);
    let first = parse_command(b"banana");
    let second = parse_command(b"banana");
    assert_eq!(first, second);
}
