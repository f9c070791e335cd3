use companion_memory::decimal::{Decimal, DecimalError};

#[test]
fn parse_reads_whole_numbers() {
    assert_eq!(Decimal::parse("4"), Ok(Decimal { micros: 4_000_000 }));
    assert_eq!(Decimal::parse("100"), Ok(Decimal { micros: 100_000_000 }));
    assert_eq!(Decimal::parse("0"), Ok(Decimal { micros: 0 }));
}

#[test]
fn parse_reads_fractions_to_six_places() {
    assert_eq!(Decimal::parse("87.5"), Ok(Decimal { micros: 87_500_000 }));
    assert_eq!(Decimal::parse("0.000001"), Ok(Decimal { micros: 1 }));
    assert_eq!(Decimal::parse("0.1234567"), Ok(Decimal { micros: 123_456 }));
    assert_eq!(Decimal::parse("1.5"), Ok(Decimal { micros: 1_500_000 }));
}

#[test]
fn parse_reads_signs() {
    assert_eq!(Decimal::parse("-0.1"), Ok(Decimal { micros: -100_000 }));
    assert_eq!(Decimal::parse("+1.1"), Ok(Decimal { micros: 1_100_000 }));
    assert_eq!(Decimal::parse("-0"), Ok(Decimal { micros: 0 }));
}

#[test]
fn parse_refuses_what_is_no_literal() {
    assert_eq!(Decimal::parse(""), Err(DecimalError::Malformed));
    assert_eq!(Decimal::parse("-"), Err(DecimalError::Malformed));
    assert_eq!(Decimal::parse("abc"), Err(DecimalError::Malformed));
    assert_eq!(Decimal::parse(".5"), Err(DecimalError::Malformed));
    assert_eq!(Decimal::parse("5."), Err(DecimalError::Malformed));
    assert_eq!(Decimal::parse("1.2.3"), Err(DecimalError::Malformed));
    assert_eq!(Decimal::parse(" 4"), Err(DecimalError::Malformed));
    assert_eq!(Decimal::parse("4e1"), Err(DecimalError::Malformed));
    assert_eq!(Decimal::parse("99999999999999999999x"), Err(DecimalError::Malformed));
}

#[test]
fn parse_refuses_a_whole_part_beyond_the_limit() {
    assert_eq!(Decimal::parse("9000000000000"), Ok(Decimal { micros: 9_000_000_000_000_000_000 }));
    assert_eq!(Decimal::parse("9000000000001"), Err(DecimalError::TooLarge));
    assert_eq!(Decimal::parse("99999999999999999999999999"), Err(DecimalError::TooLarge));
}

#[test]
fn portion_rounds_down() {
    assert_eq!(Decimal { micros: 500_000 }.portion_of(2), 1);
    assert_eq!(Decimal { micros: 500_000 }.portion_of(3), 1);
    assert_eq!(Decimal { micros: 330_000 }.portion_of(3), 0);
    assert_eq!(Decimal { micros: 999_999 }.portion_of(10), 9);
    assert_eq!(Decimal::zero().portion_of(7), 0);
    assert_eq!(Decimal::one().portion_of(7), 7);
    assert_eq!(Decimal::one().portion_of(usize::MAX), usize::MAX);
}
