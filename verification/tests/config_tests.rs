use hay::config::{seq_in_range, SeqLenError};

#[test]
fn accepts_the_supported_range() {
    assert_eq!(seq_in_range("1"), Ok(1));
    assert_eq!(seq_in_range("5"), Ok(5));
    assert_eq!(seq_in_range("10"), Ok(10));
    assert_eq!(seq_in_range("+7"), Ok(7));
    assert_eq!(seq_in_range("007"), Ok(7));
}

#[test]
fn rejects_zero() {
    assert_eq!(seq_in_range("0"), Err(SeqLenError::Zero));
    assert_eq!(seq_in_range("+0"), Err(SeqLenError::Zero));
    assert_eq!(seq_in_range("000"), Err(SeqLenError::Zero));
}

#[test]
fn rejects_values_above_the_range() {
    assert_eq!(seq_in_range("11"), Err(SeqLenError::OutOfRange));
    assert_eq!(seq_in_range("255"), Err(SeqLenError::OutOfRange));
}

#[test]
fn rejects_what_is_no_number() {
    assert_eq!(seq_in_range(""), Err(SeqLenError::NotANumber));
    assert_eq!(seq_in_range("+"), Err(SeqLenError::NotANumber));
    assert_eq!(seq_in_range("abc"), Err(SeqLenError::NotANumber));
    assert_eq!(seq_in_range("2x"), Err(SeqLenError::NotANumber));
    assert_eq!(seq_in_range("-3"), Err(SeqLenError::NotANumber));
    assert_eq!(seq_in_range("256"), Err(SeqLenError::NotANumber));
    assert_eq!(seq_in_range("99999"), Err(SeqLenError::NotANumber));
}
