use blockchain::cli::{parse_amount, Cli};
use blockchain::error::Error;

#[test]
fn cli_new_succeeds() {
    assert!(Cli::new().is_ok());
}

#[test]
fn parse_amount_accepts_signed_decimals() {
    assert_eq!(parse_amount("10"), Ok(10));
    assert_eq!(parse_amount("+7"), Ok(7));
    assert_eq!(parse_amount("-5"), Ok(-5));
    assert_eq!(parse_amount("007"), Ok(7));
    assert_eq!(parse_amount("2147483647"), Ok(i32::MAX));
    assert_eq!(parse_amount("-2147483648"), Ok(i32::MIN));
}

#[test]
fn parse_amount_rejects_the_rest() {
    for s in ["", "-", "+", "2147483648", "-2147483649", "1a", " 1", "1 ", "1.5", "--1"] {
        assert_eq!(parse_amount(s), Err(Error::InvalidAmount), "{:?}", s);
    }
}
