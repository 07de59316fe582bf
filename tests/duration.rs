use structs::duration::{parse, Duration, Error};

#[test]
fn test_parse_duration() {
    assert_eq!(Ok(Duration::from_secs(1)), parse("1s"));
    assert_eq!(Ok(Duration::from_secs(3600)), parse("1h"));
    assert_eq!(Ok(Duration::from_secs(86400)), parse("1d"));
    assert_eq!(Ok(Duration::from_secs(3660)), parse("1h1m"));
    assert_eq!(Ok(Duration::from_secs(7200)), parse("1h1h"));
    assert_eq!(Ok(Duration::from_secs(3660)), parse(" 1h1m "));
    assert_eq!(Err(Error::ParseDurationError), parse(""));
    assert_eq!(Err(Error::ParseDurationError), parse("   "));
    assert_eq!(Err(Error::ParseSyntaxError), parse("1"));
    assert_eq!(Err(Error::ParseSyntaxError), parse("s"));
}

#[test]
fn duration_terms() {
    assert_eq!(Ok(Duration::from_secs(90)), parse("1m30s"));
    assert_eq!(Ok(Duration::from_secs(0)), parse("0s"));
    assert_eq!(Ok(Duration::from_secs(9999999999)), parse("9999999999s"));
    assert_eq!(Err(Error::ParseSyntaxError), parse("12345678901s"));
    assert_eq!(Err(Error::ParseSyntaxError), parse("1h 1m"));
    assert_eq!(Err(Error::ParseSyntaxError), parse("1x"));
    assert_eq!(Err(Error::ParseSyntaxError), parse("1hm"));
    assert_eq!(60, parse("1m").unwrap().duration());
    assert_eq!("Syntax error", Error::ParseSyntaxError.message());
}
