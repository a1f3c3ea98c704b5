use crypta_rs::utils::cli::cli_validator_usize;

#[test]
fn test_cli_validator_usize_1() {
    match cli_validator_usize("".to_string()) {
        Err(e) => assert_eq!(&e, "cannot parse integer from empty string"),
        _ => assert!(false),
    }
}

#[test]
fn test_cli_validator_usize_2() {
    match cli_validator_usize("aa".to_string()) {
        Err(e) => assert_eq!(&e, "invalid digit found in string"),
        _ => assert!(false),
    }
}

#[test]
fn test_cli_validator_usize_3() {
    match cli_validator_usize("-42".to_string()) {
        Err(e) => assert_eq!(e, "invalid digit found in string"),
        _ => assert!(false),
    }
}

#[test]
fn test_cli_validator_usize_4() {
    match cli_validator_usize("42".to_string()) {
        Ok(()) => assert!(true),
        _ => assert!(false),
    }
}

#[test]
fn cli_validator_accepts_plus_sign_and_leading_zeros() {
    assert_eq!(cli_validator_usize("+7".to_string()), Ok(()));
    assert_eq!(cli_validator_usize("007".to_string()), Ok(()));
}

#[test]
fn cli_validator_rejects_sign_alone_whitespace_and_overflow() {
    assert_eq!(
        cli_validator_usize("+".to_string()),
        Err("invalid digit found in string".to_string())
    );
    assert_eq!(
        cli_validator_usize(" 1".to_string()),
        Err("invalid digit found in string".to_string())
    );
    assert_eq!(
        cli_validator_usize("99999999999999999999999".to_string()),
        Err("number too large to fit in target type".to_string())
    );
}
