use hexdump::parse_args;
use hexdump::parse_len;
use hexdump::ArgError;

#[test]
fn test_parse_args_file_only() {
    let args = vec!["program".to_string(), "file.txt".to_string()];
    assert_eq!(parse_args(&args), Ok(("file.txt", None)));
}

#[test]
fn test_parse_args_with_length() {
    let args = vec![
        "program".to_string(),
        "-n".to_string(),
        "100".to_string(),
        "file.txt".to_string(),
    ];
    assert_eq!(parse_args(&args), Ok(("file.txt", Some(100))));
}

#[test]
fn test_parse_args_invalid_usage() {
    let args = vec![
        "program".to_string(),
        "-n".to_string(),
        "file.txt".to_string(),
    ];
    assert_eq!(parse_args(&args), Err(ArgError::InvalidUsage));
}

#[test]
fn test_parse_args_invalid_length() {
    let args = vec![
        "program".to_string(),
        "-n".to_string(),
        "not_a_number".to_string(),
        "file.txt".to_string(),
    ];
    assert_eq!(parse_args(&args), Err(ArgError::InvalidLength));
}

#[test]
fn test_parse_args_no_arguments() {
    let args = vec!["program".to_string()];
    assert_eq!(parse_args(&args), Err(ArgError::InvalidUsage));
}

#[test]
fn test_parse_args_too_many() {
    let args = vec![
        "program".to_string(),
        "-n".to_string(),
        "5".to_string(),
        "a.txt".to_string(),
        "b.txt".to_string(),
    ];
    assert_eq!(parse_args(&args), Err(ArgError::InvalidUsage));
}

#[test]
fn test_parse_args_wrong_flag() {
    let args = vec![
        "program".to_string(),
        "-x".to_string(),
        "5".to_string(),
        "a.txt".to_string(),
    ];
    assert_eq!(parse_args(&args), Err(ArgError::InvalidUsage));
}

#[test]
fn test_parse_args_zero_length() {
    let args = vec![
        "program".to_string(),
        "-n".to_string(),
        "0".to_string(),
        "file.txt".to_string(),
    ];
    assert_eq!(parse_args(&args), Ok(("file.txt", Some(0))));
}

#[test]
fn test_parse_args_negative_length() {
    let args = vec![
        "program".to_string(),
        "-n".to_string(),
        "-5".to_string(),
        "file.txt".to_string(),
    ];
    assert_eq!(parse_args(&args), Err(ArgError::InvalidLength));
}

#[test]
fn test_parse_len_plain() {
    assert_eq!(parse_len("100"), Some(100));
    assert_eq!(parse_len("0"), Some(0));
}

#[test]
fn test_parse_len_plus_sign() {
    assert_eq!(parse_len("+7"), Some(7));
    assert_eq!(parse_len("+"), None);
    assert_eq!(parse_len("++1"), None);
}

#[test]
fn test_parse_len_rejects_garbage() {
    assert_eq!(parse_len(""), None);
    assert_eq!(parse_len("12a"), None);
    assert_eq!(parse_len("-5"), None);
    assert_eq!(parse_len("1 2"), None);
}

#[test]
fn test_parse_len_bounds() {
    assert_eq!(parse_len(&usize::MAX.to_string()), Some(usize::MAX));
    assert_eq!(parse_len("18446744073709551616"), None);
    assert_eq!(parse_len("99999999999999999999999999"), None);
}
