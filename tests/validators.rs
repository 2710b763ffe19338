use firefly_types::{validate_id, validate_name, validate_path_part, ValidationError};

#[test]
fn test_valid_id() {
    assert!(validate_id("app").is_ok());
    assert!(validate_id("some-app").is_ok());
    assert!(validate_id("some-app-13").is_ok());
    assert!(validate_id("13app").is_ok());
    assert!(validate_id("a").is_ok());
    assert!(validate_id("a-bit-long-name").is_ok());
}

#[test]
fn test_invalid_id() {
    assert!(validate_id("app.name").is_err());
    assert!(validate_id("app--name").is_err());
    assert!(validate_id("-appname").is_err());
    assert!(validate_id("-app-name").is_err());
    assert!(validate_id("-appname").is_err());
    assert!(validate_id("app-name-").is_err());
    assert!(validate_id("appname-").is_err());
    assert!(validate_id("-appname-").is_err());
    assert!(validate_id("app name").is_err());
    assert!(validate_id("appname ").is_err());
    assert!(validate_id(" appname").is_err());
    assert!(validate_id("App").is_err());
    assert!(validate_id("AppName").is_err());
    assert!(validate_id("APPNAME").is_err());
    assert!(validate_id("").is_err());
    assert!(validate_id(" ").is_err());
    assert!(validate_id("-").is_err());
    assert!(validate_id("--").is_err());
    assert!(validate_id("?hello").is_err());
    assert!(validate_id("a-very-long-app-name").is_err());
}

#[test]
fn test_valid_name() {
    assert!(validate_name("app").is_ok());
    assert!(validate_name("a").is_ok());
    assert!(validate_name("some-app").is_ok());
    assert!(validate_name("App").is_ok());
    assert!(validate_name("Some app").is_ok());
    assert!(validate_name("Some App").is_ok());
    assert!(validate_name("SOME APP").is_ok());
    assert!(validate_name("Hello").is_ok());
    assert!(validate_name("Hello?").is_ok());
    assert!(validate_name("Yes? Yes!").is_ok());
}

#[test]
fn test_invalid_name() {
    assert!(validate_name(" ").is_err());
    assert!(validate_name("  ").is_err());
    assert!(validate_name("").is_err());
    assert!(validate_name(" abc").is_err());
    assert!(validate_name("abc ").is_err());
    assert!(validate_name("ab\tcd").is_err());
    assert!(validate_name("тест").is_err());
    assert!(validate_name("?hello").is_err());
}

#[test]
fn test_valid_path_part() {
    assert!(validate_path_part("app").is_ok());
    assert!(validate_path_part("a").is_ok());
    assert!(validate_path_part("some-app").is_ok());
    assert!(validate_path_part("App").is_ok());
    assert!(validate_path_part("file.wasm").is_ok());
    assert!(validate_path_part("file_name.wasm").is_ok());
    assert!(validate_path_part("FileName.wasm").is_ok());
}

#[test]
fn test_invalid_path_part() {
    assert!(validate_path_part(".gitignore").is_err());
    assert!(validate_path_part("..").is_err());
    assert!(validate_path_part("/").is_err());
    assert!(validate_path_part("./").is_err());
    assert!(validate_path_part("???").is_err());
    assert!(validate_path_part("file/../root").is_err());
    assert!(validate_path_part("file name").is_err());
    assert!(validate_path_part(" file").is_err());
    assert!(validate_path_part("file ").is_err());
    assert!(validate_path_part("").is_err());
    assert!(validate_path_part(" ").is_err());
    assert!(validate_path_part("bin").is_err());
    assert!(validate_path_part("meta").is_err());
}

#[test]
fn id_errors_name_the_rule() {
    assert_eq!(validate_id("abcdefghijklmnopq"), Err(ValidationError::TooLong));
    assert_eq!(validate_id("abcdefghijklmnop"), Ok(()));
    assert_eq!(validate_id("-app"), Err(ValidationError::TrailingMinus));
    assert_eq!(validate_id("app-"), Err(ValidationError::TrailingMinus));
    assert_eq!(validate_id("app--name"), Err(ValidationError::DoubleMinus));
    assert_eq!(validate_id(""), Err(ValidationError::Empty));
    assert_eq!(validate_id("App"), Err(ValidationError::InvalidChar(b'A')));
    assert_eq!(validate_id("app.name"), Err(ValidationError::InvalidChar(b'.')));
    assert_eq!(validate_id("a/b"), Err(ValidationError::InvalidChar(b'/')));
}

#[test]
fn name_errors_name_the_rule() {
    let long = "a".repeat(41);
    assert_eq!(validate_name(&long), Err(ValidationError::TooLong));
    assert_eq!(validate_name(&"a".repeat(40)), Ok(()));
    assert_eq!(validate_name("abc "), Err(ValidationError::TrailingSpace));
    assert_eq!(validate_name(""), Err(ValidationError::Empty));
    assert_eq!(validate_name(" abc"), Err(ValidationError::InvalidFirstChar(b' ')));
    assert_eq!(validate_name("1abc"), Err(ValidationError::InvalidFirstChar(b'1')));
    assert_eq!(validate_name("ab\tcd"), Err(ValidationError::InvalidChar(b'\t')));
    assert_eq!(validate_name("aтест"), Err(ValidationError::InvalidChar(0xd1)));
}

#[test]
fn path_errors_name_the_rule() {
    assert_eq!(validate_path_part(".gitignore"), Err(ValidationError::TrailingDot));
    assert_eq!(validate_path_part(".."), Err(ValidationError::TrailingDot));
    assert_eq!(validate_path_part(""), Err(ValidationError::Empty));
    assert_eq!(validate_path_part("meta"), Err(ValidationError::Reserved));
    assert_eq!(validate_path_part("bin"), Err(ValidationError::Reserved));
    assert_eq!(validate_path_part("metadata"), Ok(()));
    assert_eq!(validate_path_part("file/../root"), Err(ValidationError::InvalidChar(b'/')));
}
