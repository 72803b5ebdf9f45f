use backrest::setup::{ensure_backup_dir, passphrase_confirmed, resolve_home, HomeDir, SetupError};

#[test]
fn platform_home_wins() {
    let r = resolve_home(HomeDir::Found("/home/u".to_string()), Some("/other".to_string()));
    assert_eq!(r, Ok("/home/u".to_string()));
}

#[test]
fn home_variable_is_the_fallback() {
    assert_eq!(resolve_home(HomeDir::Missing, Some("/h".to_string())), Ok("/h".to_string()));
    assert_eq!(resolve_home(HomeDir::Missing, None), Err(SetupError::NoHome));
}

#[test]
fn non_unicode_home_is_an_error() {
    let r = resolve_home(HomeDir::NotUnicode, Some("/h".to_string()));
    assert_eq!(r, Err(SetupError::HomeNotUnicode));
    assert!(!SetupError::HomeNotUnicode.message().is_empty());
    assert_ne!(SetupError::HomeNotUnicode.message(), SetupError::NoHome.message());
}

#[test]
fn backup_dir_defaults_to_home() {
    assert_eq!(ensure_backup_dir(Some("/b"), "/home/u"), "/b");
    assert_eq!(ensure_backup_dir(None, "/home/u"), "/home/u");
}

#[test]
fn passphrase_must_be_typed_twice_alike() {
    assert!(passphrase_confirmed("s3cret", "s3cret"));
    assert!(!passphrase_confirmed("s3cret", "s3cre"));
    assert!(!passphrase_confirmed("a", "b"));
}
