use backrest::naming::{get_archive_name, in_archive_path, same_text, starts_with, trim_pattern};

#[test]
fn pattern_under_home_names_its_relative_path() {
    assert_eq!(get_archive_name("/home/u/docs", "/home/u"), "docs");
}

#[test]
fn trailing_separator_gives_same_name() {
    let trimmed = trim_pattern("/home/u/docs/");
    assert_eq!(trimmed, "/home/u/docs");
    assert_eq!(get_archive_name(trimmed, "/home/u"), "docs");
}

#[test]
fn archive_name_is_repeatable() {
    let a = get_archive_name("/home/u/my docs/*.txt", "/home/u");
    let b = get_archive_name("/home/u/my docs/*.txt", "/home/u");
    assert_eq!(a, b);
    assert_eq!(a, "my_docs___txt");
}

#[test]
fn pattern_outside_home_keeps_its_path() {
    assert_eq!(get_archive_name("/etc/nginx", "/home/u"), "etc_nginx");
}

#[test]
fn home_prefix_is_literal() {
    assert_eq!(get_archive_name("/home/user2/x", "/home/u"), "ser2_x");
}

#[test]
fn only_one_leading_separator_is_dropped() {
    assert_eq!(get_archive_name("//x", ""), "_x");
}

#[test]
fn relative_pattern_name() {
    assert_eq!(get_archive_name("a.b/c d", "/home/u"), "a_b_c_d");
}

#[test]
fn empty_pattern_name() {
    assert_eq!(get_archive_name("", "/home/u"), "");
}

#[test]
fn trim_pattern_drops_every_trailing_separator() {
    assert_eq!(trim_pattern("a///"), "a");
    assert_eq!(trim_pattern("/"), "");
    assert_eq!(trim_pattern("a/b"), "a/b");
}

#[test]
fn in_archive_path_is_home_relative() {
    assert_eq!(in_archive_path("/home/u/docs/a.txt", "/home/u"), "docs/a.txt");
}

#[test]
fn in_archive_path_outside_home() {
    assert_eq!(in_archive_path("/etc/hosts", "/home/u"), "etc/hosts");
}

#[test]
fn in_archive_path_of_home_itself_is_root() {
    assert_eq!(in_archive_path("/home/u", "/home/u"), ".");
    assert_eq!(in_archive_path("/", "/home/u"), ".");
}

#[test]
fn prefix_and_equality_checks() {
    assert!(starts_with("/home/u/x", "/home/u"));
    assert!(!starts_with("/home", "/home/u"));
    assert!(starts_with("abc", ""));
    assert!(same_text("é/x", "é/x"));
    assert!(!same_text("ab", "abc"));
}
