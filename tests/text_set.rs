use backrest::text_set::TextSet;

#[test]
fn text_set_membership() {
    let mut s = TextSet::new();
    assert!(!s.contains("b"));
    assert!(s.insert("b"));
    assert!(s.insert("a"));
    assert!(s.insert("c"));
    assert!(s.insert("é"));
    assert!(s.insert(""));
    assert!(s.insert("ab"));
    assert!(!s.insert("b"));
    assert!(!s.insert("é"));
    assert!(!s.insert(""));
    for t in ["a", "ab", "b", "c", "é", ""] {
        assert!(s.contains(t));
    }
    assert!(!s.contains("abc"));
    assert!(!s.contains("e"));
}

#[test]
fn text_set_many_paths() {
    let mut s = TextSet::new();
    for i in (0..200).rev() {
        assert!(s.insert(&format!("/home/u/f{}", i)));
    }
    for i in 0..200 {
        assert!(s.contains(&format!("/home/u/f{}", i)));
        assert!(!s.insert(&format!("/home/u/f{}", i)));
    }
    assert!(!s.contains("/home/u/f200"));
}
