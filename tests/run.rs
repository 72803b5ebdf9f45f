use backrest::run::{EntryAction, RunState, WalkEntry};

fn file(p: &str) -> WalkEntry {
    WalkEntry::File { path: Some(p.to_string()) }
}

fn dir(p: &str) -> WalkEntry {
    WalkEntry::Dir { path: Some(p.to_string()) }
}

fn appended(a: &EntryAction) -> Option<(String, String)> {
    match a {
        EntryAction::AppendDir { source, name } => Some((source.clone(), name.clone())),
        EntryAction::AppendFile { source, name } => Some((source.clone(), name.clone())),
        _ => None,
    }
}

#[test]
fn second_pattern_with_same_name_is_skipped() {
    let mut run = RunState::new();
    let first = run.plan_pattern("/home/u/docs", "/home/u", "/b").unwrap();
    assert_eq!(first.id, "docs");
    assert_eq!(first.pattern, "/home/u/docs");
    assert_eq!(first.archive_path, "/b/docs.tar.age");
    assert!(run.plan_pattern("/home/u/docs/", "/home/u", "/b").is_none());
}

#[test]
fn distinct_patterns_get_distinct_archives() {
    let mut run = RunState::new();
    let a = run.plan_pattern("/home/u/docs", "/home/u", "/home/u").unwrap();
    let b = run.plan_pattern("/home/u/music", "/home/u", "/home/u").unwrap();
    assert_ne!(a.id, b.id);
    assert_eq!(a.archive_path, "/home/u/docs.tar.age");
    assert_eq!(b.archive_path, "/home/u/music.tar.age");
}

#[test]
fn colliding_names_of_distinct_patterns() {
    let mut run = RunState::new();
    assert!(run.plan_pattern("/home/u/a.b", "/home/u", "/b").is_some());
    assert!(run.plan_pattern("/home/u/a/b", "/home/u", "/b").is_none());
}

#[test]
fn mark_pattern_and_mark_file() {
    let mut run = RunState::new();
    assert!(run.mark_pattern("docs"));
    assert!(!run.mark_pattern("docs"));
    assert!(run.mark_file("docs"));
    assert!(!run.mark_file("docs"));
    assert!(run.mark_file("/x"));
}

#[test]
fn symlinks_are_never_appended() {
    let mut run = RunState::new();
    let a = run.plan_entry(WalkEntry::Symlink { path: Some("/home/u/l".to_string()) }, "/home/u");
    assert!(matches!(a, EntryAction::WarnSymlink));
    let b = run.plan_entry(WalkEntry::Symlink { path: None }, "/home/u");
    assert!(matches!(b, EntryAction::WarnSymlink));
    assert!(appended(&run.plan_entry(file("/home/u/l"), "/home/u")).is_some());
}

#[test]
fn failed_unknown_and_bad_entries_are_left_out() {
    let mut run = RunState::new();
    assert!(matches!(run.plan_entry(WalkEntry::WalkError, "/h"), EntryAction::WarnWalkError));
    assert!(matches!(run.plan_entry(WalkEntry::UnknownType, "/h"), EntryAction::Skip));
    assert!(matches!(run.plan_entry(WalkEntry::File { path: None }, "/h"), EntryAction::WarnBadPath));
    assert!(matches!(run.plan_entry(WalkEntry::Dir { path: None }, "/h"), EntryAction::WarnBadPath));
}

#[test]
fn dir_and_file_entries_are_appended_under_their_names() {
    let mut run = RunState::new();
    let d = run.plan_entry(dir("/home/u/docs"), "/home/u");
    assert!(matches!(&d, EntryAction::AppendDir { source, name } if source == "/home/u/docs" && name == "docs"));
    let f = run.plan_entry(file("/home/u/docs/a.txt"), "/home/u");
    assert!(matches!(&f, EntryAction::AppendFile { source, name } if source == "/home/u/docs/a.txt" && name == "docs/a.txt"));
}

#[test]
fn overlapping_roots_archive_each_file_once() {
    let mut run = RunState::new();
    let home = "/home/u";
    let mut archives: Vec<Vec<String>> = Vec::new();
    let walks = vec![
        ("/home/u/docs", vec![dir("/home/u/docs"), dir("/home/u/docs/sub"), file("/home/u/docs/sub/a"), file("/home/u/docs/b")]),
        ("/home/u/docs/sub", vec![dir("/home/u/docs/sub"), file("/home/u/docs/sub/a"), file("/home/u/docs/sub/c")]),
    ];
    for (pattern, entries) in walks {
        assert!(run.plan_pattern(pattern, home, home).is_some());
        let mut names = Vec::new();
        for e in entries {
            if let Some((source, _)) = appended(&run.plan_entry(e, home)) {
                names.push(source);
            }
        }
        archives.push(names);
    }
    assert_eq!(archives[0], vec!["/home/u/docs", "/home/u/docs/sub", "/home/u/docs/sub/a", "/home/u/docs/b"]);
    assert_eq!(archives[1], vec!["/home/u/docs/sub/c"]);
}
