use repo2text::scan::{dotted_extension, is_hidden, matches_extensions};
use repo2text::walk::{scan_walk, EntryKind, Scanner, Verdict, WalkEntry};

fn entry(depth: usize, name: &str, kind: EntryKind) -> WalkEntry {
    WalkEntry { depth, name: Some(name.to_string()), kind }
}

fn strings(v: &[&str]) -> Vec<String> {
    v.iter().map(|s| s.to_string()).collect()
}

/// root/{a.rs, .git/config, notes.md}, as a walk that visits everything.
fn sample_walk() -> Vec<WalkEntry> {
    vec![
        entry(0, "root", EntryKind::Dir),
        entry(1, "a.rs", EntryKind::File),
        entry(1, ".git", EntryKind::Dir),
        entry(2, "config", EntryKind::File),
        entry(1, "notes.md", EntryKind::File),
    ]
}

#[test]
fn hidden_names() {
    assert!(is_hidden(Some(".git")));
    assert!(is_hidden(Some(".")));
    assert!(!is_hidden(Some("a.rs")));
    assert!(!is_hidden(Some("")));
    assert!(!is_hidden(None));
}

#[test]
fn extensions_follow_path_rules() {
    assert_eq!(dotted_extension("a.rs"), Some(".rs"));
    assert_eq!(dotted_extension("a.tar.gz"), Some(".gz"));
    assert_eq!(dotted_extension("a."), Some("."));
    assert_eq!(dotted_extension("..rs"), Some(".rs"));
    assert_eq!(dotted_extension(".bashrc"), Some(".bashrc"));
    assert_eq!(dotted_extension("Makefile"), None);
    assert_eq!(dotted_extension(".."), Some("."));
    assert_eq!(dotted_extension(".rs"), Some(".rs"));
    assert_eq!(dotted_extension(""), None);
}

#[test]
fn empty_filter_matches_everything() {
    let none: Vec<String> = Vec::new();
    assert!(matches_extensions(Some("Makefile"), &none));
    assert!(matches_extensions(Some("a.rs"), &none));
    assert!(matches_extensions(None, &none));
}

#[test]
fn filter_matches_by_extension() {
    let exts = strings(&[".rs", ".md"]);
    assert!(matches_extensions(Some("a.rs"), &exts));
    assert!(matches_extensions(Some("notes.md"), &exts));
    assert!(!matches_extensions(Some("a.txt"), &exts));
    assert!(!matches_extensions(Some("Makefile"), &exts));
    assert!(matches_extensions(Some(".rs"), &exts));
    assert!(!matches_extensions(Some("a.RS"), &exts));
    assert!(!matches_extensions(None, &exts));
}

#[test]
fn filter_with_hidden_flag_keeps_only_rust_file() {
    let exts = strings(&[".rs"]);
    assert_eq!(scan_walk(&sample_walk(), &exts, true), vec![1]);
}

#[test]
fn no_filter_no_hidden_flag_keeps_all_files() {
    let none: Vec<String> = Vec::new();
    assert_eq!(scan_walk(&sample_walk(), &none, false), vec![1, 3, 4]);
}

#[test]
fn no_filter_with_hidden_flag_skips_hidden_subtree() {
    let none: Vec<String> = Vec::new();
    assert_eq!(scan_walk(&sample_walk(), &none, true), vec![1, 4]);
}

#[test]
fn filter_of_two_extensions() {
    let walk = vec![
        entry(0, "r", EntryKind::Dir),
        entry(1, "x.a", EntryKind::File),
        entry(1, "sub", EntryKind::Dir),
        entry(2, "y.b", EntryKind::File),
        entry(2, "z.c", EntryKind::File),
        entry(1, "w", EntryKind::File),
        entry(1, "v.a", EntryKind::Dir),
    ];
    let exts = strings(&[".a", ".b"]);
    assert_eq!(scan_walk(&walk, &exts, false), vec![1, 3]);
}

#[test]
fn only_regular_files_are_listed() {
    let walk = vec![
        entry(0, "r", EntryKind::Dir),
        entry(1, "link", EntryKind::Other),
        entry(1, "d", EntryKind::Dir),
    ];
    let none: Vec<String> = Vec::new();
    assert_eq!(scan_walk(&walk, &none, false), Vec::<usize>::new());
}

#[test]
fn hidden_file_is_skipped_and_kept() {
    let walk = vec![entry(0, "r", EntryKind::Dir), entry(1, ".env", EntryKind::File)];
    let none: Vec<String> = Vec::new();
    assert_eq!(scan_walk(&walk, &none, true), Vec::<usize>::new());
    assert_eq!(scan_walk(&walk, &none, false), vec![1]);
}

#[test]
fn dot_root_is_hidden() {
    let walk = vec![entry(0, ".", EntryKind::Dir), entry(1, "a.rs", EntryKind::File)];
    let none: Vec<String> = Vec::new();
    assert_eq!(scan_walk(&walk, &none, true), Vec::<usize>::new());
    assert_eq!(scan_walk(&walk, &none, false), vec![1]);
}

#[test]
fn non_text_name_is_not_hidden() {
    let walk = vec![
        entry(0, "r", EntryKind::Dir),
        WalkEntry { depth: 1, name: None, kind: EntryKind::File },
    ];
    let none: Vec<String> = Vec::new();
    let exts = strings(&[".rs"]);
    assert_eq!(scan_walk(&walk, &none, true), vec![1]);
    assert_eq!(scan_walk(&walk, &exts, true), Vec::<usize>::new());
}

#[test]
fn scanner_steps_through_pruned_subtree() {
    let mut s = Scanner::new(&[], true);
    assert_eq!(s.step(&entry(0, "r", EntryKind::Dir)), Verdict::Pass);
    assert_eq!(s.step(&entry(1, ".git", EntryKind::Dir)), Verdict::Exclude);
    assert_eq!(s.step(&entry(2, "objects", EntryKind::Dir)), Verdict::Exclude);
    assert_eq!(s.step(&entry(3, "pack", EntryKind::File)), Verdict::Exclude);
    assert_eq!(s.step(&entry(2, "HEAD", EntryKind::File)), Verdict::Exclude);
    assert_eq!(s.step(&entry(1, "src", EntryKind::Dir)), Verdict::Pass);
    assert_eq!(s.step(&entry(2, "lib.rs", EntryKind::File)), Verdict::Collect);
}

#[test]
fn scanner_without_hidden_flag_descends_everywhere() {
    let exts = strings(&[".rs"]);
    let mut s = Scanner::new(&exts, false);
    assert_eq!(s.step(&entry(0, "r", EntryKind::Dir)), Verdict::Pass);
    assert_eq!(s.step(&entry(1, ".cargo", EntryKind::Dir)), Verdict::Pass);
    assert_eq!(s.step(&entry(2, "build.rs", EntryKind::File)), Verdict::Collect);
    assert_eq!(s.step(&entry(2, "config", EntryKind::File)), Verdict::Pass);
}

#[test]
fn scanning_twice_gives_same_list() {
    let none: Vec<String> = Vec::new();
    let first = scan_walk(&sample_walk(), &none, false);
    let second = scan_walk(&sample_walk(), &none, false);
    assert_eq!(first, second);
}

#[test]
fn name_made_of_period_and_extension_is_listed() {
    let walk = vec![entry(0, "r", EntryKind::Dir), entry(1, ".rs", EntryKind::File)];
    let exts = strings(&[".rs"]);
    assert_eq!(scan_walk(&walk, &exts, false), vec![1]);
    assert_eq!(scan_walk(&walk, &exts, true), Vec::<usize>::new());
}
