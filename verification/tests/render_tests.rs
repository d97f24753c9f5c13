use rr::render::{render_listing, sort_children, ChildEntry};
use rr::walk::{walk_step, EntryInfo, EntryKind};

fn child(name: &str, size: u64) -> ChildEntry {
    ChildEntry { name: name.to_string(), size }
}

#[test]
fn directories_before_files_with_connectors() {
    // a/ holds one 100-byte file; b.txt is a 50-byte file
    let dirs = vec![child("a", 100)];
    let files = vec![child("b.txt", 50)];
    let lines = render_listing(dirs, files);
    assert_eq!(lines.len(), 2);
    // the directory group precedes the file group, and the final entry of
    // each group takes the terminal connector
    assert_eq!(lines[0], "\u{1b}[39m└── \u{1b}[33ma\u{1b}[0m \u{1b}[36m100.0B");
    assert_eq!(lines[1], "\u{1b}[39m└ \u{1b}[38;5;208mb.txt\u{1b}[0m \u{1b}[36m50.0B");
}

#[test]
fn last_directory_terminal() {
    let dirs = vec![child("big", 2048), child("small", 10)];
    let lines = render_listing(dirs, vec![]);
    assert_eq!(lines.len(), 2);
    assert_eq!(lines[0], "\u{1b}[39m├── \u{1b}[33mbig\u{1b}[0m \u{1b}[36m2.0KB");
    assert_eq!(lines[1], "\u{1b}[39m└── \u{1b}[33msmall\u{1b}[0m \u{1b}[36m10.0B");
}

#[test]
fn last_directory_terminal_even_when_files_follow() {
    let dirs = vec![child("d1", 9), child("d2", 1)];
    let files = vec![child("f", 5)];
    let lines = render_listing(dirs, files);
    assert_eq!(lines.len(), 3);
    assert_eq!(lines[0], "\u{1b}[39m├── \u{1b}[33md1\u{1b}[0m \u{1b}[36m9.0B");
    assert_eq!(lines[1], "\u{1b}[39m└── \u{1b}[33md2\u{1b}[0m \u{1b}[36m1.0B");
    assert_eq!(lines[2], "\u{1b}[39m└ \u{1b}[38;5;208mf\u{1b}[0m \u{1b}[36m5.0B");
}

#[test]
fn groups_sort_descending_by_size() {
    let dirs = vec![child("d1", 5), child("d2", 500), child("d3", 50)];
    let files = vec![child("f1", 1), child("f2", 3), child("f3", 2)];
    let lines = render_listing(dirs, files);
    let names: Vec<&str> = vec!["d2", "d3", "d1", "f2", "f3", "f1"];
    for (line, name) in lines.iter().zip(names.iter()) {
        assert!(line.contains(name), "{} should name {}", line, name);
    }
}

#[test]
fn sort_is_stable_on_ties() {
    let v = vec![child("first", 7), child("second", 7), child("third", 9)];
    let sorted = sort_children(v);
    assert_eq!(sorted[0].name, "third");
    assert_eq!(sorted[1].name, "first");
    assert_eq!(sorted[2].name, "second");
}

#[test]
fn empty_listing_renders_nothing() {
    let lines = render_listing(vec![], vec![]);
    assert!(lines.is_empty());
}

fn entry(kind: EntryKind, size: u64, path: &str) -> EntryInfo {
    EntryInfo { kind, size, path: path.to_string() }
}

#[test]
fn walk_step_sums_files_and_lists_subdirectories() {
    let entries = vec![
        entry(EntryKind::File, 10, "r/a.txt"),
        entry(EntryKind::Dir, 0, "r/sub1"),
        entry(EntryKind::Other, 99, "r/link"),
        entry(EntryKind::File, 32, "r/b.txt"),
        entry(EntryKind::Dir, 0, "r/sub2"),
    ];
    let (added, dirs) = walk_step(&entries);
    assert_eq!(added, 42);
    assert_eq!(dirs, vec!["r/sub1".to_string(), "r/sub2".to_string()]);
}

#[test]
fn walk_step_empty_enumeration() {
    let (added, dirs) = walk_step(&vec![]);
    assert_eq!(added, 0);
    assert!(dirs.is_empty());
}

#[test]
fn walk_step_wraps_like_an_atomic_counter() {
    let entries = vec![
        entry(EntryKind::File, u64::MAX, "r/huge"),
        entry(EntryKind::File, 3, "r/tiny"),
    ];
    let (added, dirs) = walk_step(&entries);
    assert_eq!(added, 2);
    assert!(dirs.is_empty());
}
