use dupscanner::duplicates::{DuplicateFinder, DuplicateGroup};
use dupscanner::path_set::PathSet;
use dupscanner::scanner::{FileInfo, Timestamp};

fn file(path: &str, quick: &str, hash: &str) -> FileInfo {
    FileInfo {
        path: path.to_string(),
        size: 100,
        quick_hash: Some(quick.to_string()),
        hash: Some(hash.to_string()),
        modified: Timestamp::from_secs(0),
        depth: 2,
    }
}

fn unread(path: &str, size: u64) -> FileInfo {
    FileInfo::from_path(path, size, Some(Timestamp::from_secs(1)))
}

#[test]
fn test_duplicate_group_creation() {
    let files = vec![
        file("/test/file1.txt", "quick123", "abc123"),
        file("/test/file2.txt", "quick123", "abc123"),
    ];
    let group = DuplicateGroup::new("abc123".to_string(), files);
    assert_eq!(group.file_count(), 2);
    assert_eq!(group.total_size, 200);
    assert_eq!(group.wasted_space, 100);
}

#[test]
fn test_quick_hash_filtering() {
    let files = vec![
        file("/test/file1.txt", "quick123", "abc123"),
        file("/test/file2.txt", "quick456", "def456"),
    ];
    let group = DuplicateGroup::new("abc123".to_string(), files);
    assert_eq!(group.file_count(), 2);
}

#[test]
fn groups_are_sorted_by_path_and_shrink() {
    let mut g = DuplicateGroup::new(
        "h".to_string(),
        vec![unread("/z", 5), unread("/a/b", 5), unread("/a", 5)],
    );
    let paths: Vec<&str> = g.files.iter().map(|f| f.path.as_str()).collect();
    assert_eq!(paths, vec!["/a", "/a/b", "/z"]);
    assert_eq!(g.file_size(), 5);
    g.remove_paths(&PathSet::from_list(&vec!["/a".to_string(), "/z".to_string()]));
    assert_eq!(g.file_count(), 1);
    assert_eq!(g.wasted_space, 0);
    assert!(g.is_empty());
}

/// Answers every request with digests from a table of contents.
fn settle(finder: &mut DuplicateFinder, batch: Vec<FileInfo>, content: &[(&str, &str)]) -> (usize, usize) {
    let digest = |path: &str| {
        content
            .iter()
            .find(|(p, _)| *p == path)
            .map(|(_, c)| c.to_string())
            .ok_or("unreadable".to_string())
    };
    let quick = finder.process_batch(batch);
    for ask in &quick {
        finder.note_quick(ask, digest(&ask.path));
    }
    let full = finder.full_requests();
    for ask in &full {
        finder.note_full(ask, digest(&ask.path));
    }
    finder.rebuild();
    (quick.len(), full.len())
}

#[test]
fn files_are_hashed_only_where_sizes_meet() {
    let mut finder = DuplicateFinder::new();
    let content = [("/a", "x"), ("/b", "x"), ("/c", "y"), ("/d", "x")];
    let (quick, _) = settle(&mut finder, vec![unread("/a", 1), unread("/c", 2)], &content);
    assert_eq!(quick, 0);
    assert!(finder.groups().is_empty());

    let (quick, full) = settle(&mut finder, vec![unread("/b", 1)], &content);
    assert_eq!(quick, 2);
    assert_eq!(full, 0, "small files are read once");
    assert_eq!(finder.groups().len(), 1);
    assert_eq!(finder.groups()[0].file_count(), 2);

    let (quick, _) = settle(&mut finder, vec![unread("/d", 1)], &content);
    assert_eq!(quick, 1, "known files are not read again");
    assert_eq!(finder.groups()[0].file_count(), 3);
    finder.ensure_sorted();
    assert_eq!(finder.total_duplicates(), 3);
    assert_eq!(finder.total_wasted_space(), 2);
}

#[test]
fn large_files_need_the_full_hash_too() {
    let mut finder = DuplicateFinder::new();
    let big = 1 << 20;
    let (quick, full) = settle(
        &mut finder,
        vec![unread("/a", big), unread("/b", big), unread("/c", big)],
        &[("/a", "x"), ("/b", "x"), ("/c", "y")],
    );
    assert_eq!((quick, full), (3, 2));
    assert_eq!(finder.groups().len(), 1);
    assert_eq!(finder.groups()[0].files[1].path, "/b");
}

#[test]
fn unreadable_and_removed_files_are_in_no_group() {
    let mut finder = DuplicateFinder::new();
    let content = [("/a", "x"), ("/b", "x")];
    settle(&mut finder, vec![unread("/a", 1), unread("/b", 1), unread("/z", 1)], &content);
    assert_eq!(finder.groups()[0].file_count(), 2);
    finder.remove_paths(&PathSet::from_list(&vec!["/b".to_string()]));
    assert!(finder.groups().is_empty());
    settle(&mut finder, vec![unread("/b", 1)], &content);
    assert!(finder.groups().is_empty(), "a removed file does not come back");
}

#[test]
fn most_wasteful_groups_come_first() {
    let mut finder = DuplicateFinder::new();
    settle(
        &mut finder,
        vec![unread("/a", 1), unread("/b", 1), unread("/c", 9), unread("/d", 9)],
        &[("/a", "x"), ("/b", "x"), ("/c", "y"), ("/d", "y")],
    );
    finder.ensure_sorted();
    assert_eq!(finder.groups()[0].hash, "y");
    finder.remove_empty_groups();
    assert_eq!(finder.groups().len(), 2);
}

#[test]
fn groups_changed_in_place_are_sorted_and_counted_anew() {
    let mut finder = DuplicateFinder::new();
    settle(
        &mut finder,
        vec![unread("/a", 1), unread("/b", 1), unread("/c", 9), unread("/d", 9), unread("/e", 9)],
        &[("/a", "x"), ("/b", "x"), ("/c", "y"), ("/d", "y"), ("/e", "y")],
    );
    finder.ensure_sorted();
    assert_eq!((finder.total_duplicates(), finder.total_wasted_space()), (5, 19));
    finder.groups_mut().reverse();
    finder.groups_mut()[0].wasted_space = 20;
    finder.groups_mut()[1].wasted_space = 30;
    finder.ensure_sorted();
    assert_eq!(finder.groups()[0].hash, "y");
    assert_eq!(finder.total_wasted_space(), 50);
    finder.ensure_sorted();
    assert_eq!(finder.groups()[0].hash, "y");
    finder.groups_mut()[0].files.truncate(1);
    finder.remove_empty_groups();
    assert_eq!(finder.groups().len(), 1);
    assert_eq!((finder.total_duplicates(), finder.total_wasted_space()), (2, 20));
}

#[test]
fn groups_differ_in_their_hash_or_their_size() {
    let mut finder = DuplicateFinder::new();
    let files = vec![unread("/a", 1), unread("/b", 1), unread("/c", 2), unread("/d", 2), unread("/e", 1), unread("/f", 1)];
    let content = [("/a", "x"), ("/b", "x"), ("/c", "x"), ("/d", "x"), ("/e", "y"), ("/f", "y")];
    settle(&mut finder, files, &content);
    finder.ensure_sorted();
    let mut found: Vec<(String, u64, usize)> =
        finder.groups().iter().map(|g| (g.hash.clone(), g.file_size(), g.file_count())).collect();
    found.sort();
    let expected = vec![("x".to_string(), 1, 2), ("x".to_string(), 2, 2), ("y".to_string(), 1, 2)];
    assert_eq!(found, expected);
}
