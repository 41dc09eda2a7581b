use dupscanner::duplicates::DuplicateGroup;
use dupscanner::path_set::PathSet;
use dupscanner::report::{group_report, keeper_target, scan_report};
use dupscanner::scanner::{FileInfo, ScanProgress, Timestamp};

fn info(path: &str) -> FileInfo {
    FileInfo {
        path: path.to_string(),
        size: 8,
        quick_hash: None,
        hash: None,
        modified: Timestamp::from_secs(5),
        depth: 2,
    }
}

#[test]
fn reports_hold_every_group_and_one_keeper_each() {
    let groups = vec![DuplicateGroup::new(
        "h".to_string(),
        vec![info("/d/a (1).txt"), info("/d/a (2).txt")],
    )];
    let progress = ScanProgress { scanned_count: 9, total_size: 99, skipped: 0 };
    let none = PathSet::new();
    let r = scan_report("/d", &groups, &progress, Some(1), Timestamp::from_secs(7), &none);
    assert_eq!(r.groups.len(), 1);
    assert_eq!(r.groups[0].files.iter().filter(|f| f.keep).count(), 1);

    assert_eq!(keeper_target(&groups[0]).as_deref(), Some("/d/a.txt"));
    assert!(group_report(&groups[0], &none).suggested_rename.is_some());
    let taken = PathSet::from_list(&vec!["/d/a.txt".to_string()]);
    assert!(group_report(&groups[0], &taken).suggested_rename.is_none());
}
