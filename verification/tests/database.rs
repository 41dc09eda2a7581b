use dupscanner::database::{
    file_rows, groups_from_rows, journal_rows, journal_size, missing_columns, system_time_to_secs,
};
use dupscanner::deletion::{DeletionOutcome, DeletionReport};
use dupscanner::duplicates::DuplicateGroup;
use dupscanner::scanner::{FileInfo, Timestamp};

fn info(path: &str, size: u64) -> FileInfo {
    FileInfo {
        path: path.to_string(),
        size,
        quick_hash: Some("q".to_string()),
        hash: Some("h".to_string()),
        modified: Timestamp::from_secs(1_700_000_000),
        depth: 3,
    }
}

#[test]
fn round_trip_groups() {
    let groups = vec![DuplicateGroup::new(
        "h".to_string(),
        vec![info("/x/a", 10), info("/x/b", 10)],
    )];
    let rows = file_rows(&groups);
    assert_eq!(rows.len(), 2);

    let loaded = groups_from_rows(&rows);
    assert_eq!(loaded.len(), 1);
    assert_eq!(loaded[0].file_count(), 2);
    assert_eq!(loaded[0].files[0].depth, 3);
    assert_eq!(loaded[0].files[0].modified, Timestamp::from_secs(1_700_000_000));
    assert_eq!(loaded[0].total_size, 20);
    assert_eq!(loaded[0].wasted_space, 10);
}

#[test]
fn deletion_journal_round_trip() {
    let report = DeletionReport {
        outcomes: vec![
            DeletionOutcome { path: "/x/a".to_string(), size: 5, result: Ok(()) },
            DeletionOutcome { path: "/x/b".to_string(), size: 7, result: Err("nope".to_string()) },
        ],
    };
    let rows = journal_rows(&report);
    assert_eq!(rows.len(), 1);
    assert_eq!(rows[0].path, "/x/a");
    assert_eq!(journal_size(rows[0].size), 5);
}

#[test]
fn save_groups_replaces_previous_rows() {
    assert!(groups_from_rows(&file_rows(&vec![])).is_empty());
}

#[test]
fn stored_groups_come_back_most_wasteful_first() {
    let rows = file_rows(&vec![
        DuplicateGroup::new("a".to_string(), vec![info("/x/1", 1), info("/x/2", 1)]),
        DuplicateGroup::new("b".to_string(), vec![info("/x/3", 9), info("/x/4", 9)]),
    ]);
    let loaded = groups_from_rows(&rows);
    assert_eq!(loaded[0].hash, "b");
    assert_eq!(loaded[1].hash, "a");
}

#[test]
fn times_before_the_epoch_are_stored_as_zero() {
    assert_eq!(system_time_to_secs(Timestamp { secs: -5, nanos: 0 }), 0);
    assert_eq!(system_time_to_secs(Timestamp { secs: 5, nanos: 999 }), 5);
    assert_eq!(journal_size(-3), 0);
}

#[test]
fn older_tables_lack_columns() {
    assert_eq!(missing_columns(false, false), vec!["modified", "depth"]);
    assert_eq!(missing_columns(true, false), vec!["depth"]);
    assert!(missing_columns(true, true).is_empty());
}

#[test]
fn stored_groups_come_back_in_whatever_order_they_are_read() {
    let groups = vec![
        DuplicateGroup::new("b".to_string(), vec![info("/x/2", 9), info("/x/1", 9), info("/x/3", 9)]),
        DuplicateGroup::new("a".to_string(), vec![info("/y/1", 4), info("/y/2", 4)]),
    ];
    let mut rows = file_rows(&groups);
    rows.sort_by(|p, q| p.group_id.cmp(&q.group_id).then(q.path.cmp(&p.path)));
    assert_eq!(rows[0].path, "/y/2");
    let loaded = groups_from_rows(&rows);
    assert_eq!(loaded.len(), 2);
    for (back, group) in loaded.iter().zip(&groups) {
        assert_eq!(back.hash, group.hash);
        assert_eq!((back.total_size, back.wasted_space), (group.total_size, group.wasted_space));
        let paths = |g: &DuplicateGroup| -> Vec<String> { g.files.iter().map(|f| f.path.clone()).collect() };
        assert_eq!(paths(back), paths(group));
    }
}
