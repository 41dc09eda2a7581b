use dupscanner::finder::DuplicateFinder;
use dupscanner::scanner::{ScanConfig, Timestamp};
use dupscanner::state::{
    get_default_state_file, get_latest_state_file, get_state_dir, list_state_files, ScanState, StateFile,
    StoredState,
};

fn config(root: &str) -> ScanConfig {
    ScanConfig {
        root_path: root.to_string(),
        min_size: 1,
        max_size: None,
        exclude_patterns: vec![],
        batch_size: 1000,
    }
}

#[test]
fn new_states_are_empty() {
    let mut state = ScanState::new(config("/test"), Timestamp::from_secs(1));
    assert_eq!(state.scanned_count, 0);
    assert_eq!(state.config.root_path, "/test");
    assert!(state.size_groups.is_empty());
    state.update_from_finder(&DuplicateFinder::new(), Timestamp::from_secs(2));
    assert_eq!(state.timestamp, Timestamp::from_secs(2));
    assert!(state.duplicate_groups.is_empty());
}

#[test]
fn state_files_are_named_by_digest() {
    let home = Some("/data".to_string());
    assert_eq!(get_state_dir(&home).unwrap(), "/data/dupscanner");
    // MD5 of "/test".
    assert_eq!(
        get_default_state_file("/test", &home).unwrap(),
        "/data/dupscanner/scan_4539330648b80f94ef3bf911f6d77ac9.json"
    );
    assert_eq!(
        get_default_state_file("/test", &None).unwrap_err(),
        "Failed to get local data directory"
    );
}

#[test]
fn the_newest_state_file_is_found() {
    let file = |path: &str, secs: Option<i64>| StateFile {
        path: path.to_string(),
        modified: secs.map(Timestamp::from_secs),
    };
    let files = vec![
        file("/s/a.json", Some(5)),
        file("/s/b.json", Some(9)),
        file("/s/c.txt", Some(99)),
        file("/s/d.json", None),
        file("/s/e.json", Some(9)),
    ];
    assert_eq!(get_latest_state_file(&files).unwrap(), "/s/e.json");
    assert_eq!(get_latest_state_file(&vec![]).unwrap_err(), "No state files found");
}

#[test]
fn states_are_listed_latest_first() {
    let stored = |path: &str, root: &str, secs: i64| StoredState {
        path: path.to_string(),
        state: Some(ScanState::new(config(root), Timestamp::from_secs(secs))),
    };
    let list = list_state_files(&vec![
        stored("/s/a.json", "/old", 0),
        stored("/s/b.json", "/new", 1_700_000_000),
        stored("/s/c.txt", "/other", 5),
        StoredState { path: "/s/d.json".to_string(), state: None },
    ]);
    assert_eq!(list.len(), 2);
    assert_eq!(list[0].path, "/new");
    assert_eq!(list[0].timestamp, "2023-11-14 22:13:20");
    assert_eq!(list[1].path, "/old");
    assert_eq!(list[1].timestamp, "1970-01-01 00:00:00");
}
