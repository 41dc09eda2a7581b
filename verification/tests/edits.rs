use dupscanner::duplicates::DuplicateGroup;
use dupscanner::edits::{
    rename_destination, rename_in_groups, validate_new_name, RenameError, ScanEdits,
};
use dupscanner::scanner::{FileInfo, Timestamp};

fn info(path: &str) -> FileInfo {
    FileInfo {
        path: path.to_string(),
        size: 4,
        quick_hash: None,
        hash: Some("h".to_string()),
        modified: Timestamp::from_secs(0),
        depth: 2,
    }
}

#[test]
fn new_name_validation() {
    assert!(validate_new_name("report.pdf").is_ok());
    assert!(validate_new_name("with spaces.txt").is_ok());
    assert!(validate_new_name("v1..2.txt").is_ok());
    assert!(validate_new_name(".hidden").is_ok());
    for bad in ["", " x", "x ", "a/b", "a\\b", "..", ".", "nul\0", "/abs"] {
        assert!(validate_new_name(bad).is_err(), "{bad:?} should be rejected");
    }
    assert!(validate_new_name(&"x".repeat(256)).is_err());
    assert!(validate_new_name(&"x".repeat(255)).is_ok());
}

#[test]
fn edits_replay_onto_snapshots() {
    let a = "/r/a.txt";
    let b = "/r/b.txt";
    let c = "/r/c.txt";
    let mut edits = ScanEdits::default();
    assert!(edits.is_empty());
    edits.record_deleted(&vec![c.to_string()]);
    edits.record_rename(a, "/r/a2.txt");
    edits.record_rename("/r/a2.txt", "/r/a3.txt");

    let mut snapshot = vec![DuplicateGroup::new("h".to_string(), vec![info(a), info(b), info(c)])];
    edits.apply(&mut snapshot);
    let paths: Vec<String> = snapshot[0].files.iter().map(|f| f.path.clone()).collect();
    assert_eq!(paths, vec!["/r/a3.txt", "/r/b.txt"]);

    // Deleting down to one member drops the group.
    edits.record_deleted(&vec![b.to_string()]);
    let mut snapshot = vec![DuplicateGroup::new("h".to_string(), vec![info(a), info(b), info(c)])];
    edits.apply(&mut snapshot);
    assert!(snapshot.is_empty());

    edits.clear();
    assert!(edits.is_empty());
}

#[test]
fn a_deleted_name_can_be_given_to_another_file() {
    let snapshot = || {
        vec![DuplicateGroup::new(
            "h".to_string(),
            vec![info("/r/a.txt"), info("/r/b.txt"), info("/r/c.txt")],
        )]
    };
    let shown = |edits: &ScanEdits| {
        let mut groups = snapshot();
        edits.apply(&mut groups);
        let mut paths: Vec<String> =
            groups.iter().flat_map(|g| g.files.iter().map(|f| f.path.clone())).collect();
        paths.sort();
        paths
    };
    let mut edits = ScanEdits::default();
    edits.record_deleted(&vec!["/r/c.txt".to_string()]);
    edits.record_rename("/r/a.txt", "/r/c.txt");
    assert_eq!(shown(&edits), vec!["/r/b.txt", "/r/c.txt"]);

    // Renamed on, the file is still the one the scan knows as a.txt.
    edits.record_rename("/r/c.txt", "/r/d.txt");
    assert_eq!(shown(&edits), vec!["/r/b.txt", "/r/d.txt"]);

    // Deleted under its last name, it is gone under its first.
    edits.record_deleted(&vec!["/r/d.txt".to_string()]);
    assert!(shown(&edits).is_empty());

    let mut edits = ScanEdits::default();
    edits.record_rename("/r/a.txt", "/r/x.txt");
    edits.record_deleted(&vec!["/r/x.txt".to_string()]);
    assert_eq!(shown(&edits), vec!["/r/b.txt", "/r/c.txt"]);
}

#[test]
fn rename_updates_disk_and_group() {
    let a = "/d/a.txt";
    let mut groups = vec![DuplicateGroup::new("h".to_string(), vec![info(a), info("/d/b.txt")])];

    let (goal, _) = rename_destination(&groups, a, "renamed.txt").unwrap();
    assert_eq!(goal, "/d/renamed.txt");
    let (new, gi) = rename_in_groups(&mut groups, a, "renamed.txt", false, Ok(())).unwrap();
    assert_eq!(gi, 0);
    assert_eq!(new, "/d/renamed.txt");
    assert!(groups[0].files.iter().any(|f| f.path == new));
    assert!(!groups[0].files.iter().any(|f| f.path == a));

    assert!(matches!(
        rename_in_groups(&mut groups, &new, "b.txt", true, Ok(())),
        Err(RenameError::TargetExists(_))
    ));
    assert!(matches!(
        rename_in_groups(&mut groups, &new, "renamed.txt", false, Ok(())),
        Err(RenameError::SameName)
    ));
    assert!(matches!(
        rename_in_groups(&mut groups, "/nope", "x.txt", false, Ok(())),
        Err(RenameError::NotInGroups)
    ));
    assert!(matches!(
        rename_in_groups(&mut groups, &new, "a/b", false, Ok(())),
        Err(RenameError::InvalidName(_))
    ));
    let failed = rename_in_groups(&mut groups, &new, "c.txt", false, Err("denied".to_string()));
    assert_eq!(failed.unwrap_err().message(), "Failed to rename /d/renamed.txt: denied");
}

#[test]
fn renames_and_deletions_go_by_the_path_and_not_its_text() {
    let mut edits = ScanEdits::default();
    edits.record_rename("/r//a.txt", "/r/x.txt");
    edits.record_deleted(&vec!["/r/./c.txt".to_string()]);
    let mut groups =
        vec![DuplicateGroup::new("h".to_string(), vec![info("/r/a.txt"), info("/r/b.txt"), info("/r/c.txt")])];
    let copy = edits.clone();
    copy.apply(&mut groups);
    let paths: Vec<&str> = groups[0].files.iter().map(|f| f.path.as_str()).collect();
    assert_eq!(paths, vec!["/r/x.txt", "/r/b.txt"]);
    assert!(matches!(
        rename_in_groups(&mut groups, "/r//x.txt", "x.txt", false, Ok(())),
        Err(RenameError::SameName)
    ));
    let (new, _) = rename_in_groups(&mut groups, "/r//x.txt", "y.txt", false, Ok(())).unwrap();
    assert_eq!(new, "/r/y.txt");
    assert_eq!(groups[0].files[0].path, "/r/y.txt");
}
