use dupscanner::backup::BackupManager;
use dupscanner::deletion::{
    plan_deletions, DeleteMethod, Deleter, FileState, PlanError,
};
use dupscanner::duplicates::DuplicateGroup;
use dupscanner::path_set::PathSet;
use dupscanner::scanner::{FileInfo, Timestamp};

fn info(path: &str) -> FileInfo {
    FileInfo {
        path: path.to_string(),
        size: 10,
        quick_hash: None,
        hash: Some("h".to_string()),
        modified: Timestamp::from_secs(0),
        depth: 2,
    }
}

fn group() -> DuplicateGroup {
    DuplicateGroup::new("h".to_string(), vec![info("/g/a"), info("/g/b"), info("/g/c")])
}

fn set(paths: &[&str]) -> PathSet {
    let list: Vec<String> = paths.iter().map(|p| p.to_string()).collect();
    PathSet::from_list(&list)
}

#[test]
fn plan_allows_partial_deletion() {
    let wanted = set(&["/g/a", "/g/b"]);
    let plan = plan_deletions(&vec![group()], &wanted).unwrap();
    assert_eq!(plan.len(), 2);
    assert_eq!(plan.bytes(), 20);
}

#[test]
fn plan_refuses_to_delete_last_copy() {
    let wanted = set(&["/g/a", "/g/b", "/g/c"]);
    let err = plan_deletions(&vec![group()], &wanted).unwrap_err();
    assert!(err.message().contains("every copy"));
    assert!(matches!(err, PlanError::EveryCopy(_, 3)));
}

#[test]
fn plan_refuses_unknown_paths() {
    let wanted = set(&["/etc/passwd"]);
    let err = plan_deletions(&vec![group()], &wanted).unwrap_err();
    assert!(err.message().contains("not part of any duplicate group"));
}

#[test]
fn permanent_delete_checks_size() {
    let d = Deleter::new(DeleteMethod::Permanent, None);
    assert!(d.delete_one("/d/f.txt", Some(4), FileState::Regular(5)).is_err());
    assert_eq!(d.delete_one("/d/f.txt", Some(5), FileState::Regular(5)), Ok(DeleteMethod::Permanent));
}

#[test]
fn what_is_no_file_is_not_deleted() {
    let d = Deleter::trash();
    assert_eq!(d.method(), DeleteMethod::Trash);
    assert!(d.delete_one("/d/f", None, FileState::Missing).is_err());
    assert!(d.delete_one("/d/f", None, FileState::NotRegular).is_err());
    assert_eq!(d.delete_one("/d/f", None, FileState::Regular(1)), Ok(DeleteMethod::Trash));
    assert!(d.backup_manager().is_none());
}

#[test]
fn reports_add_up_what_happened() {
    let plan = plan_deletions(&vec![group()], &set(&["/g/a", "/g/c"])).unwrap();
    assert!(!plan.is_empty());
    let d = Deleter::trash();
    let report = d.delete_planned(&plan, vec![Ok(()), Err("busy".to_string())]);
    assert_eq!(report.deleted_count(), 1);
    assert_eq!(report.failed_count(), 1);
    assert_eq!(report.bytes_freed(), 10);
    assert_eq!(report.deleted_paths().to_list(), vec!["/g/a"]);
    assert_eq!(report.failures(), vec![("/g/c".to_string(), "busy".to_string())]);
    assert!(!d.removal_error("/g/c", "denied").is_empty());
}

#[test]
fn the_backup_store_stands_in_for_the_trash() {
    let store = || BackupManager::open("/b".to_string(), Vec::new());
    assert_eq!(Deleter::trash().fallback(), None);
    assert_eq!(Deleter::new(DeleteMethod::Trash, Some(store())).fallback(), Some(DeleteMethod::Backup));
    assert_eq!(Deleter::new(DeleteMethod::Permanent, Some(store())).fallback(), None);
}

#[test]
fn methods_have_names() {
    assert_eq!(DeleteMethod::Trash.label(), "trash");
    assert_eq!(DeleteMethod::Backup.label(), "backup");
    assert_eq!(DeleteMethod::Permanent.label(), "permanent");
    assert_eq!(DeleteMethod::Permanent.description(), "Delete permanently (no undo)");
}

#[test]
fn plans_take_every_way_to_write_a_path() {
    let groups = vec![group()];
    let plan = plan_deletions(&groups, &set(&["/g//a", "/g/./b", "/g/b/"])).unwrap();
    let paths: Vec<&str> = plan.items.iter().map(|i| i.path.as_str()).collect();
    assert_eq!(paths, vec!["/g/a", "/g/b"]);
    let err = plan_deletions(&groups, &set(&["/g//a", "/g/../g/b"])).unwrap_err();
    assert!(matches!(err, PlanError::NotInGroups(p) if p == "/g/../g/b"));
    let err = plan_deletions(&groups, &set(&["/g//a", "/g//b", "/g//c"])).unwrap_err();
    assert!(matches!(err, PlanError::EveryCopy(_, 3)));
}
