use dupscanner::backup::{truncate_chars, BackupManager};
use dupscanner::deletion::FileState;
use dupscanner::text_set::TextSet;
use dupscanner::scanner::Timestamp;

fn store() -> BackupManager {
    BackupManager::open("/b/backups".to_string(), Vec::new())
}

fn at(secs: i64) -> Timestamp {
    Timestamp::from_secs(secs)
}

#[test]
fn backup_and_delete_records_file() {
    let mut mgr = store();
    let record = mgr
        .prepare_backup("/d/test.txt", FileState::Regular(12), at(1_700_000_000), &TextSet::new())
        .unwrap();
    let backup_path = mgr.backup_file(record, 12).unwrap();
    assert!(backup_path.starts_with("/b/backups/20231114_221320_"));
    assert!(backup_path.ends_with("_test.txt.bak"));
    assert_eq!(mgr.list_backups().len(), 1);
    assert_eq!(mgr.list_backups()[0].original_path, "/d/test.txt");
    assert_eq!(mgr.total_backup_size(), 12);

    // The index survives a reopen.
    let reopened = BackupManager::open("/b/backups".to_string(), mgr.list_backups().clone());
    assert_eq!(reopened.list_backups().len(), 1);
}

#[test]
fn same_name_same_second_do_not_collide() {
    let mut mgr = store();
    let now = at(1_700_000_000);
    let mut taken = TextSet::new();
    let r1 = mgr.prepare_backup("/d/a/f.txt", FileState::Regular(3), now, &taken).unwrap();
    let p1 = mgr.backup_file(r1, 3).unwrap();
    taken.insert(p1.clone());
    let r2 = mgr.prepare_backup("/d/b/f.txt", FileState::Regular(3), now, &taken).unwrap();
    let p2 = mgr.backup_file(r2, 3).unwrap();
    assert_ne!(p1, p2);
    assert_eq!(mgr.list_backups()[0].original_path, "/d/a/f.txt");
    assert_eq!(mgr.list_backups()[1].original_path, "/d/b/f.txt");
}

#[test]
fn restore_puts_file_back() {
    let mut mgr = store();
    let original = "/d/doc.txt";
    let record = mgr
        .prepare_backup(original, FileState::Regular(10), at(5), &TextSet::new())
        .unwrap();
    let backup = mgr.backup_file(record, 10).unwrap();

    assert_eq!(mgr.plan_restore(&backup, None).unwrap(), original);
    let restored = mgr.restore_file(&backup, None, false, true).unwrap();
    assert_eq!(restored, original);
    assert!(mgr.list_backups().is_empty());
}

#[test]
fn truncation_is_char_safe() {
    let name = "é".repeat(300) + ".txt";
    let t = truncate_chars(&name, 50);
    assert!(t.chars().count() <= 51);
    assert!(t.ends_with(".txt"));
}

#[test]
fn short_names_are_not_cut() {
    assert_eq!(truncate_chars("notes.txt", 50), "notes.txt");
}

#[test]
fn truncation_never_exceeds_its_limit() {
    assert_eq!(truncate_chars("abcdef.txt", 8), "abc….txt");
    assert_eq!(truncate_chars("abcdef.txt", 6), "a….txt");
    assert_eq!(truncate_chars("abcdef.txt", 5), "abcd…");
    assert_eq!(truncate_chars("abcdef.txt", 2), "a…");
    assert_eq!(truncate_chars("abcdef.txt", 1), "a");
    assert_eq!(truncate_chars("ab", 1), "a");
    assert_eq!(truncate_chars("ab", 0), "");
    assert_eq!(truncate_chars("", 0), "");
    for max in 0..20 {
        assert!(truncate_chars("a rather long name.txt", max).chars().count() <= max);
    }
}

#[test]
fn backups_of_what_is_no_file_are_refused() {
    let mgr = store();
    for found in [FileState::Missing, FileState::NotRegular] {
        let e = mgr.prepare_backup("/d/x", found, at(5), &TextSet::new()).unwrap_err();
        assert!(e.message().contains("/d/x"), "{}", e.message());
    }
}

#[test]
fn short_copies_are_not_recorded() {
    let mut mgr = store();
    let record = mgr
        .prepare_backup("/d/x", FileState::Regular(12), at(5), &TextSet::new())
        .unwrap();
    assert!(mgr.backup_file(record, 11).is_err());
    assert!(mgr.list_backups().is_empty());
}

#[test]
fn restores_do_not_overwrite_or_invent() {
    let mut mgr = store();
    let record = mgr
        .prepare_backup("/d/x", FileState::Regular(1), at(5), &TextSet::new())
        .unwrap();
    let backup = mgr.backup_file(record, 1).unwrap();
    assert!(mgr.restore_file(&backup, None, true, true).is_err());
    assert!(mgr.restore_file(&backup, None, false, false).is_err());
    assert!(mgr.restore_file("/nowhere", None, false, true).is_err());
    assert_eq!(mgr.list_backups().len(), 1);
    assert_eq!(mgr.restore_file(&backup, Some("/e/y"), false, true).unwrap(), "/e/y");
    assert_eq!(mgr.find_by_original("/d/x").len(), 0);
}

#[test]
fn old_backups_are_cleaned() {
    let mut mgr = store();
    for (name, secs) in [("/d/old", 0), ("/d/new", 40 * 86_400)] {
        let record = mgr
            .prepare_backup(name, FileState::Regular(1), at(secs), &TextSet::new())
            .unwrap();
        mgr.backup_file(record, 1).unwrap();
    }
    let now = at(41 * 86_400);
    let old = mgr.old_backups(now, 30);
    assert_eq!(old.len(), 1);
    assert_eq!(old[0].original_path, "/d/old");
    assert_eq!(mgr.clean_old_backups(now, 30, 0), 1);
    assert_eq!(mgr.list_backups().len(), 1);
}

#[test]
fn backups_are_found_by_every_way_to_write_their_path() {
    let mut mgr = BackupManager { backup_dir: "/b".to_string(), records: Vec::new() };
    let record = mgr.prepare_backup("/d/x.txt", FileState::Regular(1), at(5), &TextSet::new()).unwrap();
    let stored = mgr.backup_file(record, 1).unwrap();
    assert_eq!(mgr.find_by_original("/d//x.txt").len(), 1);
    assert_eq!(mgr.find_by_original("/d/y.txt").len(), 0);
    let again = stored.replacen("/b/", "/b//", 1);
    assert_eq!(mgr.plan_restore(&again, None).unwrap(), "/d/x.txt");
}
