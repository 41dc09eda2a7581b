use dupscanner::app::App;
use dupscanner::backup::{BackupManager, BackupRecord};
use dupscanner::cli::{
    build_config, drop_missing, exit_summary, history_line, method_note, more_text, plain_group,
    resolve_db_path, restore_choice, scan_mode, stored_count, RestoreRefusal, RootState, ScanMode,
    ScanOptions,
};
use dupscanner::database::ScanInfo;
use dupscanner::deletion::{DeleteMethod, Deleter};
use dupscanner::duplicates::DuplicateGroup;
use dupscanner::path_set::PathSet;
use dupscanner::scanner::{get_default_exclusions, FileInfo, Timestamp};
use dupscanner::web::{serve, ServeOptions};

fn info(path: &str) -> FileInfo {
    FileInfo {
        path: path.to_string(),
        size: 1024,
        quick_hash: None,
        hash: None,
        modified: Timestamp::from_secs(0),
        depth: 2,
    }
}

fn group(paths: &[&str]) -> DuplicateGroup {
    DuplicateGroup::new("h".to_string(), paths.iter().map(|p| info(p)).collect())
}

fn options(no_default_excludes: bool) -> ScanOptions {
    ScanOptions {
        path: "x".to_string(),
        min_size: 1,
        max_size: Some(9),
        exclude: vec!["*.log".to_string()],
        no_default_excludes,
    }
}

#[test]
fn modes_exclude_each_other() {
    assert_eq!(scan_mode(false, false, false), Ok(ScanMode::Review));
    assert_eq!(scan_mode(false, true, false), Ok(ScanMode::Json));
    assert_eq!(scan_mode(true, false, false), Ok(ScanMode::Yolo));
    assert_eq!(scan_mode(true, false, true), Ok(ScanMode::YoloStream));
    assert_eq!(
        scan_mode(true, true, false),
        Err("--yolo and --json cannot be combined".to_string())
    );
}

#[test]
fn configurations_add_to_the_built_in_exclusions() {
    let c = build_config(&options(false), RootState::Directory("/x".to_string())).unwrap();
    assert_eq!(c.root_path, "/x");
    assert_eq!(c.batch_size, 1000);
    let mut expected = get_default_exclusions();
    expected.push("*.log".to_string());
    assert_eq!(c.exclude_patterns, expected);
    let c = build_config(&options(true), RootState::Directory("/x".to_string())).unwrap();
    assert_eq!(c.exclude_patterns, vec!["*.log"]);
    assert_eq!(
        build_config(&options(true), RootState::Unreachable("gone".to_string())).unwrap_err(),
        "Cannot access x: gone"
    );
    assert_eq!(
        build_config(&options(true), RootState::NotDirectory("/x".to_string())).unwrap_err(),
        "/x is not a directory"
    );
}

#[test]
fn the_database_is_shared_unless_named() {
    let home = Some("/home/u/.local/share".to_string());
    assert_eq!(resolve_db_path(Some("/my.db".to_string()), &home).unwrap(), "/my.db");
    assert_eq!(
        resolve_db_path(None, &home).unwrap(),
        "/home/u/.local/share/dupscanner/scans.db"
    );
    assert!(resolve_db_path(None, &None).is_err());
}

#[test]
fn leaving_says_what_was_done() {
    let mut app = App::from_recorded("/r".to_string(), vec![], 0, Deleter::trash(), Some(4));
    assert_eq!(
        exit_summary(&app),
        vec!["Scan recorded as #4. Review later with `dupscanner view 4`."]
    );
    app.total_deleted = 2;
    app.total_freed = 3 * 1024 * 1024;
    assert_eq!(exit_summary(&app)[0], "Deleted 2 file(s), freed 3 MiB (via trash).");
    assert_eq!(method_note(DeleteMethod::Trash), Some("Files are in the system trash."));
    assert_eq!(method_note(DeleteMethod::Permanent), None);
}

#[test]
fn recorded_scans_are_listed() {
    let mut scan = ScanInfo {
        id: 7,
        root_path: "/r".to_string(),
        start_time: 0,
        end_time: None,
        files_scanned: 12,
        groups_found: 3,
        deleted_count: 0,
        deleted_bytes: 0,
    };
    let line = history_line(&scan);
    assert_eq!(line.label, "#7");
    assert!(!line.complete);
    assert_eq!(line.counts, "12 files, 3 groups");
    scan.deleted_count = 2;
    scan.deleted_bytes = 2048;
    scan.end_time = Some(1);
    let line = history_line(&scan);
    assert!(line.complete);
    assert_eq!(line.counts, "12 files, 3 groups, 2 deleted (2 KiB)");
    assert_eq!(stored_count(-4), 0);
    assert_eq!(stored_count(4), 4);
}

#[test]
fn missing_files_are_dropped_from_a_recorded_scan() {
    let mut groups = vec![group(&["/a", "/b", "/c"]), group(&["/d", "/e"])];
    let all: Vec<String> = ["/a", "/b", "/c", "/d", "/e"].iter().map(|p| p.to_string()).collect();
    assert!(!drop_missing(&mut groups, &PathSet::from_list(&all)));
    assert_eq!(groups.len(), 2);
    let some: Vec<String> = ["/a", "/c", "/d"].iter().map(|p| p.to_string()).collect();
    assert!(drop_missing(&mut groups, &PathSet::from_list(&some)));
    assert_eq!(groups.len(), 1);
    assert_eq!(groups[0].file_count(), 2);
    assert_eq!(groups[0].wasted_space, 1024);
}

#[test]
fn the_plain_listing_marks_the_keeper() {
    let g = plain_group(&group(&["/home/u/x.txt", "/tmp/x.txt"]), 1);
    assert_eq!(g.title, "2. 2 × 1 KiB (1 KiB wasted)");
    assert_eq!(
        g.files,
        vec![(true, "/home/u/x.txt".to_string()), (false, "/tmp/x.txt".to_string())]
    );
    assert_eq!(more_text(201, 200).as_deref(), Some("   … and 1 more"));
    assert_eq!(more_text(200, 200), None);
}

#[test]
fn restores_find_the_backup_that_is_meant() {
    let record = |original: &str, backup: &str| BackupRecord {
        original_path: original.to_string(),
        backup_path: backup.to_string(),
        size: 1,
        timestamp: Timestamp::from_secs(0),
    };
    let m = BackupManager::open(
        "/b".to_string(),
        vec![record("/x", "/b/1"), record("/y", "/b/2"), record("/y", "/b/3")],
    );
    assert_eq!(restore_choice(&m, "/b/2").unwrap(), "/b/2");
    assert_eq!(restore_choice(&m, "/x").unwrap(), "/b/1");
    let none = restore_choice(&m, "/z").unwrap_err();
    assert_eq!(none.message(), "No backup found for /z");
    match restore_choice(&m, "/y").unwrap_err() {
        RestoreRefusal::Ambiguous(path, list) => {
            assert_eq!(path, "/y");
            assert_eq!(list, vec!["/b/2", "/b/3"]);
        }
        RestoreRefusal::NoBackup(_) => panic!("there are two"),
    }
}

#[test]
fn the_web_ui_is_refused() {
    let config = build_config(&options(true), RootState::Directory("/x".to_string())).unwrap();
    let refused = serve(ServeOptions {
        config,
        port: 0,
        open_browser: false,
        delete_method: DeleteMethod::Trash,
        db_path: None,
        scan_id: None,
    });
    assert_eq!(refused, Err("the web UI is not available in this build yet".to_string()));
}
