use dupscanner::app::{App, Input, Scope, ViewMode};
use dupscanner::deletion::{DeleteMethod, Deleter};
use dupscanner::duplicates::DuplicateGroup;
use dupscanner::engine::EngineEvent;
use dupscanner::finder::DuplicateFinder;
use dupscanner::paths::depth;
use dupscanner::scanner::{FileInfo, ScanConfig, ScanProgress, Timestamp};
use dupscanner::selection::SelectMode;
use dupscanner::suggestions::SuggestionEngine;

fn info(path: &str) -> FileInfo {
    FileInfo {
        path: path.to_string(),
        size: 4,
        quick_hash: None,
        hash: Some("h".to_string()),
        modified: Timestamp::from_secs(0),
        depth: depth(path),
    }
}

fn group(hash: &str, paths: &[&str]) -> DuplicateGroup {
    DuplicateGroup::new(hash.to_string(), paths.iter().map(|p| info(p)).collect())
}

fn app_with(groups: Vec<DuplicateGroup>) -> App {
    App::from_recorded(
        "/r".to_string(),
        groups,
        10,
        Deleter::new(DeleteMethod::Permanent, None),
        None,
    )
}

fn marks(app: &App) -> Vec<String> {
    app.marked.to_list()
}

#[test]
fn filter_narrows_visible_groups_and_scope() {
    let g1 = group("1", &["/r/a.jpg", "/r/b.jpg"]);
    let g2 = group("2", &["/r/c.txt", "/r/d.txt"]);
    let mut app = app_with(vec![g1, g2]);
    assert_eq!(app.visible.len(), 2);

    app.set_path_filter(".txt".to_string());
    assert_eq!(app.visible.len(), 1);
    assert!(app.current_group().unwrap().files[0].path.ends_with("c.txt"));

    app.mark_all_but_keeper(Scope::AllGroups);
    assert_eq!(app.marked.len(), 1, "AllGroups scope respects the filter");

    app.clear_filter();
    assert_eq!(app.visible.len(), 2);
}

#[test]
fn auto_select_owns_marks_and_delete_requires_confirmation() {
    let a = "/r/a.txt";
    let mut app = app_with(vec![group("h", &[a, "/r/b.txt"])]);

    app.toggle_mark(); // marks a (index 0)
    assert!(app.is_marked(a));
    app.mark_all_but_keeper(Scope::CurrentGroup);
    assert_eq!(app.marked.len(), 1);
    let keeper = SuggestionEngine::analyze(&app.groups[0].files).keeper.unwrap();
    assert!(!app.is_marked(&app.groups[0].files[keeper].path));

    app.request_delete(Scope::CurrentGroup);
    assert!(app.pending_confirm.is_some());
    assert_eq!(app.total_deleted, 0, "nothing deleted before confirmation");
    let plan = app.begin_delete().unwrap();
    assert!(app.pending_confirm.is_none());
    let results = vec![Ok(()); plan.len()];
    let report = app.deleter.delete_planned(&plan, results);
    app.confirm_delete(report);
    assert_eq!(app.total_deleted, 1);
    assert!(app.groups.is_empty());
}

#[test]
fn rename_moves_mark_and_updates_group() {
    let mut app = app_with(vec![group("h", &["/r/a.txt", "/r/b.txt"])]);
    app.toggle_mark();
    app.start_rename();
    assert!(matches!(app.input, Some(Input::Rename { .. })));
    for _ in 0..5 {
        app.input_pop();
    }
    for c in "z.txt".chars() {
        app.input_push(c);
    }
    let (path, name) = app.commit_input().unwrap();
    assert_eq!((path.as_str(), name.as_str()), ("/r/a.txt", "z.txt"));
    let new = app.rename(&path, &name, false, Ok(())).unwrap();
    assert_eq!(new, "/r/z.txt");
    assert!(app.is_marked("/r/z.txt"));
    assert!(!app.is_marked("/r/a.txt"));
    assert!(app.groups[0].files.iter().any(|f| f.path == "/r/z.txt"));
}

#[test]
fn failed_rename_changes_nothing_but_the_message() {
    let mut app = app_with(vec![group("h", &["/r/a.txt", "/r/b.txt"])]);
    app.toggle_mark();
    assert!(app.rename("/r/a.txt", "b.txt", true, Ok(())).is_err());
    assert!(app.is_marked("/r/a.txt"));
    assert_eq!(app.groups[0].files[0].path, "/r/a.txt");
    assert!(app.rename("/r/a.txt", "c.txt", false, Err("denied".to_string())).is_err());
    assert_eq!(app.groups[0].files[0].path, "/r/a.txt");
}

#[test]
fn snapshots_replay_edits_and_drop_deleted_files() {
    let config = ScanConfig {
        root_path: "/r".to_string(),
        min_size: 1,
        max_size: None,
        exclude_patterns: vec![],
        batch_size: 1000,
    };
    let mut app = App::new_scan(config, Deleter::trash());
    assert!(app.is_scanning());
    let three = || vec![group("h", &["/r/a.txt", "/r/b.txt", "/r/c.txt"])];
    assert!(!app.tick(vec![EngineEvent::Groups(three())]));
    assert_eq!(app.groups[0].files.len(), 3);

    app.apply_select_mode(SelectMode::AllButShortestPath, Scope::CurrentGroup);
    assert_eq!(app.marked.len(), 2);
    app.request_delete(Scope::CurrentGroup);
    let plan = app.begin_delete().unwrap();
    let first = plan.items[0].path.clone();
    let report = app.deleter.delete_planned(&plan, vec![Ok(()), Err("busy".to_string())]);
    app.confirm_delete(report);
    assert_eq!(app.total_deleted, 1);
    assert_eq!(app.total_freed, 4);
    assert!(app.status_message.clone().unwrap().contains("1 failed: busy"));

    // The engine has not heard of the deletion yet.
    app.tick(vec![EngineEvent::Groups(three())]);
    assert_eq!(app.groups[0].files.len(), 2);
    assert!(app.groups[0].files.iter().all(|f| f.path != first));
    assert!(app.removed.take().contains(&first));
}

#[test]
fn the_end_of_a_scan_is_reported_once() {
    let config = ScanConfig {
        root_path: "/r".to_string(),
        min_size: 1,
        max_size: None,
        exclude_patterns: vec![],
        batch_size: 1000,
    };
    let mut app = App::new_scan(config, Deleter::trash());
    let progress = ScanProgress { scanned_count: 7, total_size: 70, skipped: 1 };
    assert_eq!(app.scan_elapsed(5), 5);
    let done = app.tick(vec![
        EngineEvent::Progress(progress),
        EngineEvent::Complete { finder: DuplicateFinder::new(), progress, elapsed: 42 },
    ]);
    assert!(done);
    assert!(!app.is_scanning());
    assert_eq!(app.scan_elapsed(99), 42);
    assert_eq!(app.progress.scanned_count, 7);
    assert!(!app.tick(vec![]));
}

#[test]
fn selection_follows_the_group_when_the_filter_changes() {
    let mut app = app_with(vec![
        group("1", &["/r/a.jpg", "/r/b.jpg"]),
        group("2", &["/r/c.txt", "/r/d.txt"]),
        group("3", &["/r/e.txt", "/r/f.txt"]),
    ]);
    app.last_group();
    assert_eq!(app.current_group().unwrap().hash, "3");
    app.select_next_file();
    assert_eq!(app.selected_file().unwrap().path, "/r/f.txt");
    app.set_path_filter("txt".to_string());
    assert_eq!(app.visible.len(), 2);
    assert_eq!(app.current_group().unwrap().hash, "3");
    app.clear_filter();
    assert_eq!(app.current_group().unwrap().hash, "3");
    app.previous_group();
    assert_eq!(app.current_group().unwrap().hash, "2");
    assert_eq!(app.selected_file_index, 0);
    app.first_group();
    app.previous_group();
    assert_eq!(app.current_group().unwrap().hash, "1");
}

#[test]
fn deleting_every_copy_is_refused_with_a_message() {
    let mut app = app_with(vec![group("h", &["/r/a.txt", "/r/b.txt"])]);
    app.toggle_mark();
    app.select_next_file();
    app.toggle_mark();
    assert_eq!(marks(&app), vec!["/r/a.txt", "/r/b.txt"]);
    app.request_delete(Scope::AllGroups);
    assert!(app.pending_confirm.is_none());
    assert!(app.status_message.clone().unwrap().contains("every copy"));
    app.clear_marks(Scope::AllGroups);
    assert!(app.marked.is_empty());
}

#[test]
fn keeper_gets_its_canonical_name_unless_it_is_taken() {
    let mut app = app_with(vec![group("h", &["/r/report (1).pdf", "/r/report (2).pdf"])]);
    assert!(app.rename_keeper_to_canonical(true).is_none());
    let (path, name) = app.rename_keeper_to_canonical(false).unwrap();
    assert_eq!(name, "report.pdf");
    assert!(path == "/r/report (1).pdf" || path == "/r/report (2).pdf");
}

#[test]
fn views_go_round() {
    let mut app = app_with(vec![]);
    assert_eq!(app.view_mode, ViewMode::Duplicates);
    app.cycle_view();
    assert_eq!(app.view_mode, ViewMode::Statistics);
    app.cycle_view();
    assert_eq!(app.view_mode, ViewMode::Help);
    app.cycle_view();
    assert_eq!(app.view_mode, ViewMode::Duplicates);
    app.toggle_preview();
    app.clear_status();
    assert!(app.status_message.is_none());
}
