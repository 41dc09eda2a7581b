use dupscanner::deletion::{plan_deletions, Deleter};
use dupscanner::duplicates::DuplicateGroup;
use dupscanner::edits::rename_in_groups;
use dupscanner::path_set::PathSet;
use dupscanner::engine::EngineEvent;
use dupscanner::finder::DuplicateFinder;
use dupscanner::scanner::{FileInfo, ScanProgress, Timestamp};
use dupscanner::stream::{stream_line, GroupStep, StreamState, StreamStep};
use dupscanner::yolo::{
    copies_to_delete, done_text, is_alone, keep_line, keeper_index, keeper_renames, remaining_groups,
    solo_group,
};

fn info(path: &str) -> FileInfo {
    FileInfo {
        path: path.to_string(),
        size: 1024,
        quick_hash: None,
        hash: None,
        modified: Timestamp::from_secs(0),
        depth: 2,
    }
}

fn group(hash: &str, paths: &[&str]) -> DuplicateGroup {
    DuplicateGroup::new(hash.to_string(), paths.iter().map(|p| info(p)).collect())
}

fn set(paths: &[&str]) -> PathSet {
    let list: Vec<String> = paths.iter().map(|p| p.to_string()).collect();
    PathSet::from_list(&list)
}

#[test]
fn every_copy_but_the_keepers_goes() {
    let groups = vec![
        group("1", &["/home/u/x.txt", "/tmp/x.txt", "/home/u/Downloads/x.txt"]),
        group("2", &["/d/report (1).pdf", "/d/report (2).pdf"]),
    ];
    assert_eq!(groups[0].files[keeper_index(&groups[0])].path, "/home/u/x.txt");
    assert_eq!(keep_line(&groups[0]), "3 × 1 KiB  keeping /home/u/x.txt");
    let wanted = copies_to_delete(&groups);
    assert_eq!(wanted.len(), 3);
    for g in &groups {
        assert!(!wanted.contains(&g.files[keeper_index(g)].path));
    }
    let plan = plan_deletions(&groups, &wanted).unwrap();
    assert_eq!(plan.len(), 3);

    let report = Deleter::trash().delete_planned(&plan, vec![Ok(()), Ok(()), Err("busy".to_string())]);
    assert_eq!(done_text(&report), "deleted 2 file(s), freed 2 KiB, 1 failed.");
    let left = remaining_groups(&groups, &report.deleted_paths());
    assert_eq!(left.len(), 1);
    assert_eq!(left[0].hash, "2");

    let renames = keeper_renames(&groups, &PathSet::new());
    assert_eq!(renames.len(), 1);
    assert_eq!(renames[0].new_name, "report.pdf");
    assert!(!is_alone(&left, &renames[0].path));
    assert!(is_alone(&left, "/home/u/x.txt"));
    assert!(keeper_renames(&groups, &set(&["/d/report.pdf"])).is_empty());

    let mut solo = solo_group(&groups, &renames[0].path);
    assert_eq!(solo[0].file_count(), 1);
    let (new, _) = rename_in_groups(&mut solo, &renames[0].path, "report.pdf", false, Ok(())).unwrap();
    assert_eq!(new, "/d/report.pdf");
}

#[test]
fn groups_are_dealt_with_again_when_they_grow() {
    let mut st = StreamState::new();
    let g = group("h", &["/home/u/x.txt", "/tmp/x.txt"]);
    let (plan, first) = match st.take_group(&g) {
        GroupStep::Delete { plan, first_time } => (plan, first_time),
        _ => panic!("there is a copy to delete"),
    };
    assert!(first);
    assert_eq!(plan.items[0].path, "/tmp/x.txt");
    let report = Deleter::trash().delete_planned(&plan, vec![Ok(())]);
    assert_eq!(st.record(&report), vec!["/tmp/x.txt"]);
    assert_eq!((st.total_deleted, st.total_failed, st.total_freed), (1, 0, 1024));

    // The scan still reports the deleted file.
    let again = st.confirmed(vec![group("h", &["/home/u/x.txt", "/tmp/x.txt"])]);
    assert!(again.is_empty());
    let grown = st.confirmed(vec![group("h", &["/home/u/x.txt", "/tmp/x.txt", "/tmp/y.txt"])]);
    match st.take_group(&grown[0]) {
        GroupStep::Delete { plan, first_time } => {
            assert!(!first_time);
            assert_eq!(plan.items[0].path, "/tmp/y.txt");
        }
        _ => panic!("the new copy goes too"),
    }
    assert!(stream_line(&grown[0], false).ends_with("keeping /home/u/x.txt  (more copies found)"));
    assert_eq!(st.members.len(), 1);
    assert_eq!(st.members[0].files.len(), 3);
    assert_eq!(st.status_text(), "scanned 0 files · 1 groups · 1 deleted · 1 KiB freed");
    assert_eq!(
        st.summary_text("0.5", 2),
        "scanned 0 files in 0.5s, 1 duplicate groups, deleted 1 file(s), freed 1 KiB, 0 failed, renamed 2 keeper(s)"
    );
}

#[test]
fn groups_that_cannot_lose_a_copy_are_left_alone() {
    let mut st = StreamState::new();
    assert!(matches!(st.take_group(&group("1", &["/a"])), GroupStep::Skip));
    // The same path twice: deleting the copy would delete the keeper.
    assert!(matches!(st.take_group(&group("2", &["/a", "/a"])), GroupStep::Refused(_)));
    assert!(st.groups_seen.is_empty());
}

#[test]
fn a_streaming_run_follows_the_events() {
    let mut st = StreamState::new();
    assert!(matches!(st.on_event(true, Ok(None)), StreamStep::Over { interrupted: true }));
    assert!(matches!(st.on_event(false, Ok(None)), StreamStep::Wait));
    assert!(matches!(st.on_event(false, Err(())), StreamStep::Over { interrupted: false }));
    let progress = ScanProgress { scanned_count: 4, total_size: 4, skipped: 0 };
    assert!(matches!(st.on_event(false, Ok(Some(EngineEvent::Progress(progress)))), StreamStep::Status));
    assert_eq!(st.progress.scanned_count, 4);
    let groups = vec![group("h", &["/a", "/b"])];
    assert!(matches!(st.on_event(false, Ok(Some(EngineEvent::Groups(groups)))), StreamStep::Handle(g) if g.len() == 1));
    let end = EngineEvent::Complete { finder: DuplicateFinder::new(), progress, elapsed: 1 };
    assert!(matches!(st.on_event(false, Ok(Some(end))), StreamStep::Last(g) if g.is_empty()));
}

#[test]
fn the_last_survivor_gets_the_original_name() {
    let mut st = StreamState::new();
    st.take_group(&group("h", &["/d/a (1).txt", "/d/a (2).txt"]));
    let both = set(&["/d/a (1).txt", "/d/a (2).txt"]);
    assert!(st.rename_at(0, &both).is_none());
    let last = st.rename_at(0, &set(&["/d/a (2).txt"])).unwrap();
    assert_eq!(last.keeper.path, "/d/a (2).txt");
    assert_eq!(last.target, "/d/a.txt");
    assert_eq!(last.new_name, "a.txt");
}
