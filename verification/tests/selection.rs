use dupscanner::duplicates::DuplicateGroup;
use dupscanner::path_set::PathSet;
use dupscanner::paths::depth;
use dupscanner::scanner::{FileInfo, Timestamp};
use dupscanner::selection::{
    apply_mode, clear_marks, paths_for_mode, select_for_deletion, SelectMode,
};
use dupscanner::suggestions::SuggestionEngine;

fn info(path: &str, age: i64) -> FileInfo {
    FileInfo {
        path: path.to_string(),
        size: 10,
        quick_hash: None,
        hash: Some("h".to_string()),
        modified: Timestamp::from_secs(1_000_000 - age),
        depth: depth(path),
    }
}

fn group() -> DuplicateGroup {
    DuplicateGroup::new(
        "h".to_string(),
        vec![
            info("/home/u/Documents/report.pdf", 500),
            info("/home/u/Downloads/report.pdf", 10),
            info("/home/u/a/b/c/d/report copy.pdf", 0),
        ],
    )
}

fn names(g: &DuplicateGroup, idx: &[usize]) -> Vec<String> {
    idx.iter().map(|&i| g.files[i].path.clone()).collect()
}

#[test]
fn suggested_and_keeper_modes_follow_the_heuristics() {
    let g = group();
    let keep = SuggestionEngine::analyze(&g.files).keeper.unwrap();
    assert!(g.files[keep].path.ends_with("Documents/report.pdf"));
    let s = select_for_deletion(&g, SelectMode::Suggested);
    assert!(!s.contains(&keep));
    assert_eq!(s.len(), 2);
    let k = select_for_deletion(&g, SelectMode::AllButKeeper);
    assert_eq!(k.len(), 2);
    assert!(!k.contains(&keep));
}

#[test]
fn survivor_modes_keep_exactly_one() {
    let g = group();
    for mode in [
        SelectMode::AllButOldest,
        SelectMode::AllButNewest,
        SelectMode::AllButShortestPath,
        SelectMode::AllButLongestPath,
    ] {
        let picked = select_for_deletion(&g, mode);
        assert_eq!(picked.len(), 2, "{mode:?}");
    }
    let oldest = select_for_deletion(&g, SelectMode::AllButOldest);
    assert!(!names(&g, &oldest).iter().any(|p| p.contains("Documents")));
    let longest = select_for_deletion(&g, SelectMode::AllButLongestPath);
    assert!(!names(&g, &longest).iter().any(|p| p.contains("copy")));
}

#[test]
fn apply_mode_owns_the_groups_marks() {
    let g = group();
    let mut marks = PathSet::new();
    marks.insert(g.files[0].path.clone()); // manual mark on the eventual survivor
    let n = apply_mode(&mut marks, &g, SelectMode::AllButKeeper);
    assert_eq!(n, 2);
    assert_eq!(marks.len(), 2);
    assert!(!marks.contains(&g.files[0].path));
    clear_marks(&mut marks, &g);
    assert!(marks.is_empty());
}

#[test]
fn never_marks_every_copy() {
    let g = DuplicateGroup::new("h".to_string(), vec![info("/x/a", 0), info("/x/b", 0)]);
    for mode in SelectMode::ALL {
        assert!(select_for_deletion(&g, mode).len() < 2, "{mode:?}");
    }
}

#[test]
fn parse_and_shortcuts_round_trip() {
    for mode in SelectMode::ALL {
        assert_eq!(SelectMode::parse(mode.key()), Some(mode));
        assert_eq!(SelectMode::from_shortcut(mode.shortcut()), Some(mode));
    }
    assert_eq!(SelectMode::parse("nothing"), None);
    assert_eq!(SelectMode::from_shortcut('?'), None);
}

#[test]
fn paths_for_a_mode_leave_the_survivor() {
    let paths = paths_for_mode(&vec![group()], SelectMode::AllButNewest);
    assert_eq!(
        paths,
        vec!["/home/u/Documents/report.pdf", "/home/u/Downloads/report.pdf"]
    );
}
