use dupscanner::engine::{Engine, EngineEvent, RemovedPaths, ScanSession};
use dupscanner::path_set::PathSet;
use dupscanner::finder::DuplicateFinder;
use dupscanner::scanner::{
    compute_file_hash, compute_quick_hash, FileInfo, ScanConfig, ScanProgress, Scanner,
};

const FILES: [(&str, &[u8]); 3] = [("/r/a.txt", b"pair"), ("/r/b.txt", b"pair"), ("/r/c.txt", b"solo")];

fn config() -> ScanConfig {
    ScanConfig {
        root_path: "/r".to_string(),
        min_size: 1,
        max_size: None,
        exclude_patterns: vec![],
        batch_size: 1000,
    }
}

fn content(path: &str) -> &'static [u8] {
    FILES.iter().find(|(p, _)| *p == path).unwrap().1
}

/// Runs a scan of `files` through a session, as a thread would.
fn run(files: &[(&str, &[u8])], removed: &[&str]) -> (ScanSession, EngineEvent) {
    let mut session = ScanSession::start(config());
    for r in removed {
        session.removed_paths().add(r.to_string());
    }
    let gone = session.removed_paths().take();
    let mut walk = Scanner::new(config()).scan_streaming();
    let mut engine = Engine::new();
    let mut batches = Vec::new();
    for (path, data) in files {
        assert!(walk.enters(path, 1));
        if let Some((p, batch)) = walk.offer(FileInfo::from_path(path, data.len() as u64, None)) {
            session.deliver(engine.on_progress(p));
            batches.push(batch);
        }
    }
    let (p, last) = walk.finish();
    session.deliver(engine.on_progress(p));
    batches.extend(last);
    for batch in batches {
        for ask in engine.on_batch(batch) {
            engine.on_quick_hash(&ask, Ok(compute_quick_hash(content(&ask.path))));
        }
        for ask in engine.full_requests() {
            engine.on_full_hash(&ask, Ok(compute_file_hash(content(&ask.path))));
        }
        if let Some(groups) = engine.finish_batch(&PathSet::new(), 0) {
            session.deliver(EngineEvent::Groups(groups));
        }
    }
    let (snapshot, complete) = engine.finish(&gone, 77);
    session.deliver(snapshot);
    (session, complete)
}

#[test]
fn session_reports_pairs_and_completes() {
    let (mut session, complete) = run(&FILES, &[]);
    session.deliver(complete);
    session.close();
    let run = session.run_to_completion();
    assert!(!run.reports.is_empty());
    let (finder, progress, elapsed) = run.finished.unwrap();
    assert_eq!(progress.scanned_count, 3);
    assert_eq!(finder.groups().len(), 1);
    assert_eq!(finder.groups()[0].file_count(), 2);
    assert_eq!(elapsed, 77);
}

#[test]
fn removed_paths_are_dropped_from_final_result() {
    let (mut session, complete) = run(&FILES[..2], &["/r/b.txt"]);
    session.deliver(complete);
    session.close();
    let (finder, _, _) = session.run_to_completion().finished.unwrap();
    assert!(finder.groups().is_empty());
}

#[test]
fn a_session_that_ends_early_says_so() {
    let (mut session, _) = run(&FILES, &[]);
    assert!(session.next_timeout().is_ok());
    session.close();
    while let Some(event) = session.next() {
        assert!(!matches!(event, EngineEvent::Complete { .. }));
    }
    assert!(session.try_next().is_none());
    assert!(session.next_timeout().is_err());
    assert!(session.run_to_completion().finished.is_none());
}

#[test]
fn snapshots_are_not_sent_too_often() {
    let mut engine = Engine::new();
    let feed = |engine: &mut Engine, paths: &[&str]| {
        let files = paths.iter().map(|p| FileInfo::from_path(p, 4, None)).collect();
        for ask in engine.on_batch(files) {
            engine.on_quick_hash(&ask, Ok("same".to_string()));
        }
        for ask in engine.full_requests() {
            engine.on_full_hash(&ask, Ok("same".to_string()));
        }
    };
    feed(&mut engine, &["/a", "/b"]);
    assert!(engine.finish_batch(&PathSet::new(), 1000).is_some());
    feed(&mut engine, &["/c"]);
    assert!(engine.finish_batch(&PathSet::new(), 1100).is_none());
    let late = engine.on_timeout(1300).unwrap();
    assert_eq!(late[0].file_count(), 3);
    assert!(engine.on_timeout(2000).is_none(), "nothing changed since");
}

#[test]
fn removed_paths_are_handed_over_once() {
    let mut removed = RemovedPaths::default();
    removed.add_all(&vec!["/a".to_string(), "/b".to_string()]);
    assert_eq!(removed.take().len(), 2);
    assert!(removed.take().is_empty());
}

#[test]
fn events_are_taken_a_frame_at_a_time() {
    let mut session = ScanSession::start(config());
    for i in 0..40 {
        session.deliver(EngineEvent::Progress(ScanProgress { scanned_count: i, total_size: 0, skipped: 0 }));
    }
    assert_eq!(session.take_events().len(), 32);
    session.deliver(EngineEvent::Complete {
        finder: DuplicateFinder::new(),
        progress: ScanProgress::default(),
        elapsed: 1,
    });
    session.deliver(EngineEvent::Groups(vec![]));
    let last = session.take_events();
    assert_eq!(last.len(), 9);
    assert!(matches!(last[0], EngineEvent::Progress(p) if p.scanned_count == 32));
    assert!(matches!(last[8], EngineEvent::Complete { .. }));
    assert_eq!(session.take_events().len(), 1);
}
