use dupscanner::scanner::{
    compute_file_hash, compute_quick_hash, default_batch_size, get_default_exclusions, ContentHasher,
    ExclusionMatcher, FileInfo, ScanConfig, Scanner, Timestamp,
};

fn patterns(list: &[&str]) -> Vec<String> {
    list.iter().map(|p| p.to_string()).collect()
}

#[test]
fn file_info_creation() {
    let file_info = FileInfo::from_path("/d/test.txt", 12, Some(Timestamp::from_secs(9)));
    assert_eq!(file_info.size, 12);
    assert!(file_info.hash.is_none());
    assert_eq!(file_info.depth, 3);
    assert_eq!(file_info.modified, Timestamp::from_secs(9));
}

#[test]
fn hash_is_stable() {
    let mut file_info = FileInfo::from_path("/d/test.txt", 12, None);
    file_info.compute_hash(Ok(compute_file_hash(b"test content"))).unwrap();
    let first = file_info.hash.clone();
    file_info.hash = None;
    file_info.compute_hash(Ok(compute_file_hash(b"test content"))).unwrap();
    assert_eq!(first, file_info.hash);
    // SHA-256 of "test content".
    assert_eq!(
        first.unwrap(),
        "6ae8a75555209fd6c44157c0aed8016e763ff435a19cf186f76863140143ff72"
    );
}

#[test]
fn quick_hash_equals_full_hash_for_small_files_only() {
    let small = b"small content";
    let mut small_info = FileInfo::from_path("/d/small.txt", small.len() as u64, None);
    small_info.compute_quick_hash(Ok(compute_quick_hash(small))).unwrap();
    // Small file: quick hash doubles as the full hash without a re-read.
    assert_eq!(small_info.quick_hash, small_info.hash);
    assert_eq!(small_info.hash.as_deref(), Some(compute_file_hash(small).as_str()));

    let large = vec![7u8; 128 * 1024];
    let mut large_info = FileInfo::from_path("/d/large.bin", large.len() as u64, None);
    large_info.compute_quick_hash(Ok(compute_quick_hash(&large))).unwrap();
    assert!(large_info.hash.is_none());
    large_info.compute_hash(Ok(compute_file_hash(&large))).unwrap();
    assert_ne!(large_info.quick_hash, large_info.hash);
}

#[test]
fn quick_hash_ignores_bytes_after_window() {
    let mut data = vec![1u8; 100 * 1024];
    let a = data.clone();
    data[90 * 1024] = 2;
    assert_eq!(compute_quick_hash(&a), compute_quick_hash(&data));
    assert_ne!(compute_file_hash(&a), compute_file_hash(&data));
}

#[test]
fn exclusion_matcher() {
    let m = ExclusionMatcher::new(&patterns(&["*.tmp", "node_modules", "*/.git/*"]));
    assert!(m.matches("/tmp/test.tmp"));
    assert!(!m.matches("/tmp/test.txt"));
    assert!(m.matches("/proj/node_modules"));
    assert!(m.matches("/proj/.git"));
    assert!(m.matches("/proj/.git/config"));
    assert!(!m.matches("/proj/src/main.rs"));
}

#[test]
fn scanner_prunes_excluded_directories_and_files() {
    let config = ScanConfig {
        root_path: "/t/root".to_string(),
        min_size: 1,
        max_size: None,
        exclude_patterns: patterns(&["*.tmp", "node_modules"]),
        batch_size: 1000,
    };
    let scanner = Scanner::new(config);
    assert_eq!(scanner.config().root_path, "/t/root");
    let mut walk = scanner.scan_streaming();
    assert!(walk.enters("/t/root", 0));
    assert!(!walk.enters("/t/root/node_modules", 1));
    assert!(walk.enters("/t/root/src", 1));
    assert!(!walk.enters("/t/root/src/skip.tmp", 2));
    assert!(walk.enters("/t/root/src/keep.txt", 2));
    assert!(walk.offer(FileInfo::from_path("/t/root/src/keep.txt", 7, None)).is_none());
    let (last, batch) = walk.finish();
    let files = batch.unwrap();

    assert_eq!(files.len(), 1);
    assert!(files[0].path.ends_with("keep.txt"));
    assert_eq!(last.scanned_count, 1);
}

#[test]
fn the_root_itself_is_never_excluded() {
    let config = ScanConfig {
        root_path: "/t/node_modules".to_string(),
        min_size: 0,
        max_size: None,
        exclude_patterns: patterns(&["node_modules"]),
        batch_size: 1000,
    };
    let walk = Scanner::new(config).scan_streaming();
    assert!(walk.enters("/t/node_modules", 0));
}

#[test]
fn batches_are_full_and_sizes_are_kept_within_bounds() {
    let config = ScanConfig {
        root_path: "/t".to_string(),
        min_size: 2,
        max_size: Some(4),
        exclude_patterns: vec![],
        batch_size: 2,
    };
    let mut walk = Scanner::new(config).scan_streaming();
    assert!(walk.offer(FileInfo::from_path("/t/small", 1, None)).is_none());
    assert!(walk.offer(FileInfo::from_path("/t/large", 5, None)).is_none());
    assert!(walk.offer(FileInfo::from_path("/t/a", 2, None)).is_none());
    let (progress, batch) = walk.offer(FileInfo::from_path("/t/b", 4, None)).unwrap();
    assert_eq!(batch.len(), 2);
    assert_eq!(progress.scanned_count, 2);
    assert_eq!(progress.total_size, 6);
    walk.entry_failed();
    let (last, rest) = walk.finish();
    assert_eq!(last.skipped, 1);
    assert!(rest.is_none());
}

#[test]
fn hashing_in_pieces_is_hashing_at_once() {
    let data = vec![3u8; 70 * 1024];
    let mut full = ContentHasher::full();
    let mut quick = ContentHasher::quick();
    for piece in data.chunks(4096) {
        full.feed(piece);
        quick.feed(piece);
    }
    assert!(full.wants_more());
    assert!(!quick.wants_more());
    assert_eq!(full.finish(), compute_file_hash(&data));
    assert_eq!(quick.finish(), compute_quick_hash(&data));
    // SHA-256 of nothing.
    assert_eq!(
        compute_file_hash(b""),
        "e3b0c44298fc1c149afbf4c8996fb92427ae41e4649b934ca495991b7852b855"
    );
}

#[test]
fn hashes_are_computed_once() {
    let mut f = FileInfo::from_path("/d/x", 3, None);
    assert!(f.get_or_compute_quick_hash(Err("denied".to_string())).is_err());
    assert!(f.quick_hash.is_none());
    assert!(f.needs_reading());
    assert_eq!(f.get_or_compute_quick_hash(Ok("q".to_string())).unwrap(), "q");
    assert_eq!(f.get_or_compute_quick_hash(Ok("other".to_string())).unwrap(), "q");
    assert_eq!(f.get_or_compute_hash(Err("denied".to_string())).unwrap(), "q");
}

#[test]
fn malformed_patterns_are_ignored() {
    let m = ExclusionMatcher::new(&patterns(&["[", " ", ""]));
    assert!(m.is_empty());
    assert!(!m.matches("/x/["));
    let m = ExclusionMatcher::new(&get_default_exclusions());
    assert!(m.matches("/p/.git"));
    assert!(!m.matches("/p/.gitignore"));
    assert_eq!(default_batch_size(), 1000);
}

#[test]
fn a_walk_reports_what_lies_within_the_limits() {
    let mut walk = Scanner::new(ScanConfig {
        root_path: "/r".to_string(),
        min_size: 2,
        max_size: Some(5),
        exclude_patterns: vec![],
        batch_size: 2,
    })
    .scan_streaming();
    let mut found: Vec<(usize, Vec<String>)> = Vec::new();
    for size in [1u64, 2, 5, 6, 3] {
        if let Some((progress, batch)) = walk.offer(FileInfo::from_path(&format!("/r/{size}"), size, None)) {
            found.push((progress.scanned_count, batch.iter().map(|f| f.path.clone()).collect()));
        }
    }
    assert_eq!(found, vec![(2, vec!["/r/2".to_string(), "/r/5".to_string()])]);
    let (progress, rest) = walk.finish();
    assert_eq!((progress.scanned_count, progress.total_size), (3, 10));
    assert_eq!(rest.unwrap()[0].path, "/r/3");
}

#[test]
fn one_odd_pattern_leaves_the_others_alone() {
    let m = ExclusionMatcher::new(&vec!["a\\b".to_string(), "[".to_string(), "*.tmp".to_string()]);
    assert!(m.matches("/r/x.tmp"));
    assert!(!m.matches("/r/x.txt"));
}

#[test]
fn files_keep_their_paths_as_they_were_written() {
    let f = FileInfo::from_path("./d//x/", 3, None);
    assert_eq!(f.path, "./d//x/");
    assert_eq!(f.depth, 3);
}
