use dupscanner::duplicates::DuplicateGroup;
use dupscanner::filters::{FileKind, GroupFilter, SizeBucket};
use dupscanner::scanner::{FileInfo, Timestamp};

fn info(path: &str, size: u64) -> FileInfo {
    FileInfo {
        path: path.to_string(),
        size,
        quick_hash: None,
        hash: Some("h".to_string()),
        modified: Timestamp::from_secs(0),
        depth: 2,
    }
}

#[test]
fn size_buckets() {
    assert_eq!(SizeBucket::of(100), SizeBucket::Tiny);
    assert_eq!(SizeBucket::of(10 * 1024), SizeBucket::Small);
    assert_eq!(SizeBucket::of(5 * 1024 * 1024), SizeBucket::Medium);
    assert_eq!(SizeBucket::of(500 * 1024 * 1024), SizeBucket::Large);
    assert_eq!(SizeBucket::parse("MEDIUM"), Some(SizeBucket::Medium));
    assert_eq!(SizeBucket::parse("huge"), None);
    assert_eq!(SizeBucket::Large.next(), SizeBucket::All);
}

#[test]
fn file_kinds() {
    assert_eq!(FileKind::of("/x/photo.JPG"), FileKind::Image);
    assert_eq!(FileKind::of("/x/clip.mov"), FileKind::Video);
    assert_eq!(FileKind::of("/x/song.flac"), FileKind::Audio);
    assert_eq!(FileKind::of("/x/notes.txt"), FileKind::Document);
    assert_eq!(FileKind::of("/x/site.tar.gz"), FileKind::Archive);
    assert_eq!(FileKind::of("/x/main.rs"), FileKind::Code);
    assert_eq!(FileKind::of("/x/blob"), FileKind::Other);
    assert_eq!(FileKind::parse("Images"), Some(FileKind::Image));
}

#[test]
fn group_filter_matches_any_file() {
    let g = DuplicateGroup::new(
        "h".to_string(),
        vec![info("/a/photo.jpg", 2048), info("/b/photo.jpg", 2048)],
    );
    assert!(GroupFilter::default().matches(&g));
    assert!(GroupFilter { path: "/A/".to_string(), ..Default::default() }.matches(&g));
    assert!(!GroupFilter { path: "/c/".to_string(), ..Default::default() }.matches(&g));
    assert!(GroupFilter { size: SizeBucket::Tiny, ..Default::default() }.matches(&g));
    assert!(!GroupFilter { size: SizeBucket::Large, ..Default::default() }.matches(&g));
    assert!(GroupFilter { kind: FileKind::Image, ..Default::default() }.matches(&g));
    assert!(!GroupFilter { kind: FileKind::Audio, ..Default::default() }.matches(&g));
    assert_eq!(GroupFilter::default().apply(&vec![g.clone(), g.clone()]), vec![0, 1]);
}

#[test]
fn filters_ignore_case_beyond_ascii() {
    let g = DuplicateGroup::new("h".to_string(), vec![info("/ÄPFEL/x", 1), info("/y", 1)]);
    let f = GroupFilter { path: " äpfel ".to_string(), ..Default::default() };
    assert!(f.matches(&g));
    assert!(f.is_active());
    assert!(f.describe().contains("path contains \"äpfel\""), "{}", f.describe());
    assert!(!GroupFilter::default().is_active());
}

#[test]
fn buckets_and_kinds_go_round() {
    let mut size = SizeBucket::All;
    for _ in 0..SizeBucket::ALL.len() {
        size = size.next();
    }
    assert_eq!(size, SizeBucket::All);
    let mut kind = FileKind::All;
    for _ in 0..FileKind::ALL.len() {
        kind = kind.next();
    }
    assert_eq!(kind, FileKind::All);
    assert!(SizeBucket::Tiny.matches(0) && !SizeBucket::Tiny.matches(10 * 1024));
    assert!(FileKind::Code.matches("/x/lib.py") && !FileKind::Code.matches("/x/lib.pdf"));
}
