use dupscanner::duplicates::DuplicateGroup;
use dupscanner::naming::{
    canonical_name, has_copy_marker, literal_bases, rename_target, split_name, strip_copy_markers,
    suggested_rename, NameCounts,
};
use dupscanner::scanner::{FileInfo, Timestamp};

fn info(path: &str) -> FileInfo {
    FileInfo {
        path: path.to_string(),
        size: 10,
        quick_hash: None,
        hash: Some("h".to_string()),
        modified: Timestamp::from_secs(0),
        depth: 3,
    }
}

#[test]
fn splitting_names() {
    assert_eq!(split_name("report (1).pdf"), ("report (1)", ".pdf"));
    assert_eq!(split_name("archive.tar.gz"), ("archive", ".tar.gz"));
    assert_eq!(split_name(".bashrc"), (".bashrc", ""));
    assert_eq!(split_name("README"), ("README", ""));
    assert_eq!(split_name("v1.2.3"), ("v1.2", ".3"));
}

#[test]
fn stripping_markers() {
    for (input, base) in [
        ("report (1)", "report"),
        ("report(2)", "report"),
        ("report copy", "report"),
        ("report - Copy", "report"),
        ("report - Copy (2)", "report"),
        ("report copy 3", "report"),
        ("Copy of report", "report"),
        ("report_copy", "report"),
        ("report duplicate", "report"),
        ("IMG_0001 2", "IMG_0001"),
        ("report copy (1) copy", "report"),
    ] {
        let (b, stripped) = strip_copy_markers(input);
        assert_eq!(b, base, "{input}");
        assert!(stripped, "{input}");
    }
    for clean in ["report", "chapter 12", "img_2024", "copyright", "(1)", "Copy"] {
        let (b, stripped) = strip_copy_markers(clean);
        assert_eq!(b, clean);
        assert!(!stripped, "{clean}");
    }
}

#[test]
fn copy_marker_detection_uses_group_context() {
    let g = DuplicateGroup::new("h".to_string(), vec![info("/x/photo.jpg"), info("/x/photo 2.jpg")]);
    let bases = literal_bases(&g.files);
    assert!(has_copy_marker("photo 2.jpg", &bases));
    assert!(has_copy_marker("photo (1).jpg", &NameCounts::new()));
    assert!(has_copy_marker("photo copy.jpg", &NameCounts::new()));
    assert!(!has_copy_marker("file_2.txt", &NameCounts::new()));
    assert!(!has_copy_marker("chapter 12.md", &bases));
}

#[test]
fn a_bare_digit_after_a_longer_word_is_no_marker() {
    let none = NameCounts::new();
    for name in ["copyright 2.txt", "photocopy_3.jpg", "kopieren 2.md", "copied-4.txt", "notes (a) 2.txt"] {
        assert!(!has_copy_marker(name, &none), "{name}");
    }
    for name in ["copyright (2).txt", "copy of report 2.txt", "Kopie von x 2.md", "copie de y.txt", "a copy 2.txt"] {
        assert!(has_copy_marker(name, &none), "{name}");
    }
    let g = DuplicateGroup::new("h".to_string(), vec![info("/x/copyright.txt"), info("/x/copyright 2.txt")]);
    assert!(has_copy_marker("copyright 2.txt", &literal_bases(&g.files)));
}

#[test]
fn canonical_name_prefers_the_clean_member() {
    let g = DuplicateGroup::new(
        "h".to_string(),
        vec![info("/a/Report (1).pdf"), info("/b/report.pdf"), info("/c/Report copy.pdf")],
    );
    let c = canonical_name(&g).unwrap();
    assert_eq!(c.name, "report.pdf");
    assert_eq!(c.existing, Some(1));
    assert!(suggested_rename(&g, 1, false).is_none(), "keeper already has the name");
    assert!(
        suggested_rename(&g, 0, false).is_none(),
        "another copy has the name; prefer it instead"
    );
}

#[test]
fn canonical_name_offers_rename_when_original_is_gone() {
    let a = "/d/report (1).pdf";
    let b = "/d/report (2).pdf";
    let g = DuplicateGroup::new("h".to_string(), vec![info(a), info(b)]);
    let c = canonical_name(&g).unwrap();
    assert_eq!(c.name, "report.pdf");
    assert_eq!(c.existing, None);
    assert_eq!(rename_target(&g, 0).unwrap().0, "/d/report.pdf");
    let (path, new_name) = suggested_rename(&g, 0, false).unwrap();
    assert_eq!(path, a);
    assert_eq!(new_name, "report.pdf");

    // Occupied target: no suggestion.
    assert!(suggested_rename(&g, 0, true).is_none());
}

#[test]
fn no_markers_means_no_opinion() {
    let g = DuplicateGroup::new("h".to_string(), vec![info("/a/one.txt"), info("/b/two.txt")]);
    assert!(canonical_name(&g).is_none());
}

#[test]
fn name_counts_count() {
    let mut counts = NameCounts::new();
    counts.count("a".to_string());
    counts.count("a".to_string());
    assert_eq!(counts.get("a"), 2);
    assert_eq!(counts.get("b"), 0);
}
