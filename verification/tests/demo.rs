use dupscanner::demo::{demo_counts, demo_dirs, demo_group, generate_content, unique_files};

#[test]
fn test_generate_demo_data() {
    let dirs = demo_dirs();
    assert!(dirs.contains(&"documents".to_string()));
    assert!(dirs.contains(&"downloads".to_string()));
    assert!(dirs.contains(&"temp".to_string()));

    for i in 0..3 {
        let files = demo_group("/base", i, 2, 150);
        assert_eq!(files.len(), 3);
        assert!(files.iter().all(|f| f.content == files[0].content));
        // Every file goes into a directory that is made.
        for f in &files {
            assert!(dirs.iter().any(|d| f.path.starts_with(&format!("/base/{d}/"))));
        }
    }
    let counts = demo_counts(3, 2);
    assert_eq!(counts.total_files, 12);
    assert_eq!(counts.unique_files, 6);
    assert_eq!(counts.duplicate_files, 6);
    assert_eq!(counts.groups, 3);
}

#[test]
fn test_generate_content() {
    let content = generate_content("test", 500, 42);
    assert!(content.len() <= 500);
    assert!(content.contains("test"));
    assert!(content.contains("File ID: 42"));
}

#[test]
fn contents_have_the_size_that_was_asked_for() {
    for size in [0, 5, 77, 1000, 9999] {
        assert_eq!(generate_content("test", size, 1).len(), size);
    }
    let text = generate_content("Käse", 400, 7);
    assert_eq!(text.len(), 400);
    assert!(text.starts_with("=== Käse ===\n\nFile ID: 7\nGenerated for dupscanner demo\n\nLorem ipsum"));
    assert!(text.contains("elit. Line 1\nLorem"));
}

#[test]
fn duplicates_are_spread_over_the_tree() {
    let files = demo_group("/b", 1, 6, 100);
    let paths: Vec<&str> = files.iter().map(|f| f.path.as_str()).collect();
    assert_eq!(
        paths,
        vec![
            "/b/pictures/file_1.txt",
            "/b/downloads/file_1.txt",
            "/b/temp/file_1_temp.txt",
            "/b/backup/file_1_copy.txt",
            "/b/backup/old/file_1 (1).txt",
            "/b/pictures/file_1_backup.txt",
            "/b/downloads/file_1_duplicate.txt",
        ]
    );
    assert!(files[0].content.starts_with("=== Project source code ===\n"));
    assert_eq!(unique_files("/b")[2].path, "/b/pictures/metadata.json");
}
