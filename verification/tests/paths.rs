use dupscanner::order::order_desc;
use dupscanner::path_set::PathSet;
use dupscanner::paths::{
    byte_len, data_dir, default_db_path, depth, file_name, is_path_before, join, key_of, normal_form, parent,
    same_path,
};
use std::path::Path;

const PATHS: [&str; 16] = [
    "", "/", ".", "..", "a", "/a", "a/", "/a/b", "/a//b/", "/a/./b", "./a", "a/..", "/..", "//a", "a/.", "ä/ö.txt",
];

#[test]
fn paths_have_the_parts_that_std_gives_them() {
    for p in PATHS {
        let std = Path::new(p);
        assert_eq!(
            file_name(p),
            std.file_name().map(|n| n.to_string_lossy().to_string()),
            "name of {p:?}"
        );
        assert_eq!(depth(p), std.components().count(), "depth of {p:?}");
        assert_eq!(
            parent(p).map(|q| normal_form(&q)),
            std.parent().map(|q| normal_form(&q.to_string_lossy())),
            "parent of {p:?}"
        );
        for q in PATHS {
            let joined = std.join(q);
            assert_eq!(join(p, q), joined.to_string_lossy(), "{p:?} and {q:?}");
            assert_eq!(is_path_before(p, q), std < Path::new(q), "{p:?} before {q:?}");
        }
    }
    assert_eq!(byte_len("ä"), 2);
}

#[test]
fn the_program_keeps_its_data_in_one_place() {
    assert_eq!(data_dir("/l"), "/l/dupscanner");
    assert_eq!(default_db_path("/l"), "/l/dupscanner/scans.db");
}

#[test]
fn descending_order_is_stable() {
    assert_eq!(order_desc(&vec![3, 9, 3, 1, 9]), vec![1, 4, 0, 2, 3]);
}

#[test]
fn normal_forms_tell_paths_apart_as_std_does() {
    for p in PATHS {
        let form = normal_form(p);
        assert_eq!(normal_form(&form), form);
        assert_eq!(Path::new(&form), Path::new(p));
        for q in PATHS {
            assert_eq!(form == normal_form(q), Path::new(p) == Path::new(q), "{p:?} and {q:?}");
        }
    }
}

#[test]
fn path_sets_list_their_members_oldest_first() {
    let list = |names: &[&str]| -> Vec<String> { names.iter().map(|n| n.to_string()).collect() };
    let mut set = PathSet::from_list(&list(&["/b", "/a", "/b", "/c"]));
    assert_eq!(set.to_list(), list(&["/b", "/a", "/c"]));
    assert!(!set.insert("/a".to_string()));
    assert!(set.remove("/b"));
    assert!(!set.remove("/b"));
    set.insert_all(&list(&["/c", "/b"]));
    assert_eq!(set.to_list(), list(&["/a", "/c", "/b"]));
    assert_eq!((set.len(), set.get(1).as_str()), (3, "/c"));
    set.clear();
    assert!(set.is_empty());
}

#[test]
fn path_sets_hold_paths_and_not_texts() {
    let mut set = PathSet::from_list(&vec!["/a//b".to_string(), "/a/b".to_string(), "./c".to_string()]);
    assert_eq!(set.len(), 2);
    assert_eq!(set.to_list(), vec!["/a//b", "./c"]);
    assert!(set.contains("/a/b/") && set.contains("./c/.") && !set.contains("c"));
    assert!(!set.insert("/a/./b".to_string()));
    assert!(set.remove("/a/b"));
    assert!(!set.contains("/a//b"));
    for a in PATHS {
        for b in PATHS {
            assert_eq!(same_path(a, b), Path::new(a) == Path::new(b), "{a:?} {b:?}");
            assert_eq!(key_of(a) == key_of(b), Path::new(a) == Path::new(b), "{a:?} {b:?}");
        }
    }
}
