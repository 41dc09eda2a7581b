use dupscanner::app::{App, Scope, ViewMode};
use dupscanner::deletion::Deleter;
use dupscanner::duplicates::DuplicateGroup;
use dupscanner::panels::{
    confirm_text, file_lines, files_title, footer, groups_panel, header, no_groups_text, signed_text,
    statistics, FooterKind, StatLine,
};
use dupscanner::scanner::{FileInfo, Timestamp};
use dupscanner::selection::SelectMode;
use dupscanner::tui::{handle_key, key_command, truncate_middle, Command, Effect, Key};

fn info(path: &str) -> FileInfo {
    FileInfo {
        path: path.to_string(),
        size: 2048,
        quick_hash: None,
        hash: None,
        modified: Timestamp::from_secs(0),
        depth: 2,
    }
}

fn app() -> App {
    let group = |hash: &str, a: &str, b: &str| DuplicateGroup::new(hash.to_string(), vec![info(a), info(b)]);
    App::from_recorded(
        "/r".to_string(),
        vec![group("0123456789abcdef", "/r/a (1).txt", "/r/tmp/a.txt"), group("2", "/r/c", "/r/d")],
        10,
        Deleter::trash(),
        Some(3),
    )
}

fn press(app: &mut App, c: char) -> Effect {
    handle_key(app, Key::Char(c), false)
}

#[test]
fn truncation_handles_multibyte() {
    let s = "/Users/jörg/Bilder/Käse/🙂🙂🙂🙂/über/lang/pfad/datei.jpg";
    let t = truncate_middle(s, 24);
    assert!(t.chars().count() <= 24);
    assert!(t.contains('…'));
    assert!(t.ends_with("datei.jpg"));
}

#[test]
fn short_strings_untouched() {
    assert_eq!(truncate_middle("abc", 10), "abc");
}

#[test]
fn truncation_keeps_a_third_in_front() {
    assert_eq!(truncate_middle("abcdefghijklmnop", 10), "abc…klmnop");
    assert_eq!(truncate_middle("abcdefghijklmnop", 7), "abcdefghijklmnop");
}

#[test]
fn keys_move_and_mark() {
    let mut app = app();
    press(&mut app, 'j');
    assert_eq!(app.selected_file_index, 1);
    handle_key(&mut app, Key::Up, false);
    assert_eq!(app.selected_file_index, 0);
    press(&mut app, ' ');
    assert_eq!(app.marked.len(), 1);
    press(&mut app, 'n');
    assert_eq!(app.current_group_index, 1);
    press(&mut app, 'O');
    assert_eq!(app.marked.len(), 2);
    press(&mut app, 'C');
    assert!(app.marked.is_empty());
    assert_eq!(app.status_message.as_deref(), Some("Cleared all marks"));
    press(&mut app, 'g');
    assert!(app.status_message.is_none(), "a silent key clears the message");
    assert!(matches!(press(&mut app, 'q'), Effect::Quit));
}

#[test]
fn nothing_is_deleted_without_a_confirming_key() {
    let mut app = app();
    press(&mut app, 'o');
    assert!(matches!(press(&mut app, 'd'), Effect::Nothing));
    assert!(app.pending_confirm.is_some());
    // The dialog swallows the other keys.
    assert!(matches!(press(&mut app, 'j'), Effect::Nothing));
    assert!(matches!(handle_key(&mut app, Key::Esc, false), Effect::Nothing));
    assert!(app.pending_confirm.is_none());
    assert_eq!(app.status_message.as_deref(), Some("Deletion cancelled"));
    press(&mut app, 'd');
    match handle_key(&mut app, Key::Enter, false) {
        Effect::Delete(plan) => assert_eq!(plan.len(), 1),
        _ => panic!("the plan should be carried out"),
    }
}

#[test]
fn text_fields_take_the_keys() {
    let mut app = app();
    press(&mut app, '/');
    for c in "tmq".chars() {
        press(&mut app, c);
    }
    handle_key(&mut app, Key::Char('x'), true);
    handle_key(&mut app, Key::Backspace, false);
    press(&mut app, 'p');
    assert_eq!(footer(&app).0, "Filter path contains: tmp▏   (Enter apply · Esc cancel)");
    handle_key(&mut app, Key::Enter, false);
    assert_eq!(app.visible.len(), 1);
    press(&mut app, 'r');
    press(&mut app, 'z');
    match handle_key(&mut app, Key::Enter, false) {
        Effect::Rename(path, name) => {
            assert_eq!(path, "/r/a (1).txt");
            assert_eq!(name, "a (1).txtz");
        }
        _ => panic!("a rename should follow"),
    }
    assert!(matches!(press(&mut app, 'N'), Effect::RenameKeeper));
    assert!(matches!(handle_key(&mut app, Key::Enter, false), Effect::Open(p) if p == "/r/a (1).txt"));
}

#[test]
fn the_mark_menu_takes_letters() {
    let mut app = app();
    press(&mut app, 'm');
    assert!(app.show_mark_menu);
    let letter = SelectMode::AllButOldest.shortcut();
    assert_eq!(
        key_command(&app, Key::Char(letter.to_ascii_uppercase()), false),
        Command::MarkFromMenu(SelectMode::AllButOldest, Scope::AllGroups)
    );
    press(&mut app, letter);
    assert!(!app.show_mark_menu);
    assert_eq!(app.marked.len(), 1);
}

#[test]
fn help_toggles_and_escape_leaves_it() {
    let mut app = app();
    press(&mut app, '?');
    assert_eq!(app.view_mode, ViewMode::Help);
    handle_key(&mut app, Key::Esc, false);
    assert_eq!(app.view_mode, ViewMode::Duplicates);
    assert_eq!(key_command(&app, Key::Esc, false), Command::Nothing);
}

#[test]
fn panels_say_what_there_is() {
    let mut app = app();
    let h = header(&app);
    assert_eq!(h.title, "dupscanner · Duplicates · /r");
    assert!(h.scanning.is_none() && h.filter.is_none());

    let p = groups_panel(&app, 1);
    assert_eq!(p.title, "Groups (1/2) · 4 KiB wasted");
    assert_eq!(p.lines, vec!["2 × 2 KiB  (2 KiB wasted)"]);
    press(&mut app, 'o');
    assert_eq!(groups_panel(&app, 9).lines[0], "2 × 2 KiB  (2 KiB wasted) [1✗]");
    app.clear_status();
    let (text, kind) = footer(&app);
    assert_eq!(kind, FooterKind::Keys);
    assert!(text.ends_with("   [1 marked, 2 KiB, via trash]"));

    let lines = file_lines(&app, 80);
    assert_eq!(lines.len(), 2);
    assert!(lines[0].selected && !lines[1].selected);
    assert_eq!(lines.iter().filter(|l| l.keeper).count(), 1);
    assert!(lines.iter().all(|l| l.marked != l.keeper));
    let title = files_title(app.current_group().unwrap());
    assert_eq!(title, "Files · 2 × 2 KiB · hash 0123456789ab · original name: a.txt");
    app.set_path_filter("nowhere".to_string());
    assert_eq!(no_groups_text(&app), "No groups match the filter (x clears it)");
}

#[test]
fn the_selected_group_is_always_shown() {
    let groups: Vec<DuplicateGroup> = (0..20)
        .map(|i| DuplicateGroup::new(i.to_string(), vec![info("/a"), info("/b")]))
        .collect();
    let mut app = App::from_recorded("/r".to_string(), groups, 0, Deleter::trash(), None);
    for at in 0..20 {
        for rows in 0..25 {
            let p = groups_panel(&app, rows);
            assert!(p.first <= at && at < p.first + p.lines.len());
        }
        app.next_group();
    }
}

#[test]
fn statistics_list_the_scan() {
    let app = app();
    let rows = statistics(&app, "1.0s (10 files/s)", "disabled", None);
    let value = |label: &str| {
        rows.iter()
            .find_map(|r| match r {
                StatLine::Row(l, v) if l == label => Some(v.clone()),
                _ => None,
            })
            .unwrap()
    };
    assert_eq!(value("Elapsed"), "1.0s (10 files/s)");
    assert_eq!(value("Files scanned"), "10");
    assert_eq!(value("Duplicate files"), "4");
    assert_eq!(value("Marked"), "0 files, 0 B");
    assert_eq!(value("Database"), "not recorded");
    assert_eq!(signed_text(i64::MIN), "-9223372036854775808");
}

#[test]
fn the_dialog_lists_what_fits() {
    let mut app = app();
    press(&mut app, 'O');
    press(&mut app, 'D');
    let t = confirm_text(&app, app.pending_confirm.as_ref().unwrap(), 1, 40);
    assert_eq!(t.question, "Delete 2 file(s) from all groups, freeing 4 KiB?");
    assert_eq!(t.files.len(), 1);
    assert!(t.files[0].starts_with("  ✗ /r/"));
    assert_eq!(t.more.as_deref(), Some("  … and 1 more"));
}
