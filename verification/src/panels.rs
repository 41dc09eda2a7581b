//! The texts that the terminal UI puts on the screen.

use vstd::prelude::*;
use crate::app::{
    marked_count, marked_size_all, App, AppView, Input, InputView, PendingConfirm, Scope, ViewMode,
};
use crate::deletion::{planned_bytes, planned_views};
use crate::duplicates::{DuplicateGroup, GroupView};
use crate::finder::{count_sum, waste_sum};
use crate::naming::{any_marked, canonical_name, canonical_text, is_first_like, names_of};
use crate::outside::{human_size, human_size_of};
use crate::paths::path_key;
use crate::scanner::{capped, capped_count};
use crate::suggestions::{analysis_of, reason_texts, SuggestionEngine, SuggestionView};
use crate::text::{chars_of, decimal, decimal_text, joined, slice_of, text_of, views};
use crate::tui::{middle_cut, truncate_middle};

verus! {

/// A number written in decimal, with a minus sign where it is negative.
pub open spec fn signed(n: int) -> Seq<char> {
    if n < 0 {
        "-"@ + decimal((-n) as nat)
    } else {
        decimal(n as nat)
    }
}

/// A number written in decimal.
pub fn signed_text(n: i64) -> (r: String)
    ensures
        r@ == signed(n as int),
{
    if n < 0 {
        let mut out = "-".to_owned();
        let size: i128 = -(n as i128);
        out.append(decimal_text(size as u64).as_str());
        out
    } else {
        decimal_text(n as u64)
    }
}

// ----- header and footer ---------------------------------------------------

pub open spec fn view_title(m: ViewMode) -> Seq<char> {
    match m {
        ViewMode::Duplicates => "Duplicates"@,
        ViewMode::Statistics => "Statistics"@,
        ViewMode::Help => "Help"@,
    }
}

fn view_name(m: ViewMode) -> (r: &'static str)
    ensures
        r@ == view_title(m),
{
    match m {
        ViewMode::Duplicates => "Duplicates",
        ViewMode::Statistics => "Statistics",
        ViewMode::Help => "Help",
    }
}

/// The parts of the header, those that do not apply left out.
pub struct Header {
    pub title: String,
    pub scanning: Option<String>,
    pub filter: Option<String>,
}

pub fn header(app: &App) -> (r: Header)
    ensures
        r.title@ == "dupscanner · "@ + view_title(app@.view_mode) + " · "@ + app@.root_path,
        r.scanning is Some <==> !app@.scan_complete,
        r.scanning is Some ==> (r.scanning->0)@ == "   scanning… "@ + decimal(
            app@.progress.scanned_count as nat,
        ) + " files, "@ + decimal(app@.groups.len()) + " groups"@,
        r.filter is Some <==> app@.filter.active(),
        r.filter is Some ==> (r.filter->0)@ == "   filter: "@ + app@.filter.description(),
{
    let mut title = "dupscanner · ".to_owned();
    title.append(view_name(app.view_mode));
    title.append(" · ");
    title.append(app.root_path.as_str());
    let scanning = if app.is_scanning() {
        let mut s = "   scanning… ".to_owned();
        s.append(decimal_text(app.progress.scanned_count as u64).as_str());
        s.append(" files, ");
        s.append(decimal_text(app.groups.len() as u64).as_str());
        s.append(" groups");
        Some(s)
    } else {
        None
    };
    let filter = if app.filter.is_active() {
        let mut s = "   filter: ".to_owned();
        s.append(app.filter.describe().as_str());
        Some(s)
    } else {
        None
    };
    Header { title, scanning, filter }
}

/// What the footer is for.
#[derive(Debug, Clone, Copy, PartialEq, Eq, Structural)]
pub enum FooterKind {
    Filter,
    Rename,
    Status,
    Keys,
}

pub open spec fn keys_text(m: ViewMode) -> Seq<char> {
    match m {
        ViewMode::Duplicates =>
            "j/k file · n/p group · Space mark · a/A suggested · o/O keeper · m more · c/C clear · d/D delete · r/N rename · e open · / z t filter · ? help · q quit"@,
        ViewMode::Statistics => "Tab: next view · Esc: back · q: quit"@,
        ViewMode::Help => "Tab or Esc: back · q: quit"@,
    }
}

fn keys_line(m: ViewMode) -> (r: &'static str)
    ensures
        r@ == keys_text(m),
{
    match m {
        ViewMode::Duplicates =>
            "j/k file · n/p group · Space mark · a/A suggested · o/O keeper · m more · c/C clear · d/D delete · r/N rename · e open · / z t filter · ? help · q quit",
        ViewMode::Statistics => "Tab: next view · Esc: back · q: quit",
        ViewMode::Help => "Tab or Esc: back · q: quit",
    }
}

/// The footer: the text field, else the last message, else the keys and what
/// is marked.
pub open spec fn footer_text(v: AppView) -> Seq<char> {
    match v.input {
        Some(InputView::Filter(t)) => "Filter path contains: "@ + t + "▏   (Enter apply · Esc cancel)"@,
        Some(InputView::Rename { path, text }) => "Rename to: "@ + text
            + "▏   (Enter apply · Esc cancel)"@,
        None => match v.status {
            Some(msg) => msg,
            None => keys_text(v.view_mode) + "   ["@ + decimal(v.marked.len()) + " marked, "@
                + human_size_of(capped(marked_size_all(v.groups, v.marked))) + ", via "@
                + v.deleter.method.label_text() + "]"@,
        },
    }
}

pub open spec fn footer_kind(v: AppView) -> FooterKind {
    match v.input {
        Some(InputView::Filter(_)) => FooterKind::Filter,
        Some(InputView::Rename { .. }) => FooterKind::Rename,
        None => if v.status is Some {
            FooterKind::Status
        } else {
            FooterKind::Keys
        },
    }
}

pub fn footer(app: &App) -> (r: (String, FooterKind))
    ensures
        r.0@ == footer_text(app@),
        r.1 == footer_kind(app@),
{
    match &app.input {
        Some(Input::Filter(t)) => {
            let mut s = "Filter path contains: ".to_owned();
            s.append(t.as_str());
            s.append("▏   (Enter apply · Esc cancel)");
            (s, FooterKind::Filter)
        },
        Some(Input::Rename { path, text }) => {
            let mut s = "Rename to: ".to_owned();
            s.append(text.as_str());
            s.append("▏   (Enter apply · Esc cancel)");
            (s, FooterKind::Rename)
        },
        None => {
            match &app.status_message {
                Some(msg) => (msg.clone(), FooterKind::Status),
                None => {
                    let mut s = keys_line(app.view_mode).to_owned();
                    s.append("   [");
                    s.append(decimal_text(app.marked.len() as u64).as_str());
                    s.append(" marked, ");
                    s.append(human_size(app.marked_bytes()).as_str());
                    s.append(", via ");
                    s.append(app.deleter.method().label());
                    s.append("]");
                    (s, FooterKind::Keys)
                },
            }
        },
    }
}

// ----- groups --------------------------------------------------------------

/// What stands in place of the groups when none is visible.
pub fn no_groups_text(app: &App) -> (r: &'static str)
    ensures
        r@ == if !app@.scan_complete {
            "Scanning… no duplicates yet"@
        } else if app@.filter.active() {
            "No groups match the filter (x clears it)"@
        } else {
            "No duplicates found"@
        },
{
    if app.is_scanning() {
        "Scanning… no duplicates yet"
    } else if app.filter.is_active() {
        "No groups match the filter (x clears it)"
    } else {
        "No duplicates found"
    }
}

/// The first of `len` entries on a screen of `rows` rows that keeps
/// `current` near its middle.
pub open spec fn window_start(len: int, current: int, rows: int) -> int {
    let above = if current > rows / 2 {
        current - rows / 2
    } else {
        0
    };
    let last = if len > rows {
        len - rows
    } else {
        0
    };
    if above < last {
        above
    } else {
        last
    }
}

/// How many entries the screen shows.
pub open spec fn window_len(len: int, current: int, rows: int) -> int {
    let room = if rows > 1 {
        rows
    } else {
        1
    };
    let left = len - window_start(len, current, rows);
    if left < room {
        left
    } else {
        room
    }
}

/// The current entry is always on the screen, and so are as many entries as
/// there is room for.
pub proof fn window_shows_the_current_entry(len: int, current: int, rows: int)
    requires
        0 <= current < len,
        0 <= rows,
    ensures
        0 <= window_start(len, current, rows) <= current,
        current < window_start(len, current, rows) + window_len(len, current, rows) <= len,
        rows >= len ==> window_start(len, current, rows) == 0 && window_len(len, current, rows) == len,
        0 < rows <= len ==> window_len(len, current, rows) == rows,
{
}

pub open spec fn group_line_text(v: AppView, g: GroupView) -> Seq<char> {
    let marked = marked_count(g.files, v.marked);
    let line = decimal(g.files.len()) + " × "@ + human_size_of(g.file_size()) + "  ("@ + human_size_of(
        g.wasted_space,
    ) + " wasted)"@;
    if marked > 0 {
        line + " ["@ + decimal(marked) + "✗]"@
    } else {
        line
    }
}

fn group_line(app: &App, group: &DuplicateGroup) -> (r: String)
    ensures
        r@ == group_line_text(app@, group@),
{
    let mut s = decimal_text(group.file_count() as u64);
    s.append(" × ");
    s.append(human_size(group.file_size()).as_str());
    s.append("  (");
    s.append(human_size(group.wasted_space).as_str());
    s.append(" wasted)");
    let marked = app.marked_in_group(group);
    if marked > 0 {
        s.append(" [");
        s.append(decimal_text(marked as u64).as_str());
        s.append("✗]");
    }
    s
}

pub open spec fn groups_title_text(v: AppView) -> Seq<char> {
    let place = "Groups ("@ + decimal((v.current_group_index + 1) as nat) + "/"@ + decimal(v.visible.len());
    let all = if v.filter.active() {
        place + " of "@ + decimal(v.groups.len())
    } else {
        place
    };
    all + ") · "@ + human_size_of(capped(waste_sum(v.groups))) + " wasted"@
}

/// The groups that fit on the screen.
pub struct GroupsPanel {
    pub title: String,
    /// Position, within the visible groups, of the first line.
    pub first: usize,
    pub lines: Vec<String>,
}

/// The group panel on a screen of `rows` rows, where a group is visible.
pub fn groups_panel(app: &App, rows: usize) -> (r: GroupsPanel)
    requires
        app.wf(),
        app@.visible.len() > 0,
    ensures
        r.title@ == groups_title_text(app@),
        r.first == window_start(app@.visible.len() as int, app@.current_group_index as int, rows as int),
        r.lines@.len() == window_len(
            app@.visible.len() as int,
            app@.current_group_index as int,
            rows as int,
        ),
        forall|k: int|
            0 <= k < r.lines@.len() ==> (#[trigger] views(r.lines@)[k]) == group_line_text(
                app@,
                app@.groups[app@.visible[r.first + k] as int],
            ),
{
    let total = app.visible.len();
    let current = app.current_group_index;
    let ghost v = app@;
    proof {
        window_shows_the_current_entry(total as int, current as int, rows as int);
        crate::filters::filtering_keeps_order(v.filter, v.groups, v.groups.len());
    }
    let half = rows / 2;
    let above: usize = if current > half {
        current - half
    } else {
        0
    };
    let last: usize = if total > rows {
        total - rows
    } else {
        0
    };
    let first: usize = if above < last {
        above
    } else {
        last
    };
    let room: usize = if rows > 1 {
        rows
    } else {
        1
    };
    let left: usize = total - first;
    let count: usize = if left < room {
        left
    } else {
        room
    };
    let mut lines: Vec<String> = Vec::new();
    for k in 0..count
        invariant
            v == app@,
            total == app.visible@.len(),
            first + count <= total,
            forall|j: int| 0 <= j < v.visible.len() ==> (#[trigger] v.visible[j]) < v.groups.len(),
            lines@.len() == k,
            forall|j: int|
                0 <= j < k ==> (#[trigger] lines@[j])@ == group_line_text(
                    v,
                    v.groups[v.visible[first + j] as int],
                ),
    {
        let gi = app.visible[first + k];
        assert(v.visible[first + k] == gi);
        assert(v.groups[gi as int] == app.groups@[gi as int]@);
        lines.push(group_line(app, &app.groups[gi]));
    }
    let mut title = "Groups (".to_owned();
    title.append(decimal_text(current as u64 + 1).as_str());
    title.append("/");
    title.append(decimal_text(total as u64).as_str());
    if app.filter.is_active() {
        title.append(" of ");
        title.append(decimal_text(app.groups.len() as u64).as_str());
    }
    title.append(") · ");
    title.append(human_size(app.total_wasted()).as_str());
    title.append(" wasted");
    GroupsPanel { title, first, lines }
}

// ----- files ---------------------------------------------------------------

/// One file of the selected group.
pub struct FileLine {
    pub marked: bool,
    pub selected: bool,
    pub keeper: bool,
    pub path: String,
    /// Why the file would be deleted or kept, and whether the reasons are
    /// for deleting it.
    pub note: Option<(String, bool)>,
}

pub open spec fn note_text(s: SuggestionView) -> Seq<char> {
    "  · "@ + joined(reason_texts(s.reasons), ", "@) + " ("@ + signed(s.score as int) + ")"@
}

/// Does the line say what there is to say of the file at `i` of the selected
/// group?
pub open spec fn file_line_of(v: AppView, g: GroupView, i: int, width: int, line: FileLine) -> bool {
    let a = analysis_of(g.files);
    let room = if width > 4 {
        width - 4
    } else {
        0
    };
    &&& line.marked == v.marked.contains(g.files[i].key())
    &&& line.selected == (i == v.selected_file_index)
    &&& line.keeper == (a.keeper == Some(i as usize))
    &&& line.path@ == middle_cut(g.files[i].path, room)
    &&& line.note is Some <==> a.files[i].reasons.len() > 0
    &&& line.note matches Some(n) ==> n.0@ == note_text(a.files[i]) && n.1 == (a.files[i].score > 0)
}

pub open spec fn files_title_text(g: GroupView, named: bool, existing: bool) -> Seq<char> {
    let title = "Files · "@ + decimal(g.files.len()) + " × "@ + human_size_of(g.file_size()) + " · hash "@
        + (if g.hash.len() > 12 {
        g.hash.take(12)
    } else {
        g.hash
    });
    if named {
        let with_name = title + " · original name: "@ + canonical_text(names_of(g.files));
        if existing {
            with_name
        } else {
            with_name + " (N restores it)"@
        }
    } else {
        title
    }
}

/// The title of the file panel, with the group's original name where its
/// members' names tell it.
pub fn files_title(group: &DuplicateGroup) -> (r: String)
    ensures
        r@ == files_title_text(
            group@,
            group@.files.len() >= 2 && any_marked(names_of(group@.files)),
            !is_first_like(names_of(group@.files), canonical_text(names_of(group@.files)), None),
        ),
{
    let mut s = "Files · ".to_owned();
    s.append(decimal_text(group.file_count() as u64).as_str());
    s.append(" × ");
    s.append(human_size(group.file_size()).as_str());
    s.append(" · hash ");
    let hash = chars_of(group.hash.as_str());
    if hash.len() > 12 {
        assert(hash@.subrange(0, 12) =~= hash@.take(12));
        s.append(text_of(&slice_of(&hash, 0, 12)).as_str());
    } else {
        s.append(group.hash.as_str());
    }
    if let Some(c) = canonical_name(group) {
        s.append(" · original name: ");
        s.append(c.name.as_str());
        if c.existing.is_none() {
            s.append(" (N restores it)");
        }
    }
    s
}

/// The files of the selected group, one line each, for a panel of this
/// width; nothing where no group is selected.
pub fn file_lines(app: &App, width: usize) -> (r: Vec<FileLine>)
    requires
        app.wf(),
    ensures
        r@.len() == match app@.current() {
            Some(g) => g.files.len(),
            None => 0,
        },
        forall|i: int|
            0 <= i < r@.len() ==> file_line_of(
                app@,
                app@.current()->0,
                i,
                width as int,
                #[trigger] r@[i],
            ),
{
    let mut out: Vec<FileLine> = Vec::new();
    let room: usize = if width > 4 {
        width - 4
    } else {
        0
    };
    if let Some(group) = app.current_group() {
        let a = SuggestionEngine::analyze(&group.files);
        let n = group.files.len();
        let ghost g = app@.current()->0;
        for i in 0..n
            invariant
                n == group.files@.len(),
                g == group@,
                a@ == analysis_of(g.files),
                room == if width > 4 {
                    width - 4
                } else {
                    0
                },
                out@.len() == i,
                forall|j: int|
                    0 <= j < i ==> file_line_of(app@, g, j, width as int, #[trigger] out@[j]),
        {
            let f = &group.files[i];
            assert(g.files[i as int] == f@);
            let keeper = match a.keeper {
                Some(k) => k == i,
                None => false,
            };
            assert(a@.files.len() == g.files.len());
            let s = &a.files[i];
            assert(a@.files[i as int] == s@);
            let note = if s.reasons.len() > 0 {
                let mut t = "  · ".to_owned();
                t.append(s.explain().as_str());
                t.append(" (");
                t.append(signed_text(s.score as i64).as_str());
                t.append(")");
                assert(t@ =~= note_text(s@));
                Some((t, s.score > 0))
            } else {
                None
            };
            out.push(
                FileLine {
                    marked: app.is_marked(f.path.as_str()),
                    selected: i == app.selected_file_index,
                    keeper,
                    path: truncate_middle(f.path.as_str(), room),
                    note,
                },
            );
        }
    }
    out
}

// ----- statistics ----------------------------------------------------------

/// One line of the statistics.
pub enum StatLine {
    Blank,
    Heading(String),
    Row(String, String),
}

pub enum StatView {
    Blank,
    Heading(Seq<char>),
    Row(Seq<char>, Seq<char>),
}

impl View for StatLine {
    type V = StatView;

    open spec fn view(&self) -> StatView {
        match self {
            StatLine::Blank => StatView::Blank,
            StatLine::Heading(t) => StatView::Heading(t@),
            StatLine::Row(l, t) => StatView::Row(l@, t@),
        }
    }
}

pub open spec fn stat_views(v: Seq<StatLine>) -> Seq<StatView> {
    Seq::new(v.len(), |i: int| v[i]@)
}

pub open spec fn scan_stats(v: AppView, elapsed: Seq<char>) -> Seq<StatView> {
    seq![
        StatView::Blank,
        StatView::Heading("Scan"@),
        StatView::Row("Location"@, v.root_path),
        StatView::Row(
            "Status"@,
            if v.scan_complete {
                "Complete"@
            } else {
                "In progress"@
            },
        ),
        StatView::Row("Elapsed"@, elapsed),
        StatView::Row("Files scanned"@, decimal(v.progress.scanned_count as nat)),
        StatView::Row("Bytes scanned"@, human_size_of(v.progress.total_size)),
        StatView::Row("Unreadable"@, decimal(v.progress.skipped as nat)),
    ]
}

pub open spec fn duplicate_stats(v: AppView) -> Seq<StatView> {
    seq![
        StatView::Blank,
        StatView::Heading("Duplicates"@),
        StatView::Row("Groups"@, decimal(v.groups.len())),
        StatView::Row("Visible"@, decimal(v.visible.len()) + " ("@ + v.filter.description() + ")"@),
        StatView::Row("Duplicate files"@, decimal(capped_count(count_sum(v.groups)) as nat)),
        StatView::Row("Wasted space"@, human_size_of(capped(waste_sum(v.groups)))),
        StatView::Row(
            "Marked"@,
            decimal(v.marked.len()) + " files, "@ + human_size_of(
                capped(marked_size_all(v.groups, v.marked)),
            ),
        ),
        StatView::Row(
            "Deleted this run"@,
            decimal(v.total_deleted as nat) + " files, "@ + human_size_of(v.total_freed),
        ),
    ]
}

pub open spec fn safety_stats(v: AppView, preview: Seq<char>, database: Option<Seq<char>>) -> Seq<StatView> {
    seq![
        StatView::Blank,
        StatView::Heading("Safety"@),
        StatView::Row("Delete method"@, v.deleter.method.description_text()),
        StatView::Row("Image preview"@, preview),
        StatView::Row(
            "Database"@,
            match database {
                Some(p) => p,
                None => "not recorded"@,
            },
        ),
    ]
}

pub open spec fn setting_stats(v: AppView) -> Seq<StatView> {
    match v.config {
        Some(c) => seq![
            StatView::Blank,
            StatView::Heading("Settings"@),
            StatView::Row("Min size"@, human_size_of(c.min_size)),
            StatView::Row(
                "Max size"@,
                match c.max_size {
                    Some(s) => human_size_of(s),
                    None => "unlimited"@,
                },
            ),
            StatView::Row("Exclusions"@, decimal(c.exclude_patterns.len()) + " patterns"@),
        ],
        None => seq![],
    }
}

fn push_row(out: &mut Vec<StatLine>, label: &str, value: String)
    ensures
        stat_views(final(out)@) == stat_views(old(out)@).push(StatView::Row(label@, value@)),
{
    let ghost before = stat_views(out@);
    out.push(StatLine::Row(label.to_owned(), value));
    assert(stat_views(out@) =~= before.push(StatView::Row(label@, value@)));
}

fn push_heading(out: &mut Vec<StatLine>, text: &str)
    ensures
        stat_views(final(out)@) == stat_views(old(out)@).push(StatView::Blank).push(
            StatView::Heading(text@),
        ),
{
    let ghost before = stat_views(out@);
    out.push(StatLine::Blank);
    assert(stat_views(out@) =~= before.push(StatView::Blank));
    out.push(StatLine::Heading(text.to_owned()));
    assert(stat_views(out@) =~= before.push(StatView::Blank).push(StatView::Heading(text@)));
}

fn push_scan_stats(out: &mut Vec<StatLine>, app: &App, elapsed: &str)
    ensures
        stat_views(final(out)@) == stat_views(old(out)@) + scan_stats(app@, elapsed@),
{
    let ghost before = stat_views(out@);
    push_heading(out, "Scan");
    push_row(out, "Location", app.root_path.clone());
    let status = if app.is_scanning() {
        "In progress"
    } else {
        "Complete"
    };
    push_row(out, "Status", status.to_owned());
    push_row(out, "Elapsed", elapsed.to_owned());
    push_row(out, "Files scanned", decimal_text(app.progress.scanned_count as u64));
    push_row(out, "Bytes scanned", human_size(app.progress.total_size));
    push_row(out, "Unreadable", decimal_text(app.progress.skipped as u64));
    assert(stat_views(out@) =~= before + scan_stats(app@, elapsed@));
}

fn count_and_size(count: u64, bytes: u64) -> (r: String)
    ensures
        r@ == decimal(count as nat) + " files, "@ + human_size_of(bytes),
{
    let mut s = decimal_text(count);
    s.append(" files, ");
    s.append(human_size(bytes).as_str());
    s
}

fn push_duplicate_stats(out: &mut Vec<StatLine>, app: &App)
    ensures
        stat_views(final(out)@) == stat_views(old(out)@) + duplicate_stats(app@),
{
    let ghost before = stat_views(out@);
    push_heading(out, "Duplicates");
    push_row(out, "Groups", decimal_text(app.groups.len() as u64));
    let mut shown = decimal_text(app.visible.len() as u64);
    shown.append(" (");
    shown.append(app.filter.describe().as_str());
    shown.append(")");
    push_row(out, "Visible", shown);
    push_row(out, "Duplicate files", decimal_text(app.total_duplicate_files() as u64));
    push_row(out, "Wasted space", human_size(app.total_wasted()));
    push_row(out, "Marked", count_and_size(app.marked.len() as u64, app.marked_bytes()));
    push_row(out, "Deleted this run", count_and_size(app.total_deleted as u64, app.total_freed));
    assert(stat_views(out@) =~= before + duplicate_stats(app@));
}

/// The statistics page. How long the scan has taken, the name of the image
/// protocol and the database in use come from outside.
pub fn statistics(app: &App, elapsed: &str, preview: &str, database: Option<String>) -> (r: Vec<StatLine>)
    ensures
        stat_views(r@) == scan_stats(app@, elapsed@) + duplicate_stats(app@) + safety_stats(
            app@,
            preview@,
            crate::scanner::opt_view(database),
        ) + setting_stats(app@),
{
    let mut out: Vec<StatLine> = Vec::new();
    assert(stat_views(out@) =~= seq![]);
    push_scan_stats(&mut out, app, elapsed);
    push_duplicate_stats(&mut out, app);
    let ghost before = stat_views(out@);
    let ghost db = crate::scanner::opt_view(database);
    push_heading(&mut out, "Safety");
    push_row(&mut out, "Delete method", app.deleter.method().description().to_owned());
    push_row(&mut out, "Image preview", preview.to_owned());
    let recorded = match database {
        Some(p) => p,
        None => "not recorded".to_owned(),
    };
    push_row(&mut out, "Database", recorded);
    assert(stat_views(out@) =~= before + safety_stats(app@, preview@, db));
    let ghost before = stat_views(out@);
    if let Some(cfg) = &app.config {
        push_heading(&mut out, "Settings");
        push_row(&mut out, "Min size", human_size(cfg.min_size));
        let max = match cfg.max_size {
            Some(s) => human_size(s),
            None => "unlimited".to_owned(),
        };
        push_row(&mut out, "Max size", max);
        let mut rules = decimal_text(cfg.exclude_patterns.len() as u64);
        rules.append(" patterns");
        push_row(&mut out, "Exclusions", rules);
    }
    assert(stat_views(out@) =~= before + setting_stats(app@));
    out
}

// ----- confirmation --------------------------------------------------------

/// The confirmation dialog.
pub struct ConfirmText {
    pub question: String,
    pub method: String,
    pub files: Vec<String>,
    pub more: Option<String>,
}

pub open spec fn scope_text(v: AppView, scope: Scope) -> Seq<char> {
    match scope {
        Scope::CurrentGroup => "this group"@,
        Scope::AllGroups => if v.filter.active() {
            "all matching groups"@
        } else {
            "all groups"@
        },
    }
}

/// The dialog for a plan, with at most `max_listed` of its files, each cut
/// to `width` characters.
pub fn confirm_text(app: &App, pending: &PendingConfirm, max_listed: usize, width: usize) -> (r: ConfirmText)
    ensures
        r.question@ == "Delete "@ + decimal(pending.plan.items@.len()) + " file(s) from "@ + scope_text(
            app@,
            pending.scope,
        ) + ", freeing "@ + human_size_of(capped(planned_bytes(planned_views(pending.plan.items@)))) + "?"@,
        r.method@ == "Method: "@ + app@.deleter.method.description_text(),
        r.files@.len() == if pending.plan.items@.len() < max_listed {
            pending.plan.items@.len()
        } else {
            max_listed as nat
        },
        forall|i: int|
            0 <= i < r.files@.len() ==> (#[trigger] r.files@[i])@ == "  ✗ "@ + middle_cut(
                pending.plan.items@[i].path@,
                width as int,
            ),
        r.more is Some <==> pending.plan.items@.len() > max_listed,
        r.more is Some ==> (r.more->0)@ == "  … and "@ + decimal(
            (pending.plan.items@.len() - max_listed) as nat,
        ) + " more"@,
{
    let total = pending.plan.items.len();
    let scope = match pending.scope {
        Scope::CurrentGroup => "this group",
        Scope::AllGroups => if app.filter.is_active() {
            "all matching groups"
        } else {
            "all groups"
        },
    };
    let mut question = "Delete ".to_owned();
    question.append(decimal_text(total as u64).as_str());
    question.append(" file(s) from ");
    question.append(scope);
    question.append(", freeing ");
    question.append(human_size(pending.plan.bytes()).as_str());
    question.append("?");
    let mut method = "Method: ".to_owned();
    method.append(app.deleter.method().description());
    let listed: usize = if total < max_listed {
        total
    } else {
        max_listed
    };
    let mut files: Vec<String> = Vec::new();
    for i in 0..listed
        invariant
            listed <= total,
            total == pending.plan.items@.len(),
            files@.len() == i,
            forall|j: int|
                0 <= j < i ==> (#[trigger] files@[j])@ == "  ✗ "@ + middle_cut(
                    pending.plan.items@[j].path@,
                    width as int,
                ),
    {
        let mut line = "  ✗ ".to_owned();
        line.append(truncate_middle(pending.plan.items[i].path.as_str(), width).as_str());
        files.push(line);
    }
    let more = if total > max_listed {
        let mut s = "  … and ".to_owned();
        s.append(decimal_text((total - max_listed) as u64).as_str());
        s.append(" more");
        Some(s)
    } else {
        None
    };
    ConfirmText { question, method, files, more }
}

/// Numbers below zero have a minus sign, and no other sign is written.
pub proof fn signs_are_written(n: nat)
    ensures
        signed(n as int) == decimal(n),
        n > 0 ==> signed(-(n as int)) == "-"@ + decimal(n),
{
}

/// The current entry stands in the middle where there is enough before and
/// after it; near the beginning the list starts with its first entry, near
/// the end it ends with its last.
pub proof fn the_current_entry_stands_in_the_middle(len: int, current: int, rows: int)
    requires
        0 <= current < len,
        0 < rows < len,
    ensures
        rows / 2 <= current <= len - rows + rows / 2 ==> window_start(len, current, rows) == current - rows / 2,
        current <= rows / 2 ==> window_start(len, current, rows) == 0,
        current >= len - rows + rows / 2 ==> window_start(len, current, rows) == len - rows,
{
}

/// What the footer shows: a text that is typed, else a message, else the
/// keys and what is marked.
pub proof fn footers_show_what_matters(v: AppView, t: Seq<char>, p: Seq<char>)
    ensures
        v.input == Some(InputView::Filter(t)) ==> footer_text(v) == "Filter path contains: "@ + t
            + "▏   (Enter apply · Esc cancel)"@ && footer_kind(v) == FooterKind::Filter,
        v.input == Some(InputView::Rename { path: p, text: t }) ==> footer_text(v) == "Rename to: "@ + t
            + "▏   (Enter apply · Esc cancel)"@ && footer_kind(v) == FooterKind::Rename,
        v.input is None && v.status == Some(t) ==> footer_text(v) == t && footer_kind(v) == FooterKind::Status,
        v.input is None && v.status is None ==> footer_kind(v) == FooterKind::Keys && footer_text(v) == keys_text(
            v.view_mode,
        ) + "   ["@ + decimal(v.marked.len()) + " marked, "@ + human_size_of(
            capped(marked_size_all(v.groups, v.marked)),
        ) + ", via "@ + v.deleter.method.label_text() + "]"@,
        keys_text(ViewMode::Statistics) == "Tab: next view · Esc: back · q: quit"@,
        keys_text(ViewMode::Help) == "Tab or Esc: back · q: quit"@,
        keys_text(ViewMode::Duplicates)
            == "j/k file · n/p group · Space mark · a/A suggested · o/O keeper · m more · c/C clear · d/D delete · r/N rename · e open · / z t filter · ? help · q quit"@,
        view_title(ViewMode::Duplicates) == "Duplicates"@,
        view_title(ViewMode::Statistics) == "Statistics"@,
        view_title(ViewMode::Help) == "Help"@,
{
}

/// How a group is listed: its number of files, their size, what it wastes,
/// and how many of its files are marked, where any is.
pub proof fn groups_are_listed_with_their_marks(v: AppView, g: GroupView)
    requires
        g.files.len() > 0,
    ensures
        ({
            let line = decimal(g.files.len()) + " × "@ + human_size_of(g.files[0].size) + "  ("@ + human_size_of(
                g.wasted_space,
            ) + " wasted)"@;
            let marks = marked_count(g.files, v.marked);
            &&& marks == 0 ==> group_line_text(v, g) == line
            &&& marks > 0 ==> group_line_text(v, g) == line + " ["@ + decimal(marks) + "✗]"@
        }),
        !v.filter.active() ==> groups_title_text(v) == "Groups ("@ + decimal((v.current_group_index + 1) as nat)
            + "/"@ + decimal(v.visible.len()) + ") · "@ + human_size_of(capped(waste_sum(v.groups))) + " wasted"@,
        v.filter.active() ==> groups_title_text(v) == "Groups ("@ + decimal((v.current_group_index + 1) as nat)
            + "/"@ + decimal(v.visible.len()) + " of "@ + decimal(v.groups.len()) + ") · "@ + human_size_of(
            capped(waste_sum(v.groups)),
        ) + " wasted"@,
{
}

/// How a file is listed: with its mark, as selected or as keeper, its path
/// in the room that is left, and the reasons with the score.
pub proof fn files_are_listed_with_their_reasons(v: AppView, g: GroupView, i: int, width: int, line: FileLine)
    requires
        0 <= i < g.files.len() <= usize::MAX,
        file_line_of(v, g, i, width, line),
    ensures
        line.marked <==> v.marked.contains(path_key(g.files[i].path)),
        line.selected <==> i == v.selected_file_index,
        line.keeper <==> analysis_of(g.files).keeper == Some(i as usize),
        width >= 4 ==> line.path@ == middle_cut(g.files[i].path, width - 4),
        line.note is Some <==> analysis_of(g.files).files[i].reasons.len() > 0,
        line.note is Some ==> (line.note->0).0@ == "  · "@ + joined(
            reason_texts(analysis_of(g.files).files[i].reasons),
            ", "@,
        ) + " ("@ + signed(analysis_of(g.files).files[i].score as int) + ")"@,
        line.note is Some ==> ((line.note->0).1 <==> analysis_of(g.files).files[i].score > 0),
{
}

/// The title of the files names their number, size and hash, its first
/// twelve characters, and the original name where there is one to restore.
pub proof fn titles_name_the_original(g: GroupView, existing: bool)
    requires
        g.files.len() > 0,
        g.hash.len() > 12,
    ensures
        ({
            let title = "Files · "@ + decimal(g.files.len()) + " × "@ + human_size_of(g.files[0].size)
                + " · hash "@ + g.hash.take(12);
            &&& files_title_text(g, false, existing) == title
            &&& files_title_text(g, true, true) == title + " · original name: "@ + canonical_text(
                names_of(g.files),
            )
            &&& files_title_text(g, true, false) == title + " · original name: "@ + canonical_text(
                names_of(g.files),
            ) + " (N restores it)"@
        }),
{
}

/// What the statistics say of the scan.
pub proof fn scans_are_summed_up(v: AppView, elapsed: Seq<char>)
    ensures
        scan_stats(v, elapsed).len() == 8,
        scan_stats(v, elapsed)[1] == StatView::Heading("Scan"@),
        scan_stats(v, elapsed)[2] == StatView::Row("Location"@, v.root_path),
        v.scan_complete ==> scan_stats(v, elapsed)[3] == StatView::Row("Status"@, "Complete"@),
        !v.scan_complete ==> scan_stats(v, elapsed)[3] == StatView::Row("Status"@, "In progress"@),
        scan_stats(v, elapsed)[4] == StatView::Row("Elapsed"@, elapsed),
        scan_stats(v, elapsed)[5] == StatView::Row("Files scanned"@, decimal(v.progress.scanned_count as nat)),
        scan_stats(v, elapsed)[6] == StatView::Row("Bytes scanned"@, human_size_of(v.progress.total_size)),
        scan_stats(v, elapsed)[7] == StatView::Row("Unreadable"@, decimal(v.progress.skipped as nat)),
{
}

/// What the statistics say of the duplicates.
pub proof fn duplicates_are_summed_up(v: AppView)
    ensures
        duplicate_stats(v).len() == 8,
        duplicate_stats(v)[1] == StatView::Heading("Duplicates"@),
        duplicate_stats(v)[2] == StatView::Row("Groups"@, decimal(v.groups.len())),
        duplicate_stats(v)[3] == StatView::Row(
            "Visible"@,
            decimal(v.visible.len()) + " ("@ + v.filter.description() + ")"@,
        ),
        duplicate_stats(v)[4] == StatView::Row(
            "Duplicate files"@,
            decimal(capped_count(count_sum(v.groups)) as nat),
        ),
        duplicate_stats(v)[5] == StatView::Row("Wasted space"@, human_size_of(capped(waste_sum(v.groups)))),
        duplicate_stats(v)[6] == StatView::Row(
            "Marked"@,
            decimal(v.marked.len()) + " files, "@ + human_size_of(capped(marked_size_all(v.groups, v.marked))),
        ),
        duplicate_stats(v)[7] == StatView::Row(
            "Deleted this run"@,
            decimal(v.total_deleted as nat) + " files, "@ + human_size_of(v.total_freed),
        ),
{
}

/// What the statistics say of the settings.
pub proof fn settings_are_summed_up(v: AppView, preview: Seq<char>, database: Seq<char>)
    ensures
        safety_stats(v, preview, Some(database)).len() == 5,
        safety_stats(v, preview, Some(database))[2] == StatView::Row(
            "Delete method"@,
            v.deleter.method.description_text(),
        ),
        safety_stats(v, preview, Some(database))[3] == StatView::Row("Image preview"@, preview),
        safety_stats(v, preview, Some(database))[4] == StatView::Row("Database"@, database),
        safety_stats(v, preview, None)[4] == StatView::Row("Database"@, "not recorded"@),
        v.config is None ==> setting_stats(v).len() == 0,
        v.config is Some ==> {
            let c = v.config->0;
            &&& setting_stats(v).len() == 5
            &&& setting_stats(v)[2] == StatView::Row("Min size"@, human_size_of(c.min_size))
            &&& c.max_size is Some ==> setting_stats(v)[3] == StatView::Row("Max size"@, human_size_of(c.max_size->0))
            &&& c.max_size is None ==> setting_stats(v)[3] == StatView::Row("Max size"@, "unlimited"@)
            &&& setting_stats(v)[4] == StatView::Row("Exclusions"@, decimal(c.exclude_patterns.len()) + " patterns"@)
        },
{
}

/// How the groups a deletion speaks of are called.
pub proof fn scopes_have_their_names(v: AppView)
    ensures
        scope_text(v, Scope::CurrentGroup) == "this group"@,
        v.filter.active() ==> scope_text(v, Scope::AllGroups) == "all matching groups"@,
        !v.filter.active() ==> scope_text(v, Scope::AllGroups) == "all groups"@,
{
}

} // verus!
