//! What the subcommands decide and say, apart from reading and printing.

use vstd::prelude::*;
use crate::app::{App, AppView};
use crate::backup::{of_original, record_views, BackupManager};
use crate::database::ScanInfo;
use crate::deletion::DeleteMethod;
use crate::duplicates::{group_views, kept, removals_leave_the_others, DuplicateGroup, GroupView};
use crate::finder::{drop_trivial, nontrivial};
use crate::outside::{human_size, human_size_of};
use crate::panels::{signed, signed_text};
use crate::path_set::PathSet;
use crate::paths::{default_db_path, join_of, path_key, same_path};
use crate::scanner::{default_exclusions, get_default_exclusions, ConfigView, FileView, ScanConfig};
use crate::suggestions::{analysis_of, SuggestionEngine};
use crate::text::{copy_texts, decimal, decimal_text, views};

verus! {

// ----- scan ----------------------------------------------------------------

/// How a scan is run.
#[derive(Debug, Clone, Copy, PartialEq, Eq, Structural)]
pub enum ScanMode {
    Review,
    Json,
    Yolo,
    YoloStream,
}

/// The mode that the flags ask for.
pub fn scan_mode(yolo: bool, json: bool, stream: bool) -> (r: Result<ScanMode, String>)
    ensures
        if yolo && json {
            r matches Err(e) && e@ == "--yolo and --json cannot be combined"@
        } else {
            r == Ok::<ScanMode, String>(
                if json {
                    ScanMode::Json
                } else if yolo && stream {
                    ScanMode::YoloStream
                } else if yolo {
                    ScanMode::Yolo
                } else {
                    ScanMode::Review
                },
            )
        },
{
    if yolo && json {
        return Err("--yolo and --json cannot be combined".to_owned());
    }
    Ok(
        if json {
            ScanMode::Json
        } else if yolo && stream {
            ScanMode::YoloStream
        } else if yolo {
            ScanMode::Yolo
        } else {
            ScanMode::Review
        },
    )
}

/// What is asked of a scan.
#[derive(Debug)]
pub struct ScanOptions {
    pub path: String,
    pub min_size: u64,
    pub max_size: Option<u64>,
    pub exclude: Vec<String>,
    pub no_default_excludes: bool,
}

/// What stands at the path that is to be scanned.
#[derive(Debug)]
pub enum RootState {
    /// Nothing that can be reached, for this cause.
    Unreachable(String),
    /// Something else than a directory, under this absolute path.
    NotDirectory(String),
    /// A directory, under this absolute path.
    Directory(String),
}

pub open spec fn exclusions(exclude: Seq<Seq<char>>, no_defaults: bool) -> Seq<Seq<char>> {
    if no_defaults {
        exclude
    } else {
        default_exclusions() + exclude
    }
}

/// The configuration of a scan. The built-in exclusions come before those
/// that were asked for, unless they are not wanted.
pub fn build_config(options: &ScanOptions, root: RootState) -> (r: Result<ScanConfig, String>)
    ensures
        match root {
            RootState::Unreachable(cause) => r matches Err(e) && e@ == "Cannot access "@ + options.path@
                + ": "@ + cause@,
            RootState::NotDirectory(p) => r matches Err(e) && e@ == p@ + " is not a directory"@,
            RootState::Directory(p) => r matches Ok(c) && c@ == (ConfigView {
                root_path: p@,
                min_size: options.min_size,
                max_size: options.max_size,
                exclude_patterns: exclusions(views(options.exclude@), options.no_default_excludes),
                batch_size: 1000,
            }),
        },
{
    match root {
        RootState::Unreachable(cause) => {
            let mut e = "Cannot access ".to_owned();
            e.append(options.path.as_str());
            e.append(": ");
            e.append(cause.as_str());
            Err(e)
        },
        RootState::NotDirectory(p) => {
            let mut e = p;
            e.append(" is not a directory");
            Err(e)
        },
        RootState::Directory(p) => {
            let exclude_patterns = if options.no_default_excludes {
                copy_texts(&options.exclude)
            } else {
                let mut all = get_default_exclusions();
                let n = options.exclude.len();
                let ghost more = views(options.exclude@);
                assert(views(all@) =~= default_exclusions() + more.take(0));
                for i in 0..n
                    invariant
                        n == options.exclude@.len(),
                        more == views(options.exclude@),
                        views(all@) == default_exclusions() + more.take(i as int),
                {
                    let ghost before = views(all@);
                    all.push(options.exclude[i].clone());
                    assert(views(all@) =~= before.push(more[i as int]));
                    assert(default_exclusions() + more.take(i + 1) =~= before.push(more[i as int]));
                }
                assert(more.take(n as int) =~= more);
                all
            };
            Ok(
                ScanConfig {
                    root_path: p,
                    min_size: options.min_size,
                    max_size: options.max_size,
                    exclude_patterns,
                    batch_size: 1000,
                },
            )
        },
    }
}

/// The database in use: the one that was named, else the shared one.
pub fn resolve_db_path(db: Option<String>, local_data_dir: &Option<String>) -> (r: Result<String, String>)
    ensures
        match db {
            Some(p) => r matches Ok(q) && q@ == p@,
            None => match *local_data_dir {
                Some(d) => r matches Ok(q) && q@ == join_of(join_of(d@, "dupscanner"@), "scans.db"@),
                None => r matches Err(e) && e@ == "Could not determine the local data directory"@,
            },
        },
{
    match db {
        Some(p) => Ok(p),
        None => match local_data_dir {
            Some(d) => Ok(default_db_path(d.as_str())),
            None => Err("Could not determine the local data directory".to_owned()),
        },
    }
}

pub open spec fn deleted_line(v: AppView) -> Seq<char> {
    "Deleted "@ + decimal(v.total_deleted as nat) + " file(s), freed "@ + human_size_of(v.total_freed)
        + " (via "@ + v.deleter.method.label_text() + ")."@
}

pub open spec fn recorded_line(id: i64) -> Seq<char> {
    "Scan recorded as #"@ + signed(id as int) + ". Review later with `dupscanner view "@ + signed(id as int)
        + "`."@
}

/// What is printed when the terminal UI is left.
pub fn exit_summary(app: &App) -> (r: Vec<String>)
    ensures
        views(r@) == (if app@.total_deleted > 0 {
            seq![deleted_line(app@)]
        } else {
            seq![]
        }) + match app@.scan_id {
            Some(id) => seq![recorded_line(id)],
            None => seq![],
        },
{
    let mut out: Vec<String> = Vec::new();
    if app.total_deleted > 0 {
        let mut s = "Deleted ".to_owned();
        s.append(decimal_text(app.total_deleted as u64).as_str());
        s.append(" file(s), freed ");
        s.append(human_size(app.total_freed).as_str());
        s.append(" (via ");
        s.append(app.deleter.method().label());
        s.append(").");
        out.push(s);
    }
    if let Some(id) = app.scan_id {
        let mut s = "Scan recorded as #".to_owned();
        s.append(signed_text(id).as_str());
        s.append(". Review later with `dupscanner view ");
        s.append(signed_text(id).as_str());
        s.append("`.");
        assert(s@ =~= recorded_line(id));
        out.push(s);
    }
    assert(views(out@) =~= (if app@.total_deleted > 0 {
        seq![deleted_line(app@)]
    } else {
        seq![]
    }) + match app@.scan_id {
        Some(id) => seq![recorded_line(id)],
        None => seq![],
    });
    out
}

/// Where deleted files can be found again.
pub fn method_note(method: DeleteMethod) -> (r: Option<&'static str>)
    ensures
        match method {
            DeleteMethod::Trash => r matches Some(t) && t@ == "Files are in the system trash."@,
            DeleteMethod::Backup => r matches Some(t) && t@
                == "Files are backed up; see `dupscanner restore list`."@,
            DeleteMethod::Permanent => r is None,
        },
{
    match method {
        DeleteMethod::Trash => Some("Files are in the system trash."),
        DeleteMethod::Backup => Some("Files are backed up; see `dupscanner restore list`."),
        DeleteMethod::Permanent => None,
    }
}

// ----- history -------------------------------------------------------------

/// A recorded scan in the list of scans.
#[derive(Debug)]
pub struct HistoryLine {
    pub label: String,
    pub complete: bool,
    pub counts: String,
    pub root_path: String,
}

pub open spec fn deleted_text(info: ScanInfo) -> Seq<char> {
    if info.deleted_count > 0 {
        ", "@ + signed(info.deleted_count as int) + " deleted ("@ + human_size_of(
            if info.deleted_bytes > 0 {
                info.deleted_bytes as u64
            } else {
                0
            },
        ) + ")"@
    } else {
        ""@
    }
}

pub fn history_line(info: &ScanInfo) -> (r: HistoryLine)
    ensures
        r.label@ == "#"@ + signed(info.id as int),
        r.complete == (info.end_time is Some),
        r.counts@ == signed(info.files_scanned as int) + " files, "@ + signed(info.groups_found as int)
            + " groups"@ + deleted_text(*info),
        r.root_path@ == info.root_path@,
{
    let mut label = "#".to_owned();
    label.append(signed_text(info.id).as_str());
    let mut counts = signed_text(info.files_scanned);
    counts.append(" files, ");
    counts.append(signed_text(info.groups_found).as_str());
    counts.append(" groups");
    let ghost before = counts@;
    if info.deleted_count > 0 {
        let bytes: u64 = if info.deleted_bytes > 0 {
            info.deleted_bytes as u64
        } else {
            0
        };
        counts.append(", ");
        counts.append(signed_text(info.deleted_count).as_str());
        counts.append(" deleted (");
        counts.append(human_size(bytes).as_str());
        counts.append(")");
    } else {
        proof {
            reveal_strlit("");
        }
    }
    assert(counts@ =~= before + deleted_text(*info));
    HistoryLine {
        label,
        complete: info.end_time.is_some(),
        counts,
        root_path: info.root_path.clone(),
    }
}

// ----- view ----------------------------------------------------------------

/// A stored count as a number of files.
pub fn stored_count(n: i64) -> (r: usize)
    ensures
        r == if n < 0 {
            0
        } else if n > usize::MAX {
            usize::MAX as int
        } else {
            n as int
        },
{
    if n < 0 {
        0
    } else if n as u64 > usize::MAX as u64 {
        usize::MAX
    } else {
        n as usize
    }
}

/// The keys of a group's paths at which nothing stands any more.
pub open spec fn missing_in(g: GroupView, existing: Set<Seq<char>>) -> Set<Seq<char>> {
    Set::new(|p: Seq<char>| crate::selection::has_path(g.files, p) && !existing.contains(p))
}

pub open spec fn any_missing(g: GroupView, existing: Set<Seq<char>>) -> bool {
    exists|i: int| 0 <= i < g.files.len() && !existing.contains((#[trigger] g.files[i]).key())
}

/// A group without the files that no longer exist.
pub open spec fn present_in(g: GroupView, existing: Set<Seq<char>>) -> GroupView {
    if any_missing(g, existing) {
        g.without(missing_in(g, existing))
    } else {
        g
    }
}

fn missing_of(group: &DuplicateGroup, existing: &PathSet) -> (r: PathSet)
    ensures
        r@ == missing_in(group@, existing@),
        r.list().len() > 0 <==> any_missing(group@, existing@),
{
    let mut gone = PathSet::new();
    let n = group.files.len();
    let ghost g = group@;
    for i in 0..n
        invariant
            n == group.files@.len(),
            g == group@,
            forall|p: Seq<char>| #[trigger]
                gone@.contains(p) <==> (crate::selection::has_path(g.files.take(i as int), p)
                    && !existing@.contains(p)),
            gone.list().len() > 0 <==> exists|k: int|
                0 <= k < i && !existing@.contains((#[trigger] g.files[k]).key()),
    {
        let ghost before = gone@;
        let ghost had = gone.list().len() > 0;
        let f = &group.files[i];
        assert(g.files[i as int] == f@);
        assert(g.files.take(i + 1)[i as int] == g.files[i as int]);
        if !existing.contains(f.path.as_str()) {
            let fresh = gone.insert(f.path.clone());
            proof {
                if !fresh {
                    assert(before.contains(path_key(f.path@)));
                    let k = choose|k: int|
                        0 <= k < i && (#[trigger] g.files.take(i as int)[k]).key() == path_key(f.path@);
                    assert(g.files[k].key() == path_key(f.path@));
                    assert(!existing@.contains(g.files[k].key()));
                    assert(had);
                }
            }
        }
        assert forall|p: Seq<char>| #[trigger]
            gone@.contains(p) <==> (crate::selection::has_path(g.files.take(i + 1), p) && !existing@.contains(
                p,
            )) by {
            if crate::selection::has_path(g.files.take(i as int), p) {
                let k = choose|k: int| 0 <= k < i && (#[trigger] g.files.take(i as int)[k]).key() == p;
                assert(g.files.take(i + 1)[k].key() == p);
            }
            if crate::selection::has_path(g.files.take(i + 1), p) {
                let k = choose|k: int| 0 <= k < i + 1 && (#[trigger] g.files.take(i + 1)[k]).key() == p;
                if k < i {
                    assert(g.files.take(i as int)[k].key() == p);
                }
            }
        }
    }
    assert(g.files.take(n as int) =~= g.files);
    assert(gone@ =~= missing_in(g, existing@));
    gone
}

/// Drops the files that no longer exist, so that the view reflects the disk.
/// `existing` holds those of the groups' paths at which something stands.
/// Tells whether anything was dropped.
pub fn drop_missing(groups: &mut Vec<DuplicateGroup>, existing: &PathSet) -> (r: bool)
    ensures
        group_views(final(groups)@) == nontrivial(
            Seq::new(
                old(groups)@.len(),
                |i: int| present_in(group_views(old(groups)@)[i], existing@),
            ),
        ),
        r <==> exists|i: int|
            0 <= i < old(groups)@.len() && any_missing(
                #[trigger] group_views(old(groups)@)[i],
                existing@,
            ),
{
    let mut changed = false;
    let ghost gs = group_views(groups@);
    let ghost goal = Seq::new(gs.len(), |i: int| present_in(gs[i], existing@));
    let n = groups.len();
    let mut out: Vec<DuplicateGroup> = Vec::new();
    assert(group_views(out@) =~= goal.take(0));
    for i in 0..n
        invariant
            *groups == *old(groups),
            n == groups@.len(),
            gs == group_views(groups@),
            goal == Seq::new(gs.len(), |i: int| present_in(gs[i], existing@)),
            group_views(out@) == goal.take(i as int),
            changed <==> exists|k: int| 0 <= k < i && any_missing(#[trigger] gs[k], existing@),
    {
        let gone = missing_of(&groups[i], existing);
        assert(gs[i as int] == groups@[i as int]@);
        let mut g = groups[i].clone();
        if !gone.is_empty() {
            g.remove_paths(&gone);
            changed = true;
        }
        let ghost before = group_views(out@);
        out.push(g);
        assert(group_views(out@) =~= before.push(goal[i as int]));
        assert(goal.take(i + 1) =~= before.push(goal[i as int]));
    }
    assert(goal.take(n as int) =~= goal);
    *groups = drop_trivial(&out);
    changed
}

/// Of a scan that is reopened, every file that is left still exists, and
/// every group that is left has at least two files.
pub proof fn reopened_scans_reflect_the_disk(groups: Seq<GroupView>, existing: Set<Seq<char>>, g: GroupView, i: int)
    requires
        nontrivial(
            Seq::new(groups.len(), |k: int| present_in(groups[k], existing)),
        ).contains(g),
        0 <= i < g.files.len(),
    ensures
        g.files.len() >= 2,
        existing.contains(g.files[i].key()),
{
    let present = Seq::new(groups.len(), |k: int| present_in(groups[k], existing));
    crate::edits::lemma_nontrivial(present, g);
    let k = choose|k: int| 0 <= k < present.len() && present[k] == g;
    let before = groups[k];
    if any_missing(before, existing) {
        let gone = missing_in(before, existing);
        crate::duplicates::lemma_kept(before.files, gone);
        assert(kept(before.files, gone).contains(g.files[i]));
        let j = choose|j: int| 0 <= j < before.files.len() && before.files[j] == g.files[i];
        assert(crate::selection::has_path(before.files, before.files[j].key()));
        assert(!gone.contains(g.files[i].key()));
    }
}

/// One group of the plain listing: its title, and each file with whether it
/// would be kept.
#[derive(Debug)]
pub struct PlainGroup {
    pub title: String,
    pub files: Vec<(bool, String)>,
}

pub open spec fn plain_title(g: GroupView, place: nat) -> Seq<char> {
    decimal(place + 1) + ". "@ + decimal(g.files.len()) + " × "@ + human_size_of(g.file_size()) + " ("@
        + human_size_of(g.wasted_space) + " wasted)"@
}

/// The group at `place` of the plain listing.
pub fn plain_group(group: &DuplicateGroup, place: usize) -> (r: PlainGroup)
    requires
        place < usize::MAX,
    ensures
        r.title@ == plain_title(group@, place as nat),
        r.files@.len() == group@.files.len(),
        forall|j: int|
            0 <= j < r.files@.len() ==> (#[trigger] r.files@[j]).0 == (analysis_of(group@.files).keeper
                == Some(j as usize)) && r.files@[j].1@ == group@.files[j].path,
{
    let mut title = decimal_text(place as u64 + 1);
    title.append(". ");
    title.append(decimal_text(group.file_count() as u64).as_str());
    title.append(" × ");
    title.append(human_size(group.file_size()).as_str());
    title.append(" (");
    title.append(human_size(group.wasted_space).as_str());
    title.append(" wasted)");
    let a = SuggestionEngine::analyze(&group.files);
    let mut files: Vec<(bool, String)> = Vec::new();
    let n = group.files.len();
    let ghost g = group@;
    for j in 0..n
        invariant
            n == group.files@.len(),
            g == group@,
            a@ == analysis_of(g.files),
            files@.len() == j,
            forall|k: int|
                0 <= k < j ==> (#[trigger] files@[k]).0 == (analysis_of(g.files).keeper == Some(k as usize))
                    && files@[k].1@ == g.files[k].path,
    {
        let keep = match a.keeper {
            Some(k) => k == j,
            None => false,
        };
        assert(g.files[j as int] == group.files@[j as int]@);
        files.push((keep, group.files[j].path.clone()));
    }
    PlainGroup { title, files }
}

/// A number of bytes as the lists show it.
pub fn size_text(bytes: u64) -> (r: String)
    ensures
        r@ == human_size_of(bytes),
{
    human_size(bytes)
}

/// The line below the list of backups.
pub fn backups_line(count: usize, bytes: u64) -> (r: String)
    ensures
        r@ == decimal(count as nat) + " backups, "@ + human_size_of(bytes)
            + " total. Restore with `dupscanner restore file <path>`."@,
{
    let mut s = decimal_text(count as u64);
    s.append(" backups, ");
    s.append(human_size(bytes).as_str());
    s.append(" total. Restore with `dupscanner restore file <path>`.");
    s
}

/// What is said of the entries that a list of `limit` entries leaves out.
pub fn more_text(total: usize, limit: usize) -> (r: Option<String>)
    ensures
        r is Some <==> total > limit,
        r matches Some(t) ==> t@ == "   … and "@ + decimal((total - limit) as nat) + " more"@,
{
    if total > limit {
        let mut s = "   … and ".to_owned();
        s.append(decimal_text((total - limit) as u64).as_str());
        s.append(" more");
        Some(s)
    } else {
        None
    }
}

// ----- restore -------------------------------------------------------------

/// Why a restore was refused.
#[derive(Debug)]
pub enum RestoreRefusal {
    /// There is no backup of this path.
    NoBackup(String),
    /// There are several; these are the backup paths.
    Ambiguous(String, Vec<String>),
}

impl RestoreRefusal {
    pub fn message(&self) -> (r: String)
        ensures
            match *self {
                RestoreRefusal::NoBackup(p) => r@ == "No backup found for "@ + p@,
                RestoreRefusal::Ambiguous(_, _) => r@ == "ambiguous restore"@,
            },
    {
        match self {
            RestoreRefusal::NoBackup(p) => {
                let mut s = "No backup found for ".to_owned();
                s.append(p.as_str());
                s
            },
            RestoreRefusal::Ambiguous(_, _) => "ambiguous restore".to_owned(),
        }
    }
}

/// Is this the path of a backup?
pub open spec fn is_backup(manager: BackupManager, path: Seq<char>) -> bool {
    exists|i: int| 0 <= i < manager.records@.len() && path_key((#[trigger] manager.records@[i]).backup_path@)
        == path_key(path)
}

/// The backup that is meant by a path: the backup with that path itself,
/// else the only backup of the file that stood there.
pub fn restore_choice(manager: &BackupManager, path: &str) -> (r: Result<String, RestoreRefusal>)
    ensures
        if is_backup(*manager, path@) {
            r matches Ok(p) && p@ == path@
        } else {
            let found = of_original(record_views(manager.records@), path@);
            if found.len() == 0 {
                r matches Err(RestoreRefusal::NoBackup(p)) && p@ == path@
            } else if found.len() == 1 {
                r matches Ok(p) && p@ == found[0].backup_path
            } else {
                r matches Err(RestoreRefusal::Ambiguous(p, list)) && p@ == path@ && views(list@) == Seq::new(
                    found.len(),
                    |i: int| found[i].backup_path,
                )
            }
        },
{
    let n = manager.records.len();
    for i in 0..n
        invariant
            n == manager.records@.len(),
            forall|k: int|
                0 <= k < i ==> path_key((#[trigger] manager.records@[k]).backup_path@) != path_key(path@),
    {
        if same_path(manager.records[i].backup_path.as_str(), path) {
            assert(path_key(manager.records@[i as int].backup_path@) == path_key(path@));
            return Ok(path.to_owned());
        }
    }
    let found = manager.find_by_original(path);
    let ghost fv = of_original(record_views(manager.records@), path@);
    let m = found.len();
    if m == 0 {
        return Err(RestoreRefusal::NoBackup(path.to_owned()));
    }
    if m == 1 {
        assert(fv[0] == found@[0]@);
        return Ok(found[0].backup_path.clone());
    }
    let mut list: Vec<String> = Vec::new();
    for i in 0..m
        invariant
            m == found@.len(),
            fv == record_views(found@),
            list@.len() == i,
            forall|k: int| 0 <= k < i ==> (#[trigger] list@[k])@ == fv[k].backup_path,
    {
        assert(fv[i as int] == found@[i as int]@);
        list.push(found[i].backup_path.clone());
    }
    assert(views(list@) =~= Seq::new(fv.len(), |i: int| fv[i].backup_path));
    Err(RestoreRefusal::Ambiguous(path.to_owned(), list))
}

/// What is left out by default comes first, then what was asked for;
/// without the defaults only that.
pub proof fn exclusions_are_defaults_and_wishes(exclude: Seq<Seq<char>>, p: Seq<char>)
    ensures
        exclusions(exclude, true) == exclude,
        exclusions(exclude, false).contains(p) <==> default_exclusions().contains(p) || exclude.contains(p),
        exclusions(exclude, false).len() == 21 + exclude.len(),
        exclude.is_suffix_of(exclusions(exclude, false)),
{
    let d = default_exclusions();
    let all = d + exclude;
    assert(d.len() == 21);
    assert(all.contains(p) <==> d.contains(p) || exclude.contains(p)) by {
        if d.contains(p) {
            let i = choose|i: int| 0 <= i < d.len() && d[i] == p;
            assert(all[i] == p);
        }
        if exclude.contains(p) {
            let i = choose|i: int| 0 <= i < exclude.len() && exclude[i] == p;
            assert(all[d.len() + i] == p);
        }
    }
    assert(all.subrange(all.len() - exclude.len(), all.len() as int) == exclude);
}

/// Of a group that is reopened exactly the files that still exist are left,
/// in their order; one that lost none stays as it was recorded.
pub proof fn files_that_exist_are_left(g: GroupView, existing: Set<Seq<char>>)
    ensures
        present_in(g, existing).files == g.files.filter(|f: FileView| existing.contains(path_key(f.path))),
        present_in(g, existing).hash == g.hash,
        (forall|i: int| 0 <= i < g.files.len() ==> existing.contains(path_key((#[trigger] g.files[i]).path)))
            ==> present_in(g, existing) == g,
{
    removals_leave_the_others(g, missing_in(g, existing));
    lemma_present(g.files, g.files, existing);
    lemma_missing(g, existing);
}

proof fn lemma_missing(g: GroupView, existing: Set<Seq<char>>)
    ensures
        !any_missing(g, existing) <==> forall|i: int|
            0 <= i < g.files.len() ==> existing.contains(path_key((#[trigger] g.files[i]).path)),
{
    if !any_missing(g, existing) {
        assert forall|i: int| 0 <= i < g.files.len() implies existing.contains(
            path_key((#[trigger] g.files[i]).path),
        ) by {
            assert(existing.contains(g.files[i].key()));
        }
    }
}

proof fn lemma_present(files: Seq<FileView>, all: Seq<FileView>, existing: Set<Seq<char>>)
    requires
        forall|i: int| 0 <= i < files.len() ==> all.contains(#[trigger] files[i]),
    ensures
        ({
            let there = |f: FileView| existing.contains(path_key(f.path));
            let missing = Set::new(
                |p: Seq<char>| crate::selection::has_path(all, p) && !existing.contains(p),
            );
            &&& files.filter(|f: FileView| !missing.contains(path_key(f.path))) == files.filter(there)
            &&& (forall|i: int| 0 <= i < files.len() ==> existing.contains(path_key((#[trigger] files[i]).path)))
                ==> files.filter(there) == files
        }),
    decreases files.len(),
{
    reveal(Seq::filter);
    if files.len() > 0 {
        let rest = files.drop_last();
        assert forall|i: int| 0 <= i < rest.len() implies all.contains(#[trigger] rest[i]) by {
            assert(rest[i] == files[i]);
        }
        lemma_present(rest, all, existing);
        let last = files.last();
        assert(all.contains(files[files.len() - 1]));
        let k = choose|k: int| 0 <= k < all.len() && all[k] == last;
        assert(all[k].key() == path_key(last.path));
        assert(crate::selection::has_path(all, path_key(last.path)));
        if forall|i: int| 0 <= i < files.len() ==> existing.contains(path_key((#[trigger] files[i]).path)) {
            assert forall|i: int| 0 <= i < rest.len() implies existing.contains(
                path_key((#[trigger] rest[i]).path),
            ) by {
                assert(rest[i] == files[i]);
            }
            assert(existing.contains(path_key(files[files.len() - 1].path)));
            assert(rest.push(last) == files);
        }
    }
}

/// How the lines that are printed read.
pub proof fn printed_lines_read_as_follows(v: AppView, id: i64, g: GroupView, place: nat)
    ensures
        deleted_line(v) == "Deleted "@ + decimal(v.total_deleted as nat) + " file(s), freed "@ + human_size_of(
            v.total_freed,
        ) + " (via "@ + v.deleter.method.label_text() + ")."@,
        recorded_line(id) == "Scan recorded as #"@ + signed(id as int)
            + ". Review later with `dupscanner view "@ + signed(id as int) + "`."@,
        g.files.len() > 0 ==> plain_title(g, place) == decimal(place + 1) + ". "@ + decimal(g.files.len())
            + " × "@ + human_size_of(g.files[0].size) + " ("@ + human_size_of(g.wasted_space) + " wasted)"@,
{
}

/// The history tells what a scan deleted, where it deleted anything.
pub proof fn deletions_are_told(info: ScanInfo)
    ensures
        info.deleted_count <= 0 ==> deleted_text(info).len() == 0,
        info.deleted_count > 0 && info.deleted_bytes >= 0 ==> deleted_text(info) == ", "@ + signed(
            info.deleted_count as int,
        ) + " deleted ("@ + human_size_of(info.deleted_bytes as u64) + ")"@,
        info.deleted_count > 0 && info.deleted_bytes < 0 ==> deleted_text(info) == ", "@ + signed(
            info.deleted_count as int,
        ) + " deleted ("@ + human_size_of(0) + ")"@,
{
    reveal_strlit("");
}

/// A path names a backup where a record has it, however it is written.
pub proof fn backups_are_recognised(manager: BackupManager, path: Seq<char>, i: int)
    ensures
        0 <= i < manager.records@.len() && path_key(manager.records@[i].backup_path@) == path_key(path)
            ==> is_backup(manager, path),
        (forall|j: int|
            0 <= j < manager.records@.len() ==> path_key((#[trigger] manager.records@[j]).backup_path@) != path_key(
                path,
            )) ==> !is_backup(manager, path),
{
}

} // verus!
