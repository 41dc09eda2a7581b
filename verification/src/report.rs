//! Machine-readable output shared by `scan --json`, `view --json` and the
//! web API.

use vstd::prelude::*;
use crate::duplicates::{group_views, DuplicateGroup, GroupView};
use crate::finder::{count_files, count_sum, count_waste, waste_sum};
use crate::naming::{
    any_marked, canonical_name, canonical_text, names_of, rename_goal, rename_target, suggested_rename,
};
use crate::path_set::PathSet;
use crate::paths::path_key;
use crate::scanner::{capped, capped_count, ScanProgress, Timestamp};
use crate::suggestions::{
    analysis_of, best, copy_reasons, keeper_is_best, reasons_of, score_of, scores_add_up, SuggestionEngine,
    SuggestionReason,
};

verus! {

#[derive(Debug, Clone)]
pub struct FileReport {
    pub path: String,
    pub size: u64,
    pub modified: Timestamp,
    pub keep: bool,
    pub score: i32,
    pub reasons: Vec<SuggestionReason>,
}

pub struct FileReportView {
    pub path: Seq<char>,
    pub size: u64,
    pub modified: Timestamp,
    pub keep: bool,
    pub score: int,
    pub reasons: Seq<SuggestionReason>,
}

impl View for FileReport {
    type V = FileReportView;

    open spec fn view(&self) -> FileReportView {
        FileReportView {
            path: self.path@,
            size: self.size,
            modified: self.modified,
            keep: self.keep,
            score: self.score as int,
            reasons: self.reasons@,
        }
    }
}

pub open spec fn file_report_views(v: Seq<FileReport>) -> Seq<FileReportView> {
    Seq::new(v.len(), |i: int| v[i]@)
}

#[derive(Debug, Clone)]
pub struct SuggestedRename {
    pub path: String,
    pub new_name: String,
}

#[derive(Debug, Clone)]
pub struct GroupReport {
    pub hash: String,
    pub file_size: u64,
    pub file_count: usize,
    pub wasted_space: u64,
    /// The group's name with copy markers removed, when any member has one.
    pub canonical_name: Option<String>,
    /// Rename that would give the keeper the canonical name, when no
    /// surviving copy carries it and the name is free.
    pub suggested_rename: Option<SuggestedRename>,
    pub files: Vec<FileReport>,
}

pub struct GroupReportView {
    pub hash: Seq<char>,
    pub file_size: u64,
    pub file_count: int,
    pub wasted_space: u64,
    pub canonical_name: Option<Seq<char>>,
    /// The path of the keeper, and its new name.
    pub suggested_rename: Option<(Seq<char>, Seq<char>)>,
    pub files: Seq<FileReportView>,
}

impl View for GroupReport {
    type V = GroupReportView;

    open spec fn view(&self) -> GroupReportView {
        GroupReportView {
            hash: self.hash@,
            file_size: self.file_size,
            file_count: self.file_count as int,
            wasted_space: self.wasted_space,
            canonical_name: match self.canonical_name {
                Some(n) => Some(n@),
                None => None,
            },
            suggested_rename: match self.suggested_rename {
                Some(r) => Some((r.path@, r.new_name@)),
                None => None,
            },
            files: file_report_views(self.files@),
        }
    }
}

pub open spec fn group_report_views(v: Seq<GroupReport>) -> Seq<GroupReportView> {
    Seq::new(v.len(), |i: int| v[i]@)
}

#[derive(Debug, Clone)]
pub struct ScanReport {
    pub root: String,
    pub generated_at: Timestamp,
    pub files_scanned: usize,
    pub bytes_scanned: u64,
    pub unreadable: usize,
    /// How long the scan took, in nanoseconds.
    pub elapsed: Option<u64>,
    pub group_count: usize,
    pub duplicate_files: usize,
    pub wasted_space: u64,
    pub groups: Vec<GroupReport>,
}

/// Where the keeper of a group would go under its canonical name.
pub open spec fn keeper_goal(g: GroupView) -> Option<(Seq<char>, Seq<char>)> {
    if g.files.len() == 0 {
        None
    } else {
        rename_goal(g, best(g.files, g.files.len()))
    }
}

/// What is reported of a group, where `occupied` are the paths at which
/// something stands.
pub open spec fn report_of(g: GroupView, occupied: Set<Seq<char>>) -> GroupReportView {
    GroupReportView {
        hash: g.hash,
        file_size: g.file_size(),
        file_count: g.files.len() as int,
        wasted_space: g.wasted_space,
        canonical_name: if g.files.len() >= 2 && any_marked(names_of(g.files)) {
            Some(canonical_text(names_of(g.files)))
        } else {
            None
        },
        suggested_rename: match keeper_goal(g) {
            Some(goal) => if occupied.contains(path_key(goal.0)) {
                None
            } else {
                Some((g.files[best(g.files, g.files.len())].path, goal.1))
            },
            None => None,
        },
        files: Seq::new(
            g.files.len(),
            |i: int|
                FileReportView {
                    path: g.files[i].path,
                    size: g.files[i].size,
                    modified: g.files[i].modified,
                    keep: i == best(g.files, g.files.len()),
                    score: score_of(g.files, i),
                    reasons: reasons_of(g.files, i),
                },
        ),
    }
}

/// The path that has to be tested before the keeper's rename is offered.
pub fn keeper_target(group: &DuplicateGroup) -> (r: Option<String>)
    ensures
        r is Some <==> keeper_goal(group@) is Some,
        r is Some ==> r->0@ == (keeper_goal(group@)->0).0,
{
    match SuggestionEngine::get_best_keeper(&group.files) {
        Some(k) => match rename_target(group, k) {
            Some((target, _)) => Some(target),
            None => None,
        },
        None => None,
    }
}

/// The report on one group, where `occupied` holds the paths at which
/// something stands, among those that `keeper_target` gives.
pub fn group_report(group: &DuplicateGroup, occupied: &PathSet) -> (r: GroupReport)
    ensures
        r@ == report_of(group@, occupied@),
{
    let analysis = SuggestionEngine::analyze(&group.files);
    let ghost g = group@;
    let canonical = match canonical_name(group) {
        Some(c) => Some(c.name),
        None => None,
    };
    let target_exists = match keeper_target(group) {
        Some(t) => occupied.contains(t.as_str()),
        None => false,
    };
    let rename = match analysis.keeper {
        Some(k) => match suggested_rename(group, k, target_exists) {
            Some((path, new_name)) => Some(SuggestedRename { path, new_name }),
            None => None,
        },
        None => None,
    };
    let mut files: Vec<FileReport> = Vec::new();
    let n = group.files.len();
    let ghost goal = report_of(g, occupied@).files;
    assert(file_report_views(files@) =~= goal.take(0));
    for i in 0..n
        invariant
            n == group.files@.len(),
            g == group@,
            goal == report_of(g, occupied@).files,
            analysis@ == analysis_of(g.files),
            analysis@.keeper is Some <==> n > 0,
            analysis@.keeper is Some ==> analysis@.keeper->0 == best(g.files, g.files.len()),
            forall|k: int| 0 <= k < n ==> (#[trigger] analysis@.files[k]).score == score_of(g.files, k),
            file_report_views(files@) == goal.take(i as int),
    {
        let f = &group.files[i];
        assert(analysis@.files.len() == n);
        let s = &analysis.files[i];
        proof {
            assert(g.files[i as int] == f@);
            assert(analysis@.files[i as int] == s@);
        }
        let keep = match analysis.keeper {
            Some(k) => k == i,
            None => false,
        };
        let ghost before = file_report_views(files@);
        files.push(
            FileReport {
                path: f.path.clone(),
                size: f.size,
                modified: f.modified,
                keep,
                score: s.score,
                reasons: copy_reasons(&s.reasons),
            },
        );
        assert(file_report_views(files@) =~= before.push(goal[i as int]));
        assert(goal.take(i + 1) =~= goal.take(i as int).push(goal[i as int]));
    }
    assert(goal.take(n as int) =~= goal);
    GroupReport {
        hash: group.hash.clone(),
        file_size: group.file_size(),
        file_count: group.file_count(),
        wasted_space: group.wasted_space,
        canonical_name: canonical,
        suggested_rename: rename,
        files,
    }
}

/// The report on a scan: `generated_at` is now, `occupied` as for the groups.
pub fn scan_report(
    root: &str,
    groups: &Vec<DuplicateGroup>,
    progress: &ScanProgress,
    elapsed: Option<u64>,
    generated_at: Timestamp,
    occupied: &PathSet,
) -> (r: ScanReport)
    ensures
        r.root@ == root@,
        r.generated_at == generated_at,
        r.files_scanned == progress.scanned_count,
        r.bytes_scanned == progress.total_size,
        r.unreadable == progress.skipped,
        r.elapsed == elapsed,
        r.group_count == groups@.len(),
        r.duplicate_files == capped_count(count_sum(group_views(groups@))),
        r.wasted_space == capped(waste_sum(group_views(groups@))),
        group_report_views(r.groups@) == Seq::new(
            groups@.len(),
            |i: int| report_of(group_views(groups@)[i], occupied@),
        ),
{
    let mut out: Vec<GroupReport> = Vec::new();
    let n = groups.len();
    let ghost goal = Seq::new(groups@.len(), |i: int| report_of(group_views(groups@)[i], occupied@));
    assert(group_report_views(out@) =~= goal.take(0));
    for i in 0..n
        invariant
            n == groups@.len(),
            goal == Seq::new(groups@.len(), |i: int| report_of(group_views(groups@)[i], occupied@)),
            group_report_views(out@) == goal.take(i as int),
    {
        let ghost before = group_report_views(out@);
        let g = group_report(&groups[i], occupied);
        let ghost gv = g@;
        out.push(g);
        assert(group_report_views(out@) =~= before.push(gv));
        assert(goal.take(i + 1) =~= goal.take(i as int).push(goal[i as int]));
    }
    assert(goal.take(n as int) =~= goal);
    ScanReport {
        root: root.to_owned(),
        generated_at,
        files_scanned: progress.scanned_count,
        bytes_scanned: progress.total_size,
        unreadable: progress.skipped,
        elapsed,
        group_count: groups.len(),
        duplicate_files: count_files(groups),
        wasted_space: count_waste(groups),
        groups: out,
    }
}

/// A report names exactly one keeper in every group that has files.
pub proof fn one_keeper_is_reported(g: GroupView, occupied: Set<Seq<char>>, i: int, j: int)
    requires
        0 <= i < g.files.len(),
        0 <= j < g.files.len(),
        report_of(g, occupied).files[i].keep,
        report_of(g, occupied).files[j].keep,
    ensures
        i == j,
        0 <= best(g.files, g.files.len()) < g.files.len(),
{
    crate::suggestions::keeper_is_best(g.files, g.files.len());
}

/// A report says of every file what the analysis says of it.
pub proof fn reports_follow_the_analysis(g: GroupView, occupied: Set<Seq<char>>, i: int)
    requires
        0 <= i < g.files.len() <= usize::MAX,
    ensures
        ({
            let r = report_of(g, occupied);
            let f = r.files[i];
            &&& r.hash == g.hash
            &&& r.file_count == g.files.len()
            &&& r.file_size == g.files[0].size
            &&& r.wasted_space == g.wasted_space
            &&& r.files.len() == g.files.len()
            &&& f.path == g.files[i].path
            &&& f.size == g.files[i].size
            &&& f.modified == g.files[i].modified
            &&& f.keep <==> analysis_of(g.files).keeper == Some(i as usize)
            &&& f.score == analysis_of(g.files).files[i].score
            &&& f.reasons == analysis_of(g.files).files[i].reasons
        }),
{
    keeper_is_best(g.files, g.files.len());
    scores_add_up(g.files, i);
}

/// A report names the canonical name of a group in which a name carries a
/// marker, and suggests to rename the keeper where its target is free.
pub proof fn reports_suggest_clean_names(g: GroupView, occupied: Set<Seq<char>>)
    requires
        0 < g.files.len() <= usize::MAX,
    ensures
        ({
            let r = report_of(g, occupied);
            let keeper = analysis_of(g.files).keeper->0 as int;
            let goal = rename_goal(g, keeper);
            &&& r.canonical_name is Some <==> g.files.len() >= 2 && any_marked(names_of(g.files))
            &&& r.canonical_name is Some ==> r.canonical_name->0 == canonical_text(names_of(g.files))
            &&& r.suggested_rename is Some <==> goal is Some && !occupied.contains(path_key((goal->0).0))
            &&& r.suggested_rename is Some ==> r.suggested_rename->0 == (g.files[keeper].path, (goal->0).1)
        }),
{
    keeper_is_best(g.files, g.files.len());
}

} // verus!
