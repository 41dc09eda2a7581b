//! Deleting copies while the scan goes on: each group is dealt with as soon
//! as it is confirmed, and again when it grows.

use vstd::prelude::*;
use crate::deletion::{
    deleted_in, failures_in, freed_by, group_title, in_groups, loses_all, outcome_views, plan_deletions, plan_items,
    planned_views, was_deleted, DeletionPlan, DeletionReport, OutcomeView, PlanError,
};
use crate::duplicates::{copy_groups, group_views, DuplicateGroup, GroupView};
use crate::engine::EngineEvent;
use crate::edits::{EditsView, ScanEdits};
use crate::naming::{any_marked, canonical_name_of, canonical_text, names_of};
use crate::outside::{human_size, human_size_of};
use crate::path_set::PathSet;
use crate::paths::{file_name_or_empty, join, join_of, name_or_empty, parent, parent_of, path_key, path_keys, same_path};
use crate::scanner::{
    add_capped, capped, capped_count, copy_files, count_capped, file_views, FileInfo, FileView, ScanProgress,
};
use crate::selection::has_path;
use crate::text::{decimal, decimal_text, lower_text, same_text, to_ascii_lowercase, views};
use crate::text_set::TextSet;
use crate::yolo::{is_copy_path, keep_line, keep_text, keeper_index, keeper_of};

verus! {

/// Every file ever seen with a hash.
pub struct Members {
    pub hash: String,
    pub files: Vec<FileInfo>,
}

pub struct MembersView {
    pub hash: Seq<char>,
    pub files: Seq<FileView>,
}

pub open spec fn members_views(v: Seq<Members>) -> Seq<MembersView> {
    Seq::new(v.len(), |i: int| MembersView { hash: v[i].hash@, files: file_views(v[i].files@) })
}

/// What a streaming run has done so far.
pub struct StreamState {
    pub edits: ScanEdits,
    /// For the renames to the original names at the end.
    pub members: Vec<Members>,
    pub groups_seen: TextSet,
    pub progress: ScanProgress,
    pub total_deleted: usize,
    pub total_failed: usize,
    pub total_freed: u64,
}

pub struct StreamView {
    pub edits: EditsView,
    pub members: Seq<MembersView>,
    /// The hashes of the groups that were dealt with.
    pub seen: Set<Seq<char>>,
    pub progress: ScanProgress,
    pub total_deleted: usize,
    pub total_failed: usize,
    pub total_freed: u64,
}

impl View for StreamState {
    type V = StreamView;

    open spec fn view(&self) -> StreamView {
        StreamView {
            edits: self.edits@,
            members: members_views(self.members@),
            seen: self.groups_seen@,
            progress: self.progress,
            total_deleted: self.total_deleted,
            total_failed: self.total_failed,
            total_freed: self.total_freed,
        }
    }
}

/// A list of files with those of another that it does not hold.
pub open spec fn merged(all: Seq<FileView>, more: Seq<FileView>) -> Seq<FileView>
    decreases more.len(),
{
    if more.len() == 0 {
        all
    } else {
        let head = merged(all, more.drop_last());
        if has_path(head, more.last().key()) {
            head
        } else {
            head.push(more.last())
        }
    }
}

/// Where the files with a hash are listed.
pub open spec fn members_at(members: Seq<MembersView>, hash: Seq<char>) -> Option<int>
    decreases members.len(),
{
    if members.len() == 0 {
        None
    } else if members.last().hash == hash {
        Some(members.len() - 1)
    } else {
        members_at(members.drop_last(), hash)
    }
}

/// The members once a group was seen.
pub open spec fn with_members(members: Seq<MembersView>, g: GroupView) -> Seq<MembersView> {
    match members_at(members, g.hash) {
        Some(k) => members.update(
            k,
            MembersView { hash: g.hash, files: merged(members[k].files, g.files) },
        ),
        None => members.push(MembersView { hash: g.hash, files: merged(seq![], g.files) }),
    }
}

/// The paths of the copies in a group.
pub open spec fn copies_of(g: GroupView) -> Set<Seq<char>> {
    Set::new(|p: Seq<char>| is_copy_path(g, p))
}

/// What is to be done about a group.
pub enum GroupStep {
    /// There is nothing to delete.
    Skip,
    /// The group cannot be dealt with.
    Refused(PlanError),
    /// Delete these files; `first_time` tells whether the group is new.
    Delete { plan: DeletionPlan, first_time: bool },
}

fn merge_files(all: &mut Vec<FileInfo>, more: &Vec<FileInfo>)
    ensures
        file_views(final(all)@) == merged(file_views(old(all)@), file_views(more@)),
{
    let n = more.len();
    let ghost start = file_views(all@);
    let ghost mv = file_views(more@);
    assert(merged(start, mv.take(0)) == start);
    for i in 0..n
        invariant
            n == more@.len(),
            mv == file_views(more@),
            file_views(all@) == merged(start, mv.take(i as int)),
    {
        let ghost head = file_views(all@);
        assert(mv.take(i + 1).drop_last() =~= mv.take(i as int));
        assert(mv.take(i + 1).last() == more@[i as int]@);
        let path = more[i].path.as_str();
        let mut known = false;
        let m = all.len();
        for j in 0..m
            invariant
                m == all@.len(),
                head == file_views(all@),
                known <==> exists|k: int| 0 <= k < j && (#[trigger] head[k]).key() == path_key(path@),
        {
            assert(head[j as int] == all@[j as int]@);
            if same_path(all[j].path.as_str(), path) {
                known = true;
            }
        }
        assert(known <==> has_path(head, path_key(path@)));
        if !known {
            all.push(more[i].clone());
            assert(file_views(all@) =~= head.push(more@[i as int]@));
        }
    }
    assert(mv.take(n as int) =~= mv);
}

impl StreamState {
    pub fn new() -> (r: StreamState)
        ensures
            r@ == (StreamView {
                edits: EditsView { deleted: Set::empty(), renamed: seq![] },
                members: seq![],
                seen: Set::empty(),
                progress: ScanProgress { scanned_count: 0, total_size: 0, skipped: 0 },
                total_deleted: 0,
                total_failed: 0,
                total_freed: 0,
            }),
    {
        let r = StreamState {
            edits: ScanEdits::default(),
            members: Vec::new(),
            groups_seen: TextSet::new(),
            progress: ScanProgress::default(),
            total_deleted: 0,
            total_failed: 0,
            total_freed: 0,
        };
        assert(r@.members =~= seq![]);
        r
    }

    /// The groups of a snapshot as they stand now, without what was deleted
    /// since.
    pub fn confirmed(&self, groups: Vec<DuplicateGroup>) -> (r: Vec<DuplicateGroup>)
        ensures
            group_views(r@) == self@.edits.edit_all(group_views(groups@)),
    {
        let mut current = groups;
        self.edits.apply(&mut current);
        current
    }

    fn find_members(&self, hash: &str) -> (r: Option<usize>)
        ensures
            match r {
                Some(k) => members_at(self@.members, hash@) == Some(k as int) && k < self.members@.len(),
                None => members_at(self@.members, hash@) is None,
            },
    {
        let n = self.members.len();
        let ghost all = self@.members;
        let mut found: Option<usize> = None;
        for i in 0..n
            invariant
                n == self.members@.len(),
                all == members_views(self.members@),
                match found {
                    Some(k) => members_at(all.take(i as int), hash@) == Some(k as int) && k < i,
                    None => members_at(all.take(i as int), hash@) is None,
                },
        {
            assert(all.take(i + 1).drop_last() =~= all.take(i as int));
            assert(all.take(i + 1).last() == all[i as int]);
            if same_text(self.members[i].hash.as_str(), hash) {
                found = Some(i);
            }
        }
        assert(all.take(n as int) =~= all);
        found
    }

    fn note_members(&mut self, group: &DuplicateGroup)
        ensures
            final(self)@ == (StreamView {
                members: with_members(old(self)@.members, group@),
                ..old(self)@
            }),
    {
        let ghost before = self@.members;
        match self.find_members(group.hash.as_str()) {
            Some(k) => {
                let mut files = copy_files(&self.members[k].files);
                assert(before[k as int].files == file_views(self.members@[k as int].files@));
                merge_files(&mut files, &group.files);
                self.members.set(k, Members { hash: group.hash.clone(), files });
                assert(self@.members =~= with_members(before, group@));
            },
            None => {
                let mut files: Vec<FileInfo> = Vec::new();
                assert(file_views(files@) =~= seq![]);
                merge_files(&mut files, &group.files);
                self.members.push(Members { hash: group.hash.clone(), files });
                assert(self@.members =~= with_members(before, group@));
            },
        }
    }

    /// Decides what is to be done about a confirmed group: the best file is
    /// kept, and the others go. A group that grew is dealt with again.
    pub fn take_group(&mut self, group: &DuplicateGroup) -> (r: GroupStep)
        ensures
            ({
                let g = group@;
                let noted = StreamView {
                    members: with_members(old(self)@.members, g),
                    ..old(self)@
                };
                if g.files.len() <= 1 {
                    r is Skip && final(self)@ == noted
                } else if loses_all(g, copies_of(g)) {
                    &&& r matches GroupStep::Refused(PlanError::EveryCopy(name, count)) && name@ == group_title(
                        g,
                    ) && count == g.files.len()
                    &&& final(self)@ == noted
                } else {
                    &&& r matches GroupStep::Delete { plan, first_time } && planned_views(plan.items@)
                        == plan_items(seq![g], copies_of(g)) && first_time == !old(self)@.seen.contains(g.hash)
                    &&& final(self)@ == (StreamView { seen: old(self)@.seen.insert(g.hash), ..noted })
                }
            }),
    {
        self.note_members(group);
        let ghost g = group@;
        let n = group.files.len();
        if n <= 1 {
            return GroupStep::Skip;
        }
        let one = vec![group.clone()];
        assert(group_views(one@) =~= seq![g]);
        let keeper = keeper_index(group);
        let mut wanted = PathSet::new();
        crate::yolo::add_copies(&mut wanted, group, keeper);
        assert(wanted@ =~= copies_of(g));
        let plan = match plan_deletions(&one, &wanted) {
            Ok(p) => p,
            Err(e) => {
                proof {
                    assert(group_views(one@)[0] == g);
                    if !loses_all(g, wanted@) {
                        assert forall|i: int| 0 <= i < wanted.keys().len() implies in_groups(
                            seq![g],
                            #[trigger] wanted.keys()[i],
                        ) by {
                            let p = wanted.keys()[i];
                            assert(wanted.keys().contains(p));
                            assert(wanted@.contains(p));
                            assert(has_path(seq![g][0].files, p));
                        }
                        assert(forall|i: int|
                            0 <= i < one@.len() ==> !loses_all(#[trigger] group_views(one@)[i], wanted@));
                    }
                }
                return GroupStep::Refused(e);
            },
        };
        assert(!loses_all(group_views(one@)[0], wanted@));
        let first_time = self.groups_seen.insert(group.hash.clone());
        GroupStep::Delete { plan, first_time }
    }

    /// Takes note of what was deleted. Returns the deleted paths, which the
    /// engine has to be told of.
    pub fn record(&mut self, report: &DeletionReport) -> (r: Vec<String>)
        ensures
            ({
                let outcomes = outcome_views(report.outcomes@);
                &&& forall|p: Seq<char>| #[trigger]
                    path_keys(views(r@)).contains(p) <==> was_deleted(outcomes, p)
                &&& final(self)@ == (StreamView {
                    edits: old(self)@.edits.delete(Set::new(|p: Seq<char>| was_deleted(outcomes, p))),
                    total_deleted: capped_count(old(self)@.total_deleted + deleted_in(outcomes)),
                    total_failed: capped_count(old(self)@.total_failed + failures_in(outcomes).len()),
                    total_freed: capped(old(self)@.total_freed + capped(freed_by(outcomes))),
                    ..old(self)@
                })
            }),
    {
        let deleted = report.deleted_paths();
        let list = deleted.to_list();
        proof {
            assert forall|p: Seq<char>| #[trigger] path_keys(views(list@)).contains(p) <==> was_deleted(
                outcome_views(report.outcomes@),
                p,
            ) by {
                assert(deleted@.contains(p) <==> deleted.keys().contains(p));
            }
        }
        self.edits.record_deleted(&list);
        assert(path_keys(views(list@)).to_set() =~= Set::new(
            |p: Seq<char>| was_deleted(outcome_views(report.outcomes@), p),
        ));
        self.total_deleted = count_capped(self.total_deleted, report.deleted_count());
        self.total_failed = count_capped(self.total_failed, report.failed_count());
        self.total_freed = add_capped(self.total_freed, report.bytes_freed());
        list
    }
}

/// What a streaming run does next.
pub enum StreamStep {
    /// Wait for the next event.
    Wait,
    /// Say how far the run is.
    Status,
    /// Deal with these groups.
    Handle(Vec<DuplicateGroup>),
    /// Deal with these groups, which are the last.
    Last(Vec<DuplicateGroup>),
    /// The run is over; `interrupted` tells whether it was stopped.
    Over { interrupted: bool },
}

impl StreamState {
    /// Decides what comes next, from whether the user asked to stop and from
    /// the event that arrived: none yet, or none any more where the engine is
    /// gone.
    pub fn on_event(&mut self, stopped: bool, event: Result<Option<EngineEvent>, ()>) -> (r: StreamStep)
        ensures
            if stopped {
                r == (StreamStep::Over { interrupted: true }) && final(self)@ == old(self)@
            } else {
                match event {
                    Err(_) => r == (StreamStep::Over { interrupted: false }) && final(self)@ == old(self)@,
                    Ok(None) => r is Wait && final(self)@ == old(self)@,
                    Ok(Some(EngineEvent::Progress(p))) => r is Status && final(self)@ == (StreamView {
                        progress: p,
                        ..old(self)@
                    }),
                    Ok(Some(EngineEvent::Groups(groups))) => r == StreamStep::Handle(groups) && final(self)@
                        == old(self)@,
                    Ok(Some(EngineEvent::Complete { finder, progress, elapsed })) => {
                        &&& r matches StreamStep::Last(groups) && group_views(groups@) == finder@.groups
                        &&& final(self)@ == (StreamView { progress, ..old(self)@ })
                    },
                }
            },
    {
        if stopped {
            return StreamStep::Over { interrupted: true };
        }
        match event {
            Err(_) => StreamStep::Over { interrupted: false },
            Ok(None) => StreamStep::Wait,
            Ok(Some(EngineEvent::Progress(p))) => {
                self.progress = p;
                StreamStep::Status
            },
            Ok(Some(EngineEvent::Groups(groups))) => StreamStep::Handle(groups),
            Ok(Some(EngineEvent::Complete { finder, progress, elapsed })) => {
                self.progress = progress;
                StreamStep::Last(copy_groups(finder.groups()))
            },
        }
    }
}

/// A file that was deleted stays hidden, however often files are deleted
/// after it.
pub proof fn deletions_are_remembered(v: StreamView, outcomes: Seq<OutcomeView>, p: Seq<char>)
    requires
        was_deleted(outcomes, p) || v.edits.hides(p),
    ensures
        v.edits.delete(Set::new(|q: Seq<char>| was_deleted(outcomes, q))).hides(p),
{
    let gone = Set::new(|q: Seq<char>| was_deleted(outcomes, q));
    if was_deleted(outcomes, p) {
        crate::edits::deleted_files_are_hidden(v.edits, gone, p);
    } else {
        crate::edits::hidden_paths_stay_hidden(v.edits, p, gone);
    }
}

/// Whatever the scan reports later, a file that was deleted is in no group
/// that is dealt with.
pub proof fn deleted_files_are_not_met_again(
    v: StreamView,
    p: Seq<char>,
    groups: Seq<GroupView>,
    g: GroupView,
    i: int,
)
    requires
        v.edits.hides(p),
        v.edits.edit_all(groups).contains(g),
        0 <= i < g.files.len(),
    ensures
        g.files.len() >= 2,
        g.files[i].key() != p,
{
    crate::edits::deleted_files_stay_deleted(v.edits, groups, g);
}

/// Where no path occurs twice in it, a group that is dealt with keeps its
/// best file and no other.
pub proof fn only_the_best_copy_is_kept(g: GroupView, i: int)
    requires
        crate::yolo::paths_differ(seq![g]),
        0 <= i < g.files.len(),
    ensures
        copies_of(g).contains(g.files[i].key()) <==> i != keeper_of(g),
        !loses_all(g, copies_of(g)),
{
    let one = seq![g];
    crate::yolo::exactly_the_keepers_stay(one, 0, i);
    assert(crate::yolo::copy_paths(one) =~= copies_of(g)) by {
        assert forall|p: Seq<char>| #[trigger] crate::yolo::copy_paths(one).contains(p) <==> copies_of(g).contains(
            p,
        ) by {
            if is_copy_path(g, p) {
                assert(is_copy_path(one[0], p));
            }
        }
    }
}

/// The line that says which file of a group is kept, and whether the group
/// was dealt with before.
pub fn stream_line(group: &DuplicateGroup, first_time: bool) -> (r: String)
    requires
        group@.files.len() > 0,
    ensures
        r@ == if first_time {
            keep_text(group@)
        } else {
            keep_text(group@) + "  (more copies found)"@
        },
{
    let mut s = keep_line(group);
    if !first_time {
        s.append("  (more copies found)");
    }
    s
}

// ----- renames at the end --------------------------------------------------

/// The files that still exist.
pub open spec fn survivors(files: Seq<FileView>, existing: Set<Seq<char>>) -> Seq<FileView>
    decreases files.len(),
{
    if files.len() == 0 {
        seq![]
    } else if existing.contains(files.last().key()) {
        survivors(files.drop_last(), existing).push(files.last())
    } else {
        survivors(files.drop_last(), existing)
    }
}

/// The rename of the only survivor among the members of a group to their
/// canonical name: where it would go, and the name. Nothing where the group
/// was not dealt with, has no such name, or its survivor carries it.
pub open spec fn last_rename(m: MembersView, seen: Set<Seq<char>>, existing: Set<Seq<char>>) -> Option<
    (FileView, Seq<char>, Seq<char>),
> {
    let left = survivors(m.files, existing);
    let name = canonical_text(names_of(m.files));
    if seen.contains(m.hash) && m.files.len() >= 2 && any_marked(names_of(m.files)) && left.len() == 1
        && lower_text(name_or_empty(left[0].path)) != lower_text(name) {
        let folder = match parent_of(left[0].path) {
            Some(p) => p,
            None => ""@,
        };
        Some((left[0], join_of(folder, name), name))
    } else {
        None
    }
}

/// A keeper that is to be renamed once nothing more can join its group.
pub struct LastRename {
    pub keeper: FileInfo,
    /// The path it would get, at which nothing may stand.
    pub target: String,
    pub new_name: String,
}

fn find_survivors(files: &Vec<FileInfo>, existing: &PathSet) -> (r: Vec<FileInfo>)
    ensures
        file_views(r@) == survivors(file_views(files@), existing@),
{
    let mut out: Vec<FileInfo> = Vec::new();
    let n = files.len();
    let ghost all = file_views(files@);
    assert(file_views(out@) =~= survivors(all.take(0), existing@));
    for i in 0..n
        invariant
            n == files@.len(),
            all == file_views(files@),
            file_views(out@) == survivors(all.take(i as int), existing@),
    {
        assert(all.take(i + 1).drop_last() =~= all.take(i as int));
        assert(all.take(i + 1).last() == files@[i as int]@);
        let ghost before = file_views(out@);
        if existing.contains(files[i].path.as_str()) {
            out.push(files[i].clone());
            assert(file_views(out@) =~= before.push(files@[i as int]@));
        }
    }
    assert(all.take(n as int) =~= all);
    out
}

impl StreamState {
    /// The rename for the members at `i`, where `existing` holds those of
    /// their paths at which a file still stands.
    pub fn rename_at(&self, i: usize, existing: &PathSet) -> (r: Option<LastRename>)
        requires
            i < self@.members.len(),
        ensures
            match last_rename(self@.members[i as int], self@.seen, existing@) {
                Some(goal) => r matches Some(l) && l.keeper@ == goal.0 && l.target@ == goal.1 && l.new_name@
                    == goal.2,
                None => r is None,
            },
    {
        let m = &self.members[i];
        let ghost mv = self@.members[i as int];
        assert(mv.hash == m.hash@ && mv.files == file_views(m.files@));
        if !self.groups_seen.contains(m.hash.as_str()) {
            return None;
        }
        let canonical = match canonical_name_of(&m.files) {
            Some(c) => c,
            None => {
                return None;
            },
        };
        let left = find_survivors(&m.files, existing);
        if left.len() != 1 {
            return None;
        }
        let keeper = left[0].clone();
        assert(file_views(left@)[0] == left@[0]@);
        let current = file_name_or_empty(keeper.path.as_str());
        if to_ascii_lowercase(current.as_str()) == to_ascii_lowercase(canonical.name.as_str()) {
            return None;
        }
        let folder = match parent(keeper.path.as_str()) {
            Some(p) => p,
            None => "".to_owned(),
        };
        let target = join(folder.as_str(), canonical.name.as_str());
        Some(LastRename { keeper, target, new_name: canonical.name })
    }

    /// How far the run is.
    pub fn status_text(&self) -> (r: String)
        ensures
            r@ == "scanned "@ + decimal(self@.progress.scanned_count as nat) + " files · "@ + decimal(
                self@.seen.len(),
            ) + " groups · "@ + decimal(self@.total_deleted as nat) + " deleted · "@ + human_size_of(
                self@.total_freed,
            ) + " freed"@,
    {
        let mut s = "scanned ".to_owned();
        s.append(decimal_text(self.progress.scanned_count as u64).as_str());
        s.append(" files · ");
        s.append(decimal_text(self.groups_seen.len() as u64).as_str());
        s.append(" groups · ");
        s.append(decimal_text(self.total_deleted as u64).as_str());
        s.append(" deleted · ");
        s.append(human_size(self.total_freed).as_str());
        s.append(" freed");
        s
    }

    /// What the run has done in all, in so many seconds.
    pub fn summary_text(&self, seconds: &str, renamed: usize) -> (r: String)
        ensures
            r@ == "scanned "@ + decimal(self@.progress.scanned_count as nat) + " files in "@ + seconds@
                + "s, "@ + decimal(self@.seen.len()) + " duplicate groups, deleted "@ + decimal(
                self@.total_deleted as nat,
            ) + " file(s), freed "@ + human_size_of(self@.total_freed) + ", "@ + decimal(
                self@.total_failed as nat,
            ) + " failed"@ + (if renamed > 0 {
                ", renamed "@ + decimal(renamed as nat) + " keeper(s)"@
            } else {
                ""@
            }),
    {
        let mut s = "scanned ".to_owned();
        s.append(decimal_text(self.progress.scanned_count as u64).as_str());
        s.append(" files in ");
        s.append(seconds);
        s.append("s, ");
        s.append(decimal_text(self.groups_seen.len() as u64).as_str());
        s.append(" duplicate groups, deleted ");
        s.append(decimal_text(self.total_deleted as u64).as_str());
        s.append(" file(s), freed ");
        s.append(human_size(self.total_freed).as_str());
        s.append(", ");
        s.append(decimal_text(self.total_failed as u64).as_str());
        s.append(" failed");
        let ghost before = s@;
        if renamed > 0 {
            s.append(", renamed ");
            s.append(decimal_text(renamed as u64).as_str());
            s.append(" keeper(s)");
            assert(s@ =~= before + (", renamed "@ + decimal(renamed as nat) + " keeper(s)"@));
        } else {
            proof {
                reveal_strlit("");
            }
            assert(s@ =~= before + ""@);
        }
        s
    }
}

/// All files ever seen with a hash are gathered under it, each path once,
/// in the order in which they were met.
pub proof fn members_are_gathered_once(all: Seq<FileView>, more: Seq<FileView>, f: FileView)
    ensures
        merged(all, Seq::<FileView>::empty()) == all,
        (exists|i: int|
            0 <= i < merged(all, more).len() && path_key((#[trigger] merged(all, more)[i]).path) == path_key(f.path))
            ==> merged(all, more.push(f)) == merged(all, more),
        (forall|i: int|
            0 <= i < merged(all, more).len() ==> path_key((#[trigger] merged(all, more)[i]).path) != path_key(
                f.path,
            )) ==> merged(all, more.push(f)) == merged(all, more).push(f),
{
    assert(more.push(f).drop_last() == more);
}

/// A group joins the files of its hash, or opens a new list at the end.
pub proof fn groups_join_their_hash(members: Seq<MembersView>, g: GroupView, k: int)
    ensures
        (forall|i: int| 0 <= i < members.len() ==> (#[trigger] members[i]).hash != g.hash) ==> with_members(
            members,
            g,
        ) == members.push(MembersView { hash: g.hash, files: merged(seq![], g.files) }),
        0 <= k < members.len() && members[k].hash == g.hash && (forall|i: int|
            k < i < members.len() ==> (#[trigger] members[i]).hash != g.hash) ==> with_members(members, g)
            == members.update(k, MembersView { hash: g.hash, files: merged(members[k].files, g.files) }),
{
    lemma_members_at(members, g.hash);
}

proof fn lemma_members_at(members: Seq<MembersView>, hash: Seq<char>)
    ensures
        match members_at(members, hash) {
            Some(k) => 0 <= k < members.len() && members[k].hash == hash && forall|i: int|
                k < i < members.len() ==> (#[trigger] members[i]).hash != hash,
            None => forall|i: int| 0 <= i < members.len() ==> (#[trigger] members[i]).hash != hash,
        },
    decreases members.len(),
{
    if members.len() > 0 && members.last().hash != hash {
        let rest = members.drop_last();
        lemma_members_at(rest, hash);
        assert forall|i: int| 0 <= i < rest.len() implies (#[trigger] members[i]) == rest[i] by {}
    }
}

/// At the end a file is renamed where it alone is left of those with its
/// hash, one of their names carried a marker, some were dealt with, and it
/// has not got the canonical name already, whatever the case.
pub proof fn the_last_copy_gets_the_clean_name(m: MembersView, seen: Set<Seq<char>>, existing: Set<Seq<char>>)
    ensures
        ({
            let left = m.files.filter(|f: FileView| existing.contains(path_key(f.path)));
            let name = canonical_text(names_of(m.files));
            &&& last_rename(m, seen, existing) is Some <==> left.len() == 1 && m.files.len() >= 2 && any_marked(
                names_of(m.files),
            ) && seen.contains(m.hash) && lower_text(name_or_empty(left[0].path)) != lower_text(name)
            &&& last_rename(m, seen, existing) is Some ==> (last_rename(m, seen, existing)->0).0 == left[0] && (
            last_rename(m, seen, existing)->0).2 == name
            &&& last_rename(m, seen, existing) is Some && parent_of(left[0].path) is Some ==> (last_rename(
                m,
                seen,
                existing,
            )->0).1 == join_of(parent_of(left[0].path)->0, name)
        }),
{
    lemma_survivors(m.files, existing);
}

proof fn lemma_survivors(files: Seq<FileView>, existing: Set<Seq<char>>)
    ensures
        survivors(files, existing) == files.filter(|f: FileView| existing.contains(path_key(f.path))),
    decreases files.len(),
{
    reveal(Seq::filter);
    if files.len() > 0 {
        lemma_survivors(files.drop_last(), existing);
    }
}

} // verus!
