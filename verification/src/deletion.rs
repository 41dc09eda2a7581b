//! One deletion path for every front end.
//!
//! Every removal goes through `Deleter`, which decides how a file is removed:
//! moved to the system trash (default), or copied into the backup store and
//! then removed. Before anything is removed, `plan_deletions` checks that no
//! duplicate group would lose its last copy.

use vstd::prelude::*;
use crate::backup::BackupManager;
use crate::duplicates::{group_views, kept, DuplicateGroup, GroupView};
use crate::path_set::PathSet;
use crate::paths::{file_name, file_name_of, path_key};
use crate::scanner::{add_capped, capped, FileView};
use crate::selection::has_path;
use crate::text::{chars_of, decimal, decimal_text, slice_of, text_of};

verus! {

#[derive(Debug, Clone, Copy, PartialEq, Eq, Structural)]
pub enum DeleteMethod {
    /// Move to the OS trash / recycle bin (default).
    Trash,
    /// Copy into the backup store, then remove.
    Backup,
    /// Remove without any safety net. Only for `--permanent`.
    Permanent,
}

impl DeleteMethod {
    pub open spec fn label_text(self) -> Seq<char> {
        match self {
            DeleteMethod::Trash => "trash"@,
            DeleteMethod::Backup => "backup"@,
            DeleteMethod::Permanent => "permanent"@,
        }
    }

    pub open spec fn description_text(self) -> Seq<char> {
        match self {
            DeleteMethod::Trash => "Move to system trash (restore from the trash)"@,
            DeleteMethod::Backup =>
                "Copy to dupscanner backups, then delete (restore with `dupscanner restore`)"@,
            DeleteMethod::Permanent => "Delete permanently (no undo)"@,
        }
    }

    pub fn label(&self) -> (r: &'static str)
        ensures
            r@ == self.label_text(),
    {
        match self {
            DeleteMethod::Trash => "trash",
            DeleteMethod::Backup => "backup",
            DeleteMethod::Permanent => "permanent",
        }
    }

    pub fn description(&self) -> (r: &'static str)
        ensures
            r@ == self.description_text(),
    {
        match self {
            DeleteMethod::Trash => "Move to system trash (restore from the trash)",
            DeleteMethod::Backup =>
                "Copy to dupscanner backups, then delete (restore with `dupscanner restore`)",
            DeleteMethod::Permanent => "Delete permanently (no undo)",
        }
    }
}

// ----- outcomes ------------------------------------------------------------

/// A single removal outcome.
#[derive(Debug)]
pub struct DeletionOutcome {
    pub path: String,
    pub size: u64,
    pub result: Result<(), String>,
}

impl Clone for DeletionOutcome {
    fn clone(&self) -> (r: DeletionOutcome)
        ensures
            r@ == self@,
    {
        let result = match &self.result {
            Ok(_) => Ok(()),
            Err(e) => Err(e.clone()),
        };
        DeletionOutcome { path: self.path.clone(), size: self.size, result }
    }
}

pub struct OutcomeView {
    pub path: Seq<char>,
    pub size: u64,
    pub result: Result<(), Seq<char>>,
}

impl OutcomeView {
    /// By what the path is compared and looked up.
    pub open spec fn key(self) -> Seq<char> {
        path_key(self.path)
    }
}

pub open spec fn result_view(r: Result<(), String>) -> Result<(), Seq<char>> {
    match r {
        Ok(()) => Ok(()),
        Err(e) => Err(e@),
    }
}

impl View for DeletionOutcome {
    type V = OutcomeView;

    open spec fn view(&self) -> OutcomeView {
        OutcomeView { path: self.path@, size: self.size, result: result_view(self.result) }
    }
}

pub open spec fn outcome_views(v: Seq<DeletionOutcome>) -> Seq<OutcomeView> {
    Seq::new(v.len(), |i: int| v[i]@)
}

#[derive(Debug, Clone)]
pub struct DeletionReport {
    pub outcomes: Vec<DeletionOutcome>,
}

/// Was the file deleted whose path has this key?
pub open spec fn was_deleted(outcomes: Seq<OutcomeView>, p: Seq<char>) -> bool {
    exists|i: int| 0 <= i < outcomes.len() && (#[trigger] outcomes[i]).key() == p && outcomes[i].result is Ok
}

pub open spec fn deleted_in(outcomes: Seq<OutcomeView>) -> nat
    decreases outcomes.len(),
{
    if outcomes.len() == 0 {
        0
    } else {
        deleted_in(outcomes.drop_last()) + if outcomes.last().result is Ok {
            1nat
        } else {
            0nat
        }
    }
}

pub open spec fn freed_by(outcomes: Seq<OutcomeView>) -> int
    decreases outcomes.len(),
{
    if outcomes.len() == 0 {
        0
    } else {
        freed_by(outcomes.drop_last()) + if outcomes.last().result is Ok {
            outcomes.last().size as int
        } else {
            0
        }
    }
}

/// The files that could not be deleted, with the reasons.
pub open spec fn failures_in(outcomes: Seq<OutcomeView>) -> Seq<(Seq<char>, Seq<char>)>
    decreases outcomes.len(),
{
    if outcomes.len() == 0 {
        seq![]
    } else {
        let head = failures_in(outcomes.drop_last());
        match outcomes.last().result {
            Ok(()) => head,
            Err(e) => head.push((outcomes.last().path, e)),
        }
    }
}

pub open spec fn pair_views(v: Seq<(String, String)>) -> Seq<(Seq<char>, Seq<char>)> {
    Seq::new(v.len(), |i: int| (v[i].0@, v[i].1@))
}

proof fn lemma_deleted_in(outcomes: Seq<OutcomeView>)
    ensures
        deleted_in(outcomes) <= outcomes.len(),
        deleted_in(outcomes) + failures_in(outcomes).len() == outcomes.len(),
    decreases outcomes.len(),
{
    if outcomes.len() > 0 {
        lemma_deleted_in(outcomes.drop_last());
    }
}

impl Default for DeletionReport {
    fn default() -> (r: DeletionReport)
        ensures
            r.outcomes@.len() == 0,
    {
        DeletionReport { outcomes: Vec::new() }
    }
}

impl DeletionReport {
    pub fn deleted_paths(&self) -> (r: PathSet)
        ensures
            forall|p: Seq<char>| #[trigger]
                r@.contains(p) <==> was_deleted(outcome_views(self.outcomes@), p),
    {
        let mut set = PathSet::new();
        let n = self.outcomes.len();
        let ghost all = outcome_views(self.outcomes@);
        for i in 0..n
            invariant
                n == self.outcomes@.len(),
                all == outcome_views(self.outcomes@),
                forall|p: Seq<char>| #[trigger]
                    set@.contains(p) <==> was_deleted(all.take(i as int), p),
        {
            let o = &self.outcomes[i];
            let ghost head = all.take(i as int);
            let ghost next = all.take(i + 1);
            let ghost before = set@;
            assert(next[i as int] == o@);
            if o.result.is_ok() {
                set.insert(o.path.clone());
            }
            assert forall|p: Seq<char>| #[trigger] set@.contains(p) <==> was_deleted(next, p) by {
                if was_deleted(head, p) {
                    let k = choose|k: int|
                        0 <= k < head.len() && (#[trigger] head[k]).key() == p && head[k].result is Ok;
                    assert(next[k] == head[k]);
                }
                if was_deleted(next, p) {
                    let k = choose|k: int|
                        0 <= k < next.len() && (#[trigger] next[k]).key() == p && next[k].result is Ok;
                    if k < i {
                        assert(head[k] == next[k]);
                    }
                }
                assert(before.contains(p) <==> was_deleted(head, p));
            }
        }
        assert(all.take(n as int) =~= all);
        set
    }

    pub fn deleted_count(&self) -> (r: usize)
        ensures
            r == deleted_in(outcome_views(self.outcomes@)),
    {
        let mut count: usize = 0;
        let n = self.outcomes.len();
        let ghost all = outcome_views(self.outcomes@);
        for i in 0..n
            invariant
                n == self.outcomes@.len(),
                all == outcome_views(self.outcomes@),
                count <= i,
                count == deleted_in(all.take(i as int)),
        {
            assert(all.take(i + 1).drop_last() =~= all.take(i as int));
            assert(all.take(i + 1).last() == self.outcomes@[i as int]@);
            if self.outcomes[i].result.is_ok() {
                count = count + 1;
            }
        }
        assert(all.take(n as int) =~= all);
        count
    }

    pub fn failed_count(&self) -> (r: usize)
        ensures
            r == failures_in(outcome_views(self.outcomes@)).len(),
    {
        proof {
            lemma_deleted_in(outcome_views(self.outcomes@));
        }
        self.outcomes.len() - self.deleted_count()
    }

    pub fn bytes_freed(&self) -> (r: u64)
        ensures
            r == capped(freed_by(outcome_views(self.outcomes@))),
    {
        let mut sum: u64 = 0;
        let n = self.outcomes.len();
        let ghost all = outcome_views(self.outcomes@);
        for i in 0..n
            invariant
                n == self.outcomes@.len(),
                all == outcome_views(self.outcomes@),
                freed_by(all.take(i as int)) >= 0,
                sum == capped(freed_by(all.take(i as int))),
        {
            assert(all.take(i + 1).drop_last() =~= all.take(i as int));
            assert(all.take(i + 1).last() == self.outcomes@[i as int]@);
            if self.outcomes[i].result.is_ok() {
                sum = add_capped(sum, self.outcomes[i].size);
            }
        }
        assert(all.take(n as int) =~= all);
        sum
    }

    /// The files that could not be deleted, with the reasons.
    pub fn failures(&self) -> (r: Vec<(String, String)>)
        ensures
            pair_views(r@) == failures_in(outcome_views(self.outcomes@)),
    {
        let mut out: Vec<(String, String)> = Vec::new();
        let n = self.outcomes.len();
        let ghost all = outcome_views(self.outcomes@);
        assert(pair_views(out@) =~= failures_in(all.take(0)));
        for i in 0..n
            invariant
                n == self.outcomes@.len(),
                all == outcome_views(self.outcomes@),
                pair_views(out@) == failures_in(all.take(i as int)),
        {
            let ghost before = pair_views(out@);
            let o = &self.outcomes[i];
            assert(all.take(i + 1).drop_last() =~= all.take(i as int));
            assert(all.take(i + 1).last() == o@);
            if let Err(e) = &o.result {
                out.push((o.path.clone(), e.clone()));
                assert(pair_views(out@) =~= before.push((o.path@, e@)));
            }
        }
        assert(all.take(n as int) =~= all);
        out
    }

    /// Notes how the removal of a planned file went.
    pub fn record(&mut self, item: &PlannedDeletion, result: Result<(), String>)
        ensures
            outcome_views(final(self).outcomes@) == outcome_views(old(self).outcomes@).push(
                OutcomeView { path: item.path@, size: item.size, result: result_view(result) },
            ),
    {
        let ghost before = outcome_views(self.outcomes@);
        let ghost rv = result_view(result);
        self.outcomes.push(
            DeletionOutcome { path: item.path.clone(), size: item.size, result },
        );
        assert(outcome_views(self.outcomes@) =~= before.push(
            OutcomeView { path: item.path@, size: item.size, result: rv },
        ));
    }
}

// ----- removing ------------------------------------------------------------

/// What stands at a path when it is looked at just before its removal.
#[derive(Debug, Clone, Copy, PartialEq, Eq, Structural)]
pub enum FileState {
    /// Nothing, or nothing that can be looked at.
    Missing,
    /// A directory, a link or something else that is no regular file.
    NotRegular,
    /// A regular file of this size.
    Regular(u64),
}

pub struct Deleter {
    pub method: DeleteMethod,
    pub backup: Option<BackupManager>,
}

/// Why a file is not removed; nothing where it may be.
pub open spec fn refusal(
    method: DeleteMethod,
    has_store: bool,
    path: Seq<char>,
    expected: Option<u64>,
    found: FileState,
) -> Option<Seq<char>> {
    match found {
        FileState::Missing => Some(path + " no longer exists"@),
        FileState::NotRegular => Some(path + " is not a regular file"@),
        FileState::Regular(size) => if expected is Some && expected->0 != size {
            Some(
                path + " changed size since it was scanned ("@ + decimal(expected->0 as nat) + " -> "@
                    + decimal(size as nat) + "); skipped"@,
            )
        } else if method == DeleteMethod::Backup && !has_store {
            Some("Backup deletion requested but no backup store is available"@)
        } else {
            None
        },
    }
}

/// How a failed removal is reported.
pub open spec fn failure_text(method: DeleteMethod, path: Seq<char>, cause: Seq<char>) -> Seq<char> {
    match method {
        DeleteMethod::Trash => "Failed to move to trash: "@ + cause,
        DeleteMethod::Backup => cause,
        DeleteMethod::Permanent => "Failed to delete "@ + path,
    }
}

impl Deleter {
    pub fn new(method: DeleteMethod, backup: Option<BackupManager>) -> (r: Deleter)
        ensures
            r == (Deleter { method, backup }),
    {
        Deleter { method, backup }
    }

    /// Trash, without a backup store.
    pub fn trash() -> (r: Deleter)
        ensures
            r == (Deleter { method: DeleteMethod::Trash, backup: None }),
    {
        Deleter { method: DeleteMethod::Trash, backup: None }
    }

    pub fn method(&self) -> (r: DeleteMethod)
        ensures
            r == self.method,
    {
        self.method
    }

    pub fn backup_manager(&self) -> (r: Option<&BackupManager>)
        ensures
            r is Some <==> self.backup is Some,
            r is Some ==> *(r->0) == self.backup->0,
    {
        match &self.backup {
            Some(b) => Some(b),
            None => None,
        }
    }

    /// May the file be removed, and how? It must still be a regular file of
    /// the recorded size, which guards against deleting a file that changed
    /// after it was hashed.
    pub fn delete_one(&self, path: &str, expected_size: Option<u64>, found: FileState) -> (r: Result<
        DeleteMethod,
        String,
    >)
        ensures
            r is Ok <==> refusal(self.method, self.backup is Some, path@, expected_size, found) is None,
            r is Ok ==> r->Ok_0 == self.method,
            r is Ok <==> found is Regular && (expected_size is None || expected_size->0 == found->Regular_0) && (
            self.method is Backup ==> self.backup is Some),
            r is Err ==> Some(r->Err_0@) == refusal(
                self.method,
                self.backup is Some,
                path@,
                expected_size,
                found,
            ),
    {
        let mut text = String::new();
        match found {
            FileState::Missing => {
                text.append(path);
                text.append(" no longer exists");
                assert(text@ =~= path@ + " no longer exists"@);
                return Err(text);
            },
            FileState::NotRegular => {
                text.append(path);
                text.append(" is not a regular file");
                assert(text@ =~= path@ + " is not a regular file"@);
                return Err(text);
            },
            FileState::Regular(size) => {
                if let Some(expected) = expected_size {
                    if expected != size {
                        text.append(path);
                        text.append(" changed size since it was scanned (");
                        text.append(decimal_text(expected).as_str());
                        text.append(" -> ");
                        text.append(decimal_text(size).as_str());
                        text.append("); skipped");
                        assert(text@ =~= path@ + " changed size since it was scanned ("@ + decimal(
                            expected as nat,
                        ) + " -> "@ + decimal(size as nat) + "); skipped"@);
                        return Err(text);
                    }
                }
            },
        }
        if self.method == DeleteMethod::Backup && self.backup.is_none() {
            return Err("Backup deletion requested but no backup store is available".to_owned());
        }
        Ok(self.method)
    }

    /// What to do where the trash is unavailable: the backup store takes its
    /// place where there is one.
    pub fn fallback(&self) -> (r: Option<DeleteMethod>)
        ensures
            r == if self.method == DeleteMethod::Trash && self.backup is Some {
                Some(DeleteMethod::Backup)
            } else {
                None
            },
    {
        if self.method == DeleteMethod::Trash && self.backup.is_some() {
            Some(DeleteMethod::Backup)
        } else {
            None
        }
    }

    /// How a removal that was tried and failed is reported.
    pub fn removal_error(&self, path: &str, cause: &str) -> (r: String)
        ensures
            r@ == failure_text(self.method, path@, cause@),
    {
        let mut text = String::new();
        match self.method {
            DeleteMethod::Trash => {
                text.append("Failed to move to trash: ");
                text.append(cause);
            },
            DeleteMethod::Backup => {
                text.append(cause);
            },
            DeleteMethod::Permanent => {
                text.append("Failed to delete ");
                text.append(path);
            },
        }
        assert(text@ =~= failure_text(self.method, path@, cause@));
        text
    }

    /// The report on a set of planned files, given how the removal of each
    /// went, in the order of the plan.
    pub fn delete_planned(&self, plan: &DeletionPlan, results: Vec<Result<(), String>>) -> (r: DeletionReport)
        requires
            results@.len() == plan.items@.len(),
        ensures
            outcome_views(r.outcomes@) == Seq::new(
                plan.items@.len(),
                |i: int|
                    OutcomeView {
                        path: plan.items@[i].path@,
                        size: plan.items@[i].size,
                        result: result_view(results@[i]),
                    },
            ),
    {
        let mut report = DeletionReport::default();
        let n = plan.items.len();
        let ghost goal = Seq::new(
            plan.items@.len(),
            |i: int|
                OutcomeView {
                    path: plan.items@[i].path@,
                    size: plan.items@[i].size,
                    result: result_view(results@[i]),
                },
        );
        assert(outcome_views(report.outcomes@) =~= goal.take(0));
        for i in 0..n
            invariant
                n == plan.items@.len(),
                n == results@.len(),
                goal == Seq::new(
                    plan.items@.len(),
                    |i: int|
                        OutcomeView {
                            path: plan.items@[i].path@,
                            size: plan.items@[i].size,
                            result: result_view(results@[i]),
                        },
                ),
                outcome_views(report.outcomes@) == goal.take(i as int),
        {
            let result = match &results[i] {
                Ok(()) => Ok(()),
                Err(e) => Err(e.clone()),
            };
            report.record(&plan.items[i], result);
            assert(goal.take(i + 1) =~= goal.take(i as int).push(goal[i as int]));
        }
        assert(goal.take(n as int) =~= goal);
        report
    }
}

/// Re-checked before removal: a file is only removed while it is a regular
/// file of the size it had when it was scanned.
pub proof fn changed_files_are_skipped(
    method: DeleteMethod,
    has_store: bool,
    path: Seq<char>,
    expected: u64,
    found: FileState,
)
    requires
        refusal(method, has_store, path, Some(expected), found) is None,
    ensures
        found == FileState::Regular(expected),
{
}

// ----- planning ------------------------------------------------------------

#[derive(Debug)]
pub struct PlannedDeletion {
    pub path: String,
    pub size: u64,
    pub group_hash: String,
}

pub struct PlannedView {
    pub path: Seq<char>,
    pub size: u64,
    pub group_hash: Seq<char>,
}

impl PlannedView {
    /// By what the path is compared and looked up.
    pub open spec fn key(self) -> Seq<char> {
        path_key(self.path)
    }
}

impl View for PlannedDeletion {
    type V = PlannedView;

    open spec fn view(&self) -> PlannedView {
        PlannedView { path: self.path@, size: self.size, group_hash: self.group_hash@ }
    }
}

impl Clone for PlannedDeletion {
    fn clone(&self) -> (r: PlannedDeletion)
        ensures
            r == *self,
    {
        PlannedDeletion {
            path: self.path.clone(),
            size: self.size,
            group_hash: self.group_hash.clone(),
        }
    }
}

pub open spec fn planned_views(v: Seq<PlannedDeletion>) -> Seq<PlannedView> {
    Seq::new(v.len(), |i: int| v[i]@)
}

pub open spec fn planned_bytes(v: Seq<PlannedView>) -> int
    decreases v.len(),
{
    if v.len() == 0 {
        0
    } else {
        planned_bytes(v.drop_last()) + v.last().size
    }
}

#[derive(Debug, Clone)]
pub struct DeletionPlan {
    pub items: Vec<PlannedDeletion>,
}

impl Default for DeletionPlan {
    fn default() -> (r: DeletionPlan)
        ensures
            r.items@.len() == 0,
    {
        DeletionPlan { items: Vec::new() }
    }
}

impl DeletionPlan {
    pub fn is_empty(&self) -> (r: bool)
        ensures
            r == (self.items@.len() == 0),
    {
        self.items.len() == 0
    }

    pub fn len(&self) -> (r: usize)
        ensures
            r == self.items@.len(),
    {
        self.items.len()
    }

    pub fn bytes(&self) -> (r: u64)
        ensures
            r == capped(planned_bytes(planned_views(self.items@))),
    {
        let mut sum: u64 = 0;
        let n = self.items.len();
        let ghost all = planned_views(self.items@);
        for i in 0..n
            invariant
                n == self.items@.len(),
                all == planned_views(self.items@),
                planned_bytes(all.take(i as int)) >= 0,
                sum == capped(planned_bytes(all.take(i as int))),
        {
            assert(all.take(i + 1).drop_last() =~= all.take(i as int));
            assert(all.take(i + 1).last() == self.items@[i as int]@);
            sum = add_capped(sum, self.items[i].size);
        }
        assert(all.take(n as int) =~= all);
        sum
    }
}

/// Why a set of paths cannot be deleted.
#[derive(Debug)]
pub enum PlanError {
    /// A group would lose all its files: its name and their number.
    EveryCopy(String, usize),
    /// A path that belongs to no group.
    NotInGroups(String),
}

impl PlanError {
    pub open spec fn text(self) -> Seq<char> {
        match self {
            PlanError::EveryCopy(name, count) => "Refusing to delete every copy of "@ + name@ + " ("@ + decimal(
                count as nat,
            ) + " files); leave at least one"@,
            PlanError::NotInGroups(path) => path@ + " is not part of any duplicate group in this scan"@,
        }
    }

    pub fn message(&self) -> (r: String)
        ensures
            r@ == self.text(),
    {
        let mut out = String::new();
        match self {
            PlanError::EveryCopy(name, count) => {
                out.append("Refusing to delete every copy of ");
                out.append(name.as_str());
                out.append(" (");
                out.append(decimal_text(*count as u64).as_str());
                out.append(" files); leave at least one");
            },
            PlanError::NotInGroups(path) => {
                out.append(path.as_str());
                out.append(" is not part of any duplicate group in this scan");
            },
        }
        assert(out@ =~= self.text());
        out
    }
}

/// The files of a group that are wanted, as they go into a plan.
pub open spec fn wanted_of(files: Seq<FileView>, hash: Seq<char>, wanted: Set<Seq<char>>) -> Seq<PlannedView>
    decreases files.len(),
{
    if files.len() == 0 {
        seq![]
    } else {
        let head = wanted_of(files.drop_last(), hash, wanted);
        let f = files.last();
        if wanted.contains(f.key()) {
            head.push(PlannedView { path: f.path, size: f.size, group_hash: hash })
        } else {
            head
        }
    }
}

/// Would the group lose all its files?
pub open spec fn loses_all(g: GroupView, wanted: Set<Seq<char>>) -> bool {
    g.files.len() > 0 && forall|i: int| 0 <= i < g.files.len() ==> wanted.contains((#[trigger] g.files[i]).key())
}

/// What a group is called in a refusal: the name of its first file, or the
/// start of its hash.
pub open spec fn group_title(g: GroupView) -> Seq<char> {
    if g.files.len() > 0 && file_name_of(g.files[0].path) is Some {
        file_name_of(g.files[0].path)->0
    } else if g.hash.len() <= 8 {
        g.hash
    } else {
        g.hash.take(8)
    }
}

pub open spec fn plan_items(groups: Seq<GroupView>, wanted: Set<Seq<char>>) -> Seq<PlannedView>
    decreases groups.len(),
{
    if groups.len() == 0 {
        seq![]
    } else {
        plan_items(groups.drop_last(), wanted) + wanted_of(groups.last().files, groups.last().hash, wanted)
    }
}

/// Does the path with this key belong to one of the groups?
pub open spec fn in_groups(groups: Seq<GroupView>, p: Seq<char>) -> bool {
    exists|i: int| 0 <= i < groups.len() && has_path((#[trigger] groups[i]).files, p)
}

/// `i` is the first group that would lose all its files.
pub open spec fn first_lost(groups: Seq<GroupView>, wanted: Set<Seq<char>>, i: int) -> bool {
    &&& 0 <= i < groups.len()
    &&& loses_all(groups[i], wanted)
    &&& forall|j: int| 0 <= j < i ==> !loses_all(#[trigger] groups[j], wanted)
}

/// `i` is the first of the keys of wanted paths that belongs to no group.
pub open spec fn first_unknown(groups: Seq<GroupView>, keys: Seq<Seq<char>>, i: int) -> bool {
    &&& 0 <= i < keys.len()
    &&& !in_groups(groups, keys[i])
    &&& forall|j: int| 0 <= j < i ==> in_groups(groups, #[trigger] keys[j])
}

proof fn lemma_wanted_of(files: Seq<FileView>, hash: Seq<char>, wanted: Set<Seq<char>>)
    ensures
        wanted_of(files, hash, wanted).len() <= files.len(),
        wanted_of(files, hash, wanted).len() == files.len() <==> forall|i: int|
            0 <= i < files.len() ==> wanted.contains((#[trigger] files[i]).key()),
        wanted_of(files, hash, wanted).len() + kept(files, wanted).len() == files.len(),
        forall|k: int|
            0 <= k < wanted_of(files, hash, wanted).len() ==> wanted.contains(
                (#[trigger] wanted_of(files, hash, wanted)[k]).key(),
            ) && has_path(files, wanted_of(files, hash, wanted)[k].key()),
    decreases files.len(),
{
    if files.len() > 0 {
        let head = files.drop_last();
        lemma_wanted_of(head, hash, wanted);
        let w = wanted_of(head, hash, wanted);
        let all = wanted_of(files, hash, wanted);
        let last = files.last();
        assert(files[files.len() - 1] == last);
        if all.len() == files.len() {
            assert forall|i: int| 0 <= i < files.len() implies wanted.contains((#[trigger] files[i]).key()) by {
                if i < head.len() {
                    assert(wanted.contains(head[i].key()));
                }
            }
        }
        if forall|i: int| 0 <= i < files.len() ==> wanted.contains((#[trigger] files[i]).key()) {
            assert forall|i: int| 0 <= i < head.len() implies wanted.contains((#[trigger] head[i]).key()) by {
                assert(files[i] == head[i]);
            }
        }
        assert forall|k: int| 0 <= k < all.len() implies wanted.contains((#[trigger] all[k]).key()) && has_path(
            files,
            all[k].key(),
        ) by {
            if k < w.len() {
                assert(all[k] == w[k]);
                let i = choose|i: int| 0 <= i < head.len() && (#[trigger] head[i]).key() == w[k].key();
                assert(files[i].key() == all[k].key());
            } else {
                assert(files[files.len() - 1].key() == all[k].key());
            }
        }
    }
}

proof fn lemma_plan_items(groups: Seq<GroupView>, wanted: Set<Seq<char>>)
    ensures
        forall|k: int|
            0 <= k < plan_items(groups, wanted).len() ==> wanted.contains(
                (#[trigger] plan_items(groups, wanted)[k]).key(),
            ) && in_groups(groups, plan_items(groups, wanted)[k].key()),
    decreases groups.len(),
{
    if groups.len() > 0 {
        let head = groups.drop_last();
        lemma_plan_items(head, wanted);
        let last = groups.last();
        lemma_wanted_of(last.files, last.hash, wanted);
        let a = plan_items(head, wanted);
        let b = wanted_of(last.files, last.hash, wanted);
        let all = plan_items(groups, wanted);
        assert forall|k: int| 0 <= k < all.len() implies wanted.contains((#[trigger] all[k]).key()) && in_groups(
            groups,
            all[k].key(),
        ) by {
            if k < a.len() {
                assert(all[k] == a[k]);
                let i = choose|i: int| 0 <= i < head.len() && has_path((#[trigger] head[i]).files, a[k].key());
                assert(has_path(groups[i].files, all[k].key()));
            } else {
                assert(all[k] == b[k - a.len()]);
                assert(has_path(groups[groups.len() - 1].files, all[k].key()));
            }
        }
    }
}

/// Never the last copy: a plan that is accepted leaves every group that has
/// files at least one of them, and it deletes nothing but wanted files that
/// belong to a group.
pub proof fn plans_leave_a_copy(groups: Seq<GroupView>, wanted: Set<Seq<char>>)
    requires
        forall|i: int| 0 <= i < groups.len() ==> !loses_all(#[trigger] groups[i], wanted),
    ensures
        forall|i: int|
            0 <= i < groups.len() && (#[trigger] groups[i]).files.len() > 0 ==> kept(
                groups[i].files,
                wanted,
            ).len() > 0,
        forall|k: int|
            0 <= k < plan_items(groups, wanted).len() ==> wanted.contains(
                (#[trigger] plan_items(groups, wanted)[k]).key(),
            ) && in_groups(groups, plan_items(groups, wanted)[k].key()),
{
    lemma_plan_items(groups, wanted);
    assert forall|i: int| 0 <= i < groups.len() && (#[trigger] groups[i]).files.len() > 0 implies kept(
        groups[i].files,
        wanted,
    ).len() > 0 by {
        lemma_wanted_of(groups[i].files, groups[i].hash, wanted);
        assert(!loses_all(groups[i], wanted));
    }
}

fn title_of(group: &DuplicateGroup) -> (r: String)
    ensures
        r@ == group_title(group@),
{
    if group.files.len() > 0 {
        assert(group@.files[0] == group.files@[0]@);
        if let Some(n) = file_name(group.files[0].path.as_str()) {
            return n;
        }
    }
    let h = chars_of(group.hash.as_str());
    if h.len() <= 8 {
        return group.hash.clone();
    }
    assert(h@.subrange(0, 8) =~= h@.take(8));
    text_of(&slice_of(&h, 0, 8))
}

/// Validate a set of paths the user wants to remove against the current
/// duplicate groups.
///
/// Rules:
/// * every path must belong to a known duplicate group (nothing outside the
///   scan results can be deleted);
/// * no group may lose all of its members, so at least one copy survives.
pub fn plan_deletions(groups: &Vec<DuplicateGroup>, wanted: &PathSet) -> (r: Result<DeletionPlan, PlanError>)
    ensures
        wanted.listed(),
        r is Ok <==> (forall|i: int|
            0 <= i < groups@.len() ==> !loses_all(#[trigger] group_views(groups@)[i], wanted@)) && (forall|
            i: int,
        |
            0 <= i < wanted.keys().len() ==> in_groups(group_views(groups@), #[trigger] wanted.keys()[i])),
        r matches Ok(plan) ==> planned_views(plan.items@) == plan_items(group_views(groups@), wanted@),
        r matches Err(PlanError::EveryCopy(name, count)) ==> exists|i: int|
            #[trigger] first_lost(group_views(groups@), wanted@, i) && name@ == group_title(
                group_views(groups@)[i],
            ) && count == group_views(groups@)[i].files.len(),
        r matches Err(PlanError::NotInGroups(path)) ==> (forall|i: int|
            0 <= i < groups@.len() ==> !loses_all(#[trigger] group_views(groups@)[i], wanted@)) && (exists|
            i: int,
        |
            #[trigger] first_unknown(group_views(groups@), wanted.keys(), i) && path@ == wanted.list()[i]),
{
    let mut plan = DeletionPlan::default();
    let mut seen = PathSet::new();
    let ghost gs = group_views(groups@);
    let n = groups.len();
    assert(planned_views(plan.items@) =~= plan_items(gs.take(0), wanted@));
    for g in 0..n
        invariant
            n == groups@.len(),
            gs == group_views(groups@),
            planned_views(plan.items@) == plan_items(gs.take(g as int), wanted@),
            forall|i: int| 0 <= i < g ==> !loses_all(#[trigger] gs[i], wanted@),
            forall|p: Seq<char>| #[trigger]
                seen@.contains(p) <==> wanted@.contains(p) && in_groups(gs.take(g as int), p),
    {
        let group = &groups[g];
        let ghost gv = gs[g as int];
        assert(gv == group@);
        let ghost before = planned_views(plan.items@);
        let ghost seen0 = seen@;
        let m = group.files.len();
        let mut count: usize = 0;
        assert(before + wanted_of(gv.files.take(0), gv.hash, wanted@) =~= before);
        for i in 0..m
            invariant
                m == group.files@.len(),
                gv == group@,
                count <= i,
                count == wanted_of(gv.files.take(i as int), gv.hash, wanted@).len(),
                planned_views(plan.items@) == before + wanted_of(gv.files.take(i as int), gv.hash, wanted@),
                forall|p: Seq<char>| #[trigger]
                    seen@.contains(p) <==> seen0.contains(p) || (wanted@.contains(p) && has_path(
                        gv.files.take(i as int),
                        p,
                    )),
        {
            let f = &group.files[i];
            let ghost head = gv.files.take(i as int);
            let ghost next = gv.files.take(i + 1);
            let ghost inner = planned_views(plan.items@);
            let ghost seen1 = seen@;
            assert(gv.files[i as int] == f@);
            assert(next.drop_last() =~= head);
            assert(next.last() == f@);
            let is_wanted = wanted.contains(f.path.as_str());
            if is_wanted {
                seen.insert(f.path.clone());
                plan.items.push(
                    PlannedDeletion {
                        path: f.path.clone(),
                        size: f.size,
                        group_hash: group.hash.clone(),
                    },
                );
                count = count + 1;
                proof {
                    let item = PlannedView { path: f.path@, size: f.size, group_hash: gv.hash };
                    assert(planned_views(plan.items@) =~= inner.push(item));
                    assert(planned_views(plan.items@) =~= before + wanted_of(next, gv.hash, wanted@));
                }
            }
            assert forall|p: Seq<char>| #[trigger]
                seen@.contains(p) <==> seen0.contains(p) || (wanted@.contains(p) && has_path(next, p)) by {
                assert(seen1.contains(p) <==> seen0.contains(p) || (wanted@.contains(p) && has_path(head, p)));
                assert(next[i as int] == f@);
                if has_path(head, p) {
                    let k = choose|k: int| 0 <= k < head.len() && (#[trigger] head[k]).key() == p;
                    assert(next[k].key() == p);
                }
                if has_path(next, p) {
                    let k = choose|k: int| 0 <= k < next.len() && (#[trigger] next[k]).key() == p;
                    if k < i {
                        assert(head[k].key() == p);
                    }
                }
            }
        }
        proof {
            assert(gv.files.take(m as int) =~= gv.files);
            lemma_wanted_of(gv.files, gv.hash, wanted@);
            assert(gs.take(g + 1).drop_last() =~= gs.take(g as int));
            assert(gs.take(g + 1).last() == gv);
        }
        if count > 0 && count >= m {
            assert(loses_all(gv, wanted@));
            assert(first_lost(gs, wanted@, g as int));
            let _ = wanted.len();
            return Err(PlanError::EveryCopy(title_of(group), m));
        }
        assert(!loses_all(gv, wanted@));
        assert forall|p: Seq<char>| #[trigger]
            seen@.contains(p) <==> wanted@.contains(p) && in_groups(gs.take(g + 1), p) by {
            let a = gs.take(g as int);
            let b = gs.take(g + 1);
            assert(b[g as int] == gv);
            if in_groups(a, p) {
                let k = choose|k: int| 0 <= k < a.len() && has_path((#[trigger] a[k]).files, p);
                assert(has_path(b[k].files, p));
            }
            if in_groups(b, p) {
                let k = choose|k: int| 0 <= k < b.len() && has_path((#[trigger] b[k]).files, p);
                if k < g {
                    assert(has_path(a[k].files, p));
                }
            }
        }
    }
    assert(gs.take(n as int) =~= gs);
    let m = wanted.len();
    for i in 0..m
        invariant
            gs == group_views(groups@),
            n == groups@.len(),
            m == wanted.list().len(),
            wanted.listed(),
            forall|p: Seq<char>| #[trigger] seen@.contains(p) <==> wanted@.contains(p) && in_groups(gs, p),
            forall|i: int| 0 <= i < groups@.len() ==> !loses_all(#[trigger] gs[i], wanted@),
            forall|j: int| 0 <= j < i ==> in_groups(gs, #[trigger] wanted.keys()[j]),
    {
        let p = wanted.get(i);
        assert(wanted.keys()[i as int] == path_key(p@));
        assert(wanted.keys().contains(wanted.keys()[i as int]));
        assert(wanted@.contains(path_key(p@)));
        if !seen.contains(p.as_str()) {
            assert(first_unknown(gs, wanted.keys(), i as int));
            return Err(PlanError::NotInGroups(p.clone()));
        }
    }
    Ok(plan)
}

/// A removal is allowed exactly where the file is a regular one, of the
/// expected size if one is given, and the backup method has a store to back
/// it up in.
pub proof fn removals_are_allowed_where_nothing_changed(
    method: DeleteMethod,
    has_store: bool,
    path: Seq<char>,
    expected: Option<u64>,
    found: FileState,
)
    ensures
        refusal(method, has_store, path, expected, found) is None <==> found is Regular && (expected is None
            || expected->0 == found->Regular_0) && (method is Trash || method is Permanent || has_store),
{
}

/// Every refusal but the one for want of a store names the file.
pub proof fn refusals_name_the_file(
    method: DeleteMethod,
    has_store: bool,
    path: Seq<char>,
    expected: Option<u64>,
    found: FileState,
)
    ensures
        found is Missing ==> refusal(method, has_store, path, expected, found) == Some(path + " no longer exists"@),
        found is NotRegular ==> refusal(method, has_store, path, expected, found) == Some(
            path + " is not a regular file"@,
        ),
        found is Regular && expected is Some && expected->0 != found->Regular_0 ==> refusal(
            method,
            has_store,
            path,
            expected,
            found,
        ) == Some(
            path + " changed size since it was scanned ("@ + decimal(expected->0 as nat) + " -> "@ + decimal(
                found->Regular_0 as nat,
            ) + "); skipped"@,
        ),
{
}

/// A file counts as deleted exactly where one of the outcomes is a success
/// for its path; what was freed, what was deleted and what failed add up over
/// the outcomes, and every outcome is one or the other.
pub proof fn outcomes_add_up(outcomes: Seq<OutcomeView>, more: OutcomeView)
    ensures
        was_deleted(outcomes.push(more), more.key()) <== more.result is Ok,
        forall|p: Seq<char>|
            was_deleted(outcomes, p) ==> #[trigger] was_deleted(outcomes.push(more), p),
        more.result is Err ==> forall|p: Seq<char>| #[trigger]
            was_deleted(outcomes.push(more), p) ==> was_deleted(outcomes, p),
        more.result is Ok ==> {
            &&& deleted_in(outcomes.push(more)) == deleted_in(outcomes) + 1
            &&& freed_by(outcomes.push(more)) == freed_by(outcomes) + more.size
            &&& failures_in(outcomes.push(more)) == failures_in(outcomes)
        },
        more.result is Err ==> {
            &&& deleted_in(outcomes.push(more)) == deleted_in(outcomes)
            &&& freed_by(outcomes.push(more)) == freed_by(outcomes)
            &&& failures_in(outcomes.push(more)) == failures_in(outcomes).push((more.path, more.result->Err_0))
        },
        deleted_in(seq![]) == 0,
        freed_by(seq![]) == 0,
        failures_in(seq![]).len() == 0,
        deleted_in(outcomes) + failures_in(outcomes).len() == outcomes.len(),
{
    let all = outcomes.push(more);
    assert(all.drop_last() =~= outcomes);
    lemma_deleted_in(outcomes);
    assert(all[outcomes.len() as int] == more);
    assert forall|p: Seq<char>| was_deleted(outcomes, p) implies #[trigger] was_deleted(all, p) by {
        let k = choose|k: int|
            0 <= k < outcomes.len() && (#[trigger] outcomes[k]).key() == p && outcomes[k].result is Ok;
        assert(all[k] == outcomes[k]);
    }
    if more.result is Err {
        assert forall|p: Seq<char>| #[trigger] was_deleted(all, p) implies was_deleted(outcomes, p) by {
            let k = choose|k: int| 0 <= k < all.len() && (#[trigger] all[k]).key() == p && all[k].result is Ok;
            assert(outcomes[k] == all[k]);
        }
    }
}

/// A plan lists the wanted files of the groups, and them alone: of each its
/// own path and size, and the hash of its group; group by group, and in the
/// order of the files.
pub proof fn plans_list_the_wanted_files(groups: Seq<GroupView>, wanted: Set<Seq<char>>, g: GroupView, f: FileView)
    ensures
        plan_items(seq![], wanted).len() == 0,
        plan_items(groups.push(GroupView { files: seq![], ..g }), wanted) == plan_items(groups, wanted),
        plan_items(groups.push(GroupView { files: g.files.push(f), ..g }), wanted) == if wanted.contains(
            path_key(f.path),
        ) {
            plan_items(groups.push(g), wanted).push(
                PlannedView { path: f.path, size: f.size, group_hash: g.hash },
            )
        } else {
            plan_items(groups.push(g), wanted)
        },
        planned_bytes(plan_items(groups, wanted).push(PlannedView { path: f.path, size: f.size, group_hash: g.hash }))
            == planned_bytes(plan_items(groups, wanted)) + f.size,
        planned_bytes(seq![]) == 0,
{
    let empty = groups.push(GroupView { files: seq![], ..g });
    assert(empty.drop_last() =~= groups);
    assert(wanted_of(seq![], g.hash, wanted) =~= seq![]);
    assert(plan_items(empty, wanted) =~= plan_items(groups, wanted));
    let a = groups.push(g);
    let b = groups.push(GroupView { files: g.files.push(f), ..g });
    assert(a.drop_last() =~= groups);
    assert(b.drop_last() =~= groups);
    assert(g.files.push(f).drop_last() =~= g.files);
    let head = plan_items(groups, wanted);
    let item = PlannedView { path: f.path, size: f.size, group_hash: g.hash };
    let w = wanted_of(g.files, g.hash, wanted);
    assert(head + w.push(item) =~= (head + w).push(item));
    assert(head.push(item).drop_last() =~= head);
}

/// The names of the methods, and what is said of them.
pub proof fn methods_have_their_names()
    ensures
        DeleteMethod::Trash.label_text() == "trash"@,
        DeleteMethod::Backup.label_text() == "backup"@,
        DeleteMethod::Permanent.label_text() == "permanent"@,
        DeleteMethod::Trash.description_text() == "Move to system trash (restore from the trash)"@,
        DeleteMethod::Backup.description_text()
            == "Copy to dupscanner backups, then delete (restore with `dupscanner restore`)"@,
        DeleteMethod::Permanent.description_text() == "Delete permanently (no undo)"@,
{
}

/// What is said where a removal failed.
pub proof fn failed_removals_read_as_follows(path: Seq<char>, cause: Seq<char>)
    ensures
        failure_text(DeleteMethod::Trash, path, cause) == "Failed to move to trash: "@ + cause,
        failure_text(DeleteMethod::Backup, path, cause) == cause,
        failure_text(DeleteMethod::Permanent, path, cause) == "Failed to delete "@ + path,
{
}

/// A group would lose all its files where none would be left of them; a
/// group of no files loses none.
pub proof fn a_group_that_loses_all_has_none_left(g: GroupView, wanted: Set<Seq<char>>)
    ensures
        loses_all(g, wanted) <==> g.files.len() > 0 && g.files.filter(
            |f: FileView| !wanted.contains(path_key(f.path)),
        ).len() == 0,
{
    lemma_none_left(g.files, wanted);
    if forall|i: int| 0 <= i < g.files.len() ==> wanted.contains(path_key((#[trigger] g.files[i]).path)) {
        assert forall|i: int| 0 <= i < g.files.len() implies wanted.contains((#[trigger] g.files[i]).key()) by {}
    }
}

proof fn lemma_none_left(files: Seq<FileView>, wanted: Set<Seq<char>>)
    ensures
        files.filter(|f: FileView| !wanted.contains(path_key(f.path))).len() == 0 <==> forall|i: int|
            0 <= i < files.len() ==> wanted.contains(path_key((#[trigger] files[i]).path)),
    decreases files.len(),
{
    reveal(Seq::filter);
    if files.len() > 0 {
        let rest = files.drop_last();
        lemma_none_left(rest, wanted);
        assert forall|i: int| 0 <= i < rest.len() implies rest[i] == #[trigger] files[i] by {}
        assert(files[files.len() - 1] == files.last());
        if wanted.contains(path_key(files.last().path)) && forall|i: int|
            0 <= i < rest.len() ==> wanted.contains(path_key((#[trigger] rest[i]).path)) {
            assert forall|i: int| 0 <= i < files.len() implies wanted.contains(
                path_key((#[trigger] files[i]).path),
            ) by {
                if i < rest.len() {
                    assert(rest[i] == files[i]);
                }
            }
        }
        if forall|i: int| 0 <= i < files.len() ==> wanted.contains(path_key((#[trigger] files[i]).path)) {
            assert forall|i: int| 0 <= i < rest.len() implies wanted.contains(
                path_key((#[trigger] rest[i]).path),
            ) by {
                assert(rest[i] == files[i]);
            }
        }
    }
}

/// A group is called after its first file, or by the first eight characters
/// of its hash where that file has no name.
pub proof fn groups_are_called_after_their_first_file(g: GroupView, dir: Seq<char>, name: Seq<char>)
    requires
        crate::paths::is_plain_name(name),
    ensures
        g.files.len() > 0 && g.files[0].path == crate::paths::join_of(dir, name) ==> group_title(g) == name,
        g.files.len() == 0 && g.hash.len() > 8 ==> group_title(g) == g.hash.take(8),
        g.files.len() == 0 && g.hash.len() <= 8 ==> group_title(g) == g.hash,
{
    crate::paths::a_name_lies_in_its_folder(dir, name);
}

/// What is said where a plan is refused.
pub proof fn refused_plans_read_as_follows(name: String, count: usize, path: String)
    ensures
        PlanError::EveryCopy(name, count).text() == "Refusing to delete every copy of "@ + name@ + " ("@ + decimal(
            count as nat,
        ) + " files); leave at least one"@,
        PlanError::NotInGroups(path).text() == path@ + " is not part of any duplicate group in this scan"@,
{
}

/// Where a group would lose all its files, the first such group is named.
pub proof fn the_first_lost_group_is_named(groups: Seq<GroupView>, wanted: Set<Seq<char>>, i: int) -> (k: int)
    requires
        0 <= i < groups.len(),
        loses_all(groups[i], wanted),
    ensures
        first_lost(groups, wanted, k),
        0 <= k <= i,
        loses_all(groups[k], wanted),
        forall|j: int| 0 <= j < k ==> !loses_all(#[trigger] groups[j], wanted),
        forall|m: int| #[trigger] first_lost(groups, wanted, m) ==> m == k,
    decreases i,
{
    if exists|j: int| 0 <= j < i && loses_all(#[trigger] groups[j], wanted) {
        let j = choose|j: int| 0 <= j < i && loses_all(#[trigger] groups[j], wanted);
        the_first_lost_group_is_named(groups, wanted, j)
    } else {
        assert(first_lost(groups, wanted, i));
        assert forall|m: int| #[trigger] first_lost(groups, wanted, m) implies m == i by {
            assert(loses_all(groups[m], wanted));
        }
        i
    }
}

/// Where a wanted path is in no group, the first such path is named.
pub proof fn the_first_unknown_path_is_named(groups: Seq<GroupView>, keys: Seq<Seq<char>>, i: int, k: int)
    requires
        first_unknown(groups, keys, k),
        0 <= i < keys.len(),
    ensures
        0 <= k < keys.len(),
        !in_groups(groups, keys[k]),
        i < k ==> in_groups(groups, keys[i]),
        first_unknown(groups, keys, i) ==> i == k,
{
}

/// A path is in the groups where a file of one of them has it.
pub proof fn paths_are_looked_up_by_key(groups: Seq<GroupView>, p: Seq<char>)
    ensures
        in_groups(groups, p) <==> exists|g: int, i: int|
            0 <= g < groups.len() && 0 <= i < groups[g].files.len() && path_key(
                (#[trigger] groups[g].files[i]).path,
            ) == p,
{
    if in_groups(groups, p) {
        let g = choose|g: int| 0 <= g < groups.len() && has_path((#[trigger] groups[g]).files, p);
        let i = choose|i: int| 0 <= i < groups[g].files.len() && (#[trigger] groups[g].files[i]).key() == p;
        assert(path_key(groups[g].files[i].path) == p);
    }
    if exists|g: int, i: int|
        0 <= g < groups.len() && 0 <= i < groups[g].files.len() && path_key((#[trigger] groups[g].files[i]).path)
            == p {
        let (g, i) = choose|g: int, i: int|
            0 <= g < groups.len() && 0 <= i < groups[g].files.len() && path_key(
                (#[trigger] groups[g].files[i]).path,
            ) == p;
        assert(groups[g].files[i].key() == p);
        assert(has_path(groups[g].files, p));
    }
}

} // verus!
