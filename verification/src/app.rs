//! Interactive review state.
//!
//! `App` keeps the latest duplicate groups, tracks which files the user has
//! marked (by path, so marks survive re-sorting), filters the visible groups
//! with the shared `GroupFilter`, applies the shared auto-select rules,
//! replays mid-scan edits onto engine snapshots, and funnels every removal
//! through `deletion::plan_deletions`, with an explicit confirmation step.

use vstd::prelude::*;
use crate::deletion::{
    first_lost, freed_by, deleted_in, failures_in, group_title, outcome_views, plan_deletions, plan_items,
    planned_views, was_deleted, DeleteMethod, Deleter, DeletionPlan, DeletionReport, OutcomeView,
    PlanError, PlannedView,
};
use crate::duplicates::{group_views, DuplicateGroup, GroupView};
use crate::edits::{
    rename_goes, rename_in_groups, with_file_renamed, EditsView, RenameError, ScanEdits,
};
use crate::engine::{EngineEvent, RemovedPaths};
use crate::filters::{FilterView, GroupFilter};
use crate::finder::{
    count_files, count_sum, count_waste, drop_trivial, nontrivial, sort_by_waste, sorted_by_waste, waste_sum,
};
use crate::naming::{
    any_marked, canonical_name, canonical_text, is_first_like, names_of, rename_goal, suggested_rename,
};
use crate::outside::{human_size, human_size_of};
use crate::path_set::PathSet;
use crate::paths::{file_name_or_empty, name_or_empty, path_key, path_keys};
use crate::preview::{Previewer, PreviewerView};
use crate::scanner::{
    add_capped, capped, capped_count, count_capped, file_views, ConfigView, FileInfo, FileView,
    ScanConfig, ScanProgress,
};
use crate::selection::{
    apply_mode, clear_marks, cleared, has_path, marked, mode_marks, SelectMode,
};
use crate::suggestions::{
    analysis_of, best, confidence_text, GroupAnalysis, SuggestionEngine,
};
use crate::text::{chars_of, decimal, decimal_text, slice_of, text_of, views};

verus! {

#[derive(Debug, Clone, Copy, PartialEq, Eq, Structural)]
pub enum ViewMode {
    Duplicates,
    Statistics,
    Help,
}

/// Which groups an action applies to. `AllGroups` means every group that
/// passes the current filter.
#[derive(Debug, Clone, Copy, PartialEq, Eq, Structural)]
pub enum Scope {
    CurrentGroup,
    AllGroups,
}

#[derive(Debug, Clone)]
pub struct PendingConfirm {
    pub plan: DeletionPlan,
    pub scope: Scope,
}

/// A text field the footer is currently editing.
#[derive(Debug, Clone, PartialEq, Eq)]
pub enum Input {
    /// Path substring filter.
    Filter(String),
    /// New name for the selected file.
    Rename { path: String, text: String },
}

pub struct App {
    pub root_path: String,
    pub config: Option<ScanConfig>,
    /// Paths removed that the engine has not been told of yet.
    pub removed: RemovedPaths,
    pub edits: ScanEdits,
    pub groups: Vec<DuplicateGroup>,
    /// Indices into `groups` that pass `filter`, in display order.
    pub visible: Vec<usize>,
    pub filter: GroupFilter,
    pub progress: ScanProgress,
    pub scan_complete: bool,
    /// How long the scan took, in nanoseconds.
    pub elapsed: Option<u64>,
    /// Position within `visible`.
    pub current_group_index: usize,
    pub selected_file_index: usize,
    pub marked: PathSet,
    pub deleter: Deleter,
    pub scan_id: Option<i64>,
    pub view_mode: ViewMode,
    pub status_message: Option<String>,
    pub pending_confirm: Option<PendingConfirm>,
    pub input: Option<Input>,
    pub show_mark_menu: bool,
    /// Image preview pane beside the file list (toggle with `v`).
    pub show_preview: bool,
    pub previewer: Previewer,
    pub total_deleted: usize,
    pub total_freed: u64,
    pub last_report: Option<DeletionReport>,
}

pub enum InputView {
    Filter(Seq<char>),
    Rename { path: Seq<char>, text: Seq<char> },
}

/// What an `App` holds.
pub struct AppView {
    pub root_path: Seq<char>,
    pub config: Option<ConfigView>,
    pub removed: Set<Seq<char>>,
    pub edits: EditsView,
    pub groups: Seq<GroupView>,
    pub visible: Seq<usize>,
    pub filter: FilterView,
    pub progress: ScanProgress,
    pub scan_complete: bool,
    pub elapsed: Option<u64>,
    pub current_group_index: usize,
    pub selected_file_index: usize,
    pub marked: Set<Seq<char>>,
    pub deleter: Deleter,
    pub scan_id: Option<i64>,
    pub view_mode: ViewMode,
    pub status: Option<Seq<char>>,
    pub pending: Option<(Seq<PlannedView>, Scope)>,
    pub input: Option<InputView>,
    pub show_mark_menu: bool,
    pub show_preview: bool,
    pub previewer: PreviewerView,
    pub total_deleted: usize,
    pub total_freed: u64,
    pub last_report: Option<Seq<OutcomeView>>,
}

pub open spec fn input_view(i: Option<Input>) -> Option<InputView> {
    match i {
        Some(Input::Filter(t)) => Some(InputView::Filter(t@)),
        Some(Input::Rename { path, text }) => Some(InputView::Rename { path: path@, text: text@ }),
        None => None,
    }
}

pub open spec fn pending_view(p: Option<PendingConfirm>) -> Option<(Seq<PlannedView>, Scope)> {
    match p {
        Some(c) => Some((planned_views(c.plan.items@), c.scope)),
        None => None,
    }
}

impl View for App {
    type V = AppView;

    open spec fn view(&self) -> AppView {
        AppView {
            root_path: self.root_path@,
            config: match self.config {
                Some(c) => Some(c@),
                None => None,
            },
            removed: self.removed@,
            edits: self.edits@,
            groups: group_views(self.groups@),
            visible: self.visible@,
            filter: self.filter@,
            progress: self.progress,
            scan_complete: self.scan_complete,
            elapsed: self.elapsed,
            current_group_index: self.current_group_index,
            selected_file_index: self.selected_file_index,
            marked: self.marked@,
            deleter: self.deleter,
            scan_id: self.scan_id,
            view_mode: self.view_mode,
            status: crate::scanner::opt_view(self.status_message),
            pending: pending_view(self.pending_confirm),
            input: input_view(self.input),
            show_mark_menu: self.show_mark_menu,
            show_preview: self.show_preview,
            previewer: self.previewer@,
            total_deleted: self.total_deleted,
            total_freed: self.total_freed,
            last_report: match self.last_report {
                Some(r) => Some(outcome_views(r.outcomes@)),
                None => None,
            },
        }
    }
}

/// Where the group with this hash stands among the visible ones, from `k`
/// on.
pub open spec fn place_of(groups: Seq<GroupView>, visible: Seq<usize>, hash: Seq<char>, k: int) -> Option<int>
    decreases visible.len() - k,
{
    if k < 0 || k >= visible.len() {
        None
    } else if groups[visible[k] as int].hash == hash {
        Some(k)
    } else {
        place_of(groups, visible, hash, k + 1)
    }
}

/// The groups at these places.
pub open spec fn groups_at(groups: Seq<GroupView>, ids: Seq<usize>) -> Seq<GroupView> {
    Seq::new(ids.len(), |i: int| groups[ids[i] as int])
}

/// The marks once the mode was applied to these groups, one after the other.
pub open spec fn marks_over(marks: Set<Seq<char>>, groups: Seq<GroupView>, mode: SelectMode) -> Set<Seq<char>>
    decreases groups.len(),
{
    if groups.len() == 0 {
        marks
    } else {
        mode_marks(marks_over(marks, groups.drop_last(), mode), groups.last().files, mode)
    }
}

/// How many files the mode marks in these groups.
pub open spec fn marks_in(groups: Seq<GroupView>, mode: SelectMode) -> int
    decreases groups.len(),
{
    if groups.len() == 0 {
        0
    } else {
        marks_in(groups.drop_last(), mode) + marked(groups.last().files, mode).len()
    }
}

/// In how many of these groups the mode marks a file.
pub open spec fn touched_in(groups: Seq<GroupView>, mode: SelectMode) -> int
    decreases groups.len(),
{
    if groups.len() == 0 {
        0
    } else {
        touched_in(groups.drop_last(), mode) + if marked(groups.last().files, mode).len() > 0 {
            1int
        } else {
            0int
        }
    }
}

/// How many of these files are marked.
pub open spec fn marked_count(files: Seq<FileView>, marks: Set<Seq<char>>) -> nat
    decreases files.len(),
{
    if files.len() == 0 {
        0
    } else {
        marked_count(files.drop_last(), marks) + if marks.contains(files.last().key()) {
            1nat
        } else {
            0nat
        }
    }
}

/// The sizes of the marked ones of these files added up.
pub open spec fn marked_size(files: Seq<FileView>, marks: Set<Seq<char>>) -> int
    decreases files.len(),
{
    if files.len() == 0 {
        0
    } else {
        marked_size(files.drop_last(), marks) + if marks.contains(files.last().key()) {
            files.last().size as int
        } else {
            0
        }
    }
}

pub open spec fn marked_size_all(groups: Seq<GroupView>, marks: Set<Seq<char>>) -> int
    decreases groups.len(),
{
    if groups.len() == 0 {
        0
    } else {
        marked_size_all(groups.drop_last(), marks) + marked_size(groups.last().files, marks)
    }
}

/// The marked paths of these groups.
pub open spec fn marked_of(groups: Seq<GroupView>, marks: Set<Seq<char>>) -> Set<Seq<char>> {
    Set::new(|p: Seq<char>| marks.contains(p) && crate::deletion::in_groups(groups, p))
}

impl AppView {
    /// What always holds: every group has at least two files, the visible
    /// groups are those that pass the filter, and the selection points at
    /// one of them and at one of its files.
    pub open spec fn wf(self) -> bool {
        &&& forall|i: int| 0 <= i < self.groups.len() ==> !(#[trigger] self.groups[i]).trivial()
        &&& self.groups.len() <= usize::MAX
        &&& self.visible == self.filter.passing(self.groups, self.groups.len())
        &&& if self.visible.len() == 0 {
            self.current_group_index == 0 && self.selected_file_index == 0
        } else {
            &&& self.current_group_index < self.visible.len()
            &&& self.visible[self.current_group_index as int] < self.groups.len()
            &&& self.selected_file_index < self.groups[self.visible[self.current_group_index as int] as int].files.len()
        }
    }

    pub open spec fn say(self, text: Seq<char>) -> AppView {
        AppView { status: Some(text), ..self }
    }

    /// The group that is selected.
    pub open spec fn current(self) -> Option<GroupView> {
        if self.current_group_index < self.visible.len() {
            Some(self.groups[self.visible[self.current_group_index as int] as int])
        } else {
            None
        }
    }

    /// The file that is selected.
    pub open spec fn selected(self) -> Option<FileView> {
        match self.current() {
            Some(g) => if self.selected_file_index < g.files.len() {
                Some(g.files[self.selected_file_index as int])
            } else {
                None
            },
            None => None,
        }
    }

    /// The hash of the group that is selected.
    pub open spec fn anchor(self) -> Option<Seq<char>> {
        match self.current() {
            Some(g) => Some(g.hash),
            None => None,
        }
    }

    /// The state with the visible groups worked out anew. The selection goes
    /// to the group with the hash `anchor`, where it is visible, and in any
    /// case stays within bounds.
    pub open spec fn anchored(self, anchor: Option<Seq<char>>) -> AppView {
        let gs = nontrivial(self.groups);
        let vis = self.filter.passing(gs, gs.len());
        let wanted = match anchor {
            Some(h) => match place_of(gs, vis, h, 0) {
                Some(k) => k,
                None => self.current_group_index as int,
            },
            None => self.current_group_index as int,
        };
        let cur = if vis.len() == 0 {
            0
        } else if wanted >= vis.len() {
            vis.len() - 1
        } else {
            wanted
        };
        let files = if vis.len() == 0 {
            0
        } else {
            gs[vis[cur] as int].files.len() as int
        };
        let sel = if files == 0 {
            0
        } else if self.selected_file_index >= files {
            files - 1
        } else {
            self.selected_file_index as int
        };
        AppView {
            groups: gs,
            visible: vis,
            current_group_index: cur as usize,
            selected_file_index: sel as usize,
            ..self
        }
    }

    pub open spec fn refreshed(self) -> AppView {
        self.anchored(self.anchor())
    }

    /// The state once a snapshot from the engine was taken over.
    pub open spec fn adopt(self, groups: Seq<GroupView>) -> AppView {
        AppView { groups: self.edits.edit_all(groups), ..self }.anchored(self.anchor())
    }

    /// The places of the groups an action applies to.
    pub open spec fn scope_ids(self, scope: Scope) -> Seq<usize> {
        match scope {
            Scope::CurrentGroup => if self.current_group_index < self.visible.len() {
                seq![self.visible[self.current_group_index as int]]
            } else {
                seq![]
            },
            Scope::AllGroups => self.visible,
        }
    }

    pub open spec fn scope_groups(self, scope: Scope) -> Seq<GroupView> {
        groups_at(self.groups, self.scope_ids(scope))
    }

    /// The name of the current group's keeper.
    pub open spec fn keeper_name(self) -> Seq<char> {
        match self.current() {
            Some(g) => if g.files.len() == 0 {
                seq![]
            } else {
                name_or_empty(g.files[best(g.files, g.files.len())].path)
            },
            None => seq![],
        }
    }

    /// How sure the suggestions for the current group are.
    pub open spec fn confidence(self) -> Seq<char> {
        match self.current() {
            Some(g) => confidence_text(analysis_of(g.files).top_score(g.files.len())),
            None => ""@,
        }
    }

    /// What is said after marking `count` files in `touched` groups.
    pub open spec fn mode_text(self, mode: SelectMode, scope: Scope, count: nat, touched: nat) -> Seq<char> {
        match scope {
            Scope::CurrentGroup => match mode {
                SelectMode::Suggested => if count == 0 {
                    "No file in this group looks like a copy. Use 'o' to mark all but the keeper, or Space."@
                } else {
                    "Marked "@ + decimal(count) + " suggested file(s) ("@ + self.confidence() + ")"@
                },
                SelectMode::AllButKeeper => "Marked "@ + decimal(count) + " file(s), keeping "@
                    + self.keeper_name(),
                _ => mode.label_text() + ": marked "@ + decimal(count) + " file(s)"@,
            },
            Scope::AllGroups => mode.label_text() + ": marked "@ + decimal(count) + " file(s) in "@ + decimal(
                touched,
            ) + " "@ + (if self.filter.active() {
                "matching"@
            } else {
                "all"@
            }) + " group(s)"@,
        }
    }

    /// The state once a mode was applied to the groups of a scope.
    pub open spec fn with_mode(self, mode: SelectMode, scope: Scope) -> AppView {
        let gs = self.scope_groups(scope);
        let after = AppView { marked: marks_over(self.marked, gs, mode), ..self };
        after.say(
            after.mode_text(
                mode,
                scope,
                capped_count(marks_in(gs, mode)) as nat,
                capped_count(touched_in(gs, mode)) as nat,
            ),
        )
    }

    /// The state once files were deleted.
    pub open spec fn after_deletion(self, outcomes: Seq<OutcomeView>) -> AppView {
        let gone = Set::new(|p: Seq<char>| was_deleted(outcomes, p));
        let pruned = AppView {
            groups: Seq::new(self.groups.len(), |i: int| self.groups[i].without(gone)),
            marked: self.marked.difference(gone),
            removed: if self.scan_complete {
                self.removed
            } else {
                self.removed.union(gone)
            },
            edits: if self.scan_complete {
                self.edits
            } else {
                self.edits.delete(gone)
            },
            previewer: self.previewer.forgotten(gone),
            ..self
        };
        AppView {
            total_deleted: capped_count(self.total_deleted + deleted_in(outcomes)),
            total_freed: capped(self.total_freed + capped(freed_by(outcomes))),
            last_report: Some(outcomes),
            ..pruned.refreshed()
        }.say(deletion_text(self.deleter.method, outcomes))
    }
}

/// What is said after a deletion.
pub open spec fn deletion_text(method: DeleteMethod, outcomes: Seq<OutcomeView>) -> Seq<char> {
    let failures = failures_in(outcomes);
    if failures.len() > 0 {
        "Deleted "@ + decimal(deleted_in(outcomes)) + " file(s) via "@ + method.label_text() + ", "@ + decimal(
            failures.len(),
        ) + " failed: "@ + failures[0].1
    } else {
        "Deleted "@ + decimal(deleted_in(outcomes)) + " file(s) via "@ + method.label_text() + ", freed "@
            + human_size_of(capped(freed_by(outcomes)))
    }
}

proof fn lemma_all_nontrivial(groups: Seq<GroupView>)
    ensures
        forall|i: int| 0 <= i < nontrivial(groups).len() ==> !(#[trigger] nontrivial(groups)[i]).trivial(),
        nontrivial(groups).len() <= groups.len(),
    decreases groups.len(),
{
    if groups.len() > 0 {
        lemma_all_nontrivial(groups.drop_last());
        let n = nontrivial(groups.drop_last());
        let all = nontrivial(groups);
        assert forall|i: int| 0 <= i < all.len() implies !(#[trigger] all[i]).trivial() by {
            if i < n.len() {
                assert(all[i] == n[i]);
            }
        }
    }
}

proof fn lemma_place(groups: Seq<GroupView>, visible: Seq<usize>, hash: Seq<char>, k: int)
    requires
        k >= 0,
    ensures
        place_of(groups, visible, hash, k) is Some ==> k <= place_of(groups, visible, hash, k)->0
            < visible.len(),
    decreases visible.len() - k,
{
    if k < visible.len() && groups[visible[k] as int].hash != hash {
        lemma_place(groups, visible, hash, k + 1);
    }
}

/// Working out the visible groups anew always gives a state in order: no
/// group has fewer than two files, and the selection is within bounds.
pub proof fn refreshing_restores_order(v: AppView, anchor: Option<Seq<char>>)
    requires
        v.groups.len() <= usize::MAX,
    ensures
        v.anchored(anchor).wf(),
{
    let gs = nontrivial(v.groups);
    lemma_all_nontrivial(v.groups);
    let vis = v.filter.passing(gs, gs.len());
    crate::filters::filtering_keeps_order(v.filter, gs, gs.len());
    match anchor {
        Some(h) => {
            lemma_place(gs, vis, h, 0);
        },
        None => {},
    }
    let r = v.anchored(anchor);
    if vis.len() > 0 {
        assert(r.current_group_index < vis.len());
        assert(vis[r.current_group_index as int] < gs.len());
        assert(!gs[vis[r.current_group_index as int] as int].trivial());
    }
}

impl App {
    pub open spec fn wf(&self) -> bool {
        self@.wf()
    }

    fn fresh(
        root_path: String,
        config: Option<ScanConfig>,
        groups: Vec<DuplicateGroup>,
        progress: ScanProgress,
        scan_complete: bool,
        deleter: Deleter,
        scan_id: Option<i64>,
    ) -> (r: App)
        ensures
            r@ == (AppView {
                root_path: root_path@,
                config: match config {
                    Some(c) => Some(c@),
                    None => None,
                },
                removed: Set::empty(),
                edits: EditsView { deleted: Set::empty(), renamed: seq![] },
                groups: group_views(groups@),
                visible: seq![],
                filter: FilterView {
                    path: ""@,
                    size: crate::filters::SizeBucket::All,
                    kind: crate::filters::FileKind::All,
                },
                progress,
                scan_complete,
                elapsed: None,
                current_group_index: 0,
                selected_file_index: 0,
                marked: Set::empty(),
                deleter,
                scan_id,
                view_mode: ViewMode::Duplicates,
                status: None,
                pending: None,
                input: None,
                show_mark_menu: false,
                show_preview: true,
                previewer: PreviewerView { cache: seq![], pending: Set::empty(), requests: seq![] },
                total_deleted: 0,
                total_freed: 0,
                last_report: None,
            }),
    {
        let r = App {
            root_path,
            config,
            removed: RemovedPaths::default(),
            edits: ScanEdits::default(),
            groups,
            visible: Vec::new(),
            filter: GroupFilter::default(),
            progress,
            scan_complete,
            elapsed: None,
            current_group_index: 0,
            selected_file_index: 0,
            marked: PathSet::new(),
            deleter,
            scan_id,
            view_mode: ViewMode::Duplicates,
            status_message: None,
            pending_confirm: None,
            input: None,
            show_mark_menu: false,
            show_preview: true,
            previewer: Previewer::new(),
            total_deleted: 0,
            total_freed: 0,
            last_report: None,
        };
        assert(r@.visible =~= seq![]);
        r
    }

    /// The state at the start of a fresh scan.
    pub fn new_scan(config: ScanConfig, deleter: Deleter) -> (r: App)
        ensures
            r.wf(),
            r@ == blank(
                config@.root_path,
                Some(config@),
                seq![],
                ScanProgress { scanned_count: 0, total_size: 0, skipped: 0 },
                false,
                deleter,
                None,
            ),
    {
        let root = config.root_path.clone();
        let r = App::fresh(root, Some(config), Vec::new(), ScanProgress::default(), false, deleter, None);
        assert(r@.groups =~= seq![]);
        assert(r@.visible =~= r@.filter.passing(r@.groups, 0));
        r
    }

    /// Review a previously recorded scan.
    pub fn from_recorded(
        root_path: String,
        groups: Vec<DuplicateGroup>,
        files_scanned: usize,
        deleter: Deleter,
        scan_id: Option<i64>,
    ) -> (r: App)
        ensures
            r.wf(),
            exists|sorted: Seq<GroupView>| #[trigger]
                sorted_by_waste(nontrivial(group_views(groups@)), sorted) && r@ == blank(
                    root_path@,
                    None,
                    sorted,
                    ScanProgress { scanned_count: files_scanned, total_size: 0, skipped: 0 },
                    true,
                    deleter,
                    scan_id,
                ).anchored(None),
    {
        let sorted = sort_by_waste(&drop_trivial(&groups));
        let ghost sv = group_views(sorted@);
        let mut r = App::fresh(
            root_path,
            None,
            sorted,
            ScanProgress { scanned_count: files_scanned, total_size: 0, skipped: 0 },
            true,
            deleter,
            scan_id,
        );
        r.refresh_around(None);
        r
    }

    pub fn is_scanning(&self) -> (r: bool)
        ensures
            r == !self.scan_complete,
    {
        !self.scan_complete
    }

    /// How long the scan took, or has taken by now, where `running` is the
    /// time since it started; both in nanoseconds.
    pub fn scan_elapsed(&self, running: u64) -> (r: u64)
        ensures
            r == match self.elapsed {
                Some(e) => e,
                None => running,
            },
    {
        match self.elapsed {
            Some(e) => e,
            None => running,
        }
    }

    /// Takes over what the engine sent: no more than one event that ends the
    /// scan, and nothing after it. Returns whether the scan is complete now
    /// and waits to be recorded.
    pub fn tick(&mut self, events: Vec<EngineEvent>) -> (r: bool)
        requires
            old(self).wf(),
        ensures
            final(self).wf(),
            final(self)@ == old(self)@.after_events(events@),
            r == exists|i: int| 0 <= i < events@.len() && #[trigger] events@[i] is Complete,
    {
        let n = events.len();
        let ghost all = events@;
        let mut queue = events;
        assert(all.take(0) =~= seq![]);
        let mut i: usize = 0;
        while i < n
            invariant
                self.wf(),
                all == events@,
                n == all.len(),
                i <= n,
                queue@ == all.skip(i as int),
                forall|k: int| 0 <= k < i ==> !(#[trigger] all[k] is Complete),
                self@ == old(self)@.after_events(all.take(i as int)),
            decreases n - i,
        {
            let ghost head = all.take(i as int);
            let ghost next = all.take(i + 1);
            proof {
                assert(queue@.len() > 0);
                assert(next.drop_last() =~= head);
                assert(next.last() == all[i as int]);
                lemma_not_over(head);
            }
            let ev = queue.remove(0);
            proof {
                assert(ev == all[i as int]);
                assert(queue@ =~= all.skip(i + 1));
            }
            match ev {
                EngineEvent::Progress(p) => {
                    self.progress = p;
                },
                EngineEvent::Groups(groups) => {
                    self.adopt_snapshot(groups);
                },
                EngineEvent::Complete { finder, progress, elapsed } => {
                    let groups = crate::duplicates::copy_groups(finder.groups());
                    self.adopt_snapshot(groups);
                    self.progress = progress;
                    self.elapsed = Some(elapsed);
                    self.scan_complete = true;
                    self.edits.clear();
                    self.removed = RemovedPaths::default();
                    proof {
                        assert(all[i as int] is Complete);
                        lemma_over(old(self)@, all, i as int);
                    }
                    return true;
                },
            }
            i = i + 1;
        }
        assert(all.take(n as int) =~= all);
        false
    }

    /// Replace the groups with a snapshot from the engine, replaying the
    /// deletions and renames made while the scan ran.
    pub fn adopt_snapshot(&mut self, groups: Vec<DuplicateGroup>)
        requires
            old(self).wf(),
        ensures
            final(self).wf(),
            final(self)@ == old(self)@.adopt(group_views(groups@)),
    {
        proof {
            self.lemma_range();
        }
        let anchor = self.current_hash();
        let mut snapshot = groups;
        self.edits.apply(&mut snapshot);
        self.groups = snapshot;
        self.refresh_around(anchor);
    }

    fn current_hash(&self) -> (r: Option<String>)
        requires
            self.visible_in_range(),
        ensures
            crate::scanner::opt_view(r) == self@.anchor(),
    {
        if self.current_group_index < self.visible.len() {
            let gi = self.visible[self.current_group_index];
            assert(self@.groups[gi as int] == self.groups@[gi as int]@);
            Some(self.groups[gi].hash.clone())
        } else {
            None
        }
    }

    /// Every visible group is there.
    pub open spec fn visible_in_range(&self) -> bool {
        forall|k: int| 0 <= k < self.visible@.len() ==> (#[trigger] self.visible@[k]) < self.groups@.len()
    }

    fn refresh_around(&mut self, anchor: Option<String>)
        ensures
            final(self).wf(),
            final(self)@ == old(self)@.anchored(crate::scanner::opt_view(anchor)),
    {
        let ghost before = self@;
        let total = self.groups.len();
        let kept_groups = drop_trivial(&self.groups);
        let vis = self.filter.apply(&kept_groups);
        let ghost gs = group_views(kept_groups@);
        proof {
            refreshing_restores_order(before, crate::scanner::opt_view(anchor));
            let n = kept_groups.len();
            crate::filters::filtering_keeps_order(before.filter, gs, gs.len());
            lemma_all_nontrivial(before.groups);
        }
        let m = vis.len();
        let mut cur = self.current_group_index;
        if let Some(h) = &anchor {
            let mut k: usize = 0;
            while k < m && kept_groups[vis[k]].hash != *h
                invariant
                    m == vis@.len(),
                    k <= m,
                    gs == group_views(kept_groups@),
                    forall|j: int| 0 <= j < vis@.len() ==> (#[trigger] vis@[j]) < gs.len(),
                    place_of(gs, vis@, h@, 0) == place_of(gs, vis@, h@, k as int),
                decreases m - k,
            {
                assert(gs[vis@[k as int] as int] == kept_groups@[vis@[k as int] as int]@);
                k = k + 1;
            }
            if k < m {
                assert(gs[vis@[k as int] as int] == kept_groups@[vis@[k as int] as int]@);
                cur = k;
            }
        }
        if m == 0 {
            cur = 0;
            self.selected_file_index = 0;
        } else {
            if cur >= m {
                cur = m - 1;
            }
            assert(vis@[cur as int] < gs.len());
            assert(gs[vis@[cur as int] as int] == kept_groups@[vis@[cur as int] as int]@);
            let files = kept_groups[vis[cur]].files.len();
            assert(!gs[vis@[cur as int] as int].trivial());
            if self.selected_file_index >= files {
                self.selected_file_index = files - 1;
            }
        }
        self.current_group_index = cur;
        self.groups = kept_groups;
        self.visible = vis;
    }

    /// Recompute `visible` after the groups or the filter changed, keeping
    /// the selection on the same group when it is still visible.
    pub fn refresh_visible(&mut self)
        requires
            old(self).visible_in_range(),
        ensures
            final(self).wf(),
            final(self)@ == old(self)@.refreshed(),
    {
        let anchor = self.current_hash();
        self.refresh_around(anchor);
    }

    /// A state in order has every visible group in range.
    proof fn lemma_range(&self)
        requires
            self.wf(),
        ensures
            self.visible_in_range(),
    {
        crate::filters::filtering_keeps_order(self@.filter, self@.groups, self@.groups.len());
    }

    fn say(&mut self, text: String)
        ensures
            final(self)@ == old(self)@.say(text@),
            final(self).groups == old(self).groups,
            final(self).visible == old(self).visible,
    {
        self.status_message = Some(text);
    }

    fn say_filter(&mut self)
        ensures
            final(self)@ == old(self)@.say("Filter: "@ + old(self)@.filter.description()),
    {
        let mut text = String::new();
        text.append("Filter: ");
        text.append(self.filter.describe().as_str());
        assert(text@ =~= "Filter: "@ + self@.filter.description());
        self.say(text);
    }

    pub fn set_path_filter(&mut self, text: String)
        requires
            old(self).wf(),
        ensures
            final(self).wf(),
            final(self)@ == old(self)@.filtered(FilterView { path: text@, ..old(self)@.filter }),
    {
        proof {
            self.lemma_range();
        }
        self.filter.path = text;
        self.refresh_visible();
        self.say_filter();
    }

    pub fn cycle_size_filter(&mut self)
        requires
            old(self).wf(),
        ensures
            final(self).wf(),
            final(self)@ == old(self)@.filtered(
                FilterView { size: old(self)@.filter.size.successor(), ..old(self)@.filter },
            ),
    {
        proof {
            self.lemma_range();
        }
        self.filter.size = self.filter.size.next();
        self.refresh_visible();
        self.say_filter();
    }

    pub fn cycle_kind_filter(&mut self)
        requires
            old(self).wf(),
        ensures
            final(self).wf(),
            final(self)@ == old(self)@.filtered(
                FilterView { kind: old(self)@.filter.kind.successor(), ..old(self)@.filter },
            ),
    {
        proof {
            self.lemma_range();
        }
        self.filter.kind = self.filter.kind.next();
        self.refresh_visible();
        self.say_filter();
    }

    pub fn clear_filter(&mut self)
        requires
            old(self).wf(),
        ensures
            final(self).wf(),
            final(self)@ == (AppView {
                filter: FilterView {
                    path: ""@,
                    size: crate::filters::SizeBucket::All,
                    kind: crate::filters::FileKind::All,
                },
                ..old(self)@
            }).refreshed().say("Filter cleared"@),
    {
        proof {
            self.lemma_range();
        }
        self.filter = GroupFilter::default();
        self.refresh_visible();
        self.say("Filter cleared".to_owned());
    }

    // ----- navigation ------------------------------------------------------

    pub fn current_group_id(&self) -> (r: Option<usize>)
        ensures
            r == if self@.current_group_index < self@.visible.len() {
                Some(self@.visible[self@.current_group_index as int])
            } else {
                None
            },
    {
        if self.current_group_index < self.visible.len() {
            Some(self.visible[self.current_group_index])
        } else {
            None
        }
    }

    pub fn current_group(&self) -> (r: Option<&DuplicateGroup>)
        requires
            self.wf(),
        ensures
            r is Some <==> self@.current() is Some,
            r is Some ==> (r->0)@ == self@.current()->0,
    {
        match self.current_group_id() {
            Some(gi) => {
                assert(self@.groups[gi as int] == self.groups@[gi as int]@);
                Some(&self.groups[gi])
            },
            None => None,
        }
    }

    pub fn current_analysis(&self) -> (r: Option<GroupAnalysis>)
        requires
            self.wf(),
        ensures
            r is Some <==> self@.current() is Some,
            r is Some ==> (r->0)@ == analysis_of((self@.current()->0).files),
    {
        match self.current_group() {
            Some(g) => Some(SuggestionEngine::analyze(&g.files)),
            None => None,
        }
    }

    pub fn selected_file(&self) -> (r: Option<&FileInfo>)
        requires
            self.wf(),
        ensures
            r is Some <==> self@.selected() is Some,
            r is Some ==> (r->0)@ == self@.selected()->0,
            r is Some <==> self@.visible.len() > 0,
    {
        match self.current_group() {
            Some(g) => {
                if self.selected_file_index < g.files.len() {
                    assert(g@.files[self.selected_file_index as int]
                        == g.files@[self.selected_file_index as int]@);
                    Some(&g.files[self.selected_file_index])
                } else {
                    None
                }
            },
            None => None,
        }
    }

    pub fn next_group(&mut self)
        requires
            old(self).wf(),
        ensures
            final(self).wf(),
            final(self)@ == if old(self)@.current_group_index + 1 < old(self)@.visible.len() {
                AppView {
                    current_group_index: (old(self)@.current_group_index + 1) as usize,
                    selected_file_index: 0,
                    ..old(self)@
                }
            } else {
                old(self)@
            },
    {
        let n = self.visible.len();
        if n > 0 && self.current_group_index < n - 1 {
            proof {
                self.lemma_selectable(self.current_group_index + 1);
            }
            self.current_group_index = self.current_group_index + 1;
            self.selected_file_index = 0;
        }
    }

    /// Every visible group can be selected, and has a first file.
    proof fn lemma_selectable(&self, k: int)
        requires
            self.wf(),
            0 <= k < self@.visible.len(),
        ensures
            self@.visible[k] < self@.groups.len(),
            self@.groups[self@.visible[k] as int].files.len() >= 2,
    {
        self.lemma_range();
        assert(self.visible@[k] < self.groups@.len());
        assert(!self@.groups[self@.visible[k] as int].trivial());
    }

    pub fn previous_group(&mut self)
        requires
            old(self).wf(),
        ensures
            final(self).wf(),
            final(self)@ == if old(self)@.current_group_index > 0 {
                AppView {
                    current_group_index: (old(self)@.current_group_index - 1) as usize,
                    selected_file_index: 0,
                    ..old(self)@
                }
            } else {
                old(self)@
            },
    {
        if self.current_group_index > 0 {
            proof {
                self.lemma_selectable(self.current_group_index - 1);
            }
            self.current_group_index = self.current_group_index - 1;
            self.selected_file_index = 0;
        }
    }

    pub fn first_group(&mut self)
        requires
            old(self).wf(),
        ensures
            final(self).wf(),
            final(self)@ == (AppView { current_group_index: 0, selected_file_index: 0, ..old(self)@ }),
    {
        proof {
            if self@.visible.len() > 0 {
                self.lemma_selectable(0);
            }
        }
        self.current_group_index = 0;
        self.selected_file_index = 0;
    }

    pub fn last_group(&mut self)
        requires
            old(self).wf(),
        ensures
            final(self).wf(),
            final(self)@ == (AppView {
                current_group_index: if old(self)@.visible.len() == 0 {
                    0
                } else {
                    (old(self)@.visible.len() - 1) as usize
                },
                selected_file_index: 0,
                ..old(self)@
            }),
    {
        let n = self.visible.len();
        if n == 0 {
            self.current_group_index = 0;
        } else {
            proof {
                self.lemma_selectable(n - 1);
            }
            self.current_group_index = n - 1;
        }
        self.selected_file_index = 0;
    }

    pub fn select_next_file(&mut self)
        requires
            old(self).wf(),
        ensures
            final(self).wf(),
            final(self)@ == if old(self)@.current() is Some && old(self)@.selected_file_index + 1 < (
            old(self)@.current()->0).files.len() {
                AppView {
                    selected_file_index: (old(self)@.selected_file_index + 1) as usize,
                    ..old(self)@
                }
            } else {
                old(self)@
            },
    {
        let n = match self.current_group() {
            Some(g) => g.files.len(),
            None => 0,
        };
        if n > 0 && self.selected_file_index < n - 1 {
            self.selected_file_index = self.selected_file_index + 1;
        }
    }

    pub fn select_previous_file(&mut self)
        requires
            old(self).wf(),
        ensures
            final(self).wf(),
            final(self)@ == (AppView {
                selected_file_index: if old(self)@.selected_file_index == 0 {
                    0
                } else {
                    (old(self)@.selected_file_index - 1) as usize
                },
                ..old(self)@
            }),
    {
        if self.selected_file_index > 0 {
            self.selected_file_index = self.selected_file_index - 1;
        }
    }
}

/// The state of an app before anything happened.
pub open spec fn blank(
    root_path: Seq<char>,
    config: Option<ConfigView>,
    groups: Seq<GroupView>,
    progress: ScanProgress,
    scan_complete: bool,
    deleter: Deleter,
    scan_id: Option<i64>,
) -> AppView {
    AppView {
        root_path,
        config,
        removed: Set::empty(),
        edits: EditsView { deleted: Set::empty(), renamed: seq![] },
        groups,
        visible: seq![],
        filter: FilterView {
            path: ""@,
            size: crate::filters::SizeBucket::All,
            kind: crate::filters::FileKind::All,
        },
        progress,
        scan_complete,
        elapsed: None,
        current_group_index: 0,
        selected_file_index: 0,
        marked: Set::empty(),
        deleter,
        scan_id,
        view_mode: ViewMode::Duplicates,
        status: None,
        pending: None,
        input: None,
        show_mark_menu: false,
        show_preview: true,
        previewer: PreviewerView { cache: seq![], pending: Set::empty(), requests: seq![] },
        total_deleted: 0,
        total_freed: 0,
        last_report: None,
    }
}

impl AppView {
    /// The state under another filter.
    pub open spec fn filtered(self, filter: FilterView) -> AppView {
        AppView { filter, ..self }.refreshed().say("Filter: "@ + filter.description())
    }

    /// The state after one event.
    pub open spec fn after_event(self, ev: EngineEvent) -> AppView {
        match ev {
            EngineEvent::Progress(p) => AppView { progress: p, ..self },
            EngineEvent::Groups(groups) => self.adopt(group_views(groups@)),
            EngineEvent::Complete { finder, progress, elapsed } => AppView {
                progress,
                elapsed: Some(elapsed),
                scan_complete: true,
                edits: EditsView { deleted: Set::empty(), renamed: seq![] },
                removed: Set::empty(),
                ..self.adopt(finder@.groups)
            },
        }
    }

    /// The state after these events; nothing counts after the one that ends
    /// the scan.
    pub open spec fn after_events(self, events: Seq<EngineEvent>) -> AppView
        decreases events.len(),
    {
        if events.len() == 0 {
            self
        } else {
            let before = self.after_events(events.drop_last());
            if is_over(events.drop_last()) {
                before
            } else {
                before.after_event(events.last())
            }
        }
    }
}

/// Does one of these events end the scan?
pub open spec fn is_over(events: Seq<EngineEvent>) -> bool {
    exists|i: int| 0 <= i < events.len() && #[trigger] events[i] is Complete
}

proof fn lemma_not_over(events: Seq<EngineEvent>)
    requires
        forall|k: int| 0 <= k < events.len() ==> !(#[trigger] events[k] is Complete),
    ensures
        !is_over(events),
{
}

/// Events after the one that ends the scan change nothing.
proof fn lemma_over(v: AppView, events: Seq<EngineEvent>, i: int)
    requires
        0 <= i < events.len(),
        events[i] is Complete,
    ensures
        v.after_events(events) == v.after_events(events.take(i + 1)),
    decreases events.len(),
{
    if i == events.len() - 1 {
        assert(events.take(i + 1) =~= events);
    } else {
        let head = events.drop_last();
        assert(head[i] is Complete);
        assert(is_over(head));
        lemma_over(v, head, i);
        assert(head.take(i + 1) =~= events.take(i + 1));
    }
}

// ----- marking -------------------------------------------------------------

proof fn lemma_sums(groups: Seq<GroupView>, mode: SelectMode)
    ensures
        marks_in(groups, mode) >= 0,
        touched_in(groups, mode) >= 0,
    decreases groups.len(),
{
    if groups.len() > 0 {
        lemma_sums(groups.drop_last(), mode);
    }
}

impl App {
    pub fn is_marked(&self, path: &str) -> (r: bool)
        ensures
            r == self@.marked.contains(path_key(path@)),
    {
        self.marked.contains(path)
    }

    pub fn toggle_mark(&mut self)
        requires
            old(self).wf(),
        ensures
            final(self).wf(),
            final(self)@ == match old(self)@.selected() {
                Some(f) => AppView {
                    marked: if old(self)@.marked.contains(f.key()) {
                        old(self)@.marked.remove(f.key())
                    } else {
                        old(self)@.marked.insert(f.key())
                    },
                    ..old(self)@
                },
                None => old(self)@,
            },
    {
        let path = match self.selected_file() {
            Some(f) => f.path.clone(),
            None => {
                return ;
            },
        };
        if !self.marked.remove(path.as_str()) {
            let ghost before = old(self)@.marked;
            let ghost p = path_key(path@);
            self.marked.insert(path);
            assert(self@.marked =~= before.insert(p));
        }
    }

    fn scope_group_ids(&self, scope: Scope) -> (r: Vec<usize>)
        requires
            self.wf(),
        ensures
            r@ == self@.scope_ids(scope),
            forall|k: int| 0 <= k < r@.len() ==> (#[trigger] r@[k]) < self.groups@.len(),
    {
        proof {
            self.lemma_range();
        }
        let mut out: Vec<usize> = Vec::new();
        match scope {
            Scope::CurrentGroup => {
                if let Some(gi) = self.current_group_id() {
                    out.push(gi);
                }
                assert(out@ =~= self@.scope_ids(scope));
            },
            Scope::AllGroups => {
                let n = self.visible.len();
                for i in 0..n
                    invariant
                        n == self.visible@.len(),
                        out@ == self.visible@.take(i as int),
                {
                    out.push(self.visible[i]);
                    assert(self.visible@.take(i + 1) =~= self.visible@.take(i as int).push(
                        self.visible@[i as int],
                    ));
                }
                assert(self.visible@.take(n as int) =~= self.visible@);
            },
        }
        out
    }

    /// Apply one of the shared auto-select rules. The rule owns the marks
    /// of every group it touches (existing marks there are replaced).
    pub fn apply_select_mode(&mut self, mode: SelectMode, scope: Scope)
        requires
            old(self).wf(),
        ensures
            final(self).wf(),
            final(self)@ == old(self)@.with_mode(mode, scope),
    {
        let ids = self.scope_group_ids(scope);
        let ghost gs = groups_at(self@.groups, ids@);
        let ghost before = self@;
        let mut count: usize = 0;
        let mut touched: usize = 0;
        let n = ids.len();
        assert(gs.take(0) =~= seq![]);
        for k in 0..n
            invariant
                n == ids@.len(),
                before == old(self)@,
                gs == groups_at(before.groups, ids@),
                forall|j: int| 0 <= j < n ==> (#[trigger] ids@[j]) < self.groups@.len(),
                self@ == (AppView { marked: marks_over(before.marked, gs.take(k as int), mode), ..before }),
                count == capped_count(marks_in(gs.take(k as int), mode)),
                touched == capped_count(touched_in(gs.take(k as int), mode)),
        {
            let gi = ids[k];
            let ghost head = gs.take(k as int);
            let ghost next = gs.take(k + 1);
            proof {
                assert(self@.groups[gi as int] == self.groups@[gi as int]@);
                assert(next.drop_last() =~= head);
                assert(next.last() == self.groups@[gi as int]@);
                lemma_sums(head, mode);
            }
            let m = apply_mode(&mut self.marked, &self.groups[gi], mode);
            count = count_capped(count, m);
            if m > 0 {
                touched = count_capped(touched, 1);
            }
        }
        assert(gs.take(n as int) =~= gs);
        let text = self.mode_message(mode, scope, count, touched);
        self.say(text);
    }

    fn mode_message(&self, mode: SelectMode, scope: Scope, count: usize, touched: usize) -> (r: String)
        requires
            self.wf(),
        ensures
            r@ == self@.mode_text(mode, scope, count as nat, touched as nat),
    {
        let mut text = String::new();
        match scope {
            Scope::CurrentGroup => match mode {
                SelectMode::Suggested => {
                    if count == 0 {
                        text.append(
                            "No file in this group looks like a copy. Use 'o' to mark all but the keeper, or Space.",
                        );
                    } else {
                        text.append("Marked ");
                        text.append(decimal_text(count as u64).as_str());
                        text.append(" suggested file(s) (");
                        match self.current_analysis() {
                            Some(a) => {
                                text.append(a.confidence());
                            },
                            None => {
                                text.append("");
                            },
                        }
                        text.append(")");
                    }
                },
                SelectMode::AllButKeeper => {
                    text.append("Marked ");
                    text.append(decimal_text(count as u64).as_str());
                    text.append(" file(s), keeping ");
                    let name = self.keeper_file_name();
                    text.append(name.as_str());
                },
                _ => {
                    text.append(mode.label());
                    text.append(": marked ");
                    text.append(decimal_text(count as u64).as_str());
                    text.append(" file(s)");
                },
            },
            Scope::AllGroups => {
                text.append(mode.label());
                text.append(": marked ");
                text.append(decimal_text(count as u64).as_str());
                text.append(" file(s) in ");
                text.append(decimal_text(touched as u64).as_str());
                text.append(" ");
                if self.filter.is_active() {
                    text.append("matching");
                } else {
                    text.append("all");
                }
                text.append(" group(s)");
            },
        }
        assert(text@ =~= self@.mode_text(mode, scope, count as nat, touched as nat));
        text
    }

    fn keeper_file_name(&self) -> (r: String)
        requires
            self.wf(),
        ensures
            r@ == self@.keeper_name(),
    {
        if let Some(g) = self.current_group() {
            if let Some(k) = SuggestionEngine::get_best_keeper(&g.files) {
                assert(g@.files[k as int] == g.files@[k as int]@);
                return file_name_or_empty(g.files[k].path.as_str());
            }
        }
        let e = String::new();
        assert(e@ =~= seq![]);
        e
    }

    pub fn mark_suggested(&mut self, scope: Scope)
        requires
            old(self).wf(),
        ensures
            final(self).wf(),
            final(self)@ == old(self)@.with_mode(SelectMode::Suggested, scope),
    {
        self.apply_select_mode(SelectMode::Suggested, scope);
    }

    pub fn mark_all_but_keeper(&mut self, scope: Scope)
        requires
            old(self).wf(),
        ensures
            final(self).wf(),
            final(self)@ == old(self)@.with_mode(SelectMode::AllButKeeper, scope),
    {
        self.apply_select_mode(SelectMode::AllButKeeper, scope);
    }

    pub fn clear_marks(&mut self, scope: Scope)
        requires
            old(self).wf(),
        ensures
            final(self).wf(),
            final(self)@ == match scope {
                Scope::CurrentGroup => AppView {
                    marked: match old(self)@.current() {
                        Some(g) => cleared(old(self)@.marked, g.files),
                        None => old(self)@.marked,
                    },
                    ..old(self)@
                }.say("Cleared marks in this group"@),
                Scope::AllGroups => AppView { marked: Set::empty(), ..old(self)@ }.say("Cleared all marks"@),
            },
    {
        match scope {
            Scope::CurrentGroup => {
                if let Some(gi) = self.current_group_id() {
                    assert(self@.groups[gi as int] == self.groups@[gi as int]@);
                    clear_marks(&mut self.marked, &self.groups[gi]);
                }
                self.say("Cleared marks in this group".to_owned());
            },
            Scope::AllGroups => {
                self.marked.clear();
                self.say("Cleared all marks".to_owned());
            },
        }
    }

    pub fn marked_in_group(&self, group: &DuplicateGroup) -> (r: usize)
        ensures
            r == marked_count(group@.files, self@.marked),
    {
        let mut count: usize = 0;
        let n = group.files.len();
        let ghost all = group@.files;
        for i in 0..n
            invariant
                n == group.files@.len(),
                all == file_views(group.files@),
                count <= i,
                count == marked_count(all.take(i as int), self@.marked),
        {
            assert(all.take(i + 1).drop_last() =~= all.take(i as int));
            assert(all.take(i + 1).last() == group.files@[i as int]@);
            if self.marked.contains(group.files[i].path.as_str()) {
                count = count + 1;
            }
        }
        assert(all.take(n as int) =~= all);
        count
    }

    pub fn marked_bytes(&self) -> (r: u64)
        ensures
            r == capped(marked_size_all(self@.groups, self@.marked)),
    {
        let mut sum: u64 = 0;
        let n = self.groups.len();
        let ghost gs = self@.groups;
        for g in 0..n
            invariant
                n == self.groups@.len(),
                gs == group_views(self.groups@),
                marked_size_all(gs.take(g as int), self@.marked) >= 0,
                sum == capped(marked_size_all(gs.take(g as int), self@.marked)),
        {
            let group = &self.groups[g];
            assert(gs.take(g + 1).drop_last() =~= gs.take(g as int));
            assert(gs.take(g + 1).last() == group@);
            let ghost base = marked_size_all(gs.take(g as int), self@.marked);
            let ghost all = group@.files;
            let m = group.files.len();
            for i in 0..m
                invariant
                    m == group.files@.len(),
                    all == file_views(group.files@),
                    base >= 0,
                    marked_size(all.take(i as int), self@.marked) >= 0,
                    sum == capped(base + marked_size(all.take(i as int), self@.marked)),
            {
                assert(all.take(i + 1).drop_last() =~= all.take(i as int));
                assert(all.take(i + 1).last() == group.files@[i as int]@);
                if self.marked.contains(group.files[i].path.as_str()) {
                    sum = add_capped(sum, group.files[i].size);
                }
            }
            assert(all.take(m as int) =~= all);
        }
        assert(gs.take(n as int) =~= gs);
        sum
    }

    // ----- text input ------------------------------------------------------

    pub fn start_rename(&mut self)
        requires
            old(self).wf(),
        ensures
            final(self).wf(),
            final(self)@ == match old(self)@.selected() {
                Some(f) => AppView {
                    input: Some(InputView::Rename { path: f.path, text: name_or_empty(f.path) }),
                    ..old(self)@
                },
                None => old(self)@,
            },
    {
        let (path, name) = match self.selected_file() {
            Some(f) => (f.path.clone(), file_name_or_empty(f.path.as_str())),
            None => {
                return ;
            },
        };
        self.input = Some(Input::Rename { path, text: name });
    }

    pub fn start_filter_input(&mut self)
        requires
            old(self).wf(),
        ensures
            final(self).wf(),
            final(self)@ == (AppView {
                input: Some(InputView::Filter(old(self)@.filter.path)),
                ..old(self)@
            }),
    {
        self.input = Some(Input::Filter(self.filter.path.clone()));
    }

    pub fn cancel_input(&mut self)
        requires
            old(self).wf(),
        ensures
            final(self).wf(),
            final(self)@ == (AppView { input: None, ..old(self)@ }),
    {
        self.input = None;
    }

    pub fn input_push(&mut self, c: char)
        requires
            old(self).wf(),
        ensures
            final(self).wf(),
            final(self)@ == (AppView {
                input: match old(self)@.input {
                    Some(InputView::Filter(t)) => Some(InputView::Filter(t.push(c))),
                    Some(InputView::Rename { path, text }) => Some(
                        InputView::Rename { path, text: text.push(c) },
                    ),
                    None => None,
                },
                ..old(self)@
            }),
    {
        let mut input: Option<Input> = None;
        core::mem::swap(&mut input, &mut self.input);
        self.input = match input {
            Some(Input::Filter(t)) => {
                let mut text = t;
                text.push(c);
                Some(Input::Filter(text))
            },
            Some(Input::Rename { path, text }) => {
                let mut t = text;
                t.push(c);
                Some(Input::Rename { path, text: t })
            },
            None => None,
        };
    }

    pub fn input_pop(&mut self)
        requires
            old(self).wf(),
        ensures
            final(self).wf(),
            final(self)@ == (AppView {
                input: match old(self)@.input {
                    Some(InputView::Filter(t)) => Some(InputView::Filter(shortened(t))),
                    Some(InputView::Rename { path, text }) => Some(
                        InputView::Rename { path, text: shortened(text) },
                    ),
                    None => None,
                },
                ..old(self)@
            }),
    {
        let mut input: Option<Input> = None;
        core::mem::swap(&mut input, &mut self.input);
        self.input = match input {
            Some(Input::Filter(t)) => Some(Input::Filter(shorten(t.as_str()))),
            Some(Input::Rename { path, text }) => Some(
                Input::Rename { path, text: shorten(text.as_str()) },
            ),
            None => None,
        };
    }

    /// Enter pressed while editing: a filter is applied; a rename comes back
    /// as the path and the new name, to be carried out.
    pub fn commit_input(&mut self) -> (r: Option<(String, String)>)
        requires
            old(self).wf(),
        ensures
            final(self).wf(),
            match old(self)@.input {
                Some(InputView::Filter(t)) => r is None && final(self)@ == (AppView {
                    input: None,
                    ..old(self)@
                }).filtered(FilterView { path: t, ..old(self)@.filter }),
                Some(InputView::Rename { path, text }) => (r matches Some(p) && p.0@ == path && p.1@ == text)
                    && final(self)@ == (AppView { input: None, ..old(self)@ }),
                None => r is None && final(self)@ == old(self)@,
            },
    {
        let mut input: Option<Input> = None;
        core::mem::swap(&mut input, &mut self.input);
        match input {
            Some(Input::Filter(text)) => {
                self.set_path_filter(text);
                None
            },
            Some(Input::Rename { path, text }) => Some((path, text)),
            None => None,
        }
    }
}

/// The text without its last character.
pub open spec fn shortened(t: Seq<char>) -> Seq<char> {
    if t.len() == 0 {
        t
    } else {
        t.drop_last()
    }
}

fn shorten(t: &str) -> (r: String)
    ensures
        r@ == shortened(t@),
{
    let v = chars_of(t);
    if v.len() == 0 {
        return t.to_owned();
    }
    assert(v@.subrange(0, v@.len() - 1) =~= v@.drop_last());
    text_of(&slice_of(&v, 0, v.len() - 1))
}

// ----- renaming and deleting -----------------------------------------------

impl AppView {
    /// The state once a file was renamed, where `after` are the groups with
    /// its new name.
    pub open spec fn renamed(self, old_path: Seq<char>, new_path: Seq<char>, after: Seq<GroupView>) -> AppView {
        self.with_rename(old_path, new_path, after).refreshed().say("Renamed to "@ + new_path)
    }

    /// The groups, marks and edits with the new name.
    pub open spec fn with_rename(self, old_path: Seq<char>, new_path: Seq<char>, after: Seq<GroupView>) -> AppView {
        AppView {
            groups: after,
            marked: if self.marked.contains(path_key(old_path)) {
                self.marked.remove(path_key(old_path)).insert(path_key(new_path))
            } else {
                self.marked
            },
            edits: if self.scan_complete {
                self.edits
            } else {
                self.edits.rename(old_path, new_path)
            },
            previewer: self.previewer.forgotten(set![path_key(old_path)]),
            ..self
        }
    }

    /// Does the rename of `old_path` to `new_name` go to `new_path` and lead
    /// from this state to `after`?
    pub open spec fn rename_leads_to(
        self,
        old_path: Seq<char>,
        new_name: Seq<char>,
        new_path: Seq<char>,
        after: AppView,
    ) -> bool {
        exists|gi: int, groups: Seq<GroupView>| #[trigger]
            rename_goes(self.groups, old_path, new_name, new_path, gi) && #[trigger] with_file_renamed(
                self.groups,
                gi,
                old_path,
                new_path,
                groups,
            ) && after == self.renamed(old_path, new_path, groups)
    }

    /// What is said where the keeper cannot get its canonical name.
    pub open spec fn no_rename_text(self, g: GroupView) -> Seq<char> {
        let names = names_of(g.files);
        if g.files.len() >= 2 && any_marked(names) {
            if is_first_like(names, canonical_text(names), None) {
                canonical_text(names) + " is taken in the keeper's folder"@
            } else {
                "A copy already has the original name "@ + canonical_text(names) + "; keep that one"@
            }
        } else {
            "No copy markers in this group's names, so there is no name to restore"@
        }
    }

    /// The state once deletion was asked for: a plan that waits to be
    /// confirmed, or the reason why there is none.
    pub open spec fn asked_to_delete(self, scope: Scope, after: AppView) -> bool {
        let gs = self.scope_groups(scope);
        let wanted = marked_of(gs, self.marked);
        if wanted =~= Set::<Seq<char>>::empty() {
            after == self.say("Nothing marked. Space marks a file, 'a' marks suggested copies."@)
        } else if exists|i: int| #[trigger] first_lost(gs, wanted, i) {
            exists|i: int| #[trigger]
                first_lost(gs, wanted, i) && after == self.say(
                    "Not deleting: "@ + every_copy_text(group_title(gs[i]), gs[i].files.len()),
                )
        } else {
            after == AppView { pending: Some((plan_items(gs, wanted), scope)), ..self }
        }
    }
}

/// The refusal to delete every copy in a group.
pub open spec fn every_copy_text(name: Seq<char>, count: nat) -> Seq<char> {
    "Refusing to delete every copy of "@ + name + " ("@ + decimal(count) + " files); leave at least one"@
}

impl App {
    /// Renames a file of the groups, where `target_exists` tells whether
    /// something stands at its new path and `moved` how the move on disk
    /// went. A mark moves with the file; its preview is forgotten.
    pub fn rename(
        &mut self,
        old_path: &str,
        new_name: &str,
        target_exists: bool,
        moved: Result<(), String>,
    ) -> (r: Result<String, RenameError>)
        requires
            old(self).wf(),
        ensures
            final(self).wf(),
            r matches Ok(p) ==> old(self)@.rename_leads_to(old_path@, new_name@, p@, final(self)@),
            r matches Err(e) ==> final(self)@ == old(self)@.say("Not renamed: "@ + e.text())
                && crate::edits::rename_failed(
                old(self)@.groups,
                old_path@,
                new_name@,
                target_exists,
                moved,
                e,
            ),
            r is Ok <==> crate::edits::name_problem(new_name@) is None && crate::deletion::in_groups(
                old(self)@.groups,
                path_key(old_path@),
            ) && crate::paths::parent_of(old_path@) is Some && path_key(crate::paths::join_of(
                crate::paths::parent_of(old_path@)->0,
                new_name@,
            )) != path_key(old_path@) && !target_exists && moved is Ok,
    {
        proof {
            self.lemma_range();
        }
        let ghost before = self@;
        match rename_in_groups(&mut self.groups, old_path, new_name, target_exists, moved) {
            Ok((new_path, gi)) => {
                let ghost after = group_views(self.groups@);
                self.previewer.forget(old_path);
                if self.marked.remove(old_path) {
                    self.marked.insert(new_path.clone());
                }
                if !self.scan_complete {
                    self.edits.record_rename(old_path, new_path.as_str());
                }
                proof {
                    let i = choose|i: int| #[trigger]
                        crate::edits::first_file(before.groups[gi as int].files, path_key(old_path@), i) && after
                            == before.groups.update(
                            gi as int,
                            GroupView {
                                files: before.groups[gi as int].files.update(
                                    i,
                                    FileView { path: new_path@, ..before.groups[gi as int].files[i] },
                                ),
                                ..before.groups[gi as int]
                            },
                        );
                    assert(after.len() == before.groups.len());
                    assert(self@.marked =~= before.with_rename(old_path@, new_path@, after).marked);
                    assert(self@ == before.with_rename(old_path@, new_path@, after));
                }
                self.refresh_visible();
                let mut text = String::new();
                text.append("Renamed to ");
                text.append(new_path.as_str());
                assert(text@ =~= "Renamed to "@ + new_path@);
                self.say(text);
                assert(self@ == before.renamed(old_path@, new_path@, after));
                proof {
                    assert(rename_goes(before.groups, old_path@, new_name@, new_path@, gi as int));
                    assert(with_file_renamed(before.groups, gi as int, old_path@, new_path@, after));
                    assert(before.rename_leads_to(old_path@, new_name@, new_path@, self@));
                }
                Ok(new_path)
            },
            Err(e) => {
                let mut text = String::new();
                text.append("Not renamed: ");
                text.append(e.message().as_str());
                assert(text@ =~= "Not renamed: "@ + e.text());
                self.say(text);
                Err(e)
            },
        }
    }

    /// The current group's keeper is to get the group's canonical name (the
    /// name with copy markers removed), when that name is free:
    /// `target_exists` tells whether something stands at the path that
    /// `naming::rename_target` gives. The path and the new name come back,
    /// to be carried out; where there is nothing to do, the reason is said.
    pub fn rename_keeper_to_canonical(&mut self, target_exists: bool) -> (r: Option<(String, String)>)
        requires
            old(self).wf(),
        ensures
            final(self).wf(),
            match old(self)@.current() {
                None => r is None && final(self)@ == old(self)@,
                Some(g) => {
                    let goal = rename_goal(g, best(g.files, g.files.len()));
                    if goal is Some && !target_exists {
                        r is Some && (r->0).0@ == g.files[best(g.files, g.files.len())].path && (r->0).1@
                            == (goal->0).1 && final(self)@ == old(self)@
                    } else {
                        r is None && final(self)@ == old(self)@.say(old(self)@.no_rename_text(g))
                    }
                },
            },
    {
        let ghost before = self@;
        let mut text = String::new();
        match self.current_group() {
            None => {
                return None;
            },
            Some(group) => {
                let keeper = match SuggestionEngine::get_best_keeper(&group.files) {
                    Some(k) => k,
                    None => {
                        return None;
                    },
                };
                if let Some(found) = suggested_rename(group, keeper, target_exists) {
                    return Some(found);
                }
                let ghost g = group@;
                match canonical_name(group) {
                    Some(c) => {
                        if c.existing.is_some() {
                            text.append("A copy already has the original name ");
                            text.append(c.name.as_str());
                            text.append("; keep that one");
                            proof {
                                let k = c.existing->0;
                                assert(crate::text::lower_text(names_of(g.files)[k as int])
                                    == crate::text::lower_text(c.name@));
                                assert(!is_first_like(names_of(g.files), c.name@, None));
                            }
                        } else {
                            text.append(c.name.as_str());
                            text.append(" is taken in the keeper's folder");
                        }
                    },
                    None => {
                        text.append(
                            "No copy markers in this group's names, so there is no name to restore",
                        );
                    },
                }
                assert(text@ =~= before.no_rename_text(g));
            },
        }
        self.say(text);
        None
    }

    /// Notes how opening the file at `path` with its default application
    /// went.
    pub fn open_selected(&mut self, path: &str, result: Result<(), String>)
        requires
            old(self).wf(),
        ensures
            final(self).wf(),
            final(self)@ == old(self)@.say(
                match result {
                    Ok(()) => "Opened "@ + path@,
                    Err(e) => "Could not open "@ + path@ + ": "@ + e@,
                },
            ),
    {
        let mut text = String::new();
        match result {
            Ok(()) => {
                text.append("Opened ");
                text.append(path);
                assert(text@ =~= "Opened "@ + path@);
            },
            Err(e) => {
                text.append("Could not open ");
                text.append(path);
                text.append(": ");
                text.append(e.as_str());
                assert(text@ =~= "Could not open "@ + path@ + ": "@ + e@);
            },
        }
        self.say(text);
    }

    /// Validate the marked files in `scope` and ask for confirmation.
    pub fn request_delete(&mut self, scope: Scope)
        requires
            old(self).wf(),
        ensures
            final(self).wf(),
            old(self)@.asked_to_delete(scope, final(self)@),
    {
        let ids = self.scope_group_ids(scope);
        let ghost before = self@;
        let ghost gs = groups_at(self@.groups, ids@);
        let mut groups: Vec<DuplicateGroup> = Vec::new();
        let mut wanted = PathSet::new();
        let n = ids.len();
        assert(group_views(groups@) =~= gs.take(0));
        for k in 0..n
            invariant
                n == ids@.len(),
                *self == *old(self),
                gs == groups_at(self@.groups, ids@),
                forall|j: int| 0 <= j < n ==> (#[trigger] ids@[j]) < self.groups@.len(),
                group_views(groups@) == gs.take(k as int),
                forall|p: Seq<char>| #[trigger]
                    wanted@.contains(p) <==> self@.marked.contains(p) && crate::deletion::in_groups(
                        gs.take(k as int),
                        p,
                    ),
        {
            let group = &self.groups[ids[k]];
            let ghost gv = group@;
            let ghost done = group_views(groups@);
            let ghost wanted0 = wanted@;
            assert(gs[k as int] == gv);
            let m = group.files.len();
            for i in 0..m
                invariant
                    m == group.files@.len(),
                    gv == group@,
                    forall|p: Seq<char>| #[trigger]
                        wanted@.contains(p) <==> wanted0.contains(p) || (self@.marked.contains(p) && has_path(
                            gv.files.take(i as int),
                            p,
                        )),
            {
                let f = &group.files[i];
                let ghost head = gv.files.take(i as int);
                let ghost next = gv.files.take(i + 1);
                let ghost wanted1 = wanted@;
                assert(gv.files[i as int] == f@);
                if self.marked.contains(f.path.as_str()) {
                    wanted.insert(f.path.clone());
                }
                assert forall|p: Seq<char>| #[trigger]
                    wanted@.contains(p) <==> wanted0.contains(p) || (self@.marked.contains(p) && has_path(
                        next,
                        p,
                    )) by {
                    assert(wanted1.contains(p) <==> wanted0.contains(p) || (self@.marked.contains(p) && has_path(
                        head,
                        p,
                    )));
                    assert(next[i as int] == f@);
                    if has_path(head, p) {
                        let x = choose|x: int| 0 <= x < head.len() && (#[trigger] head[x]).key() == p;
                        assert(next[x].key() == p);
                    }
                    if has_path(next, p) {
                        let x = choose|x: int| 0 <= x < next.len() && (#[trigger] next[x]).key() == p;
                        if x < i {
                            assert(head[x].key() == p);
                        }
                    }
                }
            }
            assert(gv.files.take(m as int) =~= gv.files);
            groups.push(group.clone());
            proof {
                assert(group_views(groups@) =~= done.push(gv));
                assert(gs.take(k + 1) =~= gs.take(k as int).push(gv));
                assert forall|p: Seq<char>| #[trigger]
                    wanted@.contains(p) <==> self@.marked.contains(p) && crate::deletion::in_groups(
                        gs.take(k + 1),
                        p,
                    ) by {
                    let a = gs.take(k as int);
                    let b = gs.take(k + 1);
                    assert(b[k as int] == gv);
                    if crate::deletion::in_groups(a, p) {
                        let x = choose|x: int| 0 <= x < a.len() && has_path((#[trigger] a[x]).files, p);
                        assert(has_path(b[x].files, p));
                    }
                    if crate::deletion::in_groups(b, p) {
                        let x = choose|x: int| 0 <= x < b.len() && has_path((#[trigger] b[x]).files, p);
                        if x < k {
                            assert(has_path(a[x].files, p));
                        }
                    }
                }
            }
        }
        assert(gs.take(n as int) =~= gs);
        assert(wanted@ =~= marked_of(gs, before.marked));
        if wanted.is_empty() {
            self.say("Nothing marked. Space marks a file, 'a' marks suggested copies.".to_owned());
            return ;
        }
        match plan_deletions(&groups, &wanted) {
            Ok(plan) => {
                assert forall|i: int| !#[trigger] first_lost(gs, wanted@, i) by {
                    if first_lost(gs, wanted@, i) {
                        assert(crate::deletion::loses_all(gs[i], wanted@));
                    }
                }
                self.pending_confirm = Some(PendingConfirm { plan, scope });
            },
            Err(e) => {
                let mut text = String::new();
                text.append("Not deleting: ");
                text.append(e.message().as_str());
                proof {
                    match e {
                        PlanError::NotInGroups(p) => {
                            let i = choose|i: int| #[trigger]
                                crate::deletion::first_unknown(gs, wanted.keys(), i) && p@ == wanted.list()[i];
                            assert(wanted.keys().contains(wanted.keys()[i]));
                            assert(wanted.keys()[i] == path_key(p@));
                            assert(wanted@.contains(path_key(p@)));
                        },
                        PlanError::EveryCopy(name, count) => {
                            let i = choose|i: int| #[trigger]
                                first_lost(gs, wanted@, i) && name@ == group_title(gs[i]) && count
                                    == gs[i].files.len();
                            assert(text@ =~= "Not deleting: "@ + every_copy_text(
                                group_title(gs[i]),
                                gs[i].files.len(),
                            ));
                            assert(first_lost(gs, marked_of(gs, before.marked), i));
                        },
                    }
                }
                self.say(text);
            },
        }
    }

    pub fn cancel_delete(&mut self)
        requires
            old(self).wf(),
        ensures
            final(self).wf(),
            final(self)@ == (AppView { pending: None, ..old(self)@ }).say("Deletion cancelled"@),
    {
        self.pending_confirm = None;
        self.say("Deletion cancelled".to_owned());
    }

    /// The deletion was confirmed: the plan, to be carried out.
    pub fn begin_delete(&mut self) -> (r: Option<DeletionPlan>)
        requires
            old(self).wf(),
        ensures
            final(self).wf(),
            final(self)@ == (AppView { pending: None, ..old(self)@ }),
            r is Some <==> old(self)@.pending is Some,
            r is Some ==> planned_views((r->0).items@) == (old(self)@.pending->0).0,
    {
        let mut pending: Option<PendingConfirm> = None;
        core::mem::swap(&mut pending, &mut self.pending_confirm);
        match pending {
            Some(p) => Some(p.plan),
            None => None,
        }
    }

    /// The plan was carried out: the groups, the marks, the previews and the
    /// totals follow what the report says was deleted.
    pub fn confirm_delete(&mut self, report: DeletionReport)
        requires
            old(self).wf(),
        ensures
            final(self).wf(),
            final(self)@ == old(self)@.after_deletion(outcome_views(report.outcomes@)),
    {
        proof {
            self.lemma_range();
        }
        let ghost before = self@;
        let ghost outcomes = outcome_views(report.outcomes@);
        let ghost gone = Set::new(|p: Seq<char>| was_deleted(outcomes, p));
        let deleted = report.deleted_paths();
        assert(deleted@ =~= gone);
        let list = deleted.to_list();
        self.previewer.forget_all(&deleted);
        let ghost previews = before.previewer.forgotten(gone);
        let n = self.groups.len();
        let ghost goal = Seq::new(before.groups.len(), |i: int| before.groups[i].without(gone));
        for i in 0..n
            invariant
                n == self.groups@.len(),
                n == goal.len(),
                goal == Seq::new(before.groups.len(), |i: int| before.groups[i].without(gone)),
                deleted@ == gone,
                self@ == (AppView { groups: self@.groups, previewer: previews, ..before }),
                forall|k: int| 0 <= k < i ==> (#[trigger] self.groups@[k])@ == goal[k],
                forall|k: int| i <= k < n ==> (#[trigger] self.groups@[k])@ == before.groups[k],
        {
            let mut g = self.groups[i].clone();
            g.remove_paths(&deleted);
            self.groups.set(i, g);
        }
        assert(self@.groups =~= goal);
        let m = list.len();
        for k in 0..m
            invariant
                m == list@.len(),
                self@ == (AppView { groups: goal, marked: self@.marked, previewer: previews, ..before }),
                forall|p: Seq<char>| #[trigger]
                    self@.marked.contains(p) <==> before.marked.contains(p) && !path_keys(views(list@)).take(
                        k as int,
                    ).contains(p),
        {
            let ghost all = path_keys(views(list@));
            let ghost marks = self@.marked;
            self.marked.remove(list[k].as_str());
            assert forall|p: Seq<char>| #[trigger]
                self@.marked.contains(p) <==> before.marked.contains(p) && !all.take(k + 1).contains(p) by {
                assert(self@.marked.contains(p) <==> marks.contains(p) && p != all[k as int]);
                let head = all.take(k as int);
                let next = all.take(k + 1);
                assert(next[k as int] == all[k as int]);
                if head.contains(p) {
                    let x = choose|x: int| 0 <= x < head.len() && head[x] == p;
                    assert(next[x] == p);
                }
                if next.contains(p) {
                    let x = choose|x: int| 0 <= x < next.len() && next[x] == p;
                    if x < k {
                        assert(head[x] == p);
                    }
                }
            }
        }
        proof {
            assert(path_keys(views(list@)).take(m as int) =~= path_keys(views(list@)));
            assert(self@.marked =~= before.marked.difference(gone)) by {
                assert forall|p: Seq<char>| #[trigger] self@.marked.contains(p) <==> before.marked.difference(
                    gone,
                ).contains(p) by {
                    assert(deleted@.contains(p) <==> deleted.keys().contains(p));
                }
            }
        }
        if !self.scan_complete {
            self.removed.add_all(&list);
            self.edits.record_deleted(&list);
            proof {
                assert forall|p: Seq<char>| gone.contains(p) <==> path_keys(views(list@)).contains(p) by {
                    assert(deleted@.contains(p) <==> deleted.keys().contains(p));
                }
                assert(self@.removed =~= before.removed.union(gone));
                assert(path_keys(views(list@)).to_set() =~= gone);
            }
        }
        let ghost pruned = self@;
        self.refresh_visible();
        self.total_deleted = count_capped(self.total_deleted, report.deleted_count());
        self.total_freed = add_capped(self.total_freed, report.bytes_freed());
        let text = deletion_message(self.deleter.method(), &report);
        self.say(text);
        self.last_report = Some(report);
        assert(self@ == before.after_deletion(outcomes));
    }

    /// Notes under which number the finished scan was recorded, or why it
    /// could not be.
    pub fn scan_recorded(&mut self, result: Result<i64, String>)
        requires
            old(self).wf(),
        ensures
            final(self).wf(),
            final(self)@ == match result {
                Ok(id) => AppView { scan_id: Some(id), ..old(self)@ },
                Err(e) => old(self)@.say("Could not save scan to database: "@ + e@),
            },
    {
        match result {
            Ok(id) => {
                self.scan_id = Some(id);
            },
            Err(e) => {
                let mut text = String::new();
                text.append("Could not save scan to database: ");
                text.append(e.as_str());
                assert(text@ =~= "Could not save scan to database: "@ + e@);
                self.say(text);
            },
        }
    }

    /// Under which number the groups are to be stored anew after an edit:
    /// only once the scan is complete and was recorded.
    pub fn persist_groups(&self) -> (r: Option<i64>)
        ensures
            r == if self.scan_complete {
                self.scan_id
            } else {
                None
            },
    {
        if self.scan_complete {
            self.scan_id
        } else {
            None
        }
    }

    pub fn toggle_preview(&mut self)
        requires
            old(self).wf(),
        ensures
            final(self).wf(),
            final(self)@ == (AppView { show_preview: !old(self)@.show_preview, ..old(self)@ }).say(
                if old(self)@.show_preview {
                    "Preview pane hidden"@
                } else {
                    "Preview pane shown"@
                },
            ),
    {
        self.show_preview = !self.show_preview;
        if self.show_preview {
            self.say("Preview pane shown".to_owned());
        } else {
            self.say("Preview pane hidden".to_owned());
        }
    }

    pub fn cycle_view(&mut self)
        requires
            old(self).wf(),
        ensures
            final(self).wf(),
            final(self)@ == (AppView { view_mode: next_view(old(self)@.view_mode), ..old(self)@ }),
    {
        self.view_mode = match self.view_mode {
            ViewMode::Duplicates => ViewMode::Statistics,
            ViewMode::Statistics => ViewMode::Help,
            ViewMode::Help => ViewMode::Duplicates,
        };
    }

    pub fn total_wasted(&self) -> (r: u64)
        ensures
            r == capped(waste_sum(self@.groups)),
    {
        count_waste(&self.groups)
    }

    pub fn total_duplicate_files(&self) -> (r: usize)
        ensures
            r == capped_count(count_sum(self@.groups)),
    {
        count_files(&self.groups)
    }

    pub fn clear_status(&mut self)
        requires
            old(self).wf(),
        ensures
            final(self).wf(),
            final(self)@ == (AppView { status: None, ..old(self)@ }),
    {
        self.status_message = None;
    }
}

pub open spec fn next_view(m: ViewMode) -> ViewMode {
    match m {
        ViewMode::Duplicates => ViewMode::Statistics,
        ViewMode::Statistics => ViewMode::Help,
        ViewMode::Help => ViewMode::Duplicates,
    }
}

fn deletion_message(method: DeleteMethod, report: &DeletionReport) -> (r: String)
    ensures
        r@ == deletion_text(method, outcome_views(report.outcomes@)),
{
    let mut text = String::new();
    text.append("Deleted ");
    text.append(decimal_text(report.deleted_count() as u64).as_str());
    text.append(" file(s) via ");
    text.append(method.label());
    let failures = report.failures();
    if failures.len() > 0 {
        text.append(", ");
        text.append(decimal_text(report.failed_count() as u64).as_str());
        text.append(" failed: ");
        text.append(failures[0].1.as_str());
        assert(crate::deletion::pair_views(failures@)[0].1 == failures@[0].1@);
    } else {
        text.append(", freed ");
        text.append(human_size(report.bytes_freed()).as_str());
        assert(crate::deletion::pair_views(failures@).len() == 0);
    }
    assert(text@ =~= deletion_text(method, outcome_views(report.outcomes@)));
    text
}

proof fn lemma_adopted(v: AppView, groups: Seq<GroupView>, p: Seq<char>)
    requires
        v.edits.hides(p),
    ensures
        !crate::deletion::in_groups(v.adopt(groups).groups, p),
{
    let shown = v.adopt(groups).groups;
    let edited = v.edits.edit_all(groups);
    if crate::deletion::in_groups(shown, p) {
        let i = choose|i: int|
            0 <= i < shown.len() && crate::selection::has_path((#[trigger] shown[i]).files, p);
        let g = shown[i];
        assert(shown.contains(g));
        crate::edits::lemma_nontrivial(edited, g);
        crate::edits::deleted_files_stay_deleted(v.edits, groups, g);
        let k = choose|k: int| 0 <= k < g.files.len() && (#[trigger] g.files[k]).key() == p;
        assert(!v.edits.hides(g.files[k].key()));
    }
}

/// Marks survive whatever the scan sends, and a file that was deleted while
/// it runs comes back in no later snapshot, nor in the final result.
pub proof fn events_keep_marks_and_deletions(v: AppView, events: Seq<EngineEvent>, p: Seq<char>)
    requires
        v.edits.hides(p),
        !crate::deletion::in_groups(v.groups, p),
    ensures
        v.after_events(events).marked == v.marked,
        !crate::deletion::in_groups(v.after_events(events).groups, p),
        !is_over(events) ==> v.after_events(events).edits == v.edits,
    decreases events.len(),
{
    if events.len() > 0 {
        let head = events.drop_last();
        events_keep_marks_and_deletions(v, head, p);
        if !is_over(events) {
            assert forall|k: int| 0 <= k < head.len() implies !(#[trigger] head[k] is Complete) by {
                assert(events[k] == head[k]);
            }
        }
        if !is_over(head) {
            let before = v.after_events(head);
            match events.last() {
                EngineEvent::Progress(_) => {},
                EngineEvent::Groups(groups) => {
                    lemma_adopted(before, group_views(groups@), p);
                },
                EngineEvent::Complete { finder, progress, elapsed } => {
                    lemma_adopted(before, finder@.groups, p);
                    assert(events[events.len() - 1] is Complete);
                },
            }
        }
    }
}

/// A file that was deleted is in no group and not marked any more; while the
/// scan runs it is taken note of for later snapshots, and the engine is told
/// of it.
pub proof fn deletions_are_taken_note_of(v: AppView, outcomes: Seq<OutcomeView>, p: Seq<char>)
    requires
        was_deleted(outcomes, p),
    ensures
        !v.scan_complete ==> v.after_deletion(outcomes).edits.hides(p),
        !v.scan_complete ==> v.after_deletion(outcomes).removed.contains(p),
        !v.after_deletion(outcomes).marked.contains(p),
        !crate::deletion::in_groups(v.after_deletion(outcomes).groups, p),
{
    let gone = Set::new(|q: Seq<char>| was_deleted(outcomes, q));
    crate::edits::deleted_files_are_hidden(v.edits, gone, p);
    let pruned = Seq::new(v.groups.len(), |i: int| v.groups[i].without(gone));
    let shown = v.after_deletion(outcomes).groups;
    if crate::deletion::in_groups(shown, p) {
        let i = choose|i: int|
            0 <= i < shown.len() && crate::selection::has_path((#[trigger] shown[i]).files, p);
        let g = shown[i];
        assert(shown.contains(g));
        assert(shown == nontrivial(pruned));
        crate::edits::lemma_nontrivial(pruned, g);
        let k = choose|k: int| 0 <= k < pruned.len() && pruned[k] == g;
        crate::duplicates::lemma_kept(v.groups[k].files, gone);
        let j = choose|j: int| 0 <= j < g.files.len() && (#[trigger] g.files[j]).key() == p;
        assert(crate::duplicates::kept(v.groups[k].files, gone).contains(g.files[j]));
    }
}

/// A mark goes with the file when it is renamed, and all other marks stay.
pub proof fn marks_follow_renames(
    v: AppView,
    old_path: Seq<char>,
    new_name: Seq<char>,
    new_path: Seq<char>,
    after: AppView,
    p: Seq<char>,
)
    requires
        v.rename_leads_to(old_path, new_name, new_path, after),
        p != path_key(old_path),
        p != path_key(new_path),
    ensures
        after.marked.contains(p) <==> v.marked.contains(p),
        v.marked.contains(path_key(old_path)) ==> after.marked.contains(path_key(new_path))
            && !after.marked.contains(path_key(old_path)),
        !v.marked.contains(path_key(old_path)) ==> after.marked == v.marked,
{
}

/// Going on from view to view comes back after three steps.
pub proof fn views_cycle(m: ViewMode)
    ensures
        next_view(next_view(next_view(m))) == m,
        next_view(m) != m,
{
}

/// A plan that waits for confirmation never takes the last copy: every group
/// of its scope keeps a file that it does not delete, and it deletes nothing
/// but marked files of those groups.
pub proof fn pending_plans_leave_a_copy(v: AppView, scope: Scope, after: AppView)
    requires
        v.wf(),
        v.pending is None,
        v.asked_to_delete(scope, after),
        after.pending is Some,
    ensures
        forall|i: int|
            0 <= i < v.scope_groups(scope).len() && (#[trigger] v.scope_groups(scope)[i]).files.len() > 0
                ==> crate::duplicates::kept(
                v.scope_groups(scope)[i].files,
                marked_of(v.scope_groups(scope), v.marked),
            ).len() > 0,
        forall|k: int|
            0 <= k < (after.pending->0).0.len() ==> v.marked.contains(
                (#[trigger] (after.pending->0).0[k]).key(),
            ) && crate::deletion::in_groups(v.scope_groups(scope), (after.pending->0).0[k].key()),
{
    let gs = v.scope_groups(scope);
    let wanted = marked_of(gs, v.marked);
    assert forall|i: int| 0 <= i < gs.len() implies !crate::deletion::loses_all(#[trigger] gs[i], wanted) by {
        if crate::deletion::loses_all(gs[i], wanted) {
            lemma_first_lost(gs, wanted, i);
        }
    }
    crate::deletion::plans_leave_a_copy(gs, wanted);
}

proof fn lemma_first_lost(groups: Seq<GroupView>, wanted: Set<Seq<char>>, i: int)
    requires
        0 <= i < groups.len(),
        crate::deletion::loses_all(groups[i], wanted),
    ensures
        exists|k: int| #[trigger] first_lost(groups, wanted, k),
    decreases i,
{
    if exists|j: int| 0 <= j < i && crate::deletion::loses_all(#[trigger] groups[j], wanted) {
        let j = choose|j: int| 0 <= j < i && crate::deletion::loses_all(#[trigger] groups[j], wanted);
        lemma_first_lost(groups, wanted, j);
    } else {
        assert(first_lost(groups, wanted, i));
    }
}

/// Marking over several groups marks group after group.
pub proof fn groups_are_marked_one_by_one(
    marks: Set<Seq<char>>,
    groups: Seq<GroupView>,
    g: GroupView,
    mode: SelectMode,
)
    ensures
        marks_over(marks, Seq::<GroupView>::empty(), mode) == marks,
        marks_over(marks, groups.push(g), mode) == mode_marks(marks_over(marks, groups, mode), g.files, mode),
        marks_in(Seq::<GroupView>::empty(), mode) == 0,
        marks_in(groups.push(g), mode) == marks_in(groups, mode) + marked(g.files, mode).len(),
        touched_in(Seq::<GroupView>::empty(), mode) == 0,
        marked(g.files, mode).len() > 0 ==> touched_in(groups.push(g), mode) == touched_in(groups, mode) + 1,
        marked(g.files, mode).len() == 0 ==> touched_in(groups.push(g), mode) == touched_in(groups, mode),
{
    assert(groups.push(g).drop_last() == groups);
}

/// The marked files of a group are counted, and their sizes added up, each
/// once.
pub proof fn marked_files_are_counted(files: Seq<FileView>, f: FileView, marks: Set<Seq<char>>)
    ensures
        marked_count(Seq::<FileView>::empty(), marks) == 0,
        marked_size(Seq::<FileView>::empty(), marks) == 0,
        marks.contains(path_key(f.path)) ==> marked_count(files.push(f), marks) == marked_count(files, marks) + 1
            && marked_size(files.push(f), marks) == marked_size(files, marks) + f.size,
        !marks.contains(path_key(f.path)) ==> marked_count(files.push(f), marks) == marked_count(files, marks)
            && marked_size(files.push(f), marks) == marked_size(files, marks),
{
    assert(files.push(f).drop_last() == files);
}

/// What the marked files of all groups hold is the sum over the groups.
pub proof fn marked_sizes_add_up(groups: Seq<GroupView>, g: GroupView, marks: Set<Seq<char>>)
    ensures
        marked_size_all(Seq::<GroupView>::empty(), marks) == 0,
        marked_size_all(groups.push(g), marks) == marked_size_all(groups, marks) + marked_size(g.files, marks),
{
    assert(groups.push(g).drop_last() == groups);
}

proof fn lemma_first_place(groups: Seq<GroupView>, visible: Seq<usize>, hash: Seq<char>, k: int)
    requires
        0 <= k,
    ensures
        match place_of(groups, visible, hash, k) {
            Some(p) => k <= p < visible.len() && groups[visible[p] as int].hash == hash,
            None => forall|i: int|
                k <= i < visible.len() ==> groups[(#[trigger] visible[i]) as int].hash != hash,
        },
    decreases visible.len() - k,
{
    if k < visible.len() && groups[visible[k] as int].hash != hash {
        lemma_first_place(groups, visible, hash, k + 1);
    }
}

/// A snapshot does not move the selection away: where the group that was
/// selected is still shown, it stays selected, wherever it stands now.
pub proof fn the_selected_group_stays_selected(v: AppView, groups: Seq<GroupView>, g: GroupView, k: int)
    requires
        v.current() == Some(g),
        groups.len() <= usize::MAX,
        ({
            let w = v.adopt(groups);
            0 <= k < w.visible.len() && w.groups[w.visible[k] as int].hash == g.hash
        }),
    ensures
        v.adopt(groups).current() is Some,
        (v.adopt(groups).current()->0).hash == g.hash,
{
    let edited = AppView { groups: v.edits.edit_all(groups), ..v };
    let gs = nontrivial(edited.groups);
    let vis = v.filter.passing(gs, gs.len());
    lemma_first_place(gs, vis, g.hash, 0);
    crate::edits::lemma_nontrivial(edited.groups, g);
    lemma_lengths(Seq::new(groups.len(), |i: int| v.edits.edit(groups[i])));
    lemma_lengths(edited.groups);
    crate::filters::filtering_keeps_order(v.filter, gs, gs.len());
}

proof fn lemma_lengths(groups: Seq<GroupView>)
    ensures
        nontrivial(groups).len() <= groups.len(),
    decreases groups.len(),
{
    if groups.len() > 0 {
        lemma_lengths(groups.drop_last());
    }
}

/// Only groups of two files or more are shown, and of them those that pass
/// the filter; a place that is gone becomes the last one.
pub proof fn places_that_are_gone_become_the_last(v: AppView)
    requires
        v.groups.len() <= usize::MAX,
    ensures
        v.anchored(None).groups == v.groups.filter(|g: GroupView| g.files.len() >= 2),
        ({
            let w = v.anchored(None);
            &&& w.visible == v.filter.passing(w.groups, w.groups.len())
            &&& w.visible.len() > 0 && v.current_group_index >= w.visible.len() ==> w.current_group_index
                == w.visible.len() - 1
            &&& v.current_group_index < w.visible.len() ==> w.current_group_index == v.current_group_index
            &&& w.visible.len() == 0 ==> w.current_group_index == 0 && w.selected_file_index == 0
            &&& w.marked == v.marked
            &&& w.filter == v.filter
        }),
{
    crate::finder::lone_files_are_no_group(v.groups);
    lemma_lengths(v.groups);
    crate::filters::filtering_keeps_order(v.filter, nontrivial(v.groups), nontrivial(v.groups).len());
}

/// What is said after a deletion: how many files went and by which method,
/// and what was freed or what failed first.
pub proof fn deletions_are_summed_up(method: DeleteMethod, outcomes: Seq<OutcomeView>)
    ensures
        failures_in(outcomes).len() == 0 ==> deletion_text(method, outcomes) == "Deleted "@ + decimal(
            deleted_in(outcomes),
        ) + " file(s) via "@ + method.label_text() + ", freed "@ + human_size_of(capped(freed_by(outcomes))),
        failures_in(outcomes).len() > 0 ==> deletion_text(method, outcomes) == "Deleted "@ + decimal(
            deleted_in(outcomes),
        ) + " file(s) via "@ + method.label_text() + ", "@ + decimal(failures_in(outcomes).len()) + " failed: "@
            + failures_in(outcomes)[0].1,
{
}

/// What is said where a group would lose every file.
pub proof fn refusals_name_the_group(name: Seq<char>, count: nat)
    ensures
        every_copy_text(name, count) == "Refusing to delete every copy of "@ + name + " ("@ + decimal(count)
            + " files); leave at least one"@,
{
}

/// A deletion counts what was removed, and what was removed leaves the
/// groups and the marks; the rest of the marks stay.
pub proof fn deletions_are_counted(v: AppView, outcomes: Seq<OutcomeView>, p: Seq<char>)
    requires
        v.total_deleted + deleted_in(outcomes) <= usize::MAX,
        0 <= freed_by(outcomes),
        v.total_freed + freed_by(outcomes) <= u64::MAX,
    ensures
        v.after_deletion(outcomes).total_deleted == v.total_deleted + deleted_in(outcomes),
        v.after_deletion(outcomes).total_freed == v.total_freed + freed_by(outcomes),
        v.after_deletion(outcomes).marked.contains(p) <==> v.marked.contains(p) && !was_deleted(outcomes, p),
        v.after_deletion(outcomes).last_report == Some(outcomes),
        v.scan_complete ==> v.after_deletion(outcomes).edits == v.edits && v.after_deletion(outcomes).removed
            == v.removed,
{
}

/// What the scan sends is taken over: the progress as it is, the groups
/// without what was deleted meanwhile, and at the end the time it took.
pub proof fn the_scan_is_followed(v: AppView, p: ScanProgress, groups: Vec<DuplicateGroup>, ev: EngineEvent)
    ensures
        v.after_event(EngineEvent::Progress(p)).progress == p,
        v.after_event(EngineEvent::Progress(p)).groups == v.groups,
        v.after_event(EngineEvent::Progress(p)).scan_complete == v.scan_complete,
        v.after_event(EngineEvent::Groups(groups)).groups == v.edits.edit_all(group_views(groups@)).filter(
            |g: GroupView| g.files.len() >= 2,
        ),
        v.after_event(EngineEvent::Groups(groups)).scan_complete == v.scan_complete,
        ev is Complete ==> {
            let w = v.after_event(ev);
            &&& w.scan_complete
            &&& w.elapsed == Some(ev->elapsed)
            &&& w.progress == ev->progress
            &&& w.edits.nothing()
            &&& w.removed == Set::<Seq<char>>::empty()
            &&& w.groups == v.edits.edit_all(ev->finder@.groups).filter(|g: GroupView| g.files.len() >= 2)
        },
{
    crate::finder::lone_files_are_no_group(v.edits.edit_all(group_views(groups@)));
    if ev is Complete {
        crate::finder::lone_files_are_no_group(v.edits.edit_all(ev->finder@.groups));
    }
}

/// A mode in this group speaks of that group, and one in all groups of those
/// that the filter shows.
pub proof fn scopes_are_what_is_shown(v: AppView, i: int)
    ensures
        v.current() is Some ==> v.scope_groups(Scope::CurrentGroup) == seq![v.current()->0],
        v.current() is None ==> v.scope_groups(Scope::CurrentGroup).len() == 0,
        v.scope_groups(Scope::AllGroups).len() == v.visible.len(),
        0 <= i < v.visible.len() ==> v.scope_groups(Scope::AllGroups)[i] == v.groups[v.visible[i] as int],
{
}

/// The views follow one another.
pub proof fn views_follow_their_order()
    ensures
        next_view(ViewMode::Duplicates) == ViewMode::Statistics,
        next_view(ViewMode::Statistics) == ViewMode::Help,
        next_view(ViewMode::Help) == ViewMode::Duplicates,
{
}

/// What is typed grows and shrinks by one character at its end.
pub proof fn the_last_character_goes_first(t: Seq<char>, c: char)
    ensures
        shortened(t.push(c)) == t,
        shortened(Seq::<char>::empty()).len() == 0,
{
    assert(t.push(c).drop_last() == t);
}

/// Why a keeper is not renamed: no name carries a marker, a copy has the
/// clean name, or its folder has a file of that name.
pub proof fn missing_renames_are_explained(v: AppView, g: GroupView)
    ensures
        ({
            let names = names_of(g.files);
            let name = canonical_text(names);
            &&& !(g.files.len() >= 2 && any_marked(names)) ==> v.no_rename_text(g)
                == "No copy markers in this group's names, so there is no name to restore"@
            &&& g.files.len() >= 2 && any_marked(names) && is_first_like(names, name, None) ==> v.no_rename_text(g)
                == name + " is taken in the keeper's folder"@
            &&& g.files.len() >= 2 && any_marked(names) && !is_first_like(names, name, None) ==> v.no_rename_text(g)
                == "A copy already has the original name "@ + name + "; keep that one"@
        }),
{
}

/// What is said after marking.
pub proof fn marking_is_told(v: AppView, count: nat, touched: nat, g: GroupView, mode: SelectMode)
    requires
        v.current() == Some(g),
        g.files.len() > 0,
    ensures
        v.mode_text(SelectMode::Suggested, Scope::CurrentGroup, 0, touched)
            == "No file in this group looks like a copy. Use 'o' to mark all but the keeper, or Space."@,
        count > 0 ==> v.mode_text(SelectMode::Suggested, Scope::CurrentGroup, count, touched) == "Marked "@
            + decimal(count) + " suggested file(s) ("@ + confidence_text(
            analysis_of(g.files).top_score(g.files.len()),
        ) + ")"@,
        v.mode_text(SelectMode::AllButKeeper, Scope::CurrentGroup, count, touched) == "Marked "@ + decimal(count)
            + " file(s), keeping "@ + name_or_empty(g.files[best(g.files, g.files.len())].path),
        mode != SelectMode::Suggested && mode != SelectMode::AllButKeeper ==> v.mode_text(
            mode,
            Scope::CurrentGroup,
            count,
            touched,
        ) == mode.label_text() + ": marked "@ + decimal(count) + " file(s)"@,
        v.filter.active() ==> v.mode_text(mode, Scope::AllGroups, count, touched) == mode.label_text()
            + ": marked "@ + decimal(count) + " file(s) in "@ + decimal(touched) + " "@ + "matching"@
            + " group(s)"@,
        !v.filter.active() ==> v.mode_text(mode, Scope::AllGroups, count, touched) == mode.label_text()
            + ": marked "@ + decimal(count) + " file(s) in "@ + decimal(touched) + " "@ + "all"@ + " group(s)"@,
{
}

/// A new view begins with nothing selected, marked, filtered, deleted or
/// said, on the list of duplicates, with the preview shown.
pub proof fn views_begin_blank(
    root: Seq<char>,
    config: Option<ConfigView>,
    groups: Seq<GroupView>,
    progress: ScanProgress,
    complete: bool,
    deleter: Deleter,
    scan_id: Option<i64>,
)
    ensures
        ({
            let v = blank(root, config, groups, progress, complete, deleter, scan_id);
            &&& v.root_path == root && v.config == config && v.groups == groups && v.progress == progress
            &&& v.scan_complete == complete && v.deleter == deleter && v.scan_id == scan_id
            &&& v.marked == Set::<Seq<char>>::empty() && v.removed == Set::<Seq<char>>::empty()
            &&& v.edits.nothing() && !v.filter.active() && v.filter.path.len() == 0
            &&& v.current_group_index == 0 && v.selected_file_index == 0
            &&& v.view_mode == ViewMode::Duplicates && v.show_preview && !v.show_mark_menu
            &&& v.status is None && v.pending is None && v.input is None && v.elapsed is None
            &&& v.total_deleted == 0 && v.total_freed == 0 && v.last_report is None
        }),
{
    reveal_strlit("");
    assert(""@ =~= Seq::<char>::empty());
    let none = Seq::<char>::empty();
    crate::text::trimming_takes_the_outer_spaces(none, none, none);
    assert(none + none + none == none);
}

/// A new filter is applied at once and told, and the selected group stays
/// selected where it passes; marks and groups are not touched.
pub proof fn filters_are_applied_at_once(v: AppView, filter: FilterView, g: GroupView, k: int)
    requires
        v.wf(),
    ensures
        ({
            let w = v.filtered(filter);
            &&& w.filter == filter
            &&& w.groups == v.groups
            &&& w.visible == filter.passing(v.groups, v.groups.len())
            &&& w.marked == v.marked
            &&& w.status == Some("Filter: "@ + filter.description())
            &&& v.current() == Some(g) && 0 <= k < w.visible.len() && v.groups[w.visible[k] as int].hash == g.hash
                ==> w.current() is Some && (w.current()->0).hash == g.hash
        }),
{
    let w = v.filtered(filter);
    crate::finder::lone_files_are_no_group(v.groups);
    lemma_all_kept(v.groups);
    crate::filters::filtering_keeps_order(filter, v.groups, v.groups.len());
    if v.current() is Some {
        lemma_first_place(v.groups, filter.passing(v.groups, v.groups.len()), (v.current()->0).hash, 0);
    }
}

proof fn lemma_all_kept(groups: Seq<GroupView>)
    requires
        forall|i: int| 0 <= i < groups.len() ==> !(#[trigger] groups[i]).trivial(),
    ensures
        nontrivial(groups) == groups,
    decreases groups.len(),
{
    if groups.len() > 0 {
        let rest = groups.drop_last();
        assert forall|i: int| 0 <= i < rest.len() implies !(#[trigger] rest[i]).trivial() by {
            assert(rest[i] == groups[i]);
        }
        lemma_all_kept(rest);
        assert(!groups[groups.len() - 1].trivial());
        assert(rest.push(groups.last()) == groups);
    }
}

/// A rule marks the groups it speaks of and changes nothing else but the
/// message.
pub proof fn rules_mark_what_they_speak_of(v: AppView, mode: SelectMode)
    ensures
        v.current() is Some ==> v.with_mode(mode, Scope::CurrentGroup).marked == mode_marks(
            v.marked,
            (v.current()->0).files,
            mode,
        ),
        v.current() is None ==> v.with_mode(mode, Scope::CurrentGroup).marked == v.marked,
        v.with_mode(mode, Scope::AllGroups).marked == marks_over(v.marked, v.scope_groups(Scope::AllGroups), mode),
        v.with_mode(mode, Scope::AllGroups).groups == v.groups,
        v.with_mode(mode, Scope::CurrentGroup).groups == v.groups,
        v.with_mode(mode, Scope::CurrentGroup).status is Some,
{
    scopes_are_what_is_shown(v, 0);
    let gs = v.scope_groups(Scope::CurrentGroup);
    let none = Seq::<GroupView>::empty();
    if v.current() is Some {
        let g = v.current()->0;
        groups_are_marked_one_by_one(v.marked, none, g, mode);
        assert(none.push(g) == gs);
    } else {
        assert(gs == none);
    }
}

/// Asking for a deletion is refused where nothing is marked or a group would
/// lose every file; otherwise the marked files wait to be confirmed, and
/// nothing else changes.
pub proof fn deletions_wait_for_an_answer(v: AppView, scope: Scope, after: AppView)
    requires
        v.asked_to_delete(scope, after),
    ensures
        ({
            let gs = v.scope_groups(scope);
            let marked = |p: Seq<char>| v.marked.contains(p) && crate::deletion::in_groups(gs, p);
            let wanted = Set::new(|p: Seq<char>| v.marked.contains(p) && crate::deletion::in_groups(gs, p));
            &&& (forall|p: Seq<char>| !#[trigger] marked(p)) ==> after.pending == v.pending && after.status == Some(
                "Nothing marked. Space marks a file, 'a' marks suggested copies."@,
            )
            &&& (exists|p: Seq<char>| #[trigger] marked(p)) && (exists|i: int|
                0 <= i < gs.len() && crate::deletion::loses_all(#[trigger] gs[i], wanted)) ==> after.pending
                == v.pending
            &&& (exists|p: Seq<char>| #[trigger] marked(p)) && (forall|i: int|
                0 <= i < gs.len() ==> !crate::deletion::loses_all(#[trigger] gs[i], wanted)) ==> after.pending
                == Some((plan_items(gs, wanted), scope)) && after.status == v.status
            &&& after.groups == v.groups && after.marked == v.marked
        }),
{
    let gs = v.scope_groups(scope);
    let wanted = marked_of(gs, v.marked);
    let marked = |p: Seq<char>| v.marked.contains(p) && crate::deletion::in_groups(gs, p);
    let same = Set::new(|p: Seq<char>| v.marked.contains(p) && crate::deletion::in_groups(gs, p));
    assert(wanted =~= same);
    if exists|p: Seq<char>| #[trigger] marked(p) {
        let p = choose|p: Seq<char>| #[trigger] marked(p);
        assert(wanted.contains(p));
        assert(!Set::<Seq<char>>::empty().contains(p));
    } else {
        assert forall|p: Seq<char>| !wanted.contains(p) by {
            assert(!marked(p));
        }
        assert(wanted =~= Set::<Seq<char>>::empty());
    }
    if exists|i: int| 0 <= i < gs.len() && crate::deletion::loses_all(#[trigger] gs[i], wanted) {
        let i = choose|i: int| 0 <= i < gs.len() && crate::deletion::loses_all(#[trigger] gs[i], wanted);
        crate::deletion::the_first_lost_group_is_named(gs, wanted, i);
    }
}

/// A rename changes one path in the groups, tells it, and is remembered
/// while the scan runs.
pub proof fn renames_are_remembered(v: AppView, old_path: Seq<char>, new_path: Seq<char>, groups: Seq<GroupView>)
    ensures
        ({
            let w = v.renamed(old_path, new_path, groups);
            &&& w.status == Some("Renamed to "@ + new_path)
            &&& v.scan_complete ==> w.edits == v.edits
            &&& !v.scan_complete ==> w.edits == v.edits.rename(old_path, new_path)
            &&& w.groups == groups.filter(|g: GroupView| g.files.len() >= 2)
            &&& w.filter == v.filter
        }),
{
    crate::finder::lone_files_are_no_group(groups);
}

} // verus!
