//! What is kept of finished scans: the rows that are stored for the groups
//! of a scan and for its deletions, and the groups made of stored rows.

use vstd::prelude::*;
use crate::deletion::{outcome_views, DeletionReport, OutcomeView};
use crate::duplicates::{
    by_path, group_of, group_views, sorted_by_path, sorting_keeps_the_files, DuplicateGroup, GroupView,
};
use crate::finder::{sort_by_waste, sorted_by_waste};
use crate::paths::path_before;
use crate::scanner::{
    copy_opt, file_views, opt_view, FileInfo, FileView, Timestamp,
};

verus! {

#[derive(Debug, Clone)]
pub struct ScanInfo {
    pub id: i64,
    pub root_path: String,
    pub start_time: i64,
    pub end_time: Option<i64>,
    pub files_scanned: i64,
    pub groups_found: i64,
    /// Files removed during this scan, from the deletion journal.
    pub deleted_count: i64,
    pub deleted_bytes: i64,
}

/// One stored file, as the columns of its row.
#[derive(Debug)]
pub struct FileRow {
    pub path: String,
    pub size: i64,
    pub quick_hash: Option<String>,
    pub full_hash: Option<String>,
    pub group_id: String,
    pub modified: Option<i64>,
    pub depth: Option<i64>,
}

pub struct RowView {
    pub path: Seq<char>,
    pub size: i64,
    pub quick_hash: Option<Seq<char>>,
    pub full_hash: Option<Seq<char>>,
    pub group_id: Seq<char>,
    pub modified: Option<i64>,
    pub depth: Option<i64>,
}

impl View for FileRow {
    type V = RowView;

    open spec fn view(&self) -> RowView {
        RowView {
            path: self.path@,
            size: self.size,
            quick_hash: opt_view(self.quick_hash),
            full_hash: opt_view(self.full_hash),
            group_id: self.group_id@,
            modified: self.modified,
            depth: self.depth,
        }
    }
}

pub open spec fn row_views(v: Seq<FileRow>) -> Seq<RowView> {
    Seq::new(v.len(), |i: int| v[i]@)
}

/// A point in time as it is stored: whole seconds, and none before the
/// epoch.
pub open spec fn stored_secs(t: Timestamp) -> i64 {
    if t.secs < 0 {
        0
    } else {
        t.secs
    }
}

/// A point in time in whole seconds since the epoch; 0 before it.
pub fn system_time_to_secs(t: Timestamp) -> (r: i64)
    ensures
        r == stored_secs(t),
{
    if t.secs < 0 {
        0
    } else {
        t.secs
    }
}

/// The row that is stored for a file.
pub open spec fn row_of(f: FileView, group: Seq<char>) -> RowView {
    RowView {
        path: f.path,
        size: f.size as i64,
        quick_hash: f.quick_hash,
        full_hash: f.hash,
        group_id: group,
        modified: Some(stored_secs(f.modified)),
        depth: Some(f.depth as i64),
    }
}

/// The file that a stored row stands for.
pub open spec fn file_of(row: RowView) -> FileView {
    FileView {
        path: row.path,
        size: row.size as u64,
        quick_hash: row.quick_hash,
        hash: row.full_hash,
        modified: Timestamp {
            secs: match row.modified {
                Some(s) => if s < 0 {
                    0
                } else {
                    s
                },
                None => 0,
            },
            nanos: 0,
        },
        depth: match row.depth {
            Some(d) => if d < 0 {
                0
            } else {
                d as usize
            },
            None => 0,
        },
    }
}

/// The rows of a group.
pub open spec fn group_rows(g: GroupView) -> Seq<RowView> {
    Seq::new(g.files.len(), |i: int| row_of(g.files[i], g.hash))
}

pub open spec fn all_rows(groups: Seq<GroupView>) -> Seq<RowView>
    decreases groups.len(),
{
    if groups.len() == 0 {
        seq![]
    } else {
        all_rows(groups.drop_last()) + group_rows(groups.last())
    }
}

/// The rows that are stored for the groups of a scan.
pub fn file_rows(groups: &Vec<DuplicateGroup>) -> (r: Vec<FileRow>)
    ensures
        row_views(r@) == all_rows(group_views(groups@)),
{
    let mut out: Vec<FileRow> = Vec::new();
    let n = groups.len();
    let ghost gs = group_views(groups@);
    assert(row_views(out@) =~= all_rows(gs.take(0)));
    for g in 0..n
        invariant
            n == groups@.len(),
            gs == group_views(groups@),
            row_views(out@) == all_rows(gs.take(g as int)),
    {
        let group = &groups[g];
        let ghost before = row_views(out@);
        let ghost goal = group_rows(gs[g as int]);
        assert(gs[g as int] == group@);
        assert(gs.take(g + 1).drop_last() =~= gs.take(g as int));
        assert(gs.take(g + 1).last() == gs[g as int]);
        let m = group.files.len();
        assert(before + goal.take(0) =~= before);
        for i in 0..m
            invariant
                m == group.files@.len(),
                goal == group_rows(group@),
                row_views(out@) == before + goal.take(i as int),
        {
            let f = &group.files[i];
            assert(group@.files[i as int] == f@);
            let ghost inner = row_views(out@);
            out.push(
                FileRow {
                    path: f.path.clone(),
                    size: f.size as i64,
                    quick_hash: copy_opt(&f.quick_hash),
                    full_hash: copy_opt(&f.hash),
                    group_id: group.hash.clone(),
                    modified: Some(system_time_to_secs(f.modified)),
                    depth: Some(f.depth as i64),
                },
            );
            assert(row_views(out@) =~= inner.push(goal[i as int]));
            assert(before + goal.take(i + 1) =~= (before + goal.take(i as int)).push(goal[i as int]));
        }
        assert(goal.take(m as int) =~= goal);
    }
    assert(gs.take(n as int) =~= gs);
    out
}

/// A run of rows of one group: its id, and its files.
pub struct RunView {
    pub id: Seq<char>,
    pub files: Seq<FileView>,
}

/// The runs of neighbouring rows with the same group.
pub open spec fn runs_of(rows: Seq<RowView>) -> Seq<RunView>
    decreases rows.len(),
{
    if rows.len() == 0 {
        seq![]
    } else {
        let head = runs_of(rows.drop_last());
        let row = rows.last();
        if head.len() > 0 && head.last().id == row.group_id {
            head.drop_last().push(
                RunView { id: row.group_id, files: head.last().files.push(file_of(row)) },
            )
        } else {
            head.push(RunView { id: row.group_id, files: seq![file_of(row)] })
        }
    }
}

/// The groups of these runs.
pub open spec fn run_groups(runs: Seq<RunView>) -> Seq<GroupView> {
    Seq::new(runs.len(), |i: int| group_of(runs[i].id, by_path(runs[i].files)))
}

fn file_from(row: &FileRow) -> (r: FileInfo)
    ensures
        r@ == file_of(row@),
{
    let secs = match row.modified {
        Some(s) => if s < 0 {
            0
        } else {
            s
        },
        None => 0,
    };
    let depth = match row.depth {
        Some(d) => if d < 0 {
            0
        } else {
            d as usize
        },
        None => 0,
    };
    FileInfo {
        path: row.path.clone(),
        size: row.size as u64,
        quick_hash: copy_opt(&row.quick_hash),
        hash: copy_opt(&row.full_hash),
        modified: Timestamp { secs, nanos: 0 },
        depth,
    }
}

/// The groups of stored rows, which come in the order of their group and
/// path; those that waste most first.
pub fn groups_from_rows(rows: &Vec<FileRow>) -> (r: Vec<DuplicateGroup>)
    ensures
        sorted_by_waste(run_groups(runs_of(row_views(rows@))), group_views(r@)),
{
    let mut groups: Vec<DuplicateGroup> = Vec::new();
    let mut id: String = String::new();
    let mut files: Vec<FileInfo> = Vec::new();
    let mut open = false;
    let n = rows.len();
    let ghost all = row_views(rows@);
    assert(group_views(groups@) =~= run_groups(runs_of(all.take(0))));
    for i in 0..n
        invariant
            n == rows@.len(),
            all == row_views(rows@),
            !open ==> runs_of(all.take(i as int)).len() == 0 && groups@.len() == 0,
            open ==> {
                let runs = runs_of(all.take(i as int));
                &&& runs.len() > 0
                &&& group_views(groups@) == run_groups(runs.drop_last())
                &&& runs.last().id == id@
                &&& runs.last().files == file_views(files@)
            },
    {
        let row = &rows[i];
        let ghost head = runs_of(all.take(i as int));
        let ghost next = runs_of(all.take(i + 1));
        assert(all[i as int] == row@);
        assert(all.take(i + 1).drop_last() =~= all.take(i as int));
        assert(all.take(i + 1).last() == row@);
        let file = file_from(row);
        let ghost fv = file@;
        if open && row.group_id == id {
            let ghost before = file_views(files@);
            files.push(file);
            assert(file_views(files@) =~= before.push(fv));
            assert(next.drop_last() =~= head.drop_last());
        } else {
            if open {
                let ghost gv = group_of(id@, by_path(file_views(files@)));
                let ghost before = group_views(groups@);
                groups.push(DuplicateGroup::new(id, files));
                assert(group_views(groups@) =~= before.push(gv));
                assert(group_views(groups@) =~= run_groups(head));
            } else {
                assert(group_views(groups@) =~= run_groups(head));
            }
            assert(next.drop_last() =~= head);
            id = row.group_id.clone();
            files = Vec::new();
            files.push(file);
            assert(file_views(files@) =~= seq![fv]);
            open = true;
        }
    }
    assert(all.take(n as int) =~= all);
    if open {
        let ghost runs = runs_of(all);
        let ghost before = group_views(groups@);
        let ghost gv = group_of(id@, by_path(file_views(files@)));
        groups.push(DuplicateGroup::new(id, files));
        assert(group_views(groups@) =~= before.push(gv));
        assert(group_views(groups@) =~= run_groups(runs));
    } else {
        assert(group_views(groups@) =~= run_groups(runs_of(all)));
    }
    sort_by_waste(&groups)
}

/// The file as it comes back from the store.
pub open spec fn stored(f: FileView) -> FileView {
    file_of(row_of(f, seq![]))
}

/// A stored file comes back as it was, but for its time, of which whole
/// seconds are kept, and none before the epoch.
pub proof fn stored_files_come_back(f: FileView)
    requires
        f.depth <= i64::MAX,
    ensures
        stored(f) == (FileView {
            modified: Timestamp { secs: stored_secs(f.modified), nanos: 0 },
            ..f
        }),
{
    let size = f.size;
    assert((size as i64) as u64 == size) by (bit_vector);
}

/// The group as it comes back from the store.
pub open spec fn stored_group(g: GroupView) -> GroupView {
    group_of(g.hash, by_path(Seq::new(g.files.len(), |i: int| stored(g.files[i]))))
}

/// Do the rows of each group stand together, as they do in the order of their
/// group?
pub open spec fn together(rows: Seq<RowView>) -> bool {
    forall|i: int, j: int, k: int|
        0 <= i <= j <= k < rows.len() && (#[trigger] rows[i]).group_id == (#[trigger] rows[k]).group_id
            ==> (#[trigger] rows[j]).group_id == rows[i].group_id
}

/// Does every file have a place of its own in the order of the paths?
pub open spec fn apart(files: Seq<FileView>) -> bool {
    forall|i: int, j: int|
        0 <= i < j < files.len() ==> path_before((#[trigger] files[i]).path, (#[trigger] files[j]).path)
            || path_before(files[j].path, files[i].path)
}

/// What was stored comes back, in whatever order the rows of the groups are
/// read: every group, file by file, once, and no other. No two of the groups
/// may have the same hash, and none may be empty.
pub proof fn stored_groups_come_back(groups: Seq<GroupView>, rows: Seq<RowView>)
    requires
        forall|i: int| 0 <= i < groups.len() ==> (#[trigger] groups[i]).files.len() > 0 && apart(groups[i].files),
        forall|i: int, j: int|
            0 <= i < j < groups.len() ==> (#[trigger] groups[i]).hash != (#[trigger] groups[j]).hash,
        rows.to_multiset() == all_rows(groups).to_multiset(),
        together(rows),
    ensures
        forall|i: int|
            0 <= i < groups.len() ==> run_groups(runs_of(rows)).contains(stored_group(#[trigger] groups[i])),
        forall|k: int|
            0 <= k < run_groups(runs_of(rows)).len() ==> exists|i: int|
                0 <= i < groups.len() && #[trigger] run_groups(runs_of(rows))[k] == stored_group(
                    #[trigger] groups[i],
                ),
        forall|j: int, k: int|
            0 <= j < k < run_groups(runs_of(rows)).len() ==> (#[trigger] run_groups(runs_of(rows))[j]).hash != (
            #[trigger] run_groups(runs_of(rows))[k]).hash,
{
    broadcast use vstd::seq_lib::group_to_multiset_ensures;
    let runs = runs_of(rows);
    let back = run_groups(runs);
    let all = all_rows(groups);
    lemma_runs(rows);
    assert forall|i: int| 0 <= i < groups.len() implies back.contains(stored_group(#[trigger] groups[i])) by {
        let g = groups[i];
        lemma_all_rows(groups, i);
        let row = rows_with(all, g.hash)[0];
        lemma_rows_with(all, g.hash);
        assert(row == group_rows(g)[0]);
        assert(rows_with(all, g.hash).contains(row));
        assert(rows_with(all, g.hash).to_multiset().count(row) > 0);
        assert(all.to_multiset().count(row) > 0);
        assert(rows.contains(row));
        let x = choose|x: int| 0 <= x < rows.len() && rows[x] == row;
        assert(has_run(runs, rows[x].group_id));
        let k = choose|k: int| 0 <= k < runs.len() && (#[trigger] runs[k]).id == g.hash;
        lemma_run_is_group(groups, rows, i, k);
        assert(back[k] == stored_group(g));
    }
    assert forall|k: int| 0 <= k < back.len() implies exists|i: int|
        0 <= i < groups.len() && #[trigger] back[k] == stored_group(#[trigger] groups[i]) by {
        assert(has_row(rows, runs[k].id));
        let x = choose|x: int| 0 <= x < rows.len() && (#[trigger] rows[x]).group_id == runs[k].id;
        assert(rows.contains(rows[x]));
        assert(rows.to_multiset().count(rows[x]) > 0);
        assert(all.contains(rows[x]));
        lemma_row_has_group(groups, rows[x]);
        let i = choose|i: int| 0 <= i < groups.len() && (#[trigger] groups[i]).hash == rows[x].group_id;
        lemma_run_is_group(groups, rows, i, k);
        assert(back[k] == stored_group(groups[i]));
    }
    assert forall|j: int, k: int| 0 <= j < k < back.len() implies (#[trigger] back[j]).hash != (
    #[trigger] back[k]).hash by {
        assert(runs[j].id != runs[k].id);
    }
}

/// The rows of one group, in their order.
spec fn rows_with(rows: Seq<RowView>, id: Seq<char>) -> Seq<RowView>
    decreases rows.len(),
{
    if rows.len() == 0 {
        seq![]
    } else if rows.last().group_id == id {
        rows_with(rows.drop_last(), id).push(rows.last())
    } else {
        rows_with(rows.drop_last(), id)
    }
}

spec fn files_of(rows: Seq<RowView>) -> Seq<FileView> {
    Seq::new(rows.len(), |i: int| file_of(rows[i]))
}

spec fn has_run(runs: Seq<RunView>, id: Seq<char>) -> bool {
    exists|k: int| 0 <= k < runs.len() && (#[trigger] runs[k]).id == id
}

spec fn has_row(rows: Seq<RowView>, id: Seq<char>) -> bool {
    exists|i: int| 0 <= i < rows.len() && (#[trigger] rows[i]).group_id == id
}

/// Where the rows of each group stand together, there is one run for each
/// group, with all its rows.
proof fn lemma_runs(rows: Seq<RowView>)
    requires
        together(rows),
    ensures
        rows.len() > 0 ==> runs_of(rows).len() > 0 && runs_of(rows).last().id == rows.last().group_id,
        forall|k: int|
            0 <= k < runs_of(rows).len() ==> (#[trigger] runs_of(rows)[k]).files == files_of(
                rows_with(rows, runs_of(rows)[k].id),
            ) && has_row(rows, runs_of(rows)[k].id),
        forall|j: int, k: int|
            0 <= j < k < runs_of(rows).len() ==> (#[trigger] runs_of(rows)[j]).id != (#[trigger] runs_of(
                rows,
            )[k]).id,
        forall|i: int| 0 <= i < rows.len() ==> has_run(runs_of(rows), (#[trigger] rows[i]).group_id),
    decreases rows.len(),
{
    if rows.len() > 0 {
        let head = rows.drop_last();
        let row = rows.last();
        assert forall|i: int, j: int, k: int|
            0 <= i <= j <= k < head.len() && (#[trigger] head[i]).group_id == (#[trigger] head[k]).group_id
            implies (#[trigger] head[j]).group_id == head[i].group_id by {
            assert(rows[i] == head[i] && rows[j] == head[j] && rows[k] == head[k]);
        }
        lemma_runs(head);
        let before = runs_of(head);
        let after = runs_of(rows);
        let grown = before.len() > 0 && before.last().id == row.group_id;
        if !grown && has_run(before, row.group_id) {
            let k = choose|k: int| 0 <= k < before.len() && (#[trigger] before[k]).id == row.group_id;
            assert(has_row(head, before[k].id));
            let i = choose|i: int| 0 <= i < head.len() && (#[trigger] head[i]).group_id == row.group_id;
            assert(rows[i].group_id == rows[rows.len() - 1].group_id);
            assert(rows[rows.len() - 2].group_id == row.group_id);
            assert(head.last() == rows[rows.len() - 2]);
            assert(false);
        }
        assert forall|k: int| 0 <= k < after.len() implies (#[trigger] after[k]).files == files_of(
            rows_with(rows, after[k].id),
        ) && has_row(rows, after[k].id) by {
            if k < after.len() - 1 {
                assert(after[k] == before[k]);
                assert(after[k].id != row.group_id);
                assert(rows_with(rows, after[k].id) == rows_with(head, after[k].id));
                let i = choose|i: int| 0 <= i < head.len() && (#[trigger] head[i]).group_id == after[k].id;
                assert(rows[i].group_id == after[k].id);
            } else {
                assert(after[k].id == row.group_id);
                assert(rows[rows.len() - 1].group_id == row.group_id);
                let old_rows = rows_with(head, row.group_id);
                if grown {
                    assert(before.last().files == files_of(old_rows));
                } else {
                    lemma_no_rows(head, row.group_id);
                }
                assert(files_of(old_rows.push(row)) =~= files_of(old_rows).push(file_of(row)));
                assert(after[k].files =~= files_of(rows_with(rows, row.group_id)));
            }
        }
        assert forall|j: int, k: int| 0 <= j < k < after.len() implies (#[trigger] after[j]).id != (
        #[trigger] after[k]).id by {
            assert(after[j] == before[j]);
            if k < after.len() - 1 {
                assert(after[k] == before[k]);
            } else if grown {
                assert(before[before.len() - 1].id == row.group_id);
            } else {
                assert(!has_run(before, row.group_id));
            }
        }
        assert forall|i: int| 0 <= i < rows.len() implies has_run(after, (#[trigger] rows[i]).group_id) by {
            assert(after[after.len() - 1].id == row.group_id);
            if i < head.len() {
                assert(has_run(before, head[i].group_id));
                let k = choose|k: int| 0 <= k < before.len() && (#[trigger] before[k]).id == head[i].group_id;
                if k < after.len() - 1 {
                    assert(after[k].id == rows[i].group_id);
                }
            }
        }
    }
}

proof fn lemma_no_rows(rows: Seq<RowView>, id: Seq<char>)
    requires
        !has_row(rows, id),
    ensures
        rows_with(rows, id) == Seq::<RowView>::empty(),
    decreases rows.len(),
{
    if rows.len() > 0 {
        let head = rows.drop_last();
        assert(rows[rows.len() - 1].group_id != id);
        if has_row(head, id) {
            let i = choose|i: int| 0 <= i < head.len() && (#[trigger] head[i]).group_id == id;
            assert(rows[i].group_id == id);
        }
        lemma_no_rows(head, id);
    }
}

/// The rows of a group are all the rows with its id.
proof fn lemma_rows_with(rows: Seq<RowView>, id: Seq<char>)
    ensures
        forall|row: RowView| #[trigger]
            rows_with(rows, id).to_multiset().count(row) == if row.group_id == id {
                rows.to_multiset().count(row)
            } else {
                0
            },
    decreases rows.len(),
{
    broadcast use vstd::seq_lib::group_to_multiset_ensures;
    if rows.len() > 0 {
        let head = rows.drop_last();
        let row = rows.last();
        lemma_rows_with(head, id);
        assert(rows =~= head.push(row));
        assert(rows.to_multiset() =~= head.to_multiset().insert(row));
        if row.group_id == id {
            assert(rows_with(rows, id).to_multiset() =~= rows_with(head, id).to_multiset().insert(row));
        }
        assert forall|other: RowView| #[trigger]
            rows_with(rows, id).to_multiset().count(other) == if other.group_id == id {
                rows.to_multiset().count(other)
            } else {
                0
            } by {
            assert(rows_with(head, id).to_multiset().count(other) == if other.group_id == id {
                head.to_multiset().count(other)
            } else {
                0
            });
            assert(head.to_multiset().insert(row).count(other) == head.to_multiset().count(other) + if other
                == row {
                1nat
            } else {
                0nat
            });
        }
    } else {
        assert(rows_with(rows, id) =~= rows);
        assert forall|row: RowView| #[trigger] rows.to_multiset().count(row) == 0 by {
            assert(!rows.contains(row));
        }
    }
}

proof fn lemma_rows_of_both(a: Seq<RowView>, b: Seq<RowView>, id: Seq<char>)
    ensures
        rows_with(a + b, id) == rows_with(a, id) + rows_with(b, id),
    decreases b.len(),
{
    if b.len() == 0 {
        assert(a + b =~= a);
        assert(rows_with(a, id) + rows_with(b, id) =~= rows_with(a, id));
    } else {
        lemma_rows_of_both(a, b.drop_last(), id);
        assert((a + b).drop_last() =~= a + b.drop_last());
        assert(rows_with(a + b, id) =~= rows_with(a, id) + rows_with(b, id));
    }
}

proof fn lemma_group_rows(g: GroupView, n: int, id: Seq<char>)
    requires
        0 <= n <= g.files.len(),
    ensures
        rows_with(group_rows(g).take(n), id) == if g.hash == id {
            group_rows(g).take(n)
        } else {
            seq![]
        },
    decreases n,
{
    let part = group_rows(g).take(n);
    if n > 0 {
        lemma_group_rows(g, n - 1, id);
        assert(part.drop_last() =~= group_rows(g).take(n - 1));
        assert(part =~= group_rows(g).take(n - 1).push(part.last()));
    } else {
        assert(part =~= seq![]);
    }
}

/// Among all the rows, those of a group are its own.
proof fn lemma_all_rows(groups: Seq<GroupView>, i: int)
    requires
        0 <= i < groups.len(),
        forall|i: int, j: int|
            0 <= i < j < groups.len() ==> (#[trigger] groups[i]).hash != (#[trigger] groups[j]).hash,
    ensures
        rows_with(all_rows(groups), groups[i].hash) == group_rows(groups[i]),
    decreases groups.len(),
{
    let head = groups.drop_last();
    let last = groups.last();
    let id = groups[i].hash;
    lemma_rows_of_both(all_rows(head), group_rows(last), id);
    lemma_group_rows(last, last.files.len() as int, id);
    assert(group_rows(last).take(last.files.len() as int) =~= group_rows(last));
    assert forall|a: int, b: int| 0 <= a < b < head.len() implies (#[trigger] head[a]).hash != (
    #[trigger] head[b]).hash by {
        assert(groups[a] == head[a] && groups[b] == head[b]);
    }
    if i < head.len() {
        assert(groups[i].hash != groups[groups.len() - 1].hash);
        lemma_all_rows(head, i);
        assert(rows_with(all_rows(groups), id) =~= group_rows(groups[i]));
    } else {
        if has_row(all_rows(head), id) {
            let all = all_rows(head);
            let x = choose|x: int| 0 <= x < all.len() && (#[trigger] all[x]).group_id == id;
            assert(all.contains(all[x]));
            lemma_row_has_group(head, all[x]);
            let k = choose|k: int| 0 <= k < head.len() && (#[trigger] head[k]).hash == id;
            assert(groups[k].hash == groups[groups.len() - 1].hash);
            assert(false);
        }
        lemma_no_rows(all_rows(head), id);
        assert(rows_with(all_rows(groups), id) =~= group_rows(groups[i]));
    }
}

/// Every row belongs to one of the groups.
proof fn lemma_row_has_group(groups: Seq<GroupView>, row: RowView)
    requires
        all_rows(groups).contains(row),
    ensures
        exists|i: int| 0 <= i < groups.len() && (#[trigger] groups[i]).hash == row.group_id,
    decreases groups.len(),
{
    if groups.len() > 0 {
        let head = groups.drop_last();
        let all = all_rows(groups);
        let n = all_rows(head).len();
        let x = choose|x: int| 0 <= x < all.len() && all[x] == row;
        if x < n {
            assert(all_rows(head)[x] == row);
            lemma_row_has_group(head, row);
            let i = choose|i: int| 0 <= i < head.len() && (#[trigger] head[i]).hash == row.group_id;
            assert(groups[i].hash == row.group_id);
        } else {
            assert(group_rows(groups.last())[x - n] == row);
            assert(groups[groups.len() - 1].hash == row.group_id);
        }
    }
}

/// Rows that differ in their order alone stand for files that do.
proof fn lemma_same_files(a: Seq<RowView>, b: Seq<RowView>)
    requires
        a.to_multiset() == b.to_multiset(),
    ensures
        files_of(a).to_multiset() == files_of(b).to_multiset(),
    decreases a.len(),
{
    broadcast use vstd::seq_lib::group_to_multiset_ensures;
    assert(a.len() == a.to_multiset().len() && b.len() == b.to_multiset().len());
    if a.len() > 0 {
        let row = a.last();
        assert(a.contains(row));
        assert(a.to_multiset().count(row) > 0);
        assert(b.contains(row));
        let k = choose|k: int| 0 <= k < b.len() && b[k] == row;
        let head = a.remove(a.len() - 1);
        let rest = b.remove(k);
        assert(head.to_multiset() =~= rest.to_multiset());
        lemma_same_files(head, rest);
        assert(files_of(a) =~= files_of(head).push(file_of(row)));
        assert(files_of(rest) =~= files_of(b).remove(k));
        assert(files_of(b)[k] == file_of(row));
        assert(files_of(b).contains(file_of(row)));
        assert(files_of(b).to_multiset() =~= files_of(rest).to_multiset().insert(file_of(row)));
    } else {
        assert(files_of(a) =~= files_of(b));
    }
}

/// Two sorted lists of the same files are the same, where no two of the files
/// share their place.
proof fn lemma_sorted_alike(a: Seq<FileView>, b: Seq<FileView>)
    requires
        sorted_by_path(a),
        sorted_by_path(b),
        a.to_multiset() == b.to_multiset(),
        forall|f: FileView, g: FileView|
            #![trigger a.contains(f), a.contains(g)]
            a.contains(f) && a.contains(g) && f != g ==> path_before(f.path, g.path) || path_before(
                g.path,
                f.path,
            ),
    ensures
        a == b,
    decreases a.len(),
{
    broadcast use vstd::seq_lib::group_to_multiset_ensures;
    assert(a.len() == a.to_multiset().len() && b.len() == b.to_multiset().len());
    if a.len() > 0 {
        let x = a.last();
        let y = b.last();
        assert(a.contains(x) && b.contains(y));
        assert(a.to_multiset().count(x) > 0 && b.to_multiset().count(y) > 0);
        assert(a.contains(y) && b.contains(x));
        if x != y {
            let i = choose|i: int| 0 <= i < a.len() && a[i] == y;
            let j = choose|j: int| 0 <= j < b.len() && b[j] == x;
            assert(!path_before(a[a.len() - 1].path, a[i].path));
            assert(!path_before(b[b.len() - 1].path, b[j].path));
            assert(false);
        }
        let c = a.drop_last();
        let d = b.drop_last();
        assert(c =~= a.remove(a.len() - 1));
        assert(d =~= b.remove(b.len() - 1));
        assert(c.to_multiset() =~= d.to_multiset());
        assert forall|f: FileView, g: FileView|
            #![trigger c.contains(f), c.contains(g)]
            c.contains(f) && c.contains(g) && f != g implies path_before(f.path, g.path) || path_before(
            g.path,
            f.path,
        ) by {
            let i = choose|i: int| 0 <= i < c.len() && c[i] == f;
            let j = choose|j: int| 0 <= j < c.len() && c[j] == g;
            assert(a[i] == f && a[j] == g);
            assert(a.contains(f) && a.contains(g));
        }
        lemma_sorted_alike(c, d);
        assert(a =~= c.push(x) && b =~= d.push(y));
    } else {
        assert(a =~= b);
    }
}

/// The run with the hash of a group is that group.
proof fn lemma_run_is_group(groups: Seq<GroupView>, rows: Seq<RowView>, i: int, k: int)
    requires
        0 <= i < groups.len(),
        apart(groups[i].files),
        forall|i: int, j: int|
            0 <= i < j < groups.len() ==> (#[trigger] groups[i]).hash != (#[trigger] groups[j]).hash,
        rows.to_multiset() == all_rows(groups).to_multiset(),
        together(rows),
        0 <= k < runs_of(rows).len(),
        runs_of(rows)[k].id == groups[i].hash,
    ensures
        run_groups(runs_of(rows))[k] == stored_group(groups[i]),
{
    let g = groups[i];
    let run = runs_of(rows)[k];
    let all = all_rows(groups);
    lemma_runs(rows);
    lemma_all_rows(groups, i);
    lemma_rows_with(rows, g.hash);
    lemma_rows_with(all, g.hash);
    assert(rows_with(rows, g.hash).to_multiset() =~= rows_with(all, g.hash).to_multiset());
    lemma_same_files(rows_with(rows, g.hash), group_rows(g));
    let kept = Seq::new(g.files.len(), |n: int| stored(g.files[n]));
    assert(files_of(group_rows(g)) =~= kept);
    sorting_keeps_the_files(run.files);
    sorting_keeps_the_files(kept);
    let a = by_path(kept);
    assert forall|f: FileView, h: FileView|
        #![trigger a.contains(f), a.contains(h)]
        a.contains(f) && a.contains(h) && f != h implies path_before(f.path, h.path) || path_before(
        h.path,
        f.path,
    ) by {
        assert(kept.contains(f) && kept.contains(h));
        let x = choose|x: int| 0 <= x < kept.len() && kept[x] == f;
        let y = choose|y: int| 0 <= y < kept.len() && kept[y] == h;
        assert(g.files[x].path == f.path && g.files[y].path == h.path);
    }
    lemma_sorted_alike(a, by_path(run.files));
}

// ----- deletions -----------------------------------------------------------

/// A row of the deletion journal.
#[derive(Debug)]
pub struct DeletionRow {
    pub path: String,
    pub size: i64,
}

pub open spec fn deletion_row_views(v: Seq<DeletionRow>) -> Seq<(Seq<char>, i64)> {
    Seq::new(v.len(), |i: int| (v[i].path@, v[i].size))
}

/// One row for every file that was removed.
pub open spec fn journal_of(outcomes: Seq<OutcomeView>) -> Seq<(Seq<char>, i64)>
    decreases outcomes.len(),
{
    if outcomes.len() == 0 {
        seq![]
    } else {
        let head = journal_of(outcomes.drop_last());
        if outcomes.last().result is Ok {
            head.push((outcomes.last().path, outcomes.last().size as i64))
        } else {
            head
        }
    }
}

/// The rows that are added to the deletion journal: one for every successful
/// removal in the report.
pub fn journal_rows(report: &DeletionReport) -> (r: Vec<DeletionRow>)
    ensures
        deletion_row_views(r@) == journal_of(outcome_views(report.outcomes@)),
{
    let mut out: Vec<DeletionRow> = Vec::new();
    let n = report.outcomes.len();
    let ghost all = outcome_views(report.outcomes@);
    assert(deletion_row_views(out@) =~= journal_of(all.take(0)));
    for i in 0..n
        invariant
            n == report.outcomes@.len(),
            all == outcome_views(report.outcomes@),
            deletion_row_views(out@) == journal_of(all.take(i as int)),
    {
        let ghost before = deletion_row_views(out@);
        let o = &report.outcomes[i];
        assert(all.take(i + 1).drop_last() =~= all.take(i as int));
        assert(all.take(i + 1).last() == o@);
        if o.result.is_ok() {
            out.push(DeletionRow { path: o.path.clone(), size: o.size as i64 });
            assert(deletion_row_views(out@) =~= before.push((o.path@, o.size as i64)));
        }
    }
    assert(all.take(n as int) =~= all);
    out
}

/// A stored size of a deleted file; nothing below zero.
pub fn journal_size(stored_size: i64) -> (r: u64)
    ensures
        r == if stored_size < 0 {
            0
        } else {
            stored_size as int
        },
{
    if stored_size < 0 {
        0
    } else {
        stored_size as u64
    }
}

/// The columns that an older table of files lacks.
pub fn missing_columns(has_modified: bool, has_depth: bool) -> (r: Vec<&'static str>)
    ensures
        r@.len() == (if has_modified {
            0int
        } else {
            1int
        }) + (if has_depth {
            0int
        } else {
            1int
        }),
        !has_modified ==> r@[0]@ == "modified"@,
        !has_depth ==> r@.last()@ == "depth"@,
{
    let mut out: Vec<&'static str> = Vec::new();
    if !has_modified {
        out.push("modified");
    }
    if !has_depth {
        out.push("depth");
    }
    out
}

/// A row holds what the file is, its group, and its time in whole seconds
/// since the epoch, of which none lie before it.
pub proof fn rows_hold_what_files_are(f: FileView, group: Seq<char>, row: RowView)
    ensures
        row_of(f, group).path == f.path,
        f.size <= i64::MAX ==> row_of(f, group).size == f.size,
        row_of(f, group).quick_hash == f.quick_hash,
        row_of(f, group).full_hash == f.hash,
        row_of(f, group).group_id == group,
        f.modified.secs >= 0 ==> row_of(f, group).modified == Some(f.modified.secs),
        f.modified.secs < 0 ==> row_of(f, group).modified == Some(0i64),
        f.depth <= i64::MAX ==> row_of(f, group).depth == Some(f.depth as i64),
        file_of(row).path == row.path,
        row.size >= 0 ==> file_of(row).size == row.size,
        file_of(row).quick_hash == row.quick_hash,
        file_of(row).hash == row.full_hash,
        file_of(row).modified.nanos == 0,
        row.modified is Some && row.modified->0 >= 0 ==> file_of(row).modified.secs == row.modified->0,
        row.modified is None || row.modified->0 < 0 ==> file_of(row).modified.secs == 0,
        row.depth is None || row.depth->0 < 0 ==> file_of(row).depth == 0,
        row.depth is Some && 0 <= row.depth->0 <= usize::MAX ==> file_of(row).depth == row.depth->0,
{
}

/// The rows of the groups are written group by group, file by file.
pub proof fn rows_are_written_in_order(groups: Seq<GroupView>, g: GroupView, i: int)
    ensures
        all_rows(Seq::<GroupView>::empty()).len() == 0,
        all_rows(groups.push(g)).len() == all_rows(groups).len() + g.files.len(),
        all_rows(groups).is_prefix_of(all_rows(groups.push(g))),
        0 <= i < g.files.len() ==> all_rows(groups.push(g))[all_rows(groups).len() + i] == row_of(
            g.files[i],
            g.hash,
        ),
{
    assert(groups.push(g).drop_last() == groups);
    let before = all_rows(groups);
    let after = all_rows(groups.push(g));
    assert(after == before + group_rows(g));
    assert(after.subrange(0, before.len() as int) == before);
}

/// Rows that follow one another with the same group make one run, and a row
/// with another group begins a new one.
pub proof fn runs_go_by_neighbours(rows: Seq<RowView>, row: RowView)
    ensures
        runs_of(Seq::<RowView>::empty()).len() == 0,
        rows.len() > 0 ==> runs_of(rows).len() > 0 && runs_of(rows).last().id == rows.last().group_id,
        rows.len() > 0 && rows.last().group_id == row.group_id ==> runs_of(rows.push(row)).len() == runs_of(
            rows,
        ).len() && runs_of(rows.push(row)).last().files == runs_of(rows).last().files.push(file_of(row)),
        rows.len() == 0 || rows.last().group_id != row.group_id ==> runs_of(rows.push(row)) == runs_of(rows).push(
            RunView { id: row.group_id, files: seq![file_of(row)] },
        ),
    decreases rows.len(),
{
    assert(rows.push(row).drop_last() == rows);
    if rows.len() > 0 {
        assert(rows.drop_last().push(rows.last()) == rows);
        runs_go_by_neighbours(rows.drop_last(), rows.last());
    }
}

/// The journal lists the removals that succeeded, with path and size, in
/// their order, and no others.
pub proof fn only_removals_are_journaled(outcomes: Seq<OutcomeView>, o: OutcomeView)
    ensures
        journal_of(Seq::<OutcomeView>::empty()).len() == 0,
        o.result is Err ==> journal_of(outcomes.push(o)) == journal_of(outcomes),
        o.result is Ok ==> journal_of(outcomes.push(o)) == journal_of(outcomes).push((o.path, o.size as i64)),
{
    assert(outcomes.push(o).drop_last() == outcomes);
}

} // verus!
