//! The non-interactive modes: keep the best copy of each group and delete
//! the rest, after the scan or while it goes on.

use vstd::prelude::*;
use crate::deletion::{
    deleted_in, failures_in, freed_by, in_groups, loses_all, outcome_views, DeletionReport,
};
use crate::duplicates::{by_path, group_of, group_views, DuplicateGroup, GroupView};
use crate::edits::lemma_nontrivial;
use crate::finder::{drop_trivial, nontrivial};
use crate::naming::{rename_goal, rename_target};
use crate::outside::{human_size, human_size_of};
use crate::path_set::PathSet;
use crate::paths::{path_key, same_path};
use crate::scanner::{capped, file_views, FileInfo, FileView};
use crate::selection::has_path;
use crate::suggestions::{analysis_of, best, keeper_is_best, SuggestionEngine};
use crate::text::{decimal, decimal_text};

verus! {

// ----- choices -------------------------------------------------------------

/// The keeper of a group with files.
pub open spec fn keeper_of(g: GroupView) -> int {
    best(g.files, g.files.len())
}

/// Is `p` the key of a file of the group other than its keeper?
pub open spec fn is_copy_path(g: GroupView, p: Seq<char>) -> bool {
    exists|i: int| 0 <= i < g.files.len() && i != keeper_of(g) && (#[trigger] g.files[i]).key() == p
}

/// The line that says which file of a group is kept.
pub open spec fn keep_text(g: GroupView) -> Seq<char> {
    decimal(g.files.len()) + " × "@ + human_size_of(g.file_size()) + "  keeping "@
        + g.files[keeper_of(g)].path
}

/// The keeper of a group of at least one file.
pub fn keeper_index(group: &DuplicateGroup) -> (r: usize)
    requires
        group@.files.len() > 0,
    ensures
        r == keeper_of(group@),
        r < group@.files.len(),
{
    match SuggestionEngine::get_best_keeper(&group.files) {
        Some(k) => k,
        None => 0,
    }
}

/// Says which file of a group is kept.
pub fn keep_line(group: &DuplicateGroup) -> (r: String)
    requires
        group@.files.len() > 0,
    ensures
        r@ == keep_text(group@),
{
    let k = keeper_index(group);
    assert(group@.files[k as int] == group.files@[k as int]@);
    let mut s = decimal_text(group.file_count() as u64);
    s.append(" × ");
    s.append(human_size(group.file_size()).as_str());
    s.append("  keeping ");
    s.append(group.files[k].path.as_str());
    s
}

/// Adds the paths of every file of the group but its keeper.
pub(crate) fn add_copies(wanted: &mut PathSet, group: &DuplicateGroup, keeper: usize)
    requires
        group@.files.len() > 0,
        keeper == keeper_of(group@),
    ensures
        forall|p: Seq<char>| #[trigger]
            final(wanted)@.contains(p) <==> old(wanted)@.contains(p) || is_copy_path(group@, p),
{
    let n = group.files.len();
    let ghost g = group@;
    for i in 0..n
        invariant
            n == group.files@.len(),
            g == group@,
            keeper == keeper_of(g),
            forall|p: Seq<char>| #[trigger]
                wanted@.contains(p) <==> old(wanted)@.contains(p) || exists|k: int|
                    0 <= k < i && k != keeper && (#[trigger] g.files[k]).key() == p,
    {
        assert(g.files[i as int] == group.files@[i as int]@);
        if i != keeper {
            wanted.insert(group.files[i].path.clone());
        }
    }
}

/// The keys of the copies in the groups.
pub open spec fn copy_paths(groups: Seq<GroupView>) -> Set<Seq<char>> {
    Set::new(
        |p: Seq<char>|
            exists|i: int| 0 <= i < groups.len() && is_copy_path(#[trigger] groups[i], p),
    )
}

/// Everything that is to be deleted: every copy but the keepers.
pub fn copies_to_delete(groups: &Vec<DuplicateGroup>) -> (r: PathSet)
    requires
        forall|i: int| 0 <= i < groups@.len() ==> (#[trigger] group_views(groups@)[i]).files.len() > 0,
    ensures
        r@ == copy_paths(group_views(groups@)),
{
    let mut wanted = PathSet::new();
    let n = groups.len();
    let ghost gs = group_views(groups@);
    for i in 0..n
        invariant
            n == groups@.len(),
            gs == group_views(groups@),
            forall|i: int| 0 <= i < groups@.len() ==> (#[trigger] gs[i]).files.len() > 0,
            forall|p: Seq<char>| #[trigger]
                wanted@.contains(p) <==> exists|k: int| 0 <= k < i && is_copy_path(#[trigger] gs[k], p),
    {
        let ghost before = wanted@;
        assert(gs[i as int] == groups@[i as int]@);
        let k = keeper_index(&groups[i]);
        add_copies(&mut wanted, &groups[i], k);
        assert forall|p: Seq<char>| #[trigger]
            wanted@.contains(p) <==> exists|k: int| 0 <= k < i + 1 && is_copy_path(#[trigger] gs[k], p) by {
            assert(wanted@.contains(p) <==> before.contains(p) || is_copy_path(gs[i as int], p));
        }
    }
    assert(wanted@ =~= copy_paths(gs));
    wanted
}

/// Does no path occur twice, in one group or in two?
pub open spec fn paths_differ(groups: Seq<GroupView>) -> bool {
    forall|g: int, h: int, i: int, j: int|
        0 <= g < groups.len() && 0 <= h < groups.len() && 0 <= i < groups[g].files.len() && 0 <= j
            < groups[h].files.len() && (g != h || i != j) ==> (#[trigger] groups[g].files[i]).key() != (
        #[trigger] groups[h].files[j]).key()
}

/// Where no path occurs twice, exactly one file of each group is kept: the
/// keeper is not deleted, and every other file is.
pub proof fn exactly_the_keepers_stay(groups: Seq<GroupView>, g: int, i: int)
    requires
        paths_differ(groups),
        0 <= g < groups.len(),
        0 <= i < groups[g].files.len(),
    ensures
        copy_paths(groups).contains(groups[g].files[i].key()) <==> i != keeper_of(groups[g]),
        !loses_all(groups[g], copy_paths(groups)),
        in_groups(groups, groups[g].files[i].key()),
{
    let files = groups[g].files;
    let p = files[i].key();
    if i != keeper_of(groups[g]) {
        assert(is_copy_path(groups[g], p));
    }
    if copy_paths(groups).contains(p) {
        let h = choose|h: int| 0 <= h < groups.len() && is_copy_path(#[trigger] groups[h], p);
        let j = choose|j: int|
            0 <= j < groups[h].files.len() && j != keeper_of(groups[h]) && (
            #[trigger] groups[h].files[j]).key() == p;
        assert(groups[h].files[j].key() == groups[g].files[i].key());
        assert(g == h && i == j);
    }
    assert(has_path(files, p));
    let k = keeper_of(groups[g]);
    crate::suggestions::keeper_is_best(files, files.len());
    if copy_paths(groups).contains(files[k].key()) {
        let h = choose|h: int| 0 <= h < groups.len() && is_copy_path(#[trigger] groups[h], files[k].key());
        let j = choose|j: int|
            0 <= j < groups[h].files.len() && j != keeper_of(groups[h]) && (
            #[trigger] groups[h].files[j]).key() == files[k].key();
        assert(groups[h].files[j].key() == groups[g].files[k].key());
    }
}

/// Where no path occurs twice, the plan to delete every copy is one that
/// `plan_deletions` accepts: no group loses all its files, and every copy
/// belongs to a group.
pub proof fn plans_for_copies_are_accepted(groups: Seq<GroupView>)
    requires
        paths_differ(groups),
    ensures
        forall|g: int| 0 <= g < groups.len() ==> !loses_all(#[trigger] groups[g], copy_paths(groups)),
        forall|p: Seq<char>| #[trigger] copy_paths(groups).contains(p) ==> in_groups(groups, p),
{
    assert forall|g: int| 0 <= g < groups.len() implies !loses_all(
        #[trigger] groups[g],
        copy_paths(groups),
    ) by {
        if groups[g].files.len() > 0 {
            exactly_the_keepers_stay(groups, g, 0);
        }
    }
    assert forall|p: Seq<char>| #[trigger] copy_paths(groups).contains(p) implies in_groups(groups, p) by {
        let g = choose|g: int| 0 <= g < groups.len() && is_copy_path(#[trigger] groups[g], p);
        assert(has_path(groups[g].files, p));
    }
}

// ----- renaming the keepers ------------------------------------------------

/// A rename that is to follow: the keeper's path and its new name.
#[derive(Debug)]
pub struct KeeperRename {
    pub path: String,
    pub new_name: String,
}

pub open spec fn rename_views(v: Seq<KeeperRename>) -> Seq<(Seq<char>, Seq<char>)> {
    Seq::new(v.len(), |i: int| (v[i].path@, v[i].new_name@))
}

/// The renames of the keepers that have a canonical name to get, where
/// `occupied` holds the paths at which something stands.
pub open spec fn keeper_renames_of(groups: Seq<GroupView>, occupied: Set<Seq<char>>) -> Seq<
    (Seq<char>, Seq<char>),
>
    decreases groups.len(),
{
    if groups.len() == 0 {
        seq![]
    } else {
        let head = keeper_renames_of(groups.drop_last(), occupied);
        let g = groups.last();
        match rename_goal(g, keeper_of(g)) {
            Some(goal) => if occupied.contains(path_key(goal.0)) {
                head
            } else {
                head.push((g.files[keeper_of(g)].path, goal.1))
            },
            None => head,
        }
    }
}

pub fn keeper_renames(groups: &Vec<DuplicateGroup>, occupied: &PathSet) -> (r: Vec<KeeperRename>)
    requires
        forall|i: int| 0 <= i < groups@.len() ==> (#[trigger] group_views(groups@)[i]).files.len() > 0,
    ensures
        rename_views(r@) == keeper_renames_of(group_views(groups@), occupied@),
{
    let mut out: Vec<KeeperRename> = Vec::new();
    let n = groups.len();
    let ghost gs = group_views(groups@);
    assert(rename_views(out@) =~= keeper_renames_of(gs.take(0), occupied@));
    for i in 0..n
        invariant
            n == groups@.len(),
            gs == group_views(groups@),
            forall|i: int| 0 <= i < groups@.len() ==> (#[trigger] gs[i]).files.len() > 0,
            rename_views(out@) == keeper_renames_of(gs.take(i as int), occupied@),
    {
        let group = &groups[i];
        assert(gs[i as int] == group@);
        assert(gs.take(i + 1).drop_last() =~= gs.take(i as int));
        assert(gs.take(i + 1).last() == group@);
        let k = keeper_index(group);
        assert(group@.files[k as int] == group.files@[k as int]@);
        let ghost before = rename_views(out@);
        if let Some((target, name)) = rename_target(group, k) {
            if !occupied.contains(target.as_str()) {
                out.push(KeeperRename { path: group.files[k].path.clone(), new_name: name });
                assert(rename_views(out@) =~= before.push((group@.files[k as int].path, name@)));
            }
        }
    }
    assert(gs.take(n as int) =~= gs);
    out
}

/// The groups that are left once these paths are gone.
pub open spec fn remaining_of(groups: Seq<GroupView>, gone: Set<Seq<char>>) -> Seq<GroupView> {
    nontrivial(Seq::new(groups.len(), |i: int| groups[i].without(gone)))
}

pub fn remaining_groups(groups: &Vec<DuplicateGroup>, gone: &PathSet) -> (r: Vec<DuplicateGroup>)
    ensures
        group_views(r@) == remaining_of(group_views(groups@), gone@),
{
    let mut out: Vec<DuplicateGroup> = Vec::new();
    let n = groups.len();
    let ghost gs = group_views(groups@);
    let ghost goal = Seq::new(gs.len(), |i: int| gs[i].without(gone@));
    assert(group_views(out@) =~= goal.take(0));
    for i in 0..n
        invariant
            n == groups@.len(),
            gs == group_views(groups@),
            goal == Seq::new(gs.len(), |i: int| gs[i].without(gone@)),
            group_views(out@) == goal.take(i as int),
    {
        let mut g = groups[i].clone();
        assert(gs[i as int] == groups@[i as int]@);
        g.remove_paths(gone);
        let ghost before = group_views(out@);
        out.push(g);
        assert(group_views(out@) =~= before.push(goal[i as int]));
        assert(goal.take(i + 1) =~= before.push(goal[i as int]));
    }
    assert(goal.take(n as int) =~= goal);
    drop_trivial(&out)
}

/// Is the file in none of the groups that are left? A keeper is renamed only
/// when every marked copy of its group is gone, so that the clean name cannot
/// collide with a copy that failed to delete.
pub fn is_alone(remaining: &Vec<DuplicateGroup>, path: &str) -> (r: bool)
    ensures
        r == !in_groups(group_views(remaining@), path_key(path@)),
{
    let n = remaining.len();
    let ghost gs = group_views(remaining@);
    for i in 0..n
        invariant
            n == remaining@.len(),
            gs == group_views(remaining@),
            forall|k: int| 0 <= k < i ==> !has_path((#[trigger] gs[k]).files, path_key(path@)),
    {
        let m = remaining[i].files.len();
        let ghost g = gs[i as int];
        assert(g == remaining@[i as int]@);
        for j in 0..m
            invariant
                i < n,
                n == remaining@.len(),
                m == remaining@[i as int].files@.len(),
                gs == group_views(remaining@),
                g == gs[i as int],
                g == remaining@[i as int]@,
                forall|k: int| 0 <= k < j ==> (#[trigger] g.files[k]).key() != path_key(path@),
        {
            assert(g.files[j as int] == remaining@[i as int].files@[j as int]@);
            if same_path(remaining[i].files[j].path.as_str(), path) {
                assert(g.files[j as int].key() == path_key(path@));
                assert(has_path(gs[i as int].files, path_key(path@)));
                return false;
            }
        }
    }
    true
}

/// The files with the path of this key.
pub open spec fn with_path(files: Seq<FileView>, path: Seq<char>) -> Seq<FileView>
    decreases files.len(),
{
    if files.len() == 0 {
        seq![]
    } else if files.last().key() == path {
        with_path(files.drop_last(), path).push(files.last())
    } else {
        with_path(files.drop_last(), path)
    }
}

pub open spec fn all_with_path(groups: Seq<GroupView>, path: Seq<char>) -> Seq<FileView>
    decreases groups.len(),
{
    if groups.len() == 0 {
        seq![]
    } else {
        all_with_path(groups.drop_last(), path) + with_path(groups.last().files, path)
    }
}

/// A group of its own for the file at a path, in which it can be renamed.
pub fn solo_group(groups: &Vec<DuplicateGroup>, path: &str) -> (r: Vec<DuplicateGroup>)
    ensures
        group_views(r@) == seq![group_of(""@, by_path(all_with_path(group_views(groups@), path_key(path@))))],
{
    let mut files: Vec<FileInfo> = Vec::new();
    let n = groups.len();
    let ghost gs = group_views(groups@);
    assert(file_views(files@) =~= all_with_path(gs.take(0), path_key(path@)));
    for i in 0..n
        invariant
            n == groups@.len(),
            gs == group_views(groups@),
            file_views(files@) == all_with_path(gs.take(i as int), path_key(path@)),
    {
        let group = &groups[i];
        let ghost before = file_views(files@);
        let ghost g = group@;
        assert(gs.take(i + 1).drop_last() =~= gs.take(i as int));
        assert(gs.take(i + 1).last() == g);
        let m = group.files.len();
        assert(before + with_path(g.files.take(0), path_key(path@)) =~= before);
        for j in 0..m
            invariant
                m == group.files@.len(),
                g == group@,
                file_views(files@) == before + with_path(g.files.take(j as int), path_key(path@)),
        {
            assert(g.files.take(j + 1).drop_last() =~= g.files.take(j as int));
            assert(g.files.take(j + 1).last() == group.files@[j as int]@);
            let ghost inner = file_views(files@);
            if same_path(group.files[j].path.as_str(), path) {
                files.push(group.files[j].clone());
                assert(file_views(files@) =~= inner.push(group.files@[j as int]@));
                assert(before + with_path(g.files.take(j + 1), path_key(path@)) =~= inner.push(
                    group.files@[j as int]@,
                ));
            }
        }
        assert(g.files.take(m as int) =~= g.files);
    }
    assert(gs.take(n as int) =~= gs);
    let mut r: Vec<DuplicateGroup> = Vec::new();
    let hash = String::new();
    assert(hash@ =~= ""@) by {
        reveal_strlit("");
    }
    r.push(DuplicateGroup::new(hash, files));
    assert(group_views(r@) =~= seq![group_of(""@, by_path(all_with_path(gs, path_key(path@))))]);
    r
}

/// The line that ends a run.
pub fn done_text(report: &DeletionReport) -> (r: String)
    ensures
        ({
            let outcomes = outcome_views(report.outcomes@);
            r@ == "deleted "@ + decimal(deleted_in(outcomes)) + " file(s), freed "@ + human_size_of(
                capped(freed_by(outcomes)),
            ) + ", "@ + decimal(failures_in(outcomes).len()) + " failed."@
        }),
{
    let mut s = "deleted ".to_owned();
    s.append(decimal_text(report.deleted_count() as u64).as_str());
    s.append(" file(s), freed ");
    s.append(human_size(report.bytes_freed()).as_str());
    s.append(", ");
    s.append(decimal_text(report.failed_count() as u64).as_str());
    s.append(" failed.");
    s
}

/// The file that is kept is the keeper that the analysis names, and every
/// other path of the group is a copy.
pub proof fn the_analysis_names_the_keeper(g: GroupView, p: Seq<char>)
    requires
        0 < g.files.len() <= usize::MAX,
    ensures
        analysis_of(g.files).keeper is Some,
        keeper_of(g) == analysis_of(g.files).keeper->0,
        is_copy_path(g, p) <==> exists|i: int|
            0 <= i < g.files.len() && i != analysis_of(g.files).keeper->0 && path_key(
                (#[trigger] g.files[i]).path,
            ) == p,
        keep_text(g) == decimal(g.files.len()) + " × "@ + human_size_of(g.files[0].size) + "  keeping "@
            + g.files[analysis_of(g.files).keeper->0 as int].path,
{
    keeper_is_best(g.files, g.files.len());
    if is_copy_path(g, p) {
        let i = choose|i: int| 0 <= i < g.files.len() && i != keeper_of(g) && (#[trigger] g.files[i]).key() == p;
        assert(path_key(g.files[i].path) == p);
    }
}

/// Each group adds the rename of its keeper where there is one to make and
/// its target is free, after those of the groups before it.
pub proof fn keepers_are_renamed_group_by_group(groups: Seq<GroupView>, g: GroupView, occupied: Set<Seq<char>>)
    ensures
        keeper_renames_of(Seq::<GroupView>::empty(), occupied).len() == 0,
        rename_goal(g, keeper_of(g)) is None ==> keeper_renames_of(groups.push(g), occupied)
            == keeper_renames_of(groups, occupied),
        rename_goal(g, keeper_of(g)) is Some && occupied.contains(path_key((rename_goal(g, keeper_of(g))->0).0))
            ==> keeper_renames_of(groups.push(g), occupied) == keeper_renames_of(groups, occupied),
        rename_goal(g, keeper_of(g)) is Some && !occupied.contains(path_key((rename_goal(g, keeper_of(g))->0).0))
            ==> keeper_renames_of(groups.push(g), occupied) == keeper_renames_of(groups, occupied).push(
            (g.files[keeper_of(g)].path, (rename_goal(g, keeper_of(g))->0).1),
        ),
{
    assert(groups.push(g).drop_last() == groups);
}

/// What remains after a deletion are the groups that still have two files or
/// more, each without the deleted ones.
pub proof fn groups_remain_while_two_files_do(groups: Seq<GroupView>, gone: Set<Seq<char>>, g: GroupView)
    ensures
        remaining_of(groups, gone).contains(g) <==> g.files.len() >= 2 && exists|i: int|
            0 <= i < groups.len() && g == (#[trigger] groups[i]).without(gone),
{
    let left = Seq::new(groups.len(), |i: int| groups[i].without(gone));
    lemma_nontrivial(left, g);
    if left.contains(g) {
        let i = choose|i: int| 0 <= i < left.len() && left[i] == g;
        assert(g == groups[i].without(gone));
    }
    if exists|i: int| 0 <= i < groups.len() && g == (#[trigger] groups[i]).without(gone) {
        let i = choose|i: int| 0 <= i < groups.len() && g == (#[trigger] groups[i]).without(gone);
        assert(left[i] == g);
    }
}

/// The files with a path are found in every group, in their order.
pub proof fn a_path_is_looked_up_everywhere(groups: Seq<GroupView>, g: GroupView, path: Seq<char>)
    ensures
        all_with_path(Seq::<GroupView>::empty(), path).len() == 0,
        all_with_path(groups.push(g), path) == all_with_path(groups, path) + g.files.filter(
            |f: FileView| path_key(f.path) == path,
        ),
{
    assert(groups.push(g).drop_last() == groups);
    lemma_with_path(g.files, path);
}

proof fn lemma_with_path(files: Seq<FileView>, path: Seq<char>)
    ensures
        with_path(files, path) == files.filter(|f: FileView| path_key(f.path) == path),
    decreases files.len(),
{
    reveal(Seq::filter);
    if files.len() > 0 {
        lemma_with_path(files.drop_last(), path);
    }
}

} // verus!
