//! Groups of identical files, and the finder that builds them as files
//! arrive.

use vstd::prelude::*;
pub use crate::finder::DuplicateFinder;
use crate::path_set::PathSet;
use crate::paths::{is_path_before, path_before, path_key, path_order_is_total};
use crate::scanner::{add_capped, capped, copy_files, file_views, FileInfo, FileView};

verus! {

#[derive(Debug)]
pub struct DuplicateGroup {
    pub hash: String,
    pub files: Vec<FileInfo>,
    pub total_size: u64,
    pub wasted_space: u64,
}

/// What a `DuplicateGroup` says.
pub struct GroupView {
    pub hash: Seq<char>,
    pub files: Seq<FileView>,
    pub total_size: u64,
    pub wasted_space: u64,
}

impl View for DuplicateGroup {
    type V = GroupView;

    open spec fn view(&self) -> GroupView {
        GroupView {
            hash: self.hash@,
            files: file_views(self.files@),
            total_size: self.total_size,
            wasted_space: self.wasted_space,
        }
    }
}

pub open spec fn group_views(v: Seq<DuplicateGroup>) -> Seq<GroupView> {
    Seq::new(v.len(), |i: int| v[i]@)
}

/// The sizes of the files added up.
pub open spec fn size_sum(files: Seq<FileView>) -> int
    decreases files.len(),
{
    if files.len() == 0 {
        0
    } else {
        size_sum(files.drop_last()) + files.last().size
    }
}

/// What all copies but one take up.
pub open spec fn waste_of(files: Seq<FileView>) -> int {
    if files.len() == 0 {
        0
    } else {
        files[0].size * (files.len() - 1)
    }
}

/// The group of these files, with its sums. A sum that passes the largest
/// number stays at it.
pub open spec fn group_of(hash: Seq<char>, files: Seq<FileView>) -> GroupView {
    GroupView {
        hash,
        files,
        total_size: capped(size_sum(files)),
        wasted_space: capped(waste_of(files)),
    }
}

// ----- order of the files --------------------------------------------------

pub open spec fn sorted_by_path(files: Seq<FileView>) -> bool {
    forall|i: int, j: int|
        0 <= i < j < files.len() ==> !path_before((#[trigger] files[j]).path, (#[trigger] files[i]).path)
}

/// A sorted list with one more file, placed after those that are not after it.
pub open spec fn placed(files: Seq<FileView>, f: FileView) -> Seq<FileView>
    decreases files.len(),
{
    if files.len() == 0 || !path_before(f.path, files.last().path) {
        files.push(f)
    } else {
        placed(files.drop_last(), f).push(files.last())
    }
}

/// The files in the order of their paths; files whose paths have the same
/// components keep their order.
pub open spec fn by_path(files: Seq<FileView>) -> Seq<FileView>
    decreases files.len(),
{
    if files.len() == 0 {
        files
    } else {
        placed(by_path(files.drop_last()), files.last())
    }
}

proof fn lemma_placed(files: Seq<FileView>, f: FileView)
    requires
        sorted_by_path(files),
    ensures
        sorted_by_path(placed(files, f)),
        placed(files, f).to_multiset() == files.to_multiset().insert(f),
        placed(files, f).len() == files.len() + 1,
        forall|g: FileView| #[trigger] placed(files, f).contains(g) <==> files.contains(g) || g == f,
    decreases files.len(),
{
    broadcast use vstd::seq_lib::group_to_multiset_ensures;
    let r = placed(files, f);
    if files.len() == 0 || !path_before(f.path, files.last().path) {
        assert forall|i: int, j: int| 0 <= i < j < r.len() implies !path_before(
            (#[trigger] r[j]).path,
            (#[trigger] r[i]).path,
        ) by {
            if j == files.len() && i < files.len() - 1 {
                path_order_is_total(f.path, files[i].path, files.last().path);
                assert(!path_before(files.last().path, files[i].path));
            }
        }
        lemma_push_contains(files, f);
    } else {
        let head = files.drop_last();
        lemma_placed(head, f);
        let p = placed(head, f);
        assert forall|i: int, j: int| 0 <= i < j < r.len() implies !path_before(
            (#[trigger] r[j]).path,
            (#[trigger] r[i]).path,
        ) by {
            if j == p.len() {
                assert(p.contains(p[i]));
                if p[i] == f {
                    path_order_is_total(files.last().path, f.path, files.last().path);
                } else {
                    assert(head.contains(p[i]));
                    let k = choose|k: int| 0 <= k < head.len() && head[k] == p[i];
                    assert(!path_before(files.last().path, files[k].path));
                }
            }
        }
        assert(files =~= head.push(files.last()));
        lemma_push_contains(head, files.last());
        lemma_push_contains(p, files.last());
    }
}

proof fn lemma_push_contains(files: Seq<FileView>, f: FileView)
    ensures
        forall|g: FileView| #[trigger] files.push(f).contains(g) <==> files.contains(g) || g == f,
{
    assert forall|g: FileView| #[trigger] files.push(f).contains(g) <==> files.contains(g) || g == f by {
        if files.contains(g) {
            let k = choose|k: int| 0 <= k < files.len() && files[k] == g;
            assert(files.push(f)[k] == g);
        }
        assert(files.push(f)[files.len() as int] == f);
    }
}

/// Sorting by path sorts, and neither loses nor adds a file.
pub proof fn sorting_keeps_the_files(files: Seq<FileView>)
    ensures
        sorted_by_path(by_path(files)),
        by_path(files).to_multiset() == files.to_multiset(),
        by_path(files).len() == files.len(),
        forall|g: FileView| #[trigger] by_path(files).contains(g) <==> files.contains(g),
    decreases files.len(),
{
    broadcast use vstd::seq_lib::group_to_multiset_ensures;
    if files.len() > 0 {
        sorting_keeps_the_files(files.drop_last());
        lemma_placed(by_path(files.drop_last()), files.last());
        lemma_push_contains(files.drop_last(), files.last());
        assert(files =~= files.drop_last().push(files.last()));
    }
}

/// Files that are in order stay as they are.
pub proof fn sorting_sorted_files_changes_nothing(files: Seq<FileView>)
    requires
        sorted_by_path(files),
    ensures
        by_path(files) == files,
    decreases files.len(),
{
    if files.len() > 0 {
        let head = files.drop_last();
        assert(sorted_by_path(head));
        sorting_sorted_files_changes_nothing(head);
        if head.len() > 0 {
            assert(!path_before(files[files.len() - 1].path, files[files.len() - 2].path));
        }
        assert(head.push(files.last()) =~= files);
    }
}

/// Puts a file in its place.
fn place(files: &mut Vec<FileInfo>, f: FileInfo)
    ensures
        file_views(final(files)@) == placed(file_views(old(files)@), f@),
{
    let mut at = files.len();
    let ghost all = file_views(files@);
    assert(all.take(at as int) =~= all);
    assert(all.skip(at as int) =~= seq![]);
    assert(placed(all.take(at as int), f@) + all.skip(at as int) =~= placed(all, f@));
    while at > 0 && is_path_before(f.path.as_str(), files[at - 1].path.as_str())
        invariant
            all == file_views(files@),
            at <= files@.len(),
            placed(all.take(at as int), f@) + all.skip(at as int) == placed(all, f@),
        decreases at,
    {
        let ghost head = all.take(at as int);
        proof {
            assert(head.last() == files@[at - 1]@);
            assert(head.drop_last() =~= all.take(at - 1));
            assert(placed(head, f@) == placed(all.take(at - 1), f@).push(head.last()));
            assert(placed(all.take(at - 1), f@) + all.skip(at - 1) =~= placed(head, f@) + all.skip(at as int));
        }
        at = at - 1;
    }
    proof {
        let head = all.take(at as int);
        if at > 0 {
            assert(head.last() == files@[at - 1]@);
        }
        assert(placed(head, f@) == head.push(f@));
    }
    let ghost fv = f@;
    files.insert(at, f);
    assert(file_views(files@) =~= all.take(at as int).push(fv) + all.skip(at as int));
}

/// The files in the order of their paths.
pub fn sort_files(files: Vec<FileInfo>) -> (r: Vec<FileInfo>)
    ensures
        file_views(r@) == by_path(file_views(files@)),
{
    let mut out: Vec<FileInfo> = Vec::new();
    let n = files.len();
    let ghost all = file_views(files@);
    assert(file_views(out@) =~= by_path(all.take(0)));
    for i in 0..n
        invariant
            n == files@.len(),
            all == file_views(files@),
            file_views(out@) == by_path(all.take(i as int)),
    {
        place(&mut out, files[i].clone());
        assert(all.take(i + 1).drop_last() =~= all.take(i as int));
        assert(all.take(i + 1).last() == files@[i as int]@);
    }
    assert(all.take(n as int) =~= all);
    out
}

fn sum_sizes(files: &Vec<FileInfo>) -> (r: u64)
    ensures
        r == capped(size_sum(file_views(files@))),
{
    let mut sum: u64 = 0;
    let n = files.len();
    let ghost all = file_views(files@);
    for i in 0..n
        invariant
            n == files@.len(),
            all == file_views(files@),
            sum == capped(size_sum(all.take(i as int))),
            size_sum(all.take(i as int)) >= 0,
    {
        assert(all.take(i + 1).drop_last() =~= all.take(i as int));
        assert(all.take(i + 1).last() == files@[i as int]@);
        sum = add_capped(sum, files[i].size);
    }
    assert(all.take(n as int) =~= all);
    sum
}

fn wasted(files: &Vec<FileInfo>) -> (r: u64)
    ensures
        r == capped(waste_of(file_views(files@))),
{
    if files.len() == 0 {
        return 0;
    }
    let size = files[0].size;
    let copies = files.len() - 1;
    assert(size * copies <= u64::MAX * u64::MAX) by (nonlinear_arith)
        requires
            size <= u64::MAX,
            copies <= u64::MAX,
    ;
    assert(size * copies >= 0) by (nonlinear_arith);
    let product = size as u128 * copies as u128;
    if product > u64::MAX as u128 {
        u64::MAX
    } else {
        product as u64
    }
}

/// The files whose paths are not in `gone`, a set of keys.
pub open spec fn kept(files: Seq<FileView>, gone: Set<Seq<char>>) -> Seq<FileView>
    decreases files.len(),
{
    if files.len() == 0 {
        files
    } else if gone.contains(files.last().key()) {
        kept(files.drop_last(), gone)
    } else {
        kept(files.drop_last(), gone).push(files.last())
    }
}

/// The files whose paths are not in `gone`, in the same order.
pub fn keep_files(files: &Vec<FileInfo>, gone: &PathSet) -> (r: Vec<FileInfo>)
    ensures
        file_views(r@) == kept(file_views(files@), gone@),
{
    let mut out: Vec<FileInfo> = Vec::new();
    let n = files.len();
    let ghost all = file_views(files@);
    assert(file_views(out@) =~= kept(all.take(0), gone@));
    for i in 0..n
        invariant
            n == files@.len(),
            all == file_views(files@),
            file_views(out@) == kept(all.take(i as int), gone@),
    {
        let ghost before = file_views(out@);
        assert(all.take(i + 1).drop_last() =~= all.take(i as int));
        assert(all.take(i + 1).last() == files@[i as int]@);
        if !gone.contains(files[i].path.as_str()) {
            out.push(files[i].clone());
            assert(file_views(out@) =~= before.push(files@[i as int]@));
        }
    }
    assert(all.take(n as int) =~= all);
    out
}

/// What is kept is what is not gone, and stays in order.
pub proof fn lemma_kept(files: Seq<FileView>, gone: Set<Seq<char>>)
    ensures
        forall|f: FileView| #[trigger] kept(files, gone).contains(f) <==> files.contains(f) && !gone.contains(
            f.key(),
        ),
        sorted_by_path(files) ==> sorted_by_path(kept(files, gone)),
        kept(files, gone).len() <= files.len(),
    decreases files.len(),
{
    if files.len() > 0 {
        let head = files.drop_last();
        lemma_kept(head, gone);
        lemma_push_contains(head, files.last());
        assert(files =~= head.push(files.last()));
        if !gone.contains(files.last().key()) {
            let k = kept(head, gone);
            lemma_push_contains(k, files.last());
            if sorted_by_path(files) {
                assert forall|i: int, j: int| 0 <= i < j < k.len() + 1 implies !path_before(
                    (#[trigger] k.push(files.last())[j]).path,
                    (#[trigger] k.push(files.last())[i]).path,
                ) by {
                    assert(sorted_by_path(head));
                    if j == k.len() {
                        assert(k.contains(k[i]));
                        let m = choose|m: int| 0 <= m < head.len() && head[m] == k[i];
                        assert(!path_before(files[files.len() - 1].path, files[m].path));
                    }
                }
            }
        }
    }
}

impl Clone for DuplicateGroup {
    fn clone(&self) -> (r: DuplicateGroup)
        ensures
            r@ == self@,
            r.files@ == self.files@,
    {
        DuplicateGroup {
            hash: self.hash.clone(),
            files: copy_files(&self.files),
            total_size: self.total_size,
            wasted_space: self.wasted_space,
        }
    }
}

/// A copy of a list of groups.
pub fn copy_groups(v: &Vec<DuplicateGroup>) -> (r: Vec<DuplicateGroup>)
    ensures
        group_views(r@) == group_views(v@),
{
    let mut out: Vec<DuplicateGroup> = Vec::new();
    let n = v.len();
    let ghost all = group_views(v@);
    for i in 0..n
        invariant
            n == v@.len(),
            all == group_views(v@),
            group_views(out@) == all.take(i as int),
    {
        let ghost before = group_views(out@);
        out.push(v[i].clone());
        assert(group_views(out@) =~= before.push(all[i as int]));
        assert(all.take(i + 1) =~= all.take(i as int).push(all[i as int]));
    }
    assert(all.take(n as int) =~= all);
    out
}

impl GroupView {
    /// A group of one file, or of none, is no group of duplicates.
    pub open spec fn trivial(self) -> bool {
        self.files.len() <= 1
    }

    /// The size of each file.
    pub open spec fn file_size(self) -> u64 {
        if self.files.len() == 0 {
            0
        } else {
            self.files[0].size
        }
    }

    /// The group without the files whose paths are in `gone`.
    pub open spec fn without(self, gone: Set<Seq<char>>) -> GroupView {
        group_of(self.hash, kept(self.files, gone))
    }
}

impl DuplicateGroup {
    /// The group of these files. It keeps them sorted by path.
    pub fn new(hash: String, files: Vec<FileInfo>) -> (r: DuplicateGroup)
        ensures
            r@ == group_of(hash@, by_path(file_views(files@))),
    {
        let files = sort_files(files);
        let total_size = sum_sizes(&files);
        let wasted_space = wasted(&files);
        DuplicateGroup { hash, files, total_size, wasted_space }
    }

    pub fn file_count(&self) -> (r: usize)
        ensures
            r == self@.files.len(),
    {
        self.files.len()
    }

    /// Nothing left to choose between.
    pub fn is_empty(&self) -> (r: bool)
        ensures
            r == self@.trivial(),
    {
        self.files.len() <= 1
    }

    /// The size of each file in the group.
    pub fn file_size(&self) -> (r: u64)
        ensures
            r == self@.file_size(),
    {
        if self.files.len() == 0 {
            0
        } else {
            self.files[0].size
        }
    }

    /// Takes out the files whose paths are in `gone`.
    pub fn remove_paths(&mut self, gone: &PathSet)
        ensures
            final(self)@ == old(self)@.without(gone@),
    {
        self.files = keep_files(&self.files, gone);
        self.total_size = sum_sizes(&self.files);
        self.wasted_space = wasted(&self.files);
    }
}

/// A group's sizes add up: each file adds its own size to the total, and
/// what could be freed is the size of one file for each file but one.
pub proof fn group_sizes_add_up(hash: Seq<char>, files: Seq<FileView>, f: FileView)
    ensures
        size_sum(Seq::<FileView>::empty()) == 0,
        size_sum(files.push(f)) == size_sum(files) + f.size,
        group_of(hash, files).hash == hash,
        group_of(hash, files).files == files,
        size_sum(files) <= 18446744073709551615 ==> group_of(hash, files).total_size == size_sum(files),
        size_sum(files) > 18446744073709551615 ==> group_of(hash, files).total_size == 18446744073709551615u64,
        files.len() > 0 && files[0].size * (files.len() - 1) <= 18446744073709551615 ==> group_of(
            hash,
            files,
        ).wasted_space == files[0].size * (files.len() - 1),
        files.len() > 0 && files[0].size * (files.len() - 1) > 18446744073709551615 ==> group_of(
            hash,
            files,
        ).wasted_space == 18446744073709551615u64,
        files.len() == 0 ==> group_of(hash, files).wasted_space == 0,
    decreases files.len(),
{
    assert(files.push(f).drop_last() == files);
    if files.len() > 0 {
        assert(files.drop_last().push(files.last()) == files);
        group_sizes_add_up(hash, files.drop_last(), files.last());
        assert(files[0].size * (files.len() - 1) >= 0) by (nonlinear_arith)
            requires
                files.len() > 0,
        ;
    }
    lemma_size_sum(files);
}

proof fn lemma_size_sum(files: Seq<FileView>)
    ensures
        size_sum(files) >= 0,
    decreases files.len(),
{
    if files.len() > 0 {
        lemma_size_sum(files.drop_last());
    }
}

/// Taking paths out of a group leaves exactly the files whose path is not
/// among them, in their order, and a group of one file or none is no
/// duplicate.
pub proof fn removals_leave_the_others(g: GroupView, gone: Set<Seq<char>>)
    ensures
        g.without(gone).files == g.files.filter(|f: FileView| !gone.contains(path_key(f.path))),
        g.without(gone).hash == g.hash,
        g.trivial() <==> g.files.len() < 2,
        g.files.len() > 0 ==> g.file_size() == g.files[0].size,
        g.files.len() == 0 ==> g.file_size() == 0,
{
    lemma_kept_filter(g.files, gone);
}

proof fn lemma_kept_filter(files: Seq<FileView>, gone: Set<Seq<char>>)
    ensures
        kept(files, gone) == files.filter(|f: FileView| !gone.contains(path_key(f.path))),
    decreases files.len(),
{
    reveal(Seq::filter);
    if files.len() > 0 {
        lemma_kept_filter(files.drop_last(), gone);
    }
}

} // verus!
