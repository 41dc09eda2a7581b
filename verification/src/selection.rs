//! Auto-select rules shared by all front ends.
//!
//! Every mode picks files to mark for deletion inside one group and never
//! marks every member. Applying a mode to a group first clears that group's
//! existing marks, so a survivor can never stay marked from an earlier
//! manual click.

use vstd::prelude::*;
use crate::duplicates::{group_views, DuplicateGroup, GroupView};
use crate::path_set::PathSet;
use crate::paths::{byte_len, byte_len_of, is_path_before, path_before};
use crate::scanner::{file_views, FileInfo, FileView};
use crate::suggestions::{best, keeper_is_best, score_of, SuggestionEngine};
use crate::text::{chars_of, is_text, lower, lower_char, trim, trim_chars, views};

verus! {

#[derive(Debug, Clone, Copy, PartialEq, Eq, Structural)]
pub enum SelectMode {
    /// Files whose deletion score is positive, keeper excluded.
    Suggested,
    /// Everything except the keeper chosen by the heuristics.
    AllButKeeper,
    /// Everything except the oldest file.
    AllButOldest,
    /// Everything except the newest file.
    AllButNewest,
    /// Everything except the file with the shortest path.
    AllButShortestPath,
    /// Everything except the file with the longest path.
    AllButLongestPath,
}

impl SelectMode {
    pub const ALL: [SelectMode; 6] = [
        SelectMode::Suggested,
        SelectMode::AllButKeeper,
        SelectMode::AllButOldest,
        SelectMode::AllButNewest,
        SelectMode::AllButShortestPath,
        SelectMode::AllButLongestPath,
    ];

    pub open spec fn key_text(self) -> Seq<char> {
        match self {
            SelectMode::Suggested => "suggested"@,
            SelectMode::AllButKeeper => "allButKeeper"@,
            SelectMode::AllButOldest => "allButOldest"@,
            SelectMode::AllButNewest => "allButNewest"@,
            SelectMode::AllButShortestPath => "allButShortestPath"@,
            SelectMode::AllButLongestPath => "allButLongestPath"@,
        }
    }

    pub open spec fn label_text(self) -> Seq<char> {
        match self {
            SelectMode::Suggested => "Mark suggested copies"@,
            SelectMode::AllButKeeper => "Mark all but keeper"@,
            SelectMode::AllButOldest => "Mark all but oldest"@,
            SelectMode::AllButNewest => "Mark all but newest"@,
            SelectMode::AllButShortestPath => "Mark all but shortest path"@,
            SelectMode::AllButLongestPath => "Mark all but longest path"@,
        }
    }

    pub open spec fn letter(self) -> char {
        match self {
            SelectMode::Suggested => 's',
            SelectMode::AllButKeeper => 'k',
            SelectMode::AllButOldest => 'o',
            SelectMode::AllButNewest => 'n',
            SelectMode::AllButShortestPath => 'h',
            SelectMode::AllButLongestPath => 'l',
        }
    }

    /// The mode that a text names.
    pub open spec fn named(s: Seq<char>) -> Option<SelectMode> {
        if s == "suggested"@ {
            Some(SelectMode::Suggested)
        } else if s == "allButKeeper"@ || s == "keeper"@ {
            Some(SelectMode::AllButKeeper)
        } else if s == "allButOldest"@ || s == "oldest"@ {
            Some(SelectMode::AllButOldest)
        } else if s == "allButNewest"@ || s == "newest"@ {
            Some(SelectMode::AllButNewest)
        } else if s == "allButShortestPath"@ || s == "allButShortest"@ || s == "shortest"@ {
            Some(SelectMode::AllButShortestPath)
        } else if s == "allButLongestPath"@ || s == "allButLongest"@ || s == "longest"@ {
            Some(SelectMode::AllButLongestPath)
        } else {
            None
        }
    }

    /// The mode that a letter stands for.
    pub open spec fn lettered(c: char) -> Option<SelectMode> {
        let l = lower(c);
        if l == 's' {
            Some(SelectMode::Suggested)
        } else if l == 'k' {
            Some(SelectMode::AllButKeeper)
        } else if l == 'o' {
            Some(SelectMode::AllButOldest)
        } else if l == 'n' {
            Some(SelectMode::AllButNewest)
        } else if l == 'h' {
            Some(SelectMode::AllButShortestPath)
        } else if l == 'l' {
            Some(SelectMode::AllButLongestPath)
        } else {
            None
        }
    }

    pub fn parse(s: &str) -> (r: Option<SelectMode>)
        ensures
            r == SelectMode::named(trim(s@)),
    {
        let t = trim_chars(&chars_of(s));
        if is_text(&t, "suggested") {
            Some(SelectMode::Suggested)
        } else if is_text(&t, "allButKeeper") || is_text(&t, "keeper") {
            Some(SelectMode::AllButKeeper)
        } else if is_text(&t, "allButOldest") || is_text(&t, "oldest") {
            Some(SelectMode::AllButOldest)
        } else if is_text(&t, "allButNewest") || is_text(&t, "newest") {
            Some(SelectMode::AllButNewest)
        } else if is_text(&t, "allButShortestPath") || is_text(&t, "allButShortest") || is_text(
            &t,
            "shortest",
        ) {
            Some(SelectMode::AllButShortestPath)
        } else if is_text(&t, "allButLongestPath") || is_text(&t, "allButLongest") || is_text(
            &t,
            "longest",
        ) {
            Some(SelectMode::AllButLongestPath)
        } else {
            None
        }
    }

    pub fn key(&self) -> (r: &'static str)
        ensures
            r@ == self.key_text(),
    {
        match self {
            SelectMode::Suggested => "suggested",
            SelectMode::AllButKeeper => "allButKeeper",
            SelectMode::AllButOldest => "allButOldest",
            SelectMode::AllButNewest => "allButNewest",
            SelectMode::AllButShortestPath => "allButShortestPath",
            SelectMode::AllButLongestPath => "allButLongestPath",
        }
    }

    pub fn label(&self) -> (r: &'static str)
        ensures
            r@ == self.label_text(),
    {
        match self {
            SelectMode::Suggested => "Mark suggested copies",
            SelectMode::AllButKeeper => "Mark all but keeper",
            SelectMode::AllButOldest => "Mark all but oldest",
            SelectMode::AllButNewest => "Mark all but newest",
            SelectMode::AllButShortestPath => "Mark all but shortest path",
            SelectMode::AllButLongestPath => "Mark all but longest path",
        }
    }

    /// Single-letter shortcut used by the mark menu.
    pub fn shortcut(&self) -> (r: char)
        ensures
            r == self.letter(),
    {
        match self {
            SelectMode::Suggested => 's',
            SelectMode::AllButKeeper => 'k',
            SelectMode::AllButOldest => 'o',
            SelectMode::AllButNewest => 'n',
            SelectMode::AllButShortestPath => 'h',
            SelectMode::AllButLongestPath => 'l',
        }
    }

    pub fn from_shortcut(c: char) -> (r: Option<SelectMode>)
        ensures
            r == SelectMode::lettered(c),
    {
        let l = lower_char(c);
        if l == 's' {
            Some(SelectMode::Suggested)
        } else if l == 'k' {
            Some(SelectMode::AllButKeeper)
        } else if l == 'o' {
            Some(SelectMode::AllButOldest)
        } else if l == 'n' {
            Some(SelectMode::AllButNewest)
        } else if l == 'h' {
            Some(SelectMode::AllButShortestPath)
        } else if l == 'l' {
            Some(SelectMode::AllButLongestPath)
        } else {
            None
        }
    }
}

/// Every mode is found again by its key and by its letter.
pub proof fn keys_and_letters_round_trip(mode: SelectMode)
    ensures
        SelectMode::named(trim(mode.key_text())) == Some(mode),
        SelectMode::lettered(mode.letter()) == Some(mode),
{
    reveal_strlit("suggested");
    reveal_strlit("allButKeeper");
    reveal_strlit("allButOldest");
    reveal_strlit("allButNewest");
    reveal_strlit("allButShortestPath");
    reveal_strlit("allButLongestPath");
    reveal_strlit("keeper");
    reveal_strlit("oldest");
    reveal_strlit("newest");
    reveal_strlit("allButShortest");
    reveal_strlit("shortest");
    reveal_strlit("allButLongest");
    reveal_strlit("longest");
    let s = mode.key_text();
    assert(trim(s) == s);
    assert("allButOldest"@[7] != "allButNewest"@[7]);
    assert("allButKeeper"@[6] != "allButOldest"@[6]);
    assert("allButKeeper"@[6] != "allButNewest"@[6]);
}

/// Is the file at `a` rather kept than the file at `b`, by the rule of a
/// mode that keeps one file by its age or by the length of its path?
pub open spec fn outlives(files: Seq<FileView>, mode: SelectMode, a: int, b: int) -> bool {
    let x = files[a];
    let y = files[b];
    match mode {
        SelectMode::AllButOldest => if x.modified != y.modified {
            x.modified.before(y.modified)
        } else {
            path_before(x.path, y.path)
        },
        SelectMode::AllButNewest => if x.modified != y.modified {
            y.modified.before(x.modified)
        } else {
            path_before(x.path, y.path)
        },
        SelectMode::AllButShortestPath => if byte_len_of(x.path) != byte_len_of(y.path) {
            byte_len_of(x.path) < byte_len_of(y.path)
        } else {
            path_before(x.path, y.path)
        },
        SelectMode::AllButLongestPath => if byte_len_of(x.path) != byte_len_of(y.path) {
            byte_len_of(x.path) > byte_len_of(y.path)
        } else {
            path_before(x.path, y.path)
        },
        _ => false,
    }
}

/// The file that such a mode keeps, among the first `n`.
pub open spec fn survivor(files: Seq<FileView>, mode: SelectMode, n: nat) -> int
    decreases n,
{
    if n <= 1 {
        0
    } else {
        let s = survivor(files, mode, (n - 1) as nat);
        if outlives(files, mode, n - 1, s) {
            n - 1
        } else {
            s
        }
    }
}

proof fn lemma_outlives(files: Seq<FileView>, mode: SelectMode, a: int, b: int, c: int)
    ensures
        outlives(files, mode, a, b) && outlives(files, mode, b, c) ==> outlives(files, mode, a, c),
        !outlives(files, mode, a, a),
{
    let x = files[a].path;
    let y = files[b].path;
    let z = files[c].path;
    crate::paths::path_order_is_total(x, y, z);
    crate::paths::path_order_is_total(y, z, x);
}

/// Nothing outlives the survivor.
pub proof fn survivor_is_not_outlived(files: Seq<FileView>, mode: SelectMode, n: nat)
    requires
        0 < n <= files.len(),
    ensures
        0 <= survivor(files, mode, n) < n,
        forall|i: int| 0 <= i < n ==> !#[trigger] outlives(files, mode, i, survivor(files, mode, n)),
    decreases n,
{
    if n > 1 {
        survivor_is_not_outlived(files, mode, (n - 1) as nat);
        let s = survivor(files, mode, (n - 1) as nat);
        assert forall|i: int| 0 <= i < n implies !#[trigger] outlives(files, mode, i, survivor(files, mode, n)) by {
            lemma_outlives(files, mode, i, n - 1, s);
            lemma_outlives(files, mode, n - 1, n - 1, s);
            if i < n - 1 {
                assert(!outlives(files, mode, i, s));
            }
        }
    } else {
        crate::paths::path_order_is_total(files[0].path, files[0].path, files[0].path);
    }
}

/// Does the mode mark the file at `i`?
pub open spec fn marks_file(files: Seq<FileView>, mode: SelectMode, i: int) -> bool {
    match mode {
        SelectMode::Suggested => i != best(files, files.len()) && score_of(files, i) > 0,
        SelectMode::AllButKeeper => i != best(files, files.len()),
        _ => i != survivor(files, mode, files.len()),
    }
}

/// The files among the first `n` that the mode marks.
pub open spec fn marked_upto(files: Seq<FileView>, mode: SelectMode, n: nat) -> Seq<usize>
    decreases n,
{
    if n == 0 {
        seq![]
    } else {
        let head = marked_upto(files, mode, (n - 1) as nat);
        if marks_file(files, mode, n - 1) {
            head.push((n - 1) as usize)
        } else {
            head
        }
    }
}

/// The files that the mode marks in a group, in their order.
pub open spec fn marked(files: Seq<FileView>, mode: SelectMode) -> Seq<usize> {
    if files.len() < 2 {
        seq![]
    } else {
        marked_upto(files, mode, files.len())
    }
}

proof fn lemma_marked_upto(files: Seq<FileView>, mode: SelectMode, n: nat)
    requires
        n <= files.len() <= usize::MAX,
    ensures
        marked_upto(files, mode, n).len() <= n,
        forall|k: int|
            0 <= k < marked_upto(files, mode, n).len() ==> (#[trigger] marked_upto(files, mode, n)[k]) < n
                && marks_file(files, mode, marked_upto(files, mode, n)[k] as int),
        forall|j: int, k: int|
            0 <= j < k < marked_upto(files, mode, n).len() ==> (#[trigger] marked_upto(files, mode, n)[j]) < (
            #[trigger] marked_upto(files, mode, n)[k]),
        forall|i: int|
            0 <= i < n && marks_file(files, mode, i) ==> #[trigger] marked_upto(files, mode, n).contains(
                i as usize,
            ),
        forall|i: int| 0 <= i < n && !(#[trigger] marks_file(files, mode, i)) ==> marked_upto(files, mode, n).len() < n,
    decreases n,
{
    if n > 0 {
        lemma_marked_upto(files, mode, (n - 1) as nat);
        let head = marked_upto(files, mode, (n - 1) as nat);
        let all = marked_upto(files, mode, n);
        assert forall|i: int| 0 <= i < n && marks_file(files, mode, i) implies #[trigger] all.contains(i as usize) by {
            if i < n - 1 {
                assert(head.contains(i as usize));
                let k = choose|k: int| 0 <= k < head.len() && head[k] == i as usize;
                assert(all[k] == i as usize);
            } else {
                assert(all[head.len() as int] == i as usize);
            }
        }
    }
}

/// Never every copy: whatever the mode, a group that has files keeps one
/// that is not marked. What is marked is marked once and in order.
pub proof fn some_copy_stays_unmarked(files: Seq<FileView>, mode: SelectMode)
    requires
        0 < files.len() <= usize::MAX,
    ensures
        marked(files, mode).len() < files.len(),
        exists|i: int| 0 <= i < files.len() && !#[trigger] marked(files, mode).contains(i as usize),
        forall|k: int| 0 <= k < marked(files, mode).len() ==> (#[trigger] marked(files, mode)[k]) < files.len(),
        forall|j: int, k: int|
            0 <= j < k < marked(files, mode).len() ==> (#[trigger] marked(files, mode)[j]) < (#[trigger] marked(
                files,
                mode,
            )[k]),
{
    if files.len() >= 2 {
        keeper_is_best(files, files.len());
        survivor_is_not_outlived(files, mode, files.len());
        lemma_marked_upto(files, mode, files.len());
        let spared = match mode {
            SelectMode::Suggested | SelectMode::AllButKeeper => best(files, files.len()),
            _ => survivor(files, mode, files.len()),
        };
        assert(!marks_file(files, mode, spared));
        let all = marked(files, mode);
        if all.contains(spared as usize) {
            let k = choose|k: int| 0 <= k < all.len() && all[k] == spared as usize;
            assert(marks_file(files, mode, all[k] as int));
        }
        assert(!marked(files, mode).contains(spared as usize));
    } else {
        assert(!marked(files, mode).contains(0int as usize));
    }
}

fn outlives_other(files: &Vec<FileInfo>, mode: SelectMode, a: usize, b: usize) -> (r: bool)
    requires
        a < files@.len(),
        b < files@.len(),
    ensures
        r == outlives(file_views(files@), mode, a as int, b as int),
{
    let ghost all = file_views(files@);
    assert(all[a as int] == files@[a as int]@);
    assert(all[b as int] == files@[b as int]@);
    let x = &files[a];
    let y = &files[b];
    match mode {
        SelectMode::AllButOldest => if x.modified != y.modified {
            x.modified.is_before(&y.modified)
        } else {
            is_path_before(x.path.as_str(), y.path.as_str())
        },
        SelectMode::AllButNewest => if x.modified != y.modified {
            y.modified.is_before(&x.modified)
        } else {
            is_path_before(x.path.as_str(), y.path.as_str())
        },
        SelectMode::AllButShortestPath => {
            let m = byte_len(x.path.as_str());
            let n = byte_len(y.path.as_str());
            if m != n {
                m < n
            } else {
                is_path_before(x.path.as_str(), y.path.as_str())
            }
        },
        SelectMode::AllButLongestPath => {
            let m = byte_len(x.path.as_str());
            let n = byte_len(y.path.as_str());
            if m != n {
                m > n
            } else {
                is_path_before(x.path.as_str(), y.path.as_str())
            }
        },
        _ => false,
    }
}

fn find_survivor(files: &Vec<FileInfo>, mode: SelectMode) -> (r: usize)
    requires
        files@.len() > 0,
    ensures
        r == survivor(file_views(files@), mode, files@.len()),
{
    let n = files.len();
    let mut s: usize = 0;
    for i in 1..n
        invariant
            n == files@.len(),
            s < i,
            s == survivor(file_views(files@), mode, i as nat),
    {
        if outlives_other(files, mode, i, s) {
            s = i;
        }
    }
    s
}

/// Indices of the files in `group` that `mode` would mark. Never all of them.
pub fn select_for_deletion(group: &DuplicateGroup, mode: SelectMode) -> (r: Vec<usize>)
    ensures
        r@ == marked(group@.files, mode),
        group@.files.len() > 0 ==> r@.len() < group@.files.len(),
        forall|k: int| 0 <= k < r@.len() ==> #[trigger] r@[k] < group@.files.len(),
{
    let n = group.files.len();
    let ghost all = group@.files;
    let mut picked: Vec<usize> = Vec::new();
    proof {
        if n > 0 {
            some_copy_stays_unmarked(all, mode);
        }
    }
    if n < 2 {
        assert(picked@ =~= marked(all, mode));
        return picked;
    }
    let by_score = match mode {
        SelectMode::Suggested | SelectMode::AllButKeeper => true,
        _ => false,
    };
    if by_score {
        let analysis = SuggestionEngine::analyze(&group.files);
        let keeper = match analysis.keeper {
            Some(k) => k,
            None => 0,
        };
        for i in 0..n
            invariant
                n == group.files@.len(),
                all == file_views(group.files@),
                mode == SelectMode::Suggested || mode == SelectMode::AllButKeeper,
                keeper == best(all, n as nat),
                analysis@.files.len() == n,
                forall|k: int| 0 <= k < n ==> (#[trigger] analysis@.files[k]).score == score_of(all, k),
                picked@ == marked_upto(all, mode, i as nat),
        {
            assert(analysis@.files[i as int] == analysis.files@[i as int]@);
            let wanted = match mode {
                SelectMode::Suggested => analysis.files[i].score > 0,
                _ => true,
            };
            if i != keeper && wanted {
                picked.push(i);
            }
        }
    } else {
        let s = find_survivor(&group.files, mode);
        for i in 0..n
            invariant
                n == group.files@.len(),
                all == file_views(group.files@),
                mode != SelectMode::Suggested,
                mode != SelectMode::AllButKeeper,
                s == survivor(all, mode, n as nat),
                picked@ == marked_upto(all, mode, i as nat),
        {
            if i != s {
                picked.push(i);
            }
        }
    }
    picked
}

/// Does one of these files have the path with this key?
pub open spec fn has_path(files: Seq<FileView>, p: Seq<char>) -> bool {
    exists|i: int| 0 <= i < files.len() && (#[trigger] files[i]).key() == p
}

/// Is this the key of one of the files that the mode marks?
pub open spec fn picks_path(files: Seq<FileView>, mode: SelectMode, p: Seq<char>) -> bool {
    exists|k: int| 0 <= k < marked(files, mode).len() && files[#[trigger] marked(files, mode)[k] as int].key() == p
}

/// The marks once the mode was applied to a group: its files are marked by
/// the mode alone, all other marks stay.
pub open spec fn mode_marks(marks: Set<Seq<char>>, files: Seq<FileView>, mode: SelectMode) -> Set<Seq<char>> {
    Set::new(|p: Seq<char>| (marks.contains(p) && !has_path(files, p)) || picks_path(files, mode, p))
}

/// The marks without those of a group.
pub open spec fn cleared(marks: Set<Seq<char>>, files: Seq<FileView>) -> Set<Seq<char>> {
    Set::new(|p: Seq<char>| marks.contains(p) && !has_path(files, p))
}

/// Apply `mode` to `group`: clear the group's existing marks, then mark the
/// selected files. Returns how many files are now marked in the group.
pub fn apply_mode(marks: &mut PathSet, group: &DuplicateGroup, mode: SelectMode) -> (r: usize)
    ensures
        final(marks)@ == mode_marks(old(marks)@, group@.files, mode),
        r == marked(group@.files, mode).len(),
{
    let ghost all = group@.files;
    clear_marks(marks, group);
    let ghost rest = marks@;
    let picked = select_for_deletion(group, mode);
    let n = picked.len();
    for k in 0..n
        invariant
            n == picked@.len(),
            all == file_views(group.files@),
            picked@ == marked(all, mode),
            forall|j: int| 0 <= j < n ==> (#[trigger] picked@[j]) < all.len(),
            forall|p: Seq<char>| #[trigger]
                marks@.contains(p) <==> rest.contains(p) || exists|j: int|
                    0 <= j < k && all[#[trigger] picked@[j] as int].key() == p,
    {
        let i = picked[k];
        let ghost before = marks@;
        assert(all[i as int] == group.files@[i as int]@);
        marks.insert(group.files[i].path.clone());
        assert forall|p: Seq<char>| #[trigger]
            marks@.contains(p) <==> rest.contains(p) || exists|j: int|
                0 <= j < k + 1 && all[#[trigger] picked@[j] as int].key() == p by {
            assert(marks@.contains(p) <==> before.contains(p) || p == all[i as int].key());
            if p == all[i as int].key() {
                assert(all[picked@[k as int] as int].key() == p);
            }
        }
    }
    assert(marks@ =~= mode_marks(old(marks)@, all, mode)) by {
        assert forall|p: Seq<char>| #[trigger] marks@.contains(p) <==> mode_marks(old(marks)@, all, mode).contains(p) by {
            assert(marks@.contains(p) <==> rest.contains(p) || exists|j: int|
                0 <= j < n && all[#[trigger] picked@[j] as int].key() == p);
            if picks_path(all, mode, p) {
                let k = choose|k: int|
                    0 <= k < marked(all, mode).len() && all[#[trigger] marked(all, mode)[k] as int].key() == p;
                assert(all[picked@[k] as int].key() == p);
            }
        }
    }
    n
}

/// A mode owns the marks of the group it is applied to: whatever was marked
/// there before, a file of the group is marked now exactly if the mode marks
/// it. Files of other groups keep their marks, and one file of the group
/// stays unmarked.
pub proof fn mode_owns_the_groups_marks(marks: Set<Seq<char>>, files: Seq<FileView>, mode: SelectMode)
    requires
        0 < files.len() <= usize::MAX,
        forall|a: int, b: int| 0 <= a < b < files.len() ==> (#[trigger] files[a]).key() != (#[trigger] files[b]).key(),
    ensures
        forall|i: int|
            0 <= i < files.len() ==> (mode_marks(marks, files, mode).contains((#[trigger] files[i]).key())
                <==> marked(files, mode).contains(i as usize)),
        forall|p: Seq<char>|
            !has_path(files, p) ==> (#[trigger] mode_marks(marks, files, mode).contains(p) <==> marks.contains(p)),
        exists|i: int|
            0 <= i < files.len() && !mode_marks(marks, files, mode).contains((#[trigger] files[i]).key()),
{
    some_copy_stays_unmarked(files, mode);
    let all = marked(files, mode);
    assert forall|i: int| 0 <= i < files.len() implies (mode_marks(marks, files, mode).contains(
        (#[trigger] files[i]).key(),
    ) <==> all.contains(i as usize)) by {
        assert(has_path(files, files[i].key()));
        if all.contains(i as usize) {
            let k = choose|k: int| 0 <= k < all.len() && all[k] == i as usize;
            assert(files[all[k] as int].key() == files[i].key());
        }
        if picks_path(files, mode, files[i].key()) {
            let k = choose|k: int|
                0 <= k < all.len() && files[#[trigger] all[k] as int].key() == files[i].key();
            let j = all[k] as int;
            assert(j < files.len());
            if j < i {
                assert(files[j].key() != files[i].key());
            } else if i < j {
                assert(files[i].key() != files[j].key());
            }
            assert(all[k] == i as usize);
        }
    }
    assert forall|p: Seq<char>| !has_path(files, p) implies (#[trigger] mode_marks(marks, files, mode).contains(p)
        <==> marks.contains(p)) by {
        if picks_path(files, mode, p) {
            let k = choose|k: int| 0 <= k < all.len() && files[#[trigger] all[k] as int].key() == p;
            assert(files[all[k] as int].key() == p);
        }
    }
    let spared = choose|i: int| 0 <= i < files.len() && !#[trigger] all.contains(i as usize);
    assert(!mode_marks(marks, files, mode).contains(files[spared].key()));
}

/// Clears every mark in the group.
pub fn clear_marks(marks: &mut PathSet, group: &DuplicateGroup)
    ensures
        final(marks)@ == cleared(old(marks)@, group@.files),
{
    let ghost all = group@.files;
    let n = group.files.len();
    for i in 0..n
        invariant
            n == group.files@.len(),
            all == file_views(group.files@),
            forall|p: Seq<char>| #[trigger]
                marks@.contains(p) <==> old(marks)@.contains(p) && !has_path(all.take(i as int), p),
    {
        let ghost before = marks@;
        assert(all[i as int] == group.files@[i as int]@);
        marks.remove(group.files[i].path.as_str());
        assert forall|p: Seq<char>| #[trigger]
            marks@.contains(p) <==> old(marks)@.contains(p) && !has_path(all.take(i + 1), p) by {
            assert(marks@.contains(p) <==> before.contains(p) && p != all[i as int].key());
            let head = all.take(i + 1);
            assert(head[i as int] == all[i as int]);
            if has_path(all.take(i as int), p) {
                let k = choose|k: int| 0 <= k < i && (#[trigger] all.take(i as int)[k]).key() == p;
                assert(head[k].key() == p);
            }
            if has_path(head, p) {
                let k = choose|k: int| 0 <= k < head.len() && (#[trigger] head[k]).key() == p;
                if k < i {
                    assert(all.take(i as int)[k].key() == p);
                }
            }
        }
    }
    assert(all.take(n as int) =~= all);
    assert(marks@ =~= cleared(old(marks)@, all));
}

/// The paths at these places.
pub open spec fn paths_at(files: Seq<FileView>, at: Seq<usize>) -> Seq<Seq<char>> {
    Seq::new(at.len(), |k: int| files[at[k] as int].path)
}

/// The paths the mode marks in all these groups, one group after the other.
pub open spec fn mode_paths(groups: Seq<GroupView>, mode: SelectMode) -> Seq<Seq<char>>
    decreases groups.len(),
{
    if groups.len() == 0 {
        seq![]
    } else {
        mode_paths(groups.drop_last(), mode) + paths_at(
            groups.last().files,
            marked(groups.last().files, mode),
        )
    }
}

/// Paths `mode` would mark across `groups` (no mutation).
pub fn paths_for_mode(groups: &Vec<DuplicateGroup>, mode: SelectMode) -> (r: Vec<String>)
    ensures
        views(r@) == mode_paths(group_views(groups@), mode),
{
    let mut out: Vec<String> = Vec::new();
    let n = groups.len();
    let ghost gs = group_views(groups@);
    assert(views(out@) =~= mode_paths(gs.take(0), mode));
    for g in 0..n
        invariant
            n == groups@.len(),
            gs == group_views(groups@),
            views(out@) == mode_paths(gs.take(g as int), mode),
    {
        let ghost before = views(out@);
        assert(gs.take(g + 1).drop_last() =~= gs.take(g as int));
        assert(gs.take(g + 1).last() == groups@[g as int]@);
        let group = &groups[g];
        let picked = select_for_deletion(group, mode);
        let ghost paths = paths_at(group@.files, picked@);
        let m = picked.len();
        assert(before + paths.take(0) =~= before);
        for k in 0..m
            invariant
                m == picked@.len(),
                paths == paths_at(group@.files, picked@),
                forall|j: int| 0 <= j < m ==> (#[trigger] picked@[j]) < group@.files.len(),
                views(out@) == before + paths.take(k as int),
        {
            let ghost inner = views(out@);
            let i = picked[k];
            assert(i < group.files@.len());
            assert(group@.files[i as int] == group.files@[i as int]@);
            out.push(group.files[i].path.clone());
            assert(views(out@) =~= inner.push(paths[k as int]));
            assert(before + paths.take(k + 1) =~= (before + paths.take(k as int)).push(paths[k as int]));
        }
        assert(paths.take(m as int) =~= paths);
    }
    assert(gs.take(n as int) =~= gs);
    out
}

// ----- what the rules leave ------------------------------------------------

proof fn lemma_marked_exactly(files: Seq<FileView>, mode: SelectMode, i: int)
    requires
        2 <= files.len() <= usize::MAX,
        0 <= i < files.len(),
    ensures
        marked(files, mode).contains(i as usize) <==> marks_file(files, mode, i),
{
    lemma_marked_upto(files, mode, files.len());
    let all = marked(files, mode);
    if all.contains(i as usize) {
        let k = choose|k: int| 0 <= k < all.len() && all[k] == i as usize;
        assert(marks_file(files, mode, all[k] as int));
    }
}

/// Of a group of two files or more, the rules by age and by length leave one
/// file unmarked: no file is older than the one that is left as the oldest,
/// none newer than the newest, none has a path of fewer bytes than the
/// shortest or of more bytes than the longest.
pub proof fn rules_leave_what_they_say(files: Seq<FileView>, mode: SelectMode, k: int, i: int)
    requires
        2 <= files.len() <= usize::MAX,
        0 <= k < files.len(),
        0 <= i < files.len(),
        !marked(files, mode).contains(k as usize),
    ensures
        mode is AllButOldest ==> files[k].modified.secs < files[i].modified.secs || (files[k].modified.secs
            == files[i].modified.secs && files[k].modified.nanos <= files[i].modified.nanos),
        mode is AllButNewest ==> files[k].modified.secs > files[i].modified.secs || (files[k].modified.secs
            == files[i].modified.secs && files[k].modified.nanos >= files[i].modified.nanos),
        mode is AllButShortestPath ==> vstd::utf8::encode_utf8(files[k].path).len() <= vstd::utf8::encode_utf8(
            files[i].path,
        ).len(),
        mode is AllButLongestPath ==> vstd::utf8::encode_utf8(files[k].path).len() >= vstd::utf8::encode_utf8(
            files[i].path,
        ).len(),
        i != k && !(mode is Suggested) ==> marked(files, mode).contains(i as usize),
{
    lemma_marked_exactly(files, mode, k);
    lemma_marked_exactly(files, mode, i);
    survivor_is_not_outlived(files, mode, files.len());
    keeper_is_best(files, files.len());
    if !(mode is Suggested || mode is AllButKeeper) {
        assert(k == survivor(files, mode, files.len()));
        assert(!outlives(files, mode, i, k));
    }
}

/// Of files that the rule holds for equally, the one whose path comes first
/// is left.
pub proof fn ties_go_by_path(files: Seq<FileView>, mode: SelectMode, k: int, i: int)
    requires
        2 <= files.len() <= usize::MAX,
        0 <= k < files.len(),
        0 <= i < files.len(),
        !marked(files, mode).contains(k as usize),
        mode is AllButOldest || mode is AllButNewest ==> files[k].modified == files[i].modified,
        mode is AllButShortestPath || mode is AllButLongestPath ==> vstd::utf8::encode_utf8(files[k].path).len()
            == vstd::utf8::encode_utf8(files[i].path).len(),
        !(mode is Suggested) && !(mode is AllButKeeper),
    ensures
        !path_before(files[i].path, files[k].path),
{
    lemma_marked_exactly(files, mode, k);
    survivor_is_not_outlived(files, mode, files.len());
    assert(k == survivor(files, mode, files.len()));
    assert(!outlives(files, mode, i, k));
}

/// The rules by score leave the keeper of the analysis: the one marks every
/// other file, the other those of them whose score is above 0.
pub proof fn score_rules_follow_the_analysis(files: Seq<FileView>, i: int)
    requires
        2 <= files.len() <= usize::MAX,
        0 <= i < files.len(),
    ensures
        marked(files, SelectMode::AllButKeeper).contains(i as usize) <==> crate::suggestions::analysis_of(files).keeper
            != Some(i as usize),
        marked(files, SelectMode::Suggested).contains(i as usize) <==> crate::suggestions::analysis_of(files).keeper
            != Some(i as usize) && crate::suggestions::analysis_of(files).files[i].score > 0,
{
    lemma_marked_exactly(files, SelectMode::AllButKeeper, i);
    lemma_marked_exactly(files, SelectMode::Suggested, i);
    keeper_is_best(files, files.len());
    crate::suggestions::scores_add_up(files, i);
}

/// A group of one file, or none, has nothing to mark.
pub proof fn lone_files_are_not_marked(files: Seq<FileView>, mode: SelectMode)
    requires
        files.len() <= 1,
    ensures
        marked(files, mode).len() == 0,
{
}

/// Clearing a group takes the marks of its files and no other; the mode's
/// paths are those of the files it marks, group by group.
pub proof fn clearing_takes_the_groups_marks(marks: Set<Seq<char>>, files: Seq<FileView>, f: FileView, p: Seq<char>)
    requires
        files.contains(f),
    ensures
        !cleared(marks, files).contains(f.key()),
        cleared(marks, files).contains(p) ==> marks.contains(p),
        marks.contains(p) && (forall|x: FileView| files.contains(x) ==> #[trigger] x.key() != p) ==> cleared(
            marks,
            files,
        ).contains(p),
{
    let k = choose|k: int| 0 <= k < files.len() && files[k] == f;
    assert(files[k].key() == f.key());
    assert(has_path(files, f.key()));
    if has_path(files, p) {
        let j = choose|j: int| 0 <= j < files.len() && (#[trigger] files[j]).key() == p;
        assert(files.contains(files[j]));
        assert(files[j].key() == p);
    }
}

/// What a mode marks over several groups is what it marks in each, one group
/// after the other.
pub proof fn marked_paths_add_up(groups: Seq<GroupView>, g: GroupView, mode: SelectMode, k: int)
    requires
        0 <= k < marked(g.files, mode).len(),
    ensures
        mode_paths(seq![], mode).len() == 0,
        mode_paths(groups.push(g), mode).len() == mode_paths(groups, mode).len() + marked(g.files, mode).len(),
        mode_paths(groups, mode).is_prefix_of(mode_paths(groups.push(g), mode)),
        mode_paths(groups.push(g), mode)[mode_paths(groups, mode).len() + k] == g.files[marked(
            g.files,
            mode,
        )[k] as int].path,
{
    let all = groups.push(g);
    assert(all.drop_last() =~= groups);
    let head = mode_paths(groups, mode);
    assert(mode_paths(all, mode).subrange(0, head.len() as int) =~= head);
}

/// The words, labels and letters of the rules.
pub proof fn rules_have_their_names(c: char)
    ensures
        SelectMode::Suggested.key_text() == "suggested"@ && SelectMode::Suggested.label_text()
            == "Mark suggested copies"@ && SelectMode::Suggested.letter() == 's',
        SelectMode::AllButKeeper.key_text() == "allButKeeper"@ && SelectMode::AllButKeeper.label_text()
            == "Mark all but keeper"@ && SelectMode::AllButKeeper.letter() == 'k',
        SelectMode::AllButOldest.key_text() == "allButOldest"@ && SelectMode::AllButOldest.label_text()
            == "Mark all but oldest"@ && SelectMode::AllButOldest.letter() == 'o',
        SelectMode::AllButNewest.key_text() == "allButNewest"@ && SelectMode::AllButNewest.label_text()
            == "Mark all but newest"@ && SelectMode::AllButNewest.letter() == 'n',
        SelectMode::AllButShortestPath.key_text() == "allButShortestPath"@
            && SelectMode::AllButShortestPath.label_text() == "Mark all but shortest path"@
            && SelectMode::AllButShortestPath.letter() == 'h',
        SelectMode::AllButLongestPath.key_text() == "allButLongestPath"@
            && SelectMode::AllButLongestPath.label_text() == "Mark all but longest path"@
            && SelectMode::AllButLongestPath.letter() == 'l',
        SelectMode::lettered(c) == Some(SelectMode::Suggested) <==> c == 's' || c == 'S',
        SelectMode::lettered(c) == Some(SelectMode::AllButKeeper) <==> c == 'k' || c == 'K',
        SelectMode::lettered(c) == Some(SelectMode::AllButOldest) <==> c == 'o' || c == 'O',
        SelectMode::lettered(c) == Some(SelectMode::AllButNewest) <==> c == 'n' || c == 'N',
        SelectMode::lettered(c) == Some(SelectMode::AllButShortestPath) <==> c == 'h' || c == 'H',
        SelectMode::lettered(c) == Some(SelectMode::AllButLongestPath) <==> c == 'l' || c == 'L',
{
}

/// A rule answers to its word and to the short ones, and to no other.
pub proof fn rules_answer_to_short_words(s: Seq<char>)
    ensures
        SelectMode::named(s) == Some(SelectMode::Suggested) <==> s == "suggested"@,
        SelectMode::named(s) == Some(SelectMode::AllButKeeper) <==> s == "allButKeeper"@ || s == "keeper"@,
        SelectMode::named(s) == Some(SelectMode::AllButOldest) <==> s == "allButOldest"@ || s == "oldest"@,
        SelectMode::named(s) == Some(SelectMode::AllButNewest) <==> s == "allButNewest"@ || s == "newest"@,
        SelectMode::named(s) == Some(SelectMode::AllButShortestPath) <==> s == "allButShortestPath"@ || s
            == "allButShortest"@ || s == "shortest"@,
        SelectMode::named(s) == Some(SelectMode::AllButLongestPath) <==> s == "allButLongestPath"@ || s
            == "allButLongest"@ || s == "longest"@,
{
    reveal_strlit("suggested");
    reveal_strlit("allButKeeper");
    reveal_strlit("keeper");
    reveal_strlit("allButOldest");
    reveal_strlit("oldest");
    reveal_strlit("allButNewest");
    reveal_strlit("newest");
    reveal_strlit("allButShortestPath");
    reveal_strlit("allButShortest");
    reveal_strlit("shortest");
    reveal_strlit("allButLongestPath");
    reveal_strlit("allButLongest");
    reveal_strlit("longest");
    assert("suggested"@[0] == 's');
    assert("allButKeeper"@[0] == 'a' && "allButKeeper"@[6] == 'K');
    assert("keeper"@[0] == 'k');
    assert("allButOldest"@[0] == 'a' && "allButOldest"@[6] == 'O');
    assert("oldest"@[0] == 'o');
    assert("allButNewest"@[0] == 'a' && "allButNewest"@[6] == 'N');
    assert("newest"@[0] == 'n');
    assert("allButShortestPath"@[0] == 'a' && "allButShortestPath"@[6] == 'S');
    assert("allButShortest"@[0] == 'a' && "allButShortest"@[6] == 'S');
    assert("shortest"@[0] == 's' && "shortest"@[1] == 'h' && "suggested"@[1] == 'u');
    assert("allButLongestPath"@[0] == 'a' && "allButLongestPath"@[6] == 'L');
    assert("allButLongest"@[0] == 'a' && "allButLongest"@[6] == 'L');
    assert("longest"@[0] == 'l');
}

} // verus!
