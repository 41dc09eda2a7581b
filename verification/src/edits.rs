//! Edits a front end makes to files while a scan is still running, and the
//! rename operation all front ends share.
//!
//! The engine keeps sending group snapshots that predate the user's
//! deletions and renames. `ScanEdits` replays those edits onto every
//! snapshot so a deleted file never reappears and a renamed file keeps its
//! new name.

use vstd::prelude::*;
use crate::duplicates::{group_views, kept, lemma_kept, DuplicateGroup, GroupView};
use crate::finder::{drop_trivial, nontrivial};
use crate::path_set::PathSet;
use crate::paths::{
    a_name_lies_in_its_folder, byte_len, byte_len_of, component_rank, components, components_of, file_name_of,
    is_plain_name, join, join_of, keys_stand_for_components, parent, parent_of, path_key, path_keys, pieces,
    same_path,
};
use crate::scanner::{file_views, FileInfo, FileView};
use crate::selection::has_path;
use crate::text::{chars_of, is_text, trim, trim_chars, views};

verus! {

/// A path as the engine knows it, and the path it has now.
pub struct Renamed {
    pub original: String,
    pub current: String,
}

/// The keys of the paths as the engine knows them, and the paths they have
/// now.
pub open spec fn renamed_views(v: Seq<Renamed>) -> Seq<(Seq<char>, Seq<char>)> {
    Seq::new(v.len(), |i: int| (path_key(v[i].original@), v[i].current@))
}

pub struct ScanEdits {
    /// By the paths the engine knows.
    deleted: PathSet,
    /// Each original path once.
    renamed: Vec<Renamed>,
}

/// What edits were made: the keys of the paths that the engine knows the
/// deleted files by; and of the renamed files the key of the path the engine
/// knows, with the path they have now.
pub struct EditsView {
    pub deleted: Set<Seq<char>>,
    pub renamed: Seq<(Seq<char>, Seq<char>)>,
}

impl View for ScanEdits {
    type V = EditsView;

    closed spec fn view(&self) -> EditsView {
        EditsView { deleted: self.deleted@, renamed: renamed_views(self.renamed@) }
    }
}

/// The name that was given to the file the engine knows by the key `p`.
pub open spec fn name_of(renamed: Seq<(Seq<char>, Seq<char>)>, p: Seq<char>) -> Option<Seq<char>>
    decreases renamed.len(),
{
    if renamed.len() == 0 {
        None
    } else if renamed[0].0 == p {
        Some(renamed[0].1)
    } else {
        name_of(renamed.drop_first(), p)
    }
}

/// The key of the path that the file the engine knows by the key `p` has now.
pub open spec fn current_of(renamed: Seq<(Seq<char>, Seq<char>)>, p: Seq<char>) -> Seq<char>
    decreases renamed.len(),
{
    if renamed.len() == 0 {
        p
    } else if renamed[0].0 == p {
        path_key(renamed[0].1)
    } else {
        current_of(renamed.drop_first(), p)
    }
}

/// The key that the engine knows a file by whose path has the key `p` now.
pub open spec fn original_of(renamed: Seq<(Seq<char>, Seq<char>)>, p: Seq<char>) -> Seq<char>
    decreases renamed.len(),
{
    if renamed.len() == 0 {
        p
    } else if path_key(renamed[0].1) == p {
        renamed[0].0
    } else {
        original_of(renamed.drop_first(), p)
    }
}

/// The renames with the file known by `key` now called `new`.
pub open spec fn with_name(renamed: Seq<(Seq<char>, Seq<char>)>, key: Seq<char>, new: Seq<char>) -> Seq<
    (Seq<char>, Seq<char>),
>
    decreases renamed.len(),
{
    if renamed.len() == 0 {
        seq![(key, new)]
    } else if renamed[0].0 == key {
        seq![(key, new)] + renamed.drop_first()
    } else {
        seq![renamed[0]] + with_name(renamed.drop_first(), key, new)
    }
}

/// Was a file renamed that the engine knows by this key?
pub open spec fn has_original(renamed: Seq<(Seq<char>, Seq<char>)>, p: Seq<char>) -> bool {
    exists|i: int| 0 <= i < renamed.len() && (#[trigger] renamed[i]).0 == p
}

/// The renames without those of the files known by these keys.
pub open spec fn without_originals(renamed: Seq<(Seq<char>, Seq<char>)>, gone: Set<Seq<char>>) -> Seq<
    (Seq<char>, Seq<char>),
>
    decreases renamed.len(),
{
    if renamed.len() == 0 {
        seq![]
    } else {
        let rest = without_originals(renamed.drop_first(), gone);
        if gone.contains(renamed[0].0) {
            rest
        } else {
            seq![renamed[0]] + rest
        }
    }
}

impl EditsView {
    pub open spec fn nothing(self) -> bool {
        self.deleted =~= Set::<Seq<char>>::empty() && self.renamed.len() == 0
    }

    /// The renames once the file that is now called `old` is called `new`.
    pub open spec fn rename(self, old_path: Seq<char>, new_path: Seq<char>) -> EditsView {
        EditsView {
            renamed: with_name(self.renamed, original_of(self.renamed, path_key(old_path)), new_path),
            ..self
        }
    }

    /// The keys that the engine knows, or may come to know, those files by
    /// whose paths have these keys now.
    pub open spec fn engine_paths(self, paths: Set<Seq<char>>) -> Set<Seq<char>> {
        Set::new(|q: Seq<char>| paths.contains(current_of(self.renamed, q)))
    }

    /// The edits once the files were deleted whose paths have these keys now.
    pub open spec fn delete(self, paths: Set<Seq<char>>) -> EditsView {
        let known = self.engine_paths(paths);
        EditsView {
            deleted: self.deleted.union(known),
            renamed: without_originals(self.renamed, known),
        }
    }

    /// The file under the name it has now.
    pub open spec fn current(self, f: FileView) -> FileView {
        match name_of(self.renamed, f.key()) {
            Some(name) => FileView { path: name, ..f },
            None => f,
        }
    }

    /// The group without the deleted files, and with the others under the
    /// names they have now.
    pub open spec fn edit(self, g: GroupView) -> GroupView {
        let left = if self.deleted =~= Set::<Seq<char>>::empty() {
            g
        } else {
            g.without(self.deleted)
        };
        GroupView { files: Seq::new(left.files.len(), |i: int| self.current(left.files[i])), ..left }
    }

    pub open spec fn edit_all(self, groups: Seq<GroupView>) -> Seq<GroupView> {
        nontrivial(Seq::new(groups.len(), |i: int| self.edit(groups[i])))
    }

    /// No file that is left has the path with this key, whatever the engine
    /// reports.
    pub open spec fn hides(self, p: Seq<char>) -> bool {
        forall|q: Seq<char>| #[trigger] current_of(self.renamed, q) == p ==> self.deleted.contains(q)
    }
}

/// The file that was renamed is known by the path the engine reported first,
/// however often it was renamed, and has the last name it was given in every
/// snapshot.
pub proof fn renames_chain(edits: EditsView, old_path: Seq<char>, new_path: Seq<char>)
    ensures
        current_of(edits.rename(old_path, new_path).renamed, original_of(edits.renamed, path_key(old_path)))
            == path_key(new_path),
        forall|f: FileView|
            f.key() == original_of(edits.renamed, path_key(old_path)) ==> #[trigger] edits.rename(
                old_path,
                new_path,
            ).current(f) == (FileView { path: new_path, ..f }),
{
    lemma_with_name(edits.renamed, original_of(edits.renamed, path_key(old_path)), new_path);
}

proof fn lemma_with_name(renamed: Seq<(Seq<char>, Seq<char>)>, key: Seq<char>, new: Seq<char>)
    ensures
        current_of(with_name(renamed, key, new), key) == path_key(new),
        name_of(with_name(renamed, key, new), key) == Some(new),
        forall|p: Seq<char>| p != key ==> #[trigger] current_of(with_name(renamed, key, new), p) == current_of(
            renamed,
            p,
        ),
        forall|p: Seq<char>| p != key ==> #[trigger] name_of(with_name(renamed, key, new), p) == name_of(
            renamed,
            p,
        ),
    decreases renamed.len(),
{
    let w = with_name(renamed, key, new);
    if renamed.len() == 0 {
        assert(w.drop_first() =~= seq![]);
        assert forall|p: Seq<char>| p != key implies #[trigger] current_of(w, p) == current_of(renamed, p) by {
            assert(current_of(w.drop_first(), p) == p);
        }
        assert forall|p: Seq<char>| p != key implies #[trigger] name_of(w, p) == name_of(renamed, p) by {
            assert(name_of(w.drop_first(), p) is None);
        }
    } else if renamed[0].0 == key {
        assert(w.drop_first() =~= renamed.drop_first());
    } else {
        lemma_with_name(renamed.drop_first(), key, new);
        assert(w.drop_first() =~= with_name(renamed.drop_first(), key, new));
        assert forall|p: Seq<char>| p != key implies #[trigger] current_of(w, p) == current_of(renamed, p) by {
            assert(current_of(w.drop_first(), p) == current_of(renamed.drop_first(), p));
        }
        assert forall|p: Seq<char>| p != key implies #[trigger] name_of(w, p) == name_of(renamed, p) by {
            assert(name_of(w.drop_first(), p) == name_of(renamed.drop_first(), p));
        }
    }
}

/// The key of a path that has a new name is that of the name.
proof fn lemma_name(renamed: Seq<(Seq<char>, Seq<char>)>, p: Seq<char>)
    ensures
        current_of(renamed, p) == match name_of(renamed, p) {
            Some(name) => path_key(name),
            None => p,
        },
    decreases renamed.len(),
{
    if renamed.len() > 0 {
        lemma_name(renamed.drop_first(), p);
    }
}

/// A rename changes the name of no other file.
pub proof fn renames_leave_others_alone(edits: EditsView, old_path: Seq<char>, new_path: Seq<char>, p: Seq<char>)
    requires
        p != original_of(edits.renamed, path_key(old_path)),
    ensures
        current_of(edits.rename(old_path, new_path).renamed, p) == current_of(edits.renamed, p),
        name_of(edits.rename(old_path, new_path).renamed, p) == name_of(edits.renamed, p),
{
    lemma_with_name(edits.renamed, original_of(edits.renamed, path_key(old_path)), new_path);
}

/// A renamed file that was not deleted stands in every snapshot of its group
/// under the last name it was given, also where that name is one that a
/// deleted file had.
pub proof fn renamed_files_keep_their_names(
    edits: EditsView,
    old_path: Seq<char>,
    new_path: Seq<char>,
    g: GroupView,
    f: FileView,
)
    requires
        g.files.contains(f),
        f.key() == original_of(edits.renamed, path_key(old_path)),
        !edits.deleted.contains(f.key()),
    ensures
        edits.rename(old_path, new_path).edit(g).files.contains(FileView { path: new_path, ..f }),
{
    renames_chain(edits, old_path, new_path);
    files_that_are_left_are_shown(edits.rename(old_path, new_path), g, f);
}

/// A file that was not deleted stands in every snapshot of its group, under
/// the name it has now.
pub proof fn files_that_are_left_are_shown(edits: EditsView, g: GroupView, f: FileView)
    requires
        g.files.contains(f),
        !edits.deleted.contains(f.key()),
    ensures
        edits.edit(g).files.contains(edits.current(f)),
{
    lemma_kept(g.files, edits.deleted);
    let left = if edits.deleted =~= Set::<Seq<char>>::empty() {
        g.files
    } else {
        kept(g.files, edits.deleted)
    };
    assert(left.contains(f));
    let i = choose|i: int| 0 <= i < left.len() && left[i] == f;
    assert(edits.edit(g).files[i] == edits.current(f));
}

/// A path that was not renamed is its own.
proof fn lemma_current(renamed: Seq<(Seq<char>, Seq<char>)>, p: Seq<char>)
    ensures
        !has_original(renamed, p) ==> current_of(renamed, p) == p,
    decreases renamed.len(),
{
    if renamed.len() > 0 {
        let rest = renamed.drop_first();
        lemma_current(rest, p);
        assert(renamed[0].0 == p ==> has_original(renamed, p));
        if has_original(rest, p) {
            let i = choose|i: int| 0 <= i < rest.len() && (#[trigger] rest[i]).0 == p;
            assert(renamed[i + 1].0 == p);
        }
    }
}

/// What was renamed and is not gone keeps its name, what is gone has none.
proof fn lemma_without(renamed: Seq<(Seq<char>, Seq<char>)>, gone: Set<Seq<char>>)
    ensures
        forall|q: Seq<char>| #[trigger]
            current_of(without_originals(renamed, gone), q) == (if gone.contains(q) {
                q
            } else {
                current_of(renamed, q)
            }),
    decreases renamed.len(),
{
    let w = without_originals(renamed, gone);
    if renamed.len() > 0 {
        let rest = renamed.drop_first();
        let v = without_originals(rest, gone);
        lemma_without(rest, gone);
        if !gone.contains(renamed[0].0) {
            assert(w.drop_first() =~= v);
        }
        assert forall|q: Seq<char>| #[trigger] current_of(w, q) == (if gone.contains(q) {
            q
        } else {
            current_of(renamed, q)
        }) by {
            assert(current_of(v, q) == (if gone.contains(q) {
                q
            } else {
                current_of(rest, q)
            }));
        }
    }
}

/// A file that was deleted, under whatever name it had by then, is deleted
/// under the path the engine knows it by, and no file that is left has its
/// path.
pub proof fn deleted_files_are_hidden(edits: EditsView, paths: Set<Seq<char>>, p: Seq<char>)
    requires
        paths.contains(p),
    ensures
        forall|q: Seq<char>| #[trigger]
            current_of(edits.renamed, q) == p ==> edits.delete(paths).deleted.contains(q),
        edits.delete(paths).hides(p),
{
    let known = edits.engine_paths(paths);
    let after = edits.delete(paths);
    lemma_without(edits.renamed, known);
    assert forall|q: Seq<char>| #[trigger] current_of(after.renamed, q) == p implies after.deleted.contains(q) by {
        if !known.contains(q) {
            assert(current_of(edits.renamed, q) == p);
        }
    }
}

/// A file that was not among the deleted ones is not taken for one: it is
/// known as before, and under the name it had.
pub proof fn deletions_leave_others_alone(edits: EditsView, paths: Set<Seq<char>>, q: Seq<char>)
    requires
        !paths.contains(current_of(edits.renamed, q)),
    ensures
        edits.delete(paths).deleted.contains(q) <==> edits.deleted.contains(q),
        current_of(edits.delete(paths).renamed, q) == current_of(edits.renamed, q),
{
    lemma_without(edits.renamed, edits.engine_paths(paths));
}

/// A path that no file has that is left stays so, whatever is deleted.
pub proof fn hidden_paths_stay_hidden(edits: EditsView, p: Seq<char>, paths: Set<Seq<char>>)
    requires
        edits.hides(p),
    ensures
        edits.delete(paths).hides(p),
{
    let known = edits.engine_paths(paths);
    let after = edits.delete(paths);
    lemma_without(edits.renamed, known);
    assert forall|q: Seq<char>| #[trigger] current_of(after.renamed, q) == p implies after.deleted.contains(q) by {
        if !known.contains(q) {
            assert(current_of(edits.renamed, q) == p);
        }
    }
}

/// A path that no file has that is left stays so until a file is renamed to
/// it.
pub proof fn renames_uncover_nothing_else(edits: EditsView, p: Seq<char>, old_path: Seq<char>, new_path: Seq<char>)
    requires
        edits.hides(p),
        path_key(new_path) != p,
    ensures
        edits.rename(old_path, new_path).hides(p),
{
    let key = original_of(edits.renamed, path_key(old_path));
    lemma_with_name(edits.renamed, key, new_path);
    let named = edits.rename(old_path, new_path);
    assert forall|q: Seq<char>| #[trigger] current_of(named.renamed, q) == p implies named.deleted.contains(q) by {
        if q != key {
            assert(current_of(edits.renamed, q) == p);
        }
    }
}

/// Whatever the engine sends, only files that were not deleted are shown,
/// under the names they have now, and every group that is shown has at least
/// two files.
pub proof fn deleted_files_stay_deleted(edits: EditsView, groups: Seq<GroupView>, g: GroupView)
    requires
        edits.edit_all(groups).contains(g),
    ensures
        g.files.len() >= 2,
        forall|i: int|
            0 <= i < g.files.len() ==> exists|f: FileView|
                !edits.deleted.contains(f.key()) && #[trigger] edits.current(f) == #[trigger] g.files[i],
        forall|i: int| 0 <= i < g.files.len() ==> !edits.hides((#[trigger] g.files[i]).key()),
{
    let all = Seq::new(groups.len(), |i: int| edits.edit(groups[i]));
    lemma_nontrivial(all, g);
    let k = choose|k: int| 0 <= k < all.len() && all[k] == g;
    let files = groups[k].files;
    lemma_kept(files, edits.deleted);
    let left = if edits.deleted =~= Set::<Seq<char>>::empty() {
        files
    } else {
        kept(files, edits.deleted)
    };
    assert forall|i: int| 0 <= i < g.files.len() implies exists|f: FileView|
        !edits.deleted.contains(f.key()) && #[trigger] edits.current(f) == #[trigger] g.files[i] by {
        assert(left.contains(left[i]));
        assert(edits.current(left[i]) == g.files[i]);
        assert(!edits.deleted.contains(left[i].key()));
    }
    assert forall|i: int| 0 <= i < g.files.len() implies !edits.hides((#[trigger] g.files[i]).key()) by {
        let f = choose|f: FileView| !edits.deleted.contains(f.key()) && #[trigger] edits.current(f) == g.files[i];
        lemma_name(edits.renamed, f.key());
        assert(current_of(edits.renamed, f.key()) == g.files[i].key());
    }
}

pub proof fn lemma_nontrivial(groups: Seq<GroupView>, g: GroupView)
    ensures
        nontrivial(groups).contains(g) <==> groups.contains(g) && g.files.len() >= 2,
    decreases groups.len(),
{
    if groups.len() > 0 {
        let head = groups.drop_last();
        lemma_nontrivial(head, g);
        let n = nontrivial(head);
        let last = groups.last();
        if head.contains(g) {
            let k = choose|k: int| 0 <= k < head.len() && head[k] == g;
            assert(groups[k] == g);
        }
        if groups.contains(g) {
            let k = choose|k: int| 0 <= k < groups.len() && groups[k] == g;
            if k < head.len() {
                assert(head[k] == g);
            }
        }
        assert(groups[groups.len() - 1] == last);
        if !last.trivial() {
            if n.contains(g) {
                let k = choose|k: int| 0 <= k < n.len() && n[k] == g;
                assert(n.push(last)[k] == g);
            }
            assert(n.push(last)[n.len() as int] == last);
            if n.push(last).contains(g) {
                let k = choose|k: int| 0 <= k < n.len() + 1 && n.push(last)[k] == g;
                if k < n.len() {
                    assert(n[k] == g);
                }
            }
        }
    }
}

impl Clone for ScanEdits {
    fn clone(&self) -> (r: ScanEdits)
        ensures
            r@ == self@,
    {
        let list = self.deleted.to_list();
        let deleted = PathSet::from_list(&list);
        assert(deleted@ =~= self.deleted@) by {
            assert forall|p: Seq<char>| deleted@.contains(p) <==> self.deleted@.contains(p) by {
                assert(self.deleted@.contains(p) <==> self.deleted.keys().contains(p));
            }
        }
        let mut renamed: Vec<Renamed> = Vec::new();
        let n = self.renamed.len();
        for i in 0..n
            invariant
                n == self.renamed@.len(),
                renamed_views(renamed@) == renamed_views(self.renamed@).take(i as int),
        {
            let ghost before = renamed_views(renamed@);
            renamed.push(
                Renamed { original: self.renamed[i].original.clone(), current: self.renamed[i].current.clone() },
            );
            let ghost all = renamed_views(self.renamed@);
            assert(renamed_views(renamed@) =~= before.push(all[i as int]));
            assert(all.take(i + 1) =~= all.take(i as int).push(all[i as int]));
        }
        assert(renamed_views(renamed@) =~= renamed_views(self.renamed@));
        ScanEdits { deleted, renamed }
    }
}

impl Default for ScanEdits {
    fn default() -> (r: ScanEdits)
        ensures
            r@ == (EditsView { deleted: Set::empty(), renamed: seq![] }),
    {
        let r = ScanEdits { deleted: PathSet::new(), renamed: Vec::new() };
        assert(r@.renamed =~= seq![]);
        r
    }
}

impl ScanEdits {
    pub fn is_empty(&self) -> (r: bool)
        ensures
            r == self@.nothing(),
    {
        self.deleted.is_empty() && self.renamed.len() == 0
    }

    /// Record that the files that have these paths now were deleted.
    pub fn record_deleted(&mut self, paths: &Vec<String>)
        ensures
            final(self)@ == old(self)@.delete(path_keys(views(paths@)).to_set()),
    {
        let ghost gone = path_keys(views(paths@)).to_set();
        let ghost before = self@;
        let ghost known = before.engine_paths(gone);
        let set = PathSet::from_list(paths);
        assert forall|p: Seq<char>| set@.contains(p) <==> gone.contains(p) by {}
        let n = self.renamed.len();
        let mut originals = PathSet::new();
        for i in 0..n
            invariant
                n == self.renamed@.len(),
                *self == *old(self),
                before == self@,
                before.renamed == renamed_views(self.renamed@),
                known == before.engine_paths(gone),
                forall|p: Seq<char>| set@.contains(p) <==> gone.contains(p),
                forall|q: Seq<char>| #[trigger] originals@.contains(q) ==> known.contains(q),
                forall|k: int|
                    0 <= k < i && known.contains((#[trigger] before.renamed[k]).0) ==> originals@.contains(
                        before.renamed[k].0,
                    ),
        {
            let key = self.renamed[i].original.clone();
            let current = self.find_current(key.as_str());
            assert(before.renamed[i as int].0 == path_key(key@));
            proof {
                lemma_name(before.renamed, path_key(key@));
            }
            match current {
                Some(c) => {
                    if set.contains(c.as_str()) {
                        originals.insert(key);
                    }
                },
                None => {
                    if set.contains(key.as_str()) {
                        originals.insert(key);
                    }
                },
            }
        }
        let m = paths.len();
        let ghost keys = path_keys(views(paths@));
        for i in 0..m
            invariant
                m == paths@.len(),
                *self == *old(self),
                before == self@,
                known == before.engine_paths(gone),
                keys == path_keys(views(paths@)),
                gone == keys.to_set(),
                forall|q: Seq<char>| #[trigger] originals@.contains(q) ==> known.contains(q),
                forall|k: int|
                    0 <= k < before.renamed.len() && known.contains((#[trigger] before.renamed[k]).0)
                        ==> originals@.contains(before.renamed[k].0),
                forall|k: int|
                    0 <= k < i && !has_original(before.renamed, #[trigger] keys[k]) ==> originals@.contains(keys[k]),
        {
            let ghost p = keys[i as int];
            assert(p == path_key(paths@[i as int]@));
            if !self.knows_original(paths[i].as_str()) {
                proof {
                    lemma_current(before.renamed, p);
                    assert(gone.contains(p));
                }
                originals.insert(paths[i].clone());
            }
        }
        assert(originals@ =~= known) by {
            assert forall|q: Seq<char>| known.contains(q) implies originals@.contains(q) by {
                lemma_current(before.renamed, q);
                if has_original(before.renamed, q) {
                    let k = choose|k: int| 0 <= k < before.renamed.len() && (#[trigger] before.renamed[k]).0 == q;
                    assert(known.contains(before.renamed[k].0));
                } else {
                    let k = choose|k: int| 0 <= k < m && keys[k] == q;
                    assert(keys[k] == q);
                }
            }
        }
        self.drop_originals(&originals);
        let list = originals.to_list();
        self.deleted.insert_all(&list);
        proof {
            assert forall|q: Seq<char>| #[trigger]
                self@.deleted.contains(q) <==> before.delete(gone).deleted.contains(q) by {
                assert(originals@.contains(q) <==> originals.keys().contains(q));
            }
            assert(self@.deleted =~= before.delete(gone).deleted);
        }
    }

    /// The path that the engine knows a file by that is now called `path`.
    fn find_original(&self, path: &str) -> (r: String)
        ensures
            path_key(r@) == original_of(self@.renamed, path_key(path@)),
    {
        let n = self.renamed.len();
        let ghost all = self@.renamed;
        assert(all.skip(0) =~= all);
        for i in 0..n
            invariant
                n == self.renamed@.len(),
                all == renamed_views(self.renamed@),
                original_of(all.skip(i as int), path_key(path@)) == original_of(all, path_key(path@)),
        {
            assert(all.skip(i as int)[0] == all[i as int]);
            assert(all.skip(i as int).drop_first() =~= all.skip(i + 1));
            if same_path(self.renamed[i].current.as_str(), path) {
                return self.renamed[i].original.clone();
            }
        }
        path.to_owned()
    }

    fn knows_original(&self, path: &str) -> (r: bool)
        ensures
            r == has_original(self@.renamed, path_key(path@)),
    {
        let n = self.renamed.len();
        let ghost all = self@.renamed;
        for i in 0..n
            invariant
                n == self.renamed@.len(),
                all == renamed_views(self.renamed@),
                forall|k: int| 0 <= k < i ==> (#[trigger] all[k]).0 != path_key(path@),
        {
            assert(all[i as int].0 == path_key(self.renamed@[i as int].original@));
            if same_path(self.renamed[i].original.as_str(), path) {
                return true;
            }
        }
        false
    }

    fn drop_originals(&mut self, gone: &PathSet)
        ensures
            final(self)@ == (EditsView {
                renamed: without_originals(old(self)@.renamed, gone@),
                ..old(self)@
            }),
    {
        let n = self.renamed.len();
        let ghost all = self@.renamed;
        let mut left: Vec<Renamed> = Vec::new();
        assert(all.skip(0) =~= all);
        assert(renamed_views(left@) + without_originals(all.skip(0), gone@) =~= without_originals(all, gone@));
        for i in 0..n
            invariant
                n == self.renamed@.len(),
                *self == *old(self),
                all == renamed_views(self.renamed@),
                renamed_views(left@) + without_originals(all.skip(i as int), gone@) == without_originals(
                    all,
                    gone@,
                ),
        {
            let ghost rest = all.skip(i as int);
            let ghost before = renamed_views(left@);
            assert(rest[0] == all[i as int]);
            assert(rest.drop_first() =~= all.skip(i + 1));
            if !gone.contains(self.renamed[i].original.as_str()) {
                left.push(
                    Renamed {
                        original: self.renamed[i].original.clone(),
                        current: self.renamed[i].current.clone(),
                    },
                );
                assert(renamed_views(left@) =~= before.push(all[i as int]));
                assert(renamed_views(left@) + without_originals(all.skip(i + 1), gone@) =~= before
                    + without_originals(rest, gone@));
            }
        }
        assert(all.skip(n as int) =~= seq![]);
        assert(renamed_views(left@) =~= without_originals(all, gone@));
        self.renamed = left;
    }

    /// Record `old -> new`, chaining through earlier renames so the key is
    /// always the path the engine originally reported.
    pub fn record_rename(&mut self, old_path: &str, new_path: &str)
        ensures
            final(self)@ == old(self)@.rename(old_path@, new_path@),
    {
        let n = self.renamed.len();
        let ghost all = self@.renamed;
        let key = self.find_original(old_path);
        let ghost kv = path_key(key@);
        assert(all.take(0) + with_name(all.skip(0), kv, new_path@) =~= with_name(all, kv, new_path@)) by {
            assert(all.skip(0) =~= all);
        }
        let mut k: usize = 0;
        while k < n && !same_path(self.renamed[k].original.as_str(), key.as_str())
            invariant
                *self == *old(self),
                n == self.renamed@.len(),
                k <= n,
                all == renamed_views(self.renamed@),
                kv == path_key(key@),
                all.take(k as int) + with_name(all.skip(k as int), kv, new_path@) == with_name(
                    all,
                    kv,
                    new_path@,
                ),
            decreases n - k,
        {
            let ghost rest = all.skip(k as int);
            assert(rest[0] == all[k as int]);
            assert(rest.drop_first() =~= all.skip(k + 1));
            assert(all.take(k + 1) + with_name(all.skip(k + 1), kv, new_path@) =~= all.take(k as int)
                + with_name(rest, kv, new_path@));
            k = k + 1;
        }
        let ghost rest = all.skip(k as int);
        if k < n {
            proof {
                assert(rest[0] == all[k as int]);
                assert(rest.drop_first() =~= all.skip(k + 1));
            }
            self.renamed.set(k, Renamed { original: key, current: new_path.to_owned() });
            assert(renamed_views(self.renamed@) =~= all.take(k as int) + (seq![(kv, new_path@)] + all.skip(k + 1)));
        } else {
            self.renamed.push(Renamed { original: key, current: new_path.to_owned() });
            assert(renamed_views(self.renamed@) =~= all.take(k as int) + seq![(kv, new_path@)]);
        }
    }

    fn find_current(&self, path: &str) -> (r: Option<String>)
        ensures
            r is Some <==> name_of(self@.renamed, path_key(path@)) is Some,
            r is Some ==> name_of(self@.renamed, path_key(path@)) == Some(r->0@),
    {
        let n = self.renamed.len();
        let ghost all = self@.renamed;
        assert(all.skip(0) =~= all);
        for i in 0..n
            invariant
                n == self.renamed@.len(),
                all == renamed_views(self.renamed@),
                name_of(all.skip(i as int), path_key(path@)) == name_of(all, path_key(path@)),
        {
            assert(all.skip(i as int)[0] == all[i as int]);
            assert(all.skip(i as int).drop_first() =~= all.skip(i + 1));
            if same_path(self.renamed[i].original.as_str(), path) {
                return Some(self.renamed[i].current.clone());
            }
        }
        None
    }

    fn edit(&self, g: &DuplicateGroup) -> (r: DuplicateGroup)
        ensures
            r@ == self@.edit(g@),
    {
        let mut out = g.clone();
        if !self.deleted.is_empty() {
            out.remove_paths(&self.deleted);
        }
        let ghost left = out@;
        let ghost goal = Seq::new(left.files.len(), |i: int| self@.current(left.files[i]));
        let n = out.files.len();
        for i in 0..n
            invariant
                n == out.files@.len(),
                n == goal.len(),
                out@.hash == left.hash,
                out.total_size == left.total_size,
                out.wasted_space == left.wasted_space,
                goal == Seq::new(left.files.len(), |i: int| self@.current(left.files[i])),
                forall|k: int| 0 <= k < i ==> (#[trigger] out.files@[k])@ == goal[k],
                forall|k: int| i <= k < n ==> (#[trigger] out.files@[k])@ == left.files[k],
        {
            if let Some(p) = self.find_current(out.files[i].path.as_str()) {
                let mut f = out.files[i].clone();
                f.path = p;
                out.files.set(i, f);
            }
        }
        assert(file_views(out.files@) =~= goal);
        out
    }

    /// Apply the recorded edits to a snapshot from the engine.
    pub fn apply(&self, groups: &mut Vec<DuplicateGroup>)
        ensures
            group_views(final(groups)@) == self@.edit_all(group_views(old(groups)@)),
    {
        let ghost gs = group_views(groups@);
        let ghost goal = Seq::new(gs.len(), |i: int| self@.edit(gs[i]));
        let n = groups.len();
        let mut edited: Vec<DuplicateGroup> = Vec::new();
        assert(group_views(edited@) =~= goal.take(0));
        for i in 0..n
            invariant
                n == groups@.len(),
                *groups == *old(groups),
                gs == group_views(groups@),
                goal == Seq::new(gs.len(), |i: int| self@.edit(gs[i])),
                group_views(edited@) == goal.take(i as int),
        {
            let ghost before = group_views(edited@);
            let e = self.edit(&groups[i]);
            let ghost ev = e@;
            edited.push(e);
            assert(group_views(edited@) =~= before.push(ev));
            assert(goal.take(i + 1) =~= goal.take(i as int).push(goal[i as int]));
        }
        assert(goal.take(n as int) =~= goal);
        *groups = drop_trivial(&edited);
    }

    pub fn clear(&mut self)
        ensures
            final(self)@ == (EditsView { deleted: Set::empty(), renamed: seq![] }),
    {
        self.deleted.clear();
        self.renamed = Vec::new();
        assert(self@.renamed =~= seq![]);
    }
}

// ----- renaming ------------------------------------------------------------

#[derive(Debug)]
pub enum RenameError {
    InvalidName(String),
    NotInGroups,
    SameName,
    TargetExists(String),
    Io(String),
}

impl RenameError {
    pub open spec fn text(self) -> Seq<char> {
        match self {
            RenameError::InvalidName(m) => m@,
            RenameError::NotInGroups => "File is not part of any duplicate group"@,
            RenameError::SameName => "The new name is the same as the current name"@,
            RenameError::TargetExists(p) => p@ + " already exists"@,
            RenameError::Io(m) => m@,
        }
    }

    pub fn message(&self) -> (r: String)
        ensures
            r@ == self.text(),
    {
        match self {
            RenameError::InvalidName(m) => m.clone(),
            RenameError::NotInGroups => "File is not part of any duplicate group".to_owned(),
            RenameError::SameName => "The new name is the same as the current name".to_owned(),
            RenameError::TargetExists(p) => {
                let mut out = p.clone();
                out.append(" already exists");
                out
            },
            RenameError::Io(m) => m.clone(),
        }
    }
}

/// What is wrong with a new file name; nothing where it is fine.
pub open spec fn name_problem(name: Seq<char>) -> Option<Seq<char>> {
    if name.len() == 0 {
        Some("New name must not be empty"@)
    } else if name != trim(name) {
        Some("New name must not start or end with whitespace"@)
    } else if name.contains('\0') {
        Some("New name must not contain NUL"@)
    } else if name.contains('/') || name.contains('\\') {
        Some("New name must not contain path separators"@)
    } else if name == "."@ || name == ".."@ {
        Some("New name must be a file name, not . or .."@)
    } else if byte_len_of(name) > 255 {
        Some("New name is too long (255 bytes max)"@)
    } else {
        None
    }
}

fn contains_char(v: &Vec<char>, c: char) -> (r: bool)
    ensures
        r == v@.contains(c),
{
    let n = v.len();
    for i in 0..n
        invariant
            n == v@.len(),
            forall|k: int| 0 <= k < i ==> v@[k] != c,
    {
        if v[i] == c {
            return true;
        }
    }
    false
}

/// A new file name must be exactly one normal path component.
pub fn validate_new_name(name: &str) -> (r: Result<(), String>)
    ensures
        r is Ok <==> name_problem(name@) is None,
        r is Err ==> Some(r->Err_0@) == name_problem(name@),
{
    let v = chars_of(name);
    if v.len() == 0 {
        return Err("New name must not be empty".to_owned());
    }
    if !crate::text::same_chars(&v, &trim_chars(&v)) {
        return Err("New name must not start or end with whitespace".to_owned());
    }
    if contains_char(&v, '\0') {
        return Err("New name must not contain NUL".to_owned());
    }
    if contains_char(&v, '/') || contains_char(&v, '\\') {
        return Err("New name must not contain path separators".to_owned());
    }
    if is_text(&v, ".") || is_text(&v, "..") {
        return Err("New name must be a file name, not . or ..".to_owned());
    }
    if byte_len(name) > 255 {
        return Err("New name is too long (255 bytes max)".to_owned());
    }
    Ok(())
}

/// A name that is accepted is a path of one component, and no special one.
pub proof fn accepted_names_are_one_component(name: Seq<char>)
    requires
        name_problem(name) is None,
    ensures
        components(name) == seq![name],
        component_rank(name) == 3,
{
    reveal_strlit(".");
    reveal_strlit("..");
    assert("."@ =~= seq!['.']);
    assert(".."@ =~= seq!['.', '.']);
    lemma_one_piece(name);
    let parts = pieces(name);
    assert(parts.drop_last() =~= seq![]);
    assert(components_of(parts.drop_last(), true) =~= seq![]);
    assert(components(name) =~= seq![name]);
    assert(name != seq!['/']) by {
        if name == seq!['/'] {
            assert(name[0] == '/');
        }
    }
}

proof fn lemma_one_piece(name: Seq<char>)
    requires
        !name.contains('/'),
    ensures
        pieces(name) == seq![name],
    decreases name.len(),
{
    if name.len() > 0 {
        let head = name.drop_last();
        assert(!head.contains('/')) by {
            if head.contains('/') {
                let k = choose|k: int| 0 <= k < head.len() && head[k] == '/';
                assert(name[k] == '/');
            }
        }
        lemma_one_piece(head);
        assert(name[name.len() - 1] == name.last());
        assert(seq![head].drop_last().push(head.push(name.last())) =~= seq![name]) by {
            assert(head.push(name.last()) =~= name);
        }
    } else {
        assert(name =~= Seq::<char>::empty());
    }
}

/// `gi` is the first group that holds the path with this key.
pub open spec fn first_group_with(groups: Seq<GroupView>, p: Seq<char>, gi: int) -> bool {
    &&& 0 <= gi < groups.len()
    &&& has_path(groups[gi].files, p)
    &&& forall|j: int| 0 <= j < gi ==> !has_path((#[trigger] groups[j]).files, p)
}

/// Where a file goes under its new name: the path, and the group the file
/// belongs to.
pub open spec fn rename_goes(
    groups: Seq<GroupView>,
    old_path: Seq<char>,
    new_name: Seq<char>,
    new_path: Seq<char>,
    gi: int,
) -> bool {
    &&& name_problem(new_name) is None
    &&& first_group_with(groups, path_key(old_path), gi)
    &&& parent_of(old_path) is Some
    &&& new_path == join_of(parent_of(old_path)->0, new_name)
    &&& path_key(new_path) != path_key(old_path)
}

/// What is wrong with a rename before the disk is asked.
pub open spec fn rename_refused(
    groups: Seq<GroupView>,
    old_path: Seq<char>,
    new_name: Seq<char>,
    e: RenameError,
) -> bool {
    if name_problem(new_name) is Some {
        e is InvalidName && e->InvalidName_0@ == name_problem(new_name)->0
    } else if !crate::deletion::in_groups(groups, path_key(old_path)) {
        e is NotInGroups
    } else if parent_of(old_path) is None {
        e is Io && e->Io_0@ == "Cannot rename a path without a parent directory"@
    } else {
        path_key(join_of(parent_of(old_path)->0, new_name)) == path_key(old_path) && e is SameName
    }
}

/// Why a rename did not happen, once the disk was asked: something stands at
/// the new path, or the move failed.
pub open spec fn rename_failed(
    groups: Seq<GroupView>,
    old_path: Seq<char>,
    new_name: Seq<char>,
    target_exists: bool,
    moved: Result<(), String>,
    e: RenameError,
) -> bool {
    rename_refused(groups, old_path, new_name, e) || (exists|new_path: Seq<char>, gi: int| #[trigger]
        rename_goes(groups, old_path, new_name, new_path, gi) && if target_exists {
            e is TargetExists && e->TargetExists_0@ == new_path
        } else {
            e is Io && moved is Err && e->Io_0@ == "Failed to rename "@ + old_path + ": "@ + moved->Err_0@
        })
}

fn group_with(groups: &Vec<DuplicateGroup>, path: &str) -> (r: Option<usize>)
    ensures
        r is Some <==> crate::deletion::in_groups(group_views(groups@), path_key(path@)),
        r is Some ==> first_group_with(group_views(groups@), path_key(path@), r->0 as int) && r->0 < groups@.len(),
{
    let n = groups.len();
    let ghost gs = group_views(groups@);
    for i in 0..n
        invariant
            n == groups@.len(),
            gs == group_views(groups@),
            forall|j: int| 0 <= j < i ==> !has_path((#[trigger] gs[j]).files, path_key(path@)),
    {
        assert(gs[i as int] == groups@[i as int]@);
        if file_at(&groups[i].files, path).is_some() {
            return Some(i);
        }
    }
    None
}

fn file_at(files: &Vec<FileInfo>, path: &str) -> (r: Option<usize>)
    ensures
        r is Some <==> has_path(file_views(files@), path_key(path@)),
        r is Some ==> first_file(file_views(files@), path_key(path@), r->0 as int),
{
    let n = files.len();
    let ghost all = file_views(files@);
    for i in 0..n
        invariant
            n == files@.len(),
            all == file_views(files@),
            forall|j: int| 0 <= j < i ==> (#[trigger] all[j]).key() != path_key(path@),
    {
        assert(all[i as int] == files@[i as int]@);
        if same_path(files[i].path.as_str(), path) {
            return Some(i);
        }
    }
    None
}

/// `i` is the first file with the path of this key.
pub open spec fn first_file(files: Seq<FileView>, p: Seq<char>, i: int) -> bool {
    &&& 0 <= i < files.len()
    &&& files[i].key() == p
    &&& forall|j: int| 0 <= j < i ==> (#[trigger] files[j]).key() != p
}

/// Where `old` (which must belong to one of `groups`) would go under
/// `new_name`, in the same directory, and the index of its group.
pub fn rename_destination(groups: &Vec<DuplicateGroup>, old_path: &str, new_name: &str) -> (r: Result<
    (String, usize),
    RenameError,
>)
    ensures
        r matches Ok(d) ==> rename_goes(group_views(groups@), old_path@, new_name@, d.0@, d.1 as int) && d.1
            < groups@.len(),
        r matches Err(e) ==> rename_refused(group_views(groups@), old_path@, new_name@, e),
        r is Ok <==> name_problem(new_name@) is None && crate::deletion::in_groups(
            group_views(groups@),
            path_key(old_path@),
        ) && parent_of(old_path@) is Some && path_key(join_of(parent_of(old_path@)->0, new_name@)) != path_key(old_path@),
{
    match validate_new_name(new_name) {
        Ok(()) => {},
        Err(m) => {
            return Err(RenameError::InvalidName(m));
        },
    }
    let gi = match group_with(groups, old_path) {
        Some(g) => g,
        None => {
            return Err(RenameError::NotInGroups);
        },
    };
    match parent(old_path) {
        Some(p) => {
            let new_path = join(p.as_str(), new_name);
            if same_path(new_path.as_str(), old_path) {
                return Err(RenameError::SameName);
            }
            Ok((new_path, gi))
        },
        None => Err(RenameError::Io("Cannot rename a path without a parent directory".to_owned())),
    }
}

/// The groups with the first file of group `gi` that is called `old` now
/// called `new`.
pub open spec fn with_file_renamed(
    groups: Seq<GroupView>,
    gi: int,
    old_path: Seq<char>,
    new_path: Seq<char>,
    after: Seq<GroupView>,
) -> bool {
    exists|i: int| #[trigger]
        first_file(groups[gi].files, path_key(old_path), i) && after == groups.update(
            gi,
            GroupView {
                files: groups[gi].files.update(i, FileView { path: new_path, ..groups[gi].files[i] }),
                ..groups[gi]
            },
        )
}

/// Rename `old` (which must belong to one of `groups`) to `new_name` in the
/// same directory, then update the group entry. `target_exists` tells whether
/// something stands at the new path, and `moved` how the move on disk went.
/// Returns the new path and the index of the group that changed.
pub fn rename_in_groups(
    groups: &mut Vec<DuplicateGroup>,
    old_path: &str,
    new_name: &str,
    target_exists: bool,
    moved: Result<(), String>,
) -> (r: Result<(String, usize), RenameError>)
    ensures
        r is Ok <==> name_problem(new_name@) is None && crate::deletion::in_groups(
            group_views(old(groups)@),
            path_key(old_path@),
        ) && parent_of(old_path@) is Some && path_key(join_of(parent_of(old_path@)->0, new_name@)) != path_key(old_path@)
            && !target_exists && moved is Ok,
        r matches Ok(d) ==> rename_goes(group_views(old(groups)@), old_path@, new_name@, d.0@, d.1 as int)
            && with_file_renamed(
            group_views(old(groups)@),
            d.1 as int,
            old_path@,
            d.0@,
            group_views(final(groups)@),
        ),
        r is Err ==> *final(groups) == *old(groups),
        r matches Err(e) ==> rename_failed(
            group_views(old(groups)@),
            old_path@,
            new_name@,
            target_exists,
            moved,
            e,
        ),
{
    let ghost gs = group_views(groups@);
    let (new_path, gi) = match rename_destination(groups, old_path, new_name) {
        Ok(d) => d,
        Err(e) => {
            return Err(e);
        },
    };
    assert(rename_goes(gs, old_path@, new_name@, new_path@, gi as int));
    if target_exists {
        return Err(RenameError::TargetExists(new_path));
    }
    if let Err(cause) = moved {
        let mut text = String::new();
        text.append("Failed to rename ");
        text.append(old_path);
        text.append(": ");
        text.append(cause.as_str());
        assert(text@ =~= "Failed to rename "@ + old_path@ + ": "@ + cause@);
        return Err(RenameError::Io(text));
    }
    assert(gs[gi as int] == groups@[gi as int]@);
    if let Some(i) = file_at(&groups[gi].files, old_path) {
        let mut g = groups[gi].clone();
        let mut f = g.files[i].clone();
        assert(gs[gi as int].files[i as int] == f@);
        f.path = new_path.clone();
        let ghost fv = f@;
        g.files.set(i, f);
        let ghost gv = g@;
        proof {
            assert(gv.files =~= gs[gi as int].files.update(i as int, fv));
        }
        groups.set(gi, g);
        assert(group_views(groups@) =~= gs.update(gi as int, gv));
        assert(first_file(gs[gi as int].files, path_key(old_path@), i as int));
    }
    Ok((new_path, gi))
}

/// A new name is accepted exactly where it is one name, without blanks
/// around it, of 1 to 255 bytes.
pub proof fn new_names_are_single_names(name: Seq<char>)
    ensures
        name_problem(name) is None <==> is_plain_name(name) && trim(name) == name && !name.contains('\0')
            && !name.contains('\\') && vstd::utf8::encode_utf8(name).len() <= 255,
        name.len() == 0 ==> name_problem(name) == Some("New name must not be empty"@),
        name.len() > 0 && trim(name) != name ==> name_problem(name) == Some(
            "New name must not start or end with whitespace"@,
        ),
        name.len() > 0 && trim(name) == name && name.contains('\0') ==> name_problem(name) == Some(
            "New name must not contain NUL"@,
        ),
        name.len() > 0 && trim(name) == name && !name.contains('\0') && (name.contains('/') || name.contains('\\'))
            ==> name_problem(name) == Some("New name must not contain path separators"@),
        name == "."@ || name == ".."@ ==> name_problem(name) == Some(
            "New name must be a file name, not . or .."@,
        ),
        is_plain_name(name) && trim(name) == name && !name.contains('\0') && !name.contains('\\')
            && vstd::utf8::encode_utf8(name).len() > 255 ==> name_problem(name) == Some(
            "New name is too long (255 bytes max)"@,
        ),
{
    reveal_strlit(".");
    reveal_strlit("..");
    assert("."@ =~= seq!['.']);
    assert(".."@ =~= seq!['.', '.']);
    let none = Seq::<char>::empty();
    if name == "."@ || name == ".."@ {
        assert(!crate::text::is_space('.'));
        crate::text::trimming_takes_the_outer_spaces(none, name, none);
        assert(none + name + none == name);
        assert forall|i: int| 0 <= i < name.len() implies name[i] == '.' by {}
    }
}

/// A renamed file stays in its folder: its new path is the folder's with the
/// new name as the last component, and differs from the old one.
pub proof fn renames_stay_in_the_folder(
    groups: Seq<GroupView>,
    old_path: Seq<char>,
    new_name: Seq<char>,
    new_path: Seq<char>,
    gi: int,
)
    requires
        rename_goes(groups, old_path, new_name, new_path, gi),
    ensures
        file_name_of(new_path) == Some(new_name),
        parent_of(old_path) is Some,
        components(new_path) == components(parent_of(old_path)->0).push(new_name),
        components(new_path) != components(old_path),
        0 <= gi < groups.len(),
        exists|i: int|
            0 <= i < groups[gi].files.len() && path_key((#[trigger] groups[gi].files[i]).path) == path_key(old_path),
{
    new_names_are_single_names(new_name);
    a_name_lies_in_its_folder(parent_of(old_path)->0, new_name);
    keys_stand_for_components(new_path, old_path);
}

/// What is said of a rename that did not go.
pub proof fn refused_renames_read_as_follows(path: String, why: String)
    ensures
        RenameError::NotInGroups.text() == "File is not part of any duplicate group"@,
        RenameError::SameName.text() == "The new name is the same as the current name"@,
        RenameError::TargetExists(path).text() == path@ + " already exists"@,
        RenameError::InvalidName(why).text() == why@,
        RenameError::Io(why).text() == why@,
{
}

/// Without edits every group is shown as it is.
pub proof fn no_edits_change_nothing(edits: EditsView, g: GroupView)
    requires
        edits.deleted == Set::<Seq<char>>::empty(),
        edits.renamed.len() == 0,
    ensures
        edits.nothing(),
        edits.edit(g) == g,
{
    assert(edits.edit(g).files == g.files);
}

/// A renamed file is found again by its new name, where no other file has
/// that name: renaming it once more speaks of the same file.
pub proof fn renamed_files_are_found_again(edits: EditsView, old_path: Seq<char>, new_path: Seq<char>)
    requires
        forall|i: int|
            0 <= i < edits.renamed.len() && (#[trigger] edits.renamed[i]).0 != original_of(
                edits.renamed,
                path_key(old_path),
            ) ==> path_key(edits.renamed[i].1) != path_key(new_path),
    ensures
        original_of(edits.rename(old_path, new_path).renamed, path_key(new_path)) == original_of(
            edits.renamed,
            path_key(old_path),
        ),
{
    lemma_found_by_new_name(edits.renamed, original_of(edits.renamed, path_key(old_path)), new_path);
}

proof fn lemma_found_by_new_name(renamed: Seq<(Seq<char>, Seq<char>)>, key: Seq<char>, new: Seq<char>)
    requires
        forall|i: int|
            0 <= i < renamed.len() && (#[trigger] renamed[i]).0 != key ==> path_key(renamed[i].1) != path_key(new),
    ensures
        original_of(with_name(renamed, key, new), path_key(new)) == key,
    decreases renamed.len(),
{
    let w = with_name(renamed, key, new);
    if renamed.len() == 0 {
        assert(w[0] == (key, new));
    } else if renamed[0].0 == key {
        assert(w[0] == (key, new));
    } else {
        let rest = renamed.drop_first();
        assert forall|i: int| 0 <= i < rest.len() && (#[trigger] rest[i]).0 != key implies path_key(rest[i].1)
            != path_key(new) by {
            assert(rest[i] == renamed[i + 1]);
        }
        lemma_found_by_new_name(rest, key, new);
        assert(w[0] == renamed[0]);
        assert(w.drop_first() == with_name(rest, key, new));
    }
}

/// Why a rename was refused, looked at in this order: the name, whether the
/// file is in a group, whether it lies in a folder, and whether the name is
/// its own.
pub proof fn refused_renames_have_their_reason(
    groups: Seq<GroupView>,
    old_path: Seq<char>,
    new_name: Seq<char>,
    e: RenameError,
)
    requires
        rename_refused(groups, old_path, new_name, e),
    ensures
        ({
            let known = crate::deletion::in_groups(groups, path_key(old_path));
            &&& e is InvalidName <==> name_problem(new_name) is Some
            &&& e is InvalidName ==> Some(e->InvalidName_0@) == name_problem(new_name)
            &&& e is NotInGroups <==> name_problem(new_name) is None && !known
            &&& e is Io <==> name_problem(new_name) is None && known && parent_of(old_path) is None
            &&& e is Io ==> e->Io_0@ == "Cannot rename a path without a parent directory"@
            &&& e is SameName <==> name_problem(new_name) is None && known && parent_of(old_path) is Some
            &&& e is SameName ==> path_key(join_of(parent_of(old_path)->0, new_name)) == path_key(old_path)
        }),
{
}

/// Why a rename that was allowed failed: a file of that name is there, or it
/// could not be moved.
pub proof fn failed_renames_have_their_reason(
    groups: Seq<GroupView>,
    old_path: Seq<char>,
    new_name: Seq<char>,
    target_exists: bool,
    moved: Result<(), String>,
    e: RenameError,
)
    requires
        rename_failed(groups, old_path, new_name, target_exists, moved, e),
        name_problem(new_name) is None,
        crate::deletion::in_groups(groups, path_key(old_path)),
        parent_of(old_path) is Some,
        path_key(join_of(parent_of(old_path)->0, new_name)) != path_key(old_path),
    ensures
        target_exists ==> e is TargetExists && e->TargetExists_0@ == join_of(parent_of(old_path)->0, new_name),
        !target_exists ==> e is Io && moved is Err && e->Io_0@ == "Failed to rename "@ + old_path + ": "@
            + moved->Err_0@,
{
}

/// A rename changes the path of one file, the first with the old path, and
/// nothing else in the groups.
pub proof fn renames_change_one_path(
    groups: Seq<GroupView>,
    gi: int,
    old_path: Seq<char>,
    new_path: Seq<char>,
    after: Seq<GroupView>,
    g: int,
    i: int,
)
    requires
        0 <= gi < groups.len(),
        with_file_renamed(groups, gi, old_path, new_path, after),
        0 <= g < groups.len(),
        0 <= i < groups[g].files.len(),
    ensures
        after.len() == groups.len(),
        after[g].files.len() == groups[g].files.len(),
        after[g].hash == groups[g].hash && after[g].total_size == groups[g].total_size && after[g].wasted_space
            == groups[g].wasted_space,
        after[g].files[i].size == groups[g].files[i].size && after[g].files[i].hash == groups[g].files[i].hash,
        after[g].files[i].path == groups[g].files[i].path || (g == gi && after[g].files[i].path == new_path
            && path_key(groups[g].files[i].path) == path_key(old_path)),
        g != gi ==> after[g] == groups[g],
        g == gi && path_key(groups[g].files[i].path) == path_key(old_path) && (forall|j: int|
            0 <= j < i ==> path_key((#[trigger] groups[g].files[j]).path) != path_key(old_path))
            ==> after[g].files[i].path == new_path,
{
    let k = choose|k: int| #[trigger]
        first_file(groups[gi].files, path_key(old_path), k) && after == groups.update(
            gi,
            GroupView {
                files: groups[gi].files.update(k, FileView { path: new_path, ..groups[gi].files[k] }),
                ..groups[gi]
            },
        );
    if g == gi {
        assert(after[g].files == groups[gi].files.update(k, FileView { path: new_path, ..groups[gi].files[k] }));
        if path_key(groups[g].files[i].path) == path_key(old_path) && i != k {
            if i < k {
                assert(groups[gi].files[i].key() != path_key(old_path));
            } else {
                assert(groups[gi].files[k].key() == path_key(old_path));
            }
        }
    }
}

/// A file is renamed in the first group that has it.
pub proof fn renames_go_to_the_first_group(
    groups: Seq<GroupView>,
    old_path: Seq<char>,
    new_name: Seq<char>,
    new_path: Seq<char>,
    gi: int,
    g: int,
    i: int,
)
    requires
        rename_goes(groups, old_path, new_name, new_path, gi),
        0 <= g < gi,
        0 <= i < groups[g].files.len(),
    ensures
        path_key(groups[g].files[i].path) != path_key(old_path),
        new_path == join_of(parent_of(old_path)->0, new_name),
{
    assert(!has_path(groups[g].files, path_key(old_path)));
    assert(groups[g].files[i].key() != path_key(old_path));
}

} // verus!
