//! A set of paths that remembers the order in which they came in.

use vstd::prelude::*;
use vstd::hash_set::StringHashSet;
use crate::paths::{key_of, path_key, path_keys};
use crate::text::{same_text, views};

verus! {

/// A set of paths. Its view is the set of their keys; `list` gives the paths
/// as they were inserted, oldest first.
pub struct PathSet {
    items: Vec<String>,
    index: StringHashSet,
}

/// A list with the paths of another behind it, those left out that are in
/// it already.
pub open spec fn joined(list: Seq<Seq<char>>, more: Seq<Seq<char>>) -> Seq<Seq<char>>
    decreases more.len(),
{
    if more.len() == 0 {
        list
    } else {
        let before = joined(list, more.drop_last());
        if path_keys(before).contains(path_key(more.last())) {
            before
        } else {
            before.push(more.last())
        }
    }
}

impl View for PathSet {
    type V = Set<Seq<char>>;

    closed spec fn view(&self) -> Set<Seq<char>> {
        self.index@
    }
}

impl PathSet {
    /// The members, each once, oldest first.
    pub closed spec fn list(&self) -> Seq<Seq<char>> {
        views(self.items@)
    }

    /// The keys of the members, oldest first.
    pub open spec fn keys(&self) -> Seq<Seq<char>> {
        path_keys(self.list())
    }

    #[verifier::type_invariant]
    closed spec fn consistent(&self) -> bool {
        &&& self.keys().no_duplicates()
        &&& forall|p: Seq<char>| #[trigger] self.index@.contains(p) <==> self.keys().contains(p)
    }

    pub fn new() -> (r: PathSet)
        ensures
            r@ == Set::<Seq<char>>::empty(),
            r.list() == Seq::<Seq<char>>::empty(),
    {
        let r = PathSet { items: Vec::new(), index: StringHashSet::new() };
        assert(r.list() =~= Seq::<Seq<char>>::empty());
        r
    }

    /// The list holds every member of the set once, and nothing else.
    pub open spec fn listed(&self) -> bool {
        &&& self.keys().no_duplicates()
        &&& forall|p: Seq<char>| #[trigger] self@.contains(p) <==> self.keys().contains(p)
    }

    pub fn len(&self) -> (r: usize)
        ensures
            r == self.list().len(),
            self@.finite(),
            r == self@.len(),
            self.listed(),
    {
        proof {
            use_type_invariant(self);
            let keys = self.keys();
            keys.unique_seq_to_set();
            assert(keys.to_set() =~= self@) by {
                assert forall|p: Seq<char>| keys.to_set().contains(p) <==> self@.contains(p) by {
                    assert(self.index@.contains(p) <==> keys.contains(p));
                }
            }
        }
        self.items.len()
    }

    pub fn is_empty(&self) -> (r: bool)
        ensures
            r == (self.list().len() == 0),
            r == (self@ =~= Set::<Seq<char>>::empty()),
    {
        proof {
            use_type_invariant(self);
            if self.items@.len() > 0 {
                assert(self.keys().contains(self.keys()[0]));
                assert(self@.contains(self.keys()[0]));
            }
        }
        self.items.len() == 0
    }

    pub fn contains(&self, path: &str) -> (r: bool)
        ensures
            r == self@.contains(path_key(path@)),
            self.listed(),
    {
        proof {
            use_type_invariant(self);
        }
        let key = key_of(path);
        self.index.contains(key.as_str())
    }

    /// The member at `i`, oldest first.
    pub fn get(&self, i: usize) -> (r: &String)
        requires
            i < self.list().len(),
        ensures
            r@ == self.list()[i as int],
    {
        &self.items[i]
    }

    /// Adds a path; tells whether it was new.
    pub fn insert(&mut self, path: String) -> (r: bool)
        ensures
            final(self)@ == old(self)@.insert(path_key(path@)),
            r == !old(self)@.contains(path_key(path@)),
            final(self).list() == if old(self)@.contains(path_key(path@)) {
                old(self).list()
            } else {
                old(self).list().push(path@)
            },
    {
        proof {
            use_type_invariant(&*self);
        }
        let key = key_of(path.as_str());
        if self.index.contains(key.as_str()) {
            assert(old(self)@ =~= old(self)@.insert(path_key(path@)));
            return false;
        }
        let ghost before = self.keys();
        let mut taken = PathSet::new();
        core::mem::swap(self, &mut taken);
        let PathSet { mut items, mut index } = taken;
        let ghost listed = views(items@);
        index.insert(key);
        items.push(path);
        let ghost after = path_keys(views(items@));
        proof {
            assert(views(items@) =~= listed.push(path@));
            assert(after =~= before.push(path_key(path@)));
            assert forall|p: Seq<char>| #[trigger] index@.contains(p) <==> after.contains(p) by {
                if before.contains(p) {
                    let i = choose|i: int| 0 <= i < before.len() && before[i] == p;
                    assert(after[i] == p);
                }
                if after.contains(p) {
                    let i = choose|i: int| 0 <= i < after.len() && after[i] == p;
                    if i < before.len() {
                        assert(before[i] == p);
                    }
                }
                assert(after[before.len() as int] == path_key(path@));
            }
        }
        *self = PathSet { items, index };
        true
    }

    /// Takes a path out; tells whether it was there.
    pub fn remove(&mut self, path: &str) -> (r: bool)
        ensures
            final(self)@ == old(self)@.remove(path_key(path@)),
            r == old(self)@.contains(path_key(path@)),
            final(self).list() == if old(self)@.contains(path_key(path@)) {
                old(self).list().remove(old(self).keys().index_of(path_key(path@)))
            } else {
                old(self).list()
            },
    {
        proof {
            use_type_invariant(&*self);
        }
        let key = key_of(path);
        if !self.index.contains(key.as_str()) {
            assert(old(self)@ =~= old(self)@.remove(path_key(path@)));
            return false;
        }
        let ghost before = self.keys();
        let mut taken = PathSet::new();
        core::mem::swap(self, &mut taken);
        let PathSet { mut items, mut index } = taken;
        let ghost listed = views(items@);
        let n = items.len();
        let mut at: usize = 0;
        while at < n && !same_text(key_of(items[at].as_str()).as_str(), key.as_str())
            invariant
                n == items@.len(),
                at <= n,
                before == path_keys(views(items@)),
                forall|j: int| 0 <= j < at ==> #[trigger] before[j] != key@,
            decreases n - at,
        {
            assert(before[at as int] == path_key(items@[at as int]@));
            at = at + 1;
        }
        proof {
            assert(before.contains(key@));
            let i = choose|i: int| 0 <= i < before.len() && before[i] == key@;
            assert(at <= i);
        }
        index.remove(key.as_str());
        items.remove(at);
        let ghost after = path_keys(views(items@));
        proof {
            assert(views(items@) =~= listed.remove(at as int));
            assert(after =~= before.remove(at as int));
            assert(before[at as int] == key@);
            assert(before.index_of(key@) == at);
            assert(after.no_duplicates()) by {
                assert forall|i: int, j: int|
                    0 <= i < after.len() && 0 <= j < after.len() && i != j implies after[i] != after[j] by {
                    let i0 = if i < at { i } else { i + 1 };
                    let j0 = if j < at { j } else { j + 1 };
                    assert(before[i0] == after[i]);
                    assert(before[j0] == after[j]);
                }
            }
            assert forall|p: Seq<char>| #[trigger] index@.contains(p) <==> after.contains(p) by {
                if index@.contains(p) {
                    let i = choose|i: int| 0 <= i < before.len() && before[i] == p;
                    let i0 = if i < at { i } else { i - 1 };
                    assert(after[i0] == p);
                }
                if after.contains(p) {
                    let i = choose|i: int| 0 <= i < after.len() && after[i] == p;
                    let i0 = if i < at { i } else { i + 1 };
                    assert(before[i0] == p);
                    assert(i0 != at);
                }
            }
        }
        *self = PathSet { items, index };
        true
    }

    pub fn clear(&mut self)
        ensures
            final(self)@ == Set::<Seq<char>>::empty(),
            final(self).list() == Seq::<Seq<char>>::empty(),
    {
        *self = PathSet::new();
    }

    /// The members as a list of their own.
    pub fn to_list(&self) -> (r: Vec<String>)
        ensures
            views(r@) == self.list(),
            self.listed(),
    {
        proof {
            use_type_invariant(self);
        }
        let mut out: Vec<String> = Vec::new();
        let n = self.items.len();
        for i in 0..n
            invariant
                n == self.items@.len(),
                views(out@) == views(self.items@).take(i as int),
        {
            let ghost before = views(out@);
            out.push(self.items[i].clone());
            assert(views(out@) =~= before.push(self.items@[i as int]@));
            assert(views(self.items@).take(i + 1) =~= views(self.items@).take(i as int).push(
                self.items@[i as int]@,
            ));
        }
        assert(views(self.items@).take(n as int) =~= views(self.items@));
        out
    }

    /// Adds every path of a list.
    pub fn insert_all(&mut self, paths: &Vec<String>)
        ensures
            forall|p: Seq<char>|
                #[trigger] final(self)@.contains(p) <==> old(self)@.contains(p) || path_keys(
                    views(paths@),
                ).contains(p),
            final(self).list() == joined(old(self).list(), views(paths@)),
    {
        let n = paths.len();
        let ghost keys = path_keys(views(paths@));
        for i in 0..n
            invariant
                n == paths@.len(),
                keys == path_keys(views(paths@)),
                forall|p: Seq<char>|
                    #[trigger] self@.contains(p) <==> old(self)@.contains(p) || keys.take(i as int).contains(p),
                self.list() == joined(old(self).list(), views(paths@).take(i as int)),
        {
            proof {
                use_type_invariant(&*self);
            }
            let ghost all = views(paths@);
            let ghost before = self@;
            assert(all.take(i + 1).drop_last() =~= all.take(i as int));
            assert(keys[i as int] == path_key(all[i as int]));
            self.insert(paths[i].clone());
            assert forall|p: Seq<char>|
                #[trigger] self@.contains(p) <==> old(self)@.contains(p) || keys.take(i + 1).contains(p) by {
                assert(self@.contains(p) <==> before.contains(p) || p == keys[i as int]);
                if keys.take(i as int).contains(p) {
                    let k = choose|k: int| 0 <= k < i && keys.take(i as int)[k] == p;
                    assert(keys.take(i + 1)[k] == p);
                }
                if keys.take(i + 1).contains(p) {
                    let head = keys.take(i + 1);
                    let k = choose|k: int| 0 <= k < head.len() && head[k] == p;
                    if k < i {
                        assert(keys.take(i as int)[k] == p);
                    }
                }
                assert(keys.take(i + 1)[i as int] == keys[i as int]);
            }
        }
        assert(views(paths@).take(n as int) =~= views(paths@));
        assert(keys.take(n as int) =~= keys);
    }

    /// The set of the paths of a list.
    pub fn from_list(paths: &Vec<String>) -> (r: PathSet)
        ensures
            forall|p: Seq<char>| #[trigger] r@.contains(p) <==> path_keys(views(paths@)).contains(p),
            r.list() == joined(seq![], views(paths@)),
    {
        let mut r = PathSet::new();
        r.insert_all(paths);
        r
    }
}

/// A path is listed once, where it first came in; another way to write it
/// adds nothing.
pub proof fn paths_are_listed_once(list: Seq<Seq<char>>, more: Seq<Seq<char>>, p: Seq<char>)
    ensures
        joined(list, Seq::<Seq<char>>::empty()) == list,
        (exists|i: int|
            0 <= i < joined(list, more).len() && path_key(#[trigger] joined(list, more)[i]) == path_key(p)) ==> joined(
            list,
            more.push(p),
        ) == joined(list, more),
        (forall|i: int|
            0 <= i < joined(list, more).len() ==> path_key(#[trigger] joined(list, more)[i]) != path_key(p))
            ==> joined(list, more.push(p)) == joined(list, more).push(p),
{
    assert(more.push(p).drop_last() == more);
    let before = joined(list, more);
    if exists|i: int| 0 <= i < before.len() && path_key(#[trigger] before[i]) == path_key(p) {
        let i = choose|i: int| 0 <= i < before.len() && path_key(#[trigger] before[i]) == path_key(p);
        assert(path_keys(before)[i] == path_key(p));
    }
    if path_keys(before).contains(path_key(p)) {
        let i = choose|i: int| 0 <= i < path_keys(before).len() && path_keys(before)[i] == path_key(p);
        assert(path_key(before[i]) == path_key(p));
    }
}

} // verus!
