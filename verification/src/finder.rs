//! Finds duplicates as files arrive.
//!
//! Files are gathered by size. Where a size has more than one file, the
//! finder asks for the hash of each file's first bytes; where two of those
//! are the same, for the hash of the whole file. The files themselves are
//! read elsewhere: `process_batch` and `full_requests` say which to read, and
//! `note_quick` and `note_full` take the answers. `rebuild` then makes the
//! groups of the sizes that were touched from all the files of that size.

use std::collections::HashMap;
use vstd::prelude::*;
use vstd::hash_map::StringHashMap;
use crate::duplicates::{
    by_path, group_of, group_views, kept, keep_files, lemma_kept, sorting_keeps_the_files,
    DuplicateGroup, GroupView,
};
use crate::order::{ahead, is_order, larger_keys_come_first, lemma_every_position, order_desc};
use crate::path_set::PathSet;
use crate::paths::{key_of, path_key};
use crate::scanner::{
    add_capped, capped, capped_count, count_capped, digest_view, file_views, full_hash_of,
    quick_hash_is_full_hash_of_small_content, quick_hash_of, FileInfo, FileView,
};

verus! {

broadcast use vstd::std_specs::hash::group_hash_axioms;

/// What a `DuplicateFinder` holds.
pub struct FinderView {
    /// The files of each size, in the order in which they arrived.
    pub buckets: Map<u64, Seq<FileView>>,
    /// The size of each file, by the key of its path.
    pub known: Map<Seq<char>, u64>,
    /// The keys of paths that were removed and are not to come back.
    pub gone: Set<Seq<char>>,
    /// Sizes whose groups are still to be made anew.
    pub pending: Seq<u64>,
    pub groups: Seq<GroupView>,
}

/// Which of the two hashes is meant.
#[derive(Debug, Clone, Copy, PartialEq, Eq, Structural)]
pub enum Tier {
    /// The hash of the first bytes.
    Quick,
    /// The hash of the whole file.
    Full,
}

/// A file to be read: the one at `index` among the files of `size`.
#[derive(Debug)]
pub struct HashRequest {
    pub size: u64,
    pub index: usize,
    pub path: String,
}

pub struct RequestView {
    pub size: u64,
    pub index: int,
    pub path: Seq<char>,
}

impl View for HashRequest {
    type V = RequestView;

    open spec fn view(&self) -> RequestView {
        RequestView { size: self.size, index: self.index as int, path: self.path@ }
    }
}

pub open spec fn request_views(v: Seq<HashRequest>) -> Seq<RequestView> {
    Seq::new(v.len(), |i: int| v[i]@)
}

/// The files of one size.
pub open spec fn bucket_of(buckets: Map<u64, Seq<FileView>>, size: u64) -> Seq<FileView> {
    if buckets.contains_key(size) {
        buckets[size]
    } else {
        seq![]
    }
}

/// The list with `x` at its end, unless it is there already.
pub open spec fn with_size(sizes: Seq<u64>, x: u64) -> Seq<u64> {
    if sizes.contains(x) {
        sizes
    } else {
        sizes.push(x)
    }
}

/// The files of a bucket that have this hash.
pub open spec fn members(bucket: Seq<FileView>, hash: Seq<char>) -> Seq<FileView>
    decreases bucket.len(),
{
    if bucket.len() == 0 {
        seq![]
    } else if bucket.last().hash == Some(hash) {
        members(bucket.drop_last(), hash).push(bucket.last())
    } else {
        members(bucket.drop_last(), hash)
    }
}

/// The group of the files of a bucket that have this hash.
pub open spec fn dup_group(bucket: Seq<FileView>, hash: Seq<char>) -> GroupView {
    group_of(hash, by_path(members(bucket, hash)))
}

/// The hashes in a bucket, each once, in the order in which they first occur.
pub open spec fn hashes(bucket: Seq<FileView>) -> Seq<Seq<char>>
    decreases bucket.len(),
{
    if bucket.len() == 0 {
        seq![]
    } else {
        let head = hashes(bucket.drop_last());
        match bucket.last().hash {
            Some(h) => if head.contains(h) {
                head
            } else {
                head.push(h)
            },
            None => head,
        }
    }
}

/// The groups of a bucket for these hashes: only where two files share one.
pub open spec fn groups_for(bucket: Seq<FileView>, hs: Seq<Seq<char>>) -> Seq<GroupView>
    decreases hs.len(),
{
    if hs.len() == 0 {
        seq![]
    } else if members(bucket, hs.last()).len() >= 2 {
        groups_for(bucket, hs.drop_last()).push(dup_group(bucket, hs.last()))
    } else {
        groups_for(bucket, hs.drop_last())
    }
}

pub open spec fn bucket_groups(bucket: Seq<FileView>) -> Seq<GroupView> {
    groups_for(bucket, hashes(bucket))
}

/// The groups of all buckets of these sizes.
pub open spec fn fresh_groups(buckets: Map<u64, Seq<FileView>>, sizes: Seq<u64>) -> Seq<GroupView>
    decreases sizes.len(),
{
    if sizes.len() == 0 {
        seq![]
    } else {
        fresh_groups(buckets, sizes.drop_last()) + bucket_groups(bucket_of(buckets, sizes.last()))
    }
}

/// The groups whose size is none of these.
pub open spec fn untouched(groups: Seq<GroupView>, sizes: Seq<u64>) -> Seq<GroupView>
    decreases groups.len(),
{
    if groups.len() == 0 {
        seq![]
    } else if sizes.contains(groups.last().file_size()) {
        untouched(groups.drop_last(), sizes)
    } else {
        untouched(groups.drop_last(), sizes).push(groups.last())
    }
}

/// Must the file at `i` be read for this hash? For the first hash: where
/// another file has its size. For the second: where another file has the
/// same first hash. In either case only where the hash is not known yet.
pub open spec fn wanted(bucket: Seq<FileView>, i: int, tier: Tier) -> bool {
    match tier {
        Tier::Quick => bucket.len() >= 2 && bucket[i].quick_hash is None,
        Tier::Full => bucket[i].hash is None && bucket[i].quick_hash is Some && exists|j: int|
            0 <= j < bucket.len() && j != i && (#[trigger] bucket[j]).quick_hash == bucket[i].quick_hash,
    }
}

/// The requests among the first `n` files of a bucket.
pub open spec fn requests_in(bucket: Seq<FileView>, size: u64, n: nat, tier: Tier) -> Seq<RequestView>
    decreases n,
{
    if n == 0 {
        seq![]
    } else {
        let i = n - 1;
        let head = requests_in(bucket, size, i as nat, tier);
        if wanted(bucket, i, tier) {
            head.push(RequestView { size, index: i, path: bucket[i].path })
        } else {
            head
        }
    }
}

pub open spec fn requests_for(buckets: Map<u64, Seq<FileView>>, sizes: Seq<u64>, tier: Tier) -> Seq<
    RequestView,
>
    decreases sizes.len(),
{
    if sizes.len() == 0 {
        seq![]
    } else {
        let b = bucket_of(buckets, sizes.last());
        requests_for(buckets, sizes.drop_last(), tier) + requests_in(b, sizes.last(), b.len(), tier)
    }
}

/// Is the file that a request speaks of there, with the hash still unknown?
pub open spec fn open_request(buckets: Map<u64, Seq<FileView>>, ask: RequestView, tier: Tier) -> bool {
    let b = bucket_of(buckets, ask.size);
    &&& 0 <= ask.index < b.len()
    &&& b[ask.index].path == ask.path
    &&& match tier {
        Tier::Quick => b[ask.index].quick_hash is None,
        Tier::Full => b[ask.index].hash is None,
    }
}

impl FinderView {
    /// One more file. A path that is known, or that was removed, is not
    /// taken in again.
    pub open spec fn register(self, f: FileView) -> FinderView {
        if self.known.contains_key(f.key()) || self.gone.contains(f.key()) {
            self
        } else {
            FinderView {
                buckets: self.buckets.insert(f.size, bucket_of(self.buckets, f.size).push(f)),
                known: self.known.insert(f.key(), f.size),
                pending: with_size(self.pending, f.size),
                ..self
            }
        }
    }

    pub open spec fn register_all(self, files: Seq<FileView>) -> FinderView
        decreases files.len(),
    {
        if files.len() == 0 {
            self
        } else {
            self.register_all(files.drop_last()).register(files.last())
        }
    }

    /// The answer to a request.
    pub open spec fn note(
        self,
        ask: RequestView,
        tier: Tier,
        digest: Result<Seq<char>, Seq<char>>,
    ) -> FinderView {
        if open_request(self.buckets, ask, tier) {
            let b = self.buckets[ask.size];
            let f = b[ask.index];
            let hashed = match tier {
                Tier::Quick => f.quick_hashed(digest),
                Tier::Full => f.hashed(digest),
            };
            FinderView {
                buckets: self.buckets.insert(ask.size, b.update(ask.index, hashed)),
                pending: with_size(self.pending, ask.size),
                ..self
            }
        } else {
            self
        }
    }

    pub open spec fn rebuild(self) -> FinderView {
        FinderView {
            groups: untouched(self.groups, self.pending) + fresh_groups(self.buckets, self.pending),
            pending: seq![],
            ..self
        }
    }

    /// Takes the path with this key out for good.
    pub open spec fn forget(self, p: Seq<char>) -> FinderView {
        if self.known.contains_key(p) {
            let s = self.known[p];
            FinderView {
                buckets: self.buckets.insert(s, kept(bucket_of(self.buckets, s), set![p])),
                known: self.known.remove(p),
                gone: self.gone.insert(p),
                pending: with_size(self.pending, s),
                ..self
            }
        } else {
            FinderView { gone: self.gone.insert(p), ..self }
        }
    }

    pub open spec fn forget_all(self, paths: Seq<Seq<char>>) -> FinderView
        decreases paths.len(),
    {
        if paths.len() == 0 {
            self
        } else {
            self.forget_all(paths.drop_last()).forget(paths.last())
        }
    }

    /// The files are kept in order: by their size, each path once, none that
    /// was removed.
    pub open spec fn well_kept(self) -> bool {
        &&& forall|s: u64, i: int|
            #![trigger self.buckets[s][i]]
            self.buckets.contains_key(s) && 0 <= i < self.buckets[s].len() ==> self.buckets[s][i].size == s
                && self.known.contains_key(self.buckets[s][i].key())
                && self.known[self.buckets[s][i].key()] == s
        &&& forall|s: u64, i: int, j: int|
            #![trigger self.buckets[s][i], self.buckets[s][j]]
            self.buckets.contains_key(s) && 0 <= i < j < self.buckets[s].len() ==> self.buckets[s][i].key()
                != self.buckets[s][j].key()
        &&& forall|p: Seq<char>| #[trigger]
            self.known.contains_key(p) ==> self.buckets.contains_key(self.known[p]) && !self.gone.contains(p)
        &&& self.pending.no_duplicates()
    }

    /// But for the sizes that are pending, the groups are the groups of
    /// identical files, each once, and there is no other.
    pub open spec fn settled(self) -> bool {
        &&& forall|g: GroupView| #[trigger]
            self.groups.contains(g) && !self.pending.contains(g.file_size()) ==> self.buckets.contains_key(
                g.file_size(),
            ) && members(self.buckets[g.file_size()], g.hash).len() >= 2 && g == dup_group(
                self.buckets[g.file_size()],
                g.hash,
            )
        &&& forall|s: u64, h: Seq<char>|
            #![trigger members(self.buckets[s], h)]
            self.buckets.contains_key(s) && !self.pending.contains(s) && members(self.buckets[s], h).len()
                >= 2 ==> self.groups.contains(dup_group(self.buckets[s], h))
        &&& forall|i: int, j: int|
            0 <= i < j < self.groups.len() ==> (#[trigger] self.groups[i]).hash != (#[trigger] self.groups[j]).hash
                || self.groups[i].file_size() != self.groups[j].file_size()
    }
}

// ----- lemmas --------------------------------------------------------------

pub proof fn lemma_members(bucket: Seq<FileView>, h: Seq<char>)
    ensures
        forall|f: FileView| #[trigger] members(bucket, h).contains(f) <==> bucket.contains(f) && f.hash == Some(h),
        members(bucket, h).len() > 0 <==> hashes(bucket).contains(h),
        hashes(bucket).no_duplicates(),
        members(bucket, h).len() <= bucket.len(),
    decreases bucket.len(),
{
    if bucket.len() > 0 {
        let head = bucket.drop_last();
        lemma_members(head, h);
        let m = members(head, h);
        let last = bucket.last();
        assert forall|f: FileView| #[trigger] members(bucket, h).contains(f) <==> bucket.contains(f)
            && f.hash == Some(h) by {
            if m.contains(f) && last.hash == Some(h) {
                let k = choose|k: int| 0 <= k < m.len() && m[k] == f;
                assert(m.push(last)[k] == f);
            }
            if head.contains(f) {
                let k = choose|k: int| 0 <= k < head.len() && head[k] == f;
                assert(bucket[k] == f);
            }
            if bucket.contains(f) {
                let k = choose|k: int| 0 <= k < bucket.len() && bucket[k] == f;
                if k < head.len() {
                    assert(head[k] == f);
                } else if f.hash == Some(h) {
                    assert(m.push(last)[m.len() as int] == f);
                }
            }
            assert(bucket[bucket.len() - 1] == last);
        }
        let hs = hashes(head);
        match last.hash {
            Some(x) => {
                if !hs.contains(x) {
                    assert(hs.push(x)[hs.len() as int] == x);
                    if hs.contains(h) {
                        let k = choose|k: int| 0 <= k < hs.len() && hs[k] == h;
                        assert(hs.push(x)[k] == h);
                    }
                }
            },
            None => {},
        }
    }
}

/// A group of a bucket is the group of one of its hashes.
proof fn lemma_groups_for(bucket: Seq<FileView>, hs: Seq<Seq<char>>, s: u64)
    requires
        hs.no_duplicates(),
        forall|i: int| 0 <= i < bucket.len() ==> (#[trigger] bucket[i]).size == s,
    ensures
        forall|g: GroupView| #[trigger]
            groups_for(bucket, hs).contains(g) <==> hs.contains(g.hash) && members(bucket, g.hash).len() >= 2
                && g == dup_group(bucket, g.hash),
        forall|g: GroupView| #[trigger] groups_for(bucket, hs).contains(g) ==> g.file_size() == s,
        forall|i: int, j: int|
            0 <= i < j < groups_for(bucket, hs).len() ==> (#[trigger] groups_for(bucket, hs)[i]).hash
                != (#[trigger] groups_for(bucket, hs)[j]).hash,
    decreases hs.len(),
{
    if hs.len() > 0 {
        let head = hs.drop_last();
        let h = hs.last();
        lemma_groups_for(bucket, head, s);
        lemma_members(bucket, h);
        let gs = groups_for(bucket, head);
        let all = groups_for(bucket, hs);
        let d = dup_group(bucket, h);
        assert(d.hash == h);
        assert forall|x: Seq<char>| #[trigger] hs.contains(x) <==> head.contains(x) || x == h by {
            if head.contains(x) {
                let k = choose|k: int| 0 <= k < head.len() && head[k] == x;
                assert(hs[k] == x);
            }
            if hs.contains(x) {
                let k = choose|k: int| 0 <= k < hs.len() && hs[k] == x;
                if k < head.len() {
                    assert(head[k] == x);
                }
            }
            assert(hs[hs.len() - 1] == h);
        }
        if members(bucket, h).len() >= 2 {
            assert forall|g: GroupView| #[trigger] all.contains(g) <==> gs.contains(g) || g == d by {
                if gs.contains(g) {
                    let k = choose|k: int| 0 <= k < gs.len() && gs[k] == g;
                    assert(all[k] == g);
                }
                assert(all[gs.len() as int] == d);
            }
            sorting_keeps_the_files(members(bucket, h));
            let sorted = by_path(members(bucket, h));
            assert(sorted.contains(sorted[0]));
            let k = choose|k: int| 0 <= k < bucket.len() && bucket[k] == sorted[0];
            assert(d.file_size() == s);
            assert forall|i: int, j: int| 0 <= i < j < all.len() implies (#[trigger] all[i]).hash != (
            #[trigger] all[j]).hash by {
                if j == gs.len() {
                    assert(gs.contains(gs[i]));
                    assert(head.contains(gs[i].hash));
                    let k = choose|k: int| 0 <= k < head.len() && head[k] == gs[i].hash;
                    assert(hs[k] == gs[i].hash);
                    assert(hs[k] != hs[hs.len() - 1]);
                }
            }
        }
    }
}

proof fn lemma_bucket_groups(v: FinderView, s: u64)
    requires
        v.well_kept(),
    ensures
        forall|g: GroupView| #[trigger]
            bucket_groups(bucket_of(v.buckets, s)).contains(g) <==> v.buckets.contains_key(s) && members(
                v.buckets[s],
                g.hash,
            ).len() >= 2 && g == dup_group(v.buckets[s], g.hash),
        forall|g: GroupView| #[trigger] bucket_groups(bucket_of(v.buckets, s)).contains(g) ==> g.file_size() == s,
        forall|i: int, j: int|
            0 <= i < j < bucket_groups(bucket_of(v.buckets, s)).len() ==> (#[trigger] bucket_groups(
                bucket_of(v.buckets, s),
            )[i]).hash != (#[trigger] bucket_groups(bucket_of(v.buckets, s))[j]).hash,
{
    let b = bucket_of(v.buckets, s);
    assert forall|i: int| 0 <= i < b.len() implies (#[trigger] b[i]).size == s by {
        assert(v.buckets[s][i] == b[i]);
    }
    lemma_members(b, seq![]);
    lemma_groups_for(b, hashes(b), s);
    assert forall|g: GroupView| members(b, g.hash).len() >= 2 implies #[trigger] hashes(b).contains(g.hash) by {
        lemma_members(b, g.hash);
    }
    if !v.buckets.contains_key(s) {
        assert(hashes(b) =~= seq![]);
    }
}

proof fn lemma_fresh(v: FinderView, sizes: Seq<u64>)
    requires
        v.well_kept(),
        sizes.no_duplicates(),
    ensures
        forall|g: GroupView| #[trigger]
            fresh_groups(v.buckets, sizes).contains(g) <==> sizes.contains(g.file_size())
                && v.buckets.contains_key(g.file_size()) && members(v.buckets[g.file_size()], g.hash).len()
                >= 2 && g == dup_group(v.buckets[g.file_size()], g.hash),
        forall|i: int, j: int|
            0 <= i < j < fresh_groups(v.buckets, sizes).len() ==> (#[trigger] fresh_groups(
                v.buckets,
                sizes,
            )[i]).hash != (#[trigger] fresh_groups(v.buckets, sizes)[j]).hash || fresh_groups(
                v.buckets,
                sizes,
            )[i].file_size() != fresh_groups(v.buckets, sizes)[j].file_size(),
    decreases sizes.len(),
{
    if sizes.len() > 0 {
        let head = sizes.drop_last();
        let s = sizes.last();
        lemma_fresh(v, head);
        lemma_bucket_groups(v, s);
        let a = fresh_groups(v.buckets, head);
        let b = bucket_groups(bucket_of(v.buckets, s));
        assert forall|g: GroupView| #[trigger] (a + b).contains(g) <==> a.contains(g) || b.contains(g) by {
            lemma_add_contains(a, b, g);
        }
        assert forall|x: u64| #[trigger] sizes.contains(x) <==> head.contains(x) || x == s by {
            if head.contains(x) {
                let k = choose|k: int| 0 <= k < head.len() && head[k] == x;
                assert(sizes[k] == x);
            }
            if sizes.contains(x) {
                let k = choose|k: int| 0 <= k < sizes.len() && sizes[k] == x;
                if k < head.len() {
                    assert(head[k] == x);
                }
            }
            assert(sizes[sizes.len() - 1] == s);
        }
        assert(!head.contains(s)) by {
            if head.contains(s) {
                let k = choose|k: int| 0 <= k < head.len() && head[k] == s;
                assert(sizes[k] == sizes[sizes.len() - 1]);
            }
        }
        let all = a + b;
        assert forall|i: int, j: int| 0 <= i < j < all.len() implies (#[trigger] all[i]).hash != (
        #[trigger] all[j]).hash || all[i].file_size() != all[j].file_size() by {
            if j >= a.len() {
                assert(b.contains(b[j - a.len()]));
                if i < a.len() {
                    assert(a.contains(a[i]));
                    assert(head.contains(all[i].file_size()));
                } else {
                    assert(b.contains(b[i - a.len()]));
                }
            }
        }
        assert forall|g: GroupView| #[trigger] all.contains(g) <==> sizes.contains(g.file_size())
            && v.buckets.contains_key(g.file_size()) && members(v.buckets[g.file_size()], g.hash).len() >= 2
            && g == dup_group(v.buckets[g.file_size()], g.hash) by {
            if sizes.contains(g.file_size()) && g.file_size() == s {
                assert(b.contains(g) <==> v.buckets.contains_key(s) && members(v.buckets[s], g.hash).len() >= 2
                    && g == dup_group(v.buckets[s], g.hash));
            }
        }
    }
}

proof fn lemma_add_contains(a: Seq<GroupView>, b: Seq<GroupView>, g: GroupView)
    ensures
        (a + b).contains(g) <==> a.contains(g) || b.contains(g),
{
    if a.contains(g) {
        let k = choose|k: int| 0 <= k < a.len() && a[k] == g;
        assert((a + b)[k] == g);
    }
    if b.contains(g) {
        let k = choose|k: int| 0 <= k < b.len() && b[k] == g;
        assert((a + b)[a.len() + k] == g);
    }
    if (a + b).contains(g) {
        let k = choose|k: int| 0 <= k < (a + b).len() && (a + b)[k] == g;
        if k < a.len() {
            assert(a[k] == g);
        } else {
            assert(b[k - a.len()] == g);
        }
    }
}

spec fn distinct(groups: Seq<GroupView>) -> bool {
    forall|i: int, j: int|
        0 <= i < j < groups.len() ==> (#[trigger] groups[i]).hash != (#[trigger] groups[j]).hash
            || groups[i].file_size() != groups[j].file_size()
}

proof fn lemma_untouched(groups: Seq<GroupView>, sizes: Seq<u64>)
    ensures
        forall|g: GroupView| #[trigger]
            untouched(groups, sizes).contains(g) <==> groups.contains(g) && !sizes.contains(g.file_size()),
        distinct(groups) ==> distinct(untouched(groups, sizes)),
    decreases groups.len(),
{
    if groups.len() > 0 {
        let head = groups.drop_last();
        let last = groups.last();
        lemma_untouched(head, sizes);
        let u = untouched(head, sizes);
        let all = untouched(groups, sizes);
        assert forall|g: GroupView| #[trigger] groups.contains(g) <==> head.contains(g) || g == last by {
            lemma_add_contains(head, seq![last], g);
            assert(groups =~= head + seq![last]);
            assert(seq![last][0] == last);
        }
        if !sizes.contains(last.file_size()) {
            assert forall|g: GroupView| #[trigger] all.contains(g) <==> u.contains(g) || g == last by {
                lemma_add_contains(u, seq![last], g);
                assert(all =~= u + seq![last]);
                assert(seq![last][0] == last);
            }
            if distinct(groups) {
                assert(distinct(head));
                assert forall|i: int, j: int| 0 <= i < j < all.len() implies (#[trigger] all[i]).hash != (
                #[trigger] all[j]).hash || all[i].file_size() != all[j].file_size() by {
                    if j == u.len() {
                        assert(u.contains(u[i]));
                        let k = choose|k: int| 0 <= k < head.len() && head[k] == u[i];
                        assert(groups[k] == u[i]);
                        assert(groups[groups.len() - 1] == last);
                    }
                }
            }
        } else if distinct(groups) {
            assert(distinct(head));
        }
    }
}

/// Rebuilding settles: afterwards the groups are exactly the groups of
/// identical files.
pub proof fn rebuilding_settles(v: FinderView)
    requires
        v.well_kept(),
        v.settled(),
    ensures
        v.rebuild().settled(),
        v.rebuild().well_kept(),
        v.rebuild().pending.len() == 0,
{
    let r = v.rebuild();
    let u = untouched(v.groups, v.pending);
    let f = fresh_groups(v.buckets, v.pending);
    lemma_untouched(v.groups, v.pending);
    lemma_fresh(v, v.pending);
    assert(distinct(v.groups));
    assert forall|g: GroupView| #[trigger] r.groups.contains(g) <==> u.contains(g) || f.contains(g) by {
        lemma_add_contains(u, f, g);
    }
    assert forall|i: int, j: int| 0 <= i < j < r.groups.len() implies (#[trigger] r.groups[i]).hash != (
    #[trigger] r.groups[j]).hash || r.groups[i].file_size() != r.groups[j].file_size() by {
        if j >= u.len() {
            assert(f.contains(f[j - u.len()]));
            if i < u.len() {
                assert(u.contains(u[i]));
            }
        }
    }
    assert forall|s: u64, h: Seq<char>|
        #![trigger members(r.buckets[s], h)]
        r.buckets.contains_key(s) && members(r.buckets[s], h).len() >= 2 implies r.groups.contains(
        dup_group(r.buckets[s], h),
    ) by {
        let d = dup_group(v.buckets[s], h);
        lemma_bucket_groups(v, s);
        assert(d.hash == h);
        assert(bucket_groups(bucket_of(v.buckets, s)).contains(d));
        assert(d.file_size() == s);
        if v.pending.contains(s) {
            assert(f.contains(d));
        } else {
            assert(members(v.buckets[s], h).len() >= 2);
            assert(v.groups.contains(d));
            assert(u.contains(d));
        }
    }
    assert forall|g: GroupView| #[trigger] r.groups.contains(g) implies r.buckets.contains_key(g.file_size())
        && members(r.buckets[g.file_size()], g.hash).len() >= 2 && g == dup_group(
        r.buckets[g.file_size()],
        g.hash,
    ) by {
        if u.contains(g) {
            assert(v.groups.contains(g));
        }
    }
}

/// Changing the files of a size that is pending leaves the rest settled.
proof fn lemma_touch(v: FinderView, w: FinderView, s: u64)
    requires
        v.settled(),
        w.groups == v.groups,
        w.pending == with_size(v.pending, s),
        w.buckets.contains_key(s),
        forall|t: u64|
            t != s ==> (#[trigger] w.buckets.contains_key(t) <==> v.buckets.contains_key(t)) && w.buckets[t]
                == v.buckets[t],
    ensures
        w.settled(),
{
    lemma_with_size(v.pending, s);
    assert forall|g: GroupView| #[trigger]
        w.groups.contains(g) && !w.pending.contains(g.file_size()) implies w.buckets.contains_key(g.file_size())
        && members(w.buckets[g.file_size()], g.hash).len() >= 2 && g == dup_group(
        w.buckets[g.file_size()],
        g.hash,
    ) by {
        assert(v.groups.contains(g));
        assert(w.buckets.contains_key(g.file_size()) <==> v.buckets.contains_key(g.file_size()));
    }
    assert forall|t: u64, h: Seq<char>|
        #![trigger members(w.buckets[t], h)]
        w.buckets.contains_key(t) && !w.pending.contains(t) && members(w.buckets[t], h).len() >= 2 implies
        w.groups.contains(dup_group(w.buckets[t], h)) by {
        assert(w.buckets.contains_key(t) <==> v.buckets.contains_key(t));
        assert(members(v.buckets[t], h).len() >= 2);
    }
}

proof fn lemma_with_size(sizes: Seq<u64>, s: u64)
    ensures
        forall|x: u64| #[trigger] with_size(sizes, s).contains(x) <==> sizes.contains(x) || x == s,
        sizes.no_duplicates() ==> with_size(sizes, s).no_duplicates(),
{
    let r = with_size(sizes, s);
    assert forall|x: u64| #[trigger] r.contains(x) <==> sizes.contains(x) || x == s by {
        if !sizes.contains(s) {
            if sizes.contains(x) {
                let k = choose|k: int| 0 <= k < sizes.len() && sizes[k] == x;
                assert(r[k] == x);
            }
            assert(r[sizes.len() as int] == s);
        }
    }
}

/// Taking in a file keeps what was in order in order.
pub proof fn registering_keeps_order(v: FinderView, f: FileView)
    requires
        v.well_kept(),
        v.settled(),
    ensures
        v.register(f).well_kept(),
        v.register(f).settled(),
{
    if !(v.known.contains_key(f.key()) || v.gone.contains(f.key())) {
        let w = v.register(f);
        lemma_with_size(v.pending, f.size);
        lemma_touch(v, w, f.size);
    }
}

/// A hash that comes in keeps what was in order in order.
pub proof fn noting_keeps_order(v: FinderView, ask: RequestView, tier: Tier, digest: Result<Seq<char>, Seq<char>>)
    requires
        v.well_kept(),
        v.settled(),
    ensures
        v.note(ask, tier, digest).well_kept(),
        v.note(ask, tier, digest).settled(),
{
    if open_request(v.buckets, ask, tier) {
        let w = v.note(ask, tier, digest);
        lemma_with_size(v.pending, ask.size);
        lemma_touch(v, w, ask.size);
        let b = v.buckets[ask.size];
        let c = w.buckets[ask.size];
        assert forall|i: int| 0 <= i < b.len() implies (#[trigger] c[i]).key() == b[i].key() && c[i].size == b[i].size by {
        }
        assert forall|s: u64, i: int|
            #![trigger w.buckets[s][i]]
            w.buckets.contains_key(s) && 0 <= i < w.buckets[s].len() implies w.buckets[s][i].size == s
            && w.known.contains_key(w.buckets[s][i].key()) && w.known[w.buckets[s][i].key()] == s by {
            assert(v.buckets[s][i].key() == w.buckets[s][i].key());
        }
        assert forall|s: u64, i: int, j: int|
            #![trigger w.buckets[s][i], w.buckets[s][j]]
            w.buckets.contains_key(s) && 0 <= i < j < w.buckets[s].len() implies w.buckets[s][i].key()
            != w.buckets[s][j].key() by {
            assert(v.buckets[s][i].key() == w.buckets[s][i].key());
            assert(v.buckets[s][j].key() == w.buckets[s][j].key());
        }
    }
}

/// Removing a path keeps what was in order in order.
pub proof fn forgetting_keeps_order(v: FinderView, p: Seq<char>)
    requires
        v.well_kept(),
        v.settled(),
    ensures
        v.forget(p).well_kept(),
        v.forget(p).settled(),
{
    let w = v.forget(p);
    if v.known.contains_key(p) {
        let s = v.known[p];
        let b = v.buckets[s];
        lemma_kept(b, set![p]);
        lemma_kept_distinct(b, set![p]);
        lemma_with_size(v.pending, s);
        lemma_touch(v, w, s);
        assert forall|t: u64, i: int|
            #![trigger w.buckets[t][i]]
            w.buckets.contains_key(t) && 0 <= i < w.buckets[t].len() implies w.buckets[t][i].size == t
            && w.known.contains_key(w.buckets[t][i].key()) && w.known[w.buckets[t][i].key()] == t by {
            let f = w.buckets[t][i];
            if t == s {
                assert(w.buckets[s].contains(f));
                assert(b.contains(f) && !set![p].contains(f.key()));
                let k = choose|k: int| 0 <= k < b.len() && b[k] == f;
                assert(v.buckets[s][k] == f);
            } else {
                assert(v.buckets[t][i] == f);
            }
        }
        assert forall|t: u64, i: int, j: int|
            #![trigger w.buckets[t][i], w.buckets[t][j]]
            w.buckets.contains_key(t) && 0 <= i < j < w.buckets[t].len() implies w.buckets[t][i].key()
            != w.buckets[t][j].key() by {
            if t != s {
                assert(v.buckets[t][i].key() != v.buckets[t][j].key());
            }
        }
    } else {
        assert(w.settled());
    }
}

proof fn lemma_kept_distinct(files: Seq<FileView>, gone: Set<Seq<char>>)
    requires
        forall|i: int, j: int| 0 <= i < j < files.len() ==> (#[trigger] files[i]).key() != (#[trigger] files[j]).key(),
    ensures
        forall|i: int, j: int|
            0 <= i < j < kept(files, gone).len() ==> (#[trigger] kept(files, gone)[i]).key() != (
            #[trigger] kept(files, gone)[j]).key(),
    decreases files.len(),
{
    if files.len() > 0 {
        let head = files.drop_last();
        assert forall|i: int, j: int| 0 <= i < j < head.len() implies (#[trigger] head[i]).key() != (
        #[trigger] head[j]).key() by {
            assert(files[i] == head[i] && files[j] == head[j]);
        }
        lemma_kept_distinct(head, gone);
        lemma_kept(head, gone);
        let k = kept(head, gone);
        assert forall|i: int, j: int| 0 <= i < j < kept(files, gone).len() implies (#[trigger] kept(
            files,
            gone,
        )[i]).key() != (#[trigger] kept(files, gone)[j]).key() by {
            if j == k.len() {
                assert(k.contains(k[i]));
                let m = choose|m: int| 0 <= m < head.len() && head[m] == k[i];
                assert(files[m] == k[i]);
                assert(files[files.len() - 1] == files.last());
            }
        }
    }
}

// ----- laws ----------------------------------------------------------------

/// Only real duplicates are ever grouped: all files of a group are known to
/// the finder and have the same size and the same full hash, and there are
/// at least two of them.
pub proof fn groups_hold_only_duplicates(v: FinderView, g: GroupView)
    requires
        v.well_kept(),
        v.settled(),
        v.groups.contains(g),
        !v.pending.contains(g.file_size()),
    ensures
        g.files.len() >= 2,
        forall|i: int|
            0 <= i < g.files.len() ==> {
                let f = #[trigger] g.files[i];
                &&& f.size == g.file_size()
                &&& f.hash == Some(g.hash)
                &&& v.known.contains_key(f.key())
                &&& v.buckets[f.size].contains(f)
            },
{
    let b = v.buckets[g.file_size()];
    lemma_members(b, g.hash);
    sorting_keeps_the_files(members(b, g.hash));
    assert forall|i: int| 0 <= i < g.files.len() implies {
        let f = #[trigger] g.files[i];
        &&& f.size == g.file_size()
        &&& f.hash == Some(g.hash)
        &&& v.known.contains_key(f.key())
        &&& v.buckets[f.size].contains(f)
    } by {
        let f = g.files[i];
        assert(g.files.contains(f));
        let k = choose|k: int| 0 <= k < b.len() && b[k] == f;
        assert(v.buckets[g.file_size()][k] == f);
    }
}

/// Every pair of duplicates is found: two files of one size whose full
/// hashes are known and equal stand in one group.
pub proof fn duplicates_are_grouped(v: FinderView, s: u64, i: int, j: int)
    requires
        v.well_kept(),
        v.settled(),
        v.buckets.contains_key(s),
        !v.pending.contains(s),
        0 <= i < j < v.buckets[s].len(),
        v.buckets[s][i].hash is Some,
        v.buckets[s][i].hash == v.buckets[s][j].hash,
    ensures
        exists|g: GroupView| #[trigger]
            v.groups.contains(g) && g.files.contains(v.buckets[s][i]) && g.files.contains(v.buckets[s][j]),
{
    let b = v.buckets[s];
    let h = b[i].hash->0;
    lemma_members(b, h);
    assert(b.contains(b[i]) && b.contains(b[j]));
    let m = members(b, h);
    assert(m.contains(b[i]) && m.contains(b[j]));
    let x = choose|x: int| 0 <= x < m.len() && m[x] == b[i];
    let y = choose|y: int| 0 <= y < m.len() && m[y] == b[j];
    assert(x != y);
    sorting_keeps_the_files(m);
    assert(members(v.buckets[s], h).len() >= 2);
    assert(v.groups.contains(dup_group(b, h)));
}

/// Does the finder know of a file only what is true, `disk` being what the
/// files hold? The size is that of the content, and a hash that is known is
/// the content's.
pub open spec fn true_of(f: FileView, disk: Map<Seq<char>, Seq<u8>>) -> bool {
    &&& disk.contains_key(f.path)
    &&& disk[f.path].len() == f.size
    &&& f.quick_hash is Some ==> f.quick_hash->0 == quick_hash_of(disk[f.path])
    &&& f.hash is Some ==> f.hash->0 == full_hash_of(disk[f.path])
}

pub open spec fn true_to(v: FinderView, disk: Map<Seq<char>, Seq<u8>>) -> bool {
    forall|s: u64, i: int|
        #![trigger v.buckets[s][i]]
        v.buckets.contains_key(s) && 0 <= i < v.buckets[s].len() ==> true_of(v.buckets[s][i], disk)
}

/// What reading the file of a request gives.
pub open spec fn digest_on(disk: Map<Seq<char>, Seq<u8>>, ask: RequestView, tier: Tier) -> Seq<char> {
    match tier {
        Tier::Quick => quick_hash_of(disk[ask.path]),
        Tier::Full => full_hash_of(disk[ask.path]),
    }
}

/// While the files stay as they are, what the finder knows of them stays
/// true: when a file is taken in, when a hash was read, when a file could not
/// be read, and when a file is removed.
pub proof fn knowledge_stays_true(
    v: FinderView,
    disk: Map<Seq<char>, Seq<u8>>,
    f: FileView,
    ask: RequestView,
    tier: Tier,
    error: Seq<char>,
)
    requires
        v.well_kept(),
        true_to(v, disk),
    ensures
        true_of(f, disk) ==> true_to(v.register(f), disk),
        true_to(v.note(ask, tier, Ok(digest_on(disk, ask, tier))), disk),
        true_to(v.note(ask, tier, Err(error)), disk),
        true_to(v.forget(ask.path), disk),
        true_to(v.rebuild(), disk),
{
    let r = v.register(f);
    assert forall|s: u64, i: int|
        #![trigger r.buckets[s][i]]
        true_of(f, disk) && r.buckets.contains_key(s) && 0 <= i < r.buckets[s].len() implies true_of(
        r.buckets[s][i],
        disk,
    ) by {
        if i < bucket_of(v.buckets, s).len() {
            assert(r.buckets[s][i] == v.buckets[s][i]);
        }
    }
    if disk.contains_key(ask.path) && disk[ask.path].len() <= crate::scanner::QUICK_HASH_BYTES {
        quick_hash_is_full_hash_of_small_content(disk[ask.path]);
    }
    let n = v.note(ask, tier, Ok(digest_on(disk, ask, tier)));
    assert forall|s: u64, i: int|
        #![trigger n.buckets[s][i]]
        n.buckets.contains_key(s) && 0 <= i < n.buckets[s].len() implies true_of(n.buckets[s][i], disk) by {
        assert(true_of(v.buckets[s][i], disk));
    }
    let e = v.note(ask, tier, Err(error));
    assert forall|s: u64, i: int|
        #![trigger e.buckets[s][i]]
        e.buckets.contains_key(s) && 0 <= i < e.buckets[s].len() implies true_of(e.buckets[s][i], disk) by {
        assert(true_of(v.buckets[s][i], disk));
    }
    let g = v.forget(ask.path);
    assert forall|s: u64, i: int|
        #![trigger g.buckets[s][i]]
        g.buckets.contains_key(s) && 0 <= i < g.buckets[s].len() implies true_of(g.buckets[s][i], disk) by {
        let b = bucket_of(v.buckets, s);
        lemma_kept(b, set![ask.path]);
        assert(g.buckets[s].contains(g.buckets[s][i]));
        let k = choose|k: int| 0 <= k < b.len() && b[k] == g.buckets[s][i];
        assert(true_of(v.buckets[s][k], disk));
    }
    assert forall|s: u64, i: int|
        #![trigger v.rebuild().buckets[s][i]]
        v.rebuild().buckets.contains_key(s) && 0 <= i < v.rebuild().buckets[s].len() implies true_of(
        v.rebuild().buckets[s][i],
        disk,
    ) by {
        assert(true_of(v.buckets[s][i], disk));
    }
}

/// Files with the same content end in one group: once every file of their
/// size was read that had to be, and the groups were made anew.
pub proof fn identical_files_are_grouped(
    v: FinderView,
    disk: Map<Seq<char>, Seq<u8>>,
    s: u64,
    i: int,
    j: int,
)
    requires
        v.well_kept(),
        v.settled(),
        true_to(v, disk),
        v.buckets.contains_key(s),
        !v.pending.contains(s),
        0 <= i < j < v.buckets[s].len(),
        disk[v.buckets[s][i].path] == disk[v.buckets[s][j].path],
        forall|k: int|
            0 <= k < v.buckets[s].len() ==> !#[trigger] wanted(v.buckets[s], k, Tier::Quick) && !wanted(
                v.buckets[s],
                k,
                Tier::Full,
            ),
    ensures
        exists|g: GroupView| #[trigger]
            v.groups.contains(g) && g.files.contains(v.buckets[s][i]) && g.files.contains(v.buckets[s][j]),
{
    let b = v.buckets[s];
    assert(true_of(b[i], disk) && true_of(b[j], disk));
    assert(!wanted(b, i, Tier::Quick) && !wanted(b, j, Tier::Quick));
    assert(b[i].quick_hash == b[j].quick_hash);
    assert(b[i].hash is Some && b[j].hash is Some);
    duplicates_are_grouped(v, s, i, j);
}

/// Files of one group are of one size, and their contents have one digest.
pub proof fn grouped_files_have_one_digest(
    v: FinderView,
    disk: Map<Seq<char>, Seq<u8>>,
    g: GroupView,
    i: int,
    j: int,
)
    requires
        v.well_kept(),
        v.settled(),
        true_to(v, disk),
        v.groups.contains(g),
        !v.pending.contains(g.file_size()),
        0 <= i < g.files.len(),
        0 <= j < g.files.len(),
    ensures
        disk[g.files[i].path].len() == disk[g.files[j].path].len(),
        full_hash_of(disk[g.files[i].path]) == full_hash_of(disk[g.files[j].path]),
{
    groups_hold_only_duplicates(v, g);
    let b = v.buckets[g.file_size()];
    let a = g.files[i];
    let c = g.files[j];
    let k = choose|k: int| 0 <= k < b.len() && b[k] == a;
    let m = choose|m: int| 0 <= m < b.len() && b[m] == c;
    assert(true_of(v.buckets[g.file_size()][k], disk));
    assert(true_of(v.buckets[g.file_size()][m], disk));
}

/// A file that was removed is in no group any more.
pub proof fn removed_files_are_in_no_group(v: FinderView, g: GroupView, p: Seq<char>)
    requires
        v.well_kept(),
        v.settled(),
        v.pending.len() == 0,
        v.groups.contains(g),
        v.gone.contains(p),
    ensures
        forall|i: int| 0 <= i < g.files.len() ==> (#[trigger] g.files[i]).key() != p,
{
    groups_hold_only_duplicates(v, g);
}

/// A file whose size no other file has is never read.
pub proof fn lone_sizes_are_not_read(bucket: Seq<FileView>, size: u64)
    requires
        bucket.len() <= 1,
    ensures
        requests_in(bucket, size, bucket.len(), Tier::Quick).len() == 0,
        requests_in(bucket, size, bucket.len(), Tier::Full).len() == 0,
{
    reveal_with_fuel(requests_in, 2);
}

/// A file is read at most once for each of the two hashes: a request is only
/// made while its hash is unknown, and once the file was read the hash is
/// known.
pub proof fn files_are_read_once(v: FinderView, ask: RequestView, tier: Tier, digest: Result<Seq<char>, Seq<char>>)
    requires
        open_request(v.buckets, ask, tier),
        digest is Ok,
    ensures
        !open_request(v.note(ask, tier, digest).buckets, ask, tier),
        !wanted(v.note(ask, tier, digest).buckets[ask.size], ask.index, tier),
{
}

/// Every request speaks of a file that has to be read for that hash.
pub proof fn requests_are_wanted(bucket: Seq<FileView>, size: u64, n: nat, tier: Tier)
    requires
        n <= bucket.len(),
    ensures
        forall|k: int|
            0 <= k < requests_in(bucket, size, n, tier).len() ==> {
                let ask = #[trigger] requests_in(bucket, size, n, tier)[k];
                &&& ask.size == size
                &&& 0 <= ask.index < n
                &&& ask.path == bucket[ask.index].path
                &&& wanted(bucket, ask.index, tier)
            },
    decreases n,
{
    if n > 0 {
        requests_are_wanted(bucket, size, (n - 1) as nat, tier);
    }
}

proof fn lemma_requests_in(bucket: Seq<FileView>, size: u64, n: nat, tier: Tier, k: int)
    requires
        0 <= k < n <= bucket.len(),
        wanted(bucket, k, tier),
    ensures
        requests_in(bucket, size, n, tier).contains(
            RequestView { size, index: k, path: bucket[k].path },
        ),
    decreases n,
{
    let all = requests_in(bucket, size, n, tier);
    let ask = RequestView { size, index: k, path: bucket[k].path };
    if k == n - 1 {
        assert(all[all.len() - 1] == ask);
    } else {
        lemma_requests_in(bucket, size, (n - 1) as nat, tier, k);
        let head = requests_in(bucket, size, (n - 1) as nat, tier);
        let x = choose|x: int| 0 <= x < head.len() && head[x] == ask;
        assert(all[x] == ask);
    }
}

/// Every file that has to be read is asked for.
pub proof fn wanted_files_are_requested(
    buckets: Map<u64, Seq<FileView>>,
    sizes: Seq<u64>,
    tier: Tier,
    s: u64,
    k: int,
)
    requires
        sizes.contains(s),
        buckets.contains_key(s),
        0 <= k < buckets[s].len(),
        wanted(buckets[s], k, tier),
    ensures
        requests_for(buckets, sizes, tier).contains(
            RequestView { size: s, index: k, path: buckets[s][k].path },
        ),
    decreases sizes.len(),
{
    let ask = RequestView { size: s, index: k, path: buckets[s][k].path };
    let b = bucket_of(buckets, sizes.last());
    let head = requests_for(buckets, sizes.drop_last(), tier);
    let tail = requests_in(b, sizes.last(), b.len(), tier);
    let all = requests_for(buckets, sizes, tier);
    if sizes.last() == s {
        lemma_requests_in(b, s, b.len(), tier, k);
        let x = choose|x: int| 0 <= x < tail.len() && tail[x] == ask;
        assert(all[head.len() + x] == ask);
    } else {
        let x = choose|x: int| 0 <= x < sizes.len() && sizes[x] == s;
        assert(sizes.drop_last()[x] == s);
        wanted_files_are_requested(buckets, sizes.drop_last(), tier, s, k);
        let y = choose|y: int| 0 <= y < head.len() && head[y] == ask;
        assert(all[y] == ask);
    }
}

/// Every answer leaves fewer files to read: that file need not be read for
/// that hash any more, and no other has to be that did not have to be.
pub proof fn answers_leave_less_to_read(
    v: FinderView,
    ask: RequestView,
    tier: Tier,
    digest: Seq<char>,
    s: u64,
    k: int,
)
    requires
        open_request(v.buckets, ask, tier),
        wanted(v.buckets[ask.size], ask.index, tier),
        v.buckets.contains_key(s),
        0 <= k < v.buckets[s].len(),
        wanted(v.note(ask, tier, Ok(digest)).buckets[s], k, tier),
    ensures
        wanted(v.buckets[s], k, tier),
        s != ask.size || k != ask.index,
{
    let b = v.buckets[s];
    let c = v.note(ask, tier, Ok(digest)).buckets[s];
    if tier == Tier::Full {
        assert forall|j: int| 0 <= j < b.len() implies (#[trigger] c[j]).quick_hash == b[j].quick_hash by {
        }
        let j = choose|j: int|
            0 <= j < c.len() && j != k && (#[trigger] c[j]).quick_hash == c[k].quick_hash;
        assert(b[j].quick_hash == b[k].quick_hash);
    }
}

// ----- the finder ----------------------------------------------------------

pub struct DuplicateFinder {
    found: FoundGroups,
    size_groups: HashMap<u64, Vec<FileInfo>>,
    known: StringHashMap<u64>,
    gone: PathSet,
    pending: Vec<u64>,
}

/// The groups that were found, with their totals. Sorting them and adding
/// them up is put off until it is asked for.
struct FoundGroups {
    groups: Vec<DuplicateGroup>,
    total_duplicates: usize,
    total_wasted_space: u64,
    needs_sort: bool,
    needs_stats_update: bool,
}

impl FoundGroups {
    #[verifier::type_invariant]
    spec fn kept_up(self) -> bool {
        &&& self.needs_sort || ordered(group_views(self.groups@))
        &&& self.needs_stats_update || (self.total_duplicates, self.total_wasted_space) == sums(
            group_views(self.groups@),
        )
    }
}

/// The totals of these groups, as far as they can be counted.
pub open spec fn sums(groups: Seq<GroupView>) -> (usize, u64) {
    (capped_count(count_sum(groups)), capped(waste_sum(groups)))
}

/// How many files the groups hold together.
pub open spec fn count_sum(groups: Seq<GroupView>) -> int
    decreases groups.len(),
{
    if groups.len() == 0 {
        0
    } else {
        count_sum(groups.drop_last()) + groups.last().files.len()
    }
}

/// What the groups waste together.
pub open spec fn waste_sum(groups: Seq<GroupView>) -> int
    decreases groups.len(),
{
    if groups.len() == 0 {
        0
    } else {
        waste_sum(groups.drop_last()) + groups.last().wasted_space
    }
}

/// How many files the groups hold together.
pub fn count_files(groups: &Vec<DuplicateGroup>) -> (r: usize)
    ensures
        r == capped_count(count_sum(group_views(groups@))),
{
    let mut sum: usize = 0;
    let n = groups.len();
    let ghost all = group_views(groups@);
    for i in 0..n
        invariant
            n == groups@.len(),
            all == group_views(groups@),
            sum == capped_count(count_sum(all.take(i as int))),
            count_sum(all.take(i as int)) >= 0,
    {
        assert(all.take(i + 1).drop_last() =~= all.take(i as int));
        assert(all.take(i + 1).last() == groups@[i as int]@);
        sum = count_capped(sum, groups[i].files.len());
    }
    assert(all.take(n as int) =~= all);
    sum
}

/// What the groups waste together.
pub fn count_waste(groups: &Vec<DuplicateGroup>) -> (r: u64)
    ensures
        r == capped(waste_sum(group_views(groups@))),
{
    let mut sum: u64 = 0;
    let n = groups.len();
    let ghost all = group_views(groups@);
    for i in 0..n
        invariant
            n == groups@.len(),
            all == group_views(groups@),
            sum == capped(waste_sum(all.take(i as int))),
            waste_sum(all.take(i as int)) >= 0,
    {
        assert(all.take(i + 1).drop_last() =~= all.take(i as int));
        assert(all.take(i + 1).last() == groups@[i as int]@);
        sum = add_capped(sum, groups[i].wasted_space);
    }
    assert(all.take(n as int) =~= all);
    sum
}

/// The groups that hold more than one file.
pub open spec fn nontrivial(groups: Seq<GroupView>) -> Seq<GroupView>
    decreases groups.len(),
{
    if groups.len() == 0 {
        seq![]
    } else if groups.last().trivial() {
        nontrivial(groups.drop_last())
    } else {
        nontrivial(groups.drop_last()).push(groups.last())
    }
}

/// The groups that hold more than one file, in the same order.
pub fn drop_trivial(groups: &Vec<DuplicateGroup>) -> (r: Vec<DuplicateGroup>)
    ensures
        group_views(r@) == nontrivial(group_views(groups@)),
{
    let mut out: Vec<DuplicateGroup> = Vec::new();
    let n = groups.len();
    let ghost all = group_views(groups@);
    assert(group_views(out@) =~= nontrivial(all.take(0)));
    for i in 0..n
        invariant
            n == groups@.len(),
            all == group_views(groups@),
            group_views(out@) == nontrivial(all.take(i as int)),
    {
        let ghost before = group_views(out@);
        assert(all.take(i + 1).drop_last() =~= all.take(i as int));
        assert(all.take(i + 1).last() == groups@[i as int]@);
        if !groups[i].is_empty() {
            out.push(groups[i].clone());
            assert(group_views(out@) =~= before.push(groups@[i as int]@));
        }
    }
    assert(all.take(n as int) =~= all);
    out
}

pub open spec fn wasted_spaces(groups: Seq<GroupView>) -> Seq<u64> {
    Seq::new(groups.len(), |i: int| groups[i].wasted_space)
}

/// Those that waste more stand before those that waste less.
pub open spec fn ordered(groups: Seq<GroupView>) -> bool {
    forall|i: int, j: int|
        0 <= i < j < groups.len() ==> (#[trigger] groups[i]).wasted_space >= (#[trigger] groups[j]).wasted_space
}

/// The groups at these positions.
pub open spec fn picked(groups: Seq<GroupView>, p: Seq<usize>) -> Seq<GroupView> {
    Seq::new(p.len(), |i: int| groups[p[i] as int])
}

/// The groups sorted by what they waste, most first; groups that waste the
/// same keep their order.
pub open spec fn sorted_by_waste(groups: Seq<GroupView>, sorted: Seq<GroupView>) -> bool {
    exists|p: Seq<usize>| #[trigger] is_order(wasted_spaces(groups), p) && sorted == picked(groups, p)
}

/// Sorts groups by what they waste, most first.
pub fn sort_by_waste(groups: &Vec<DuplicateGroup>) -> (r: Vec<DuplicateGroup>)
    ensures
        sorted_by_waste(group_views(groups@), group_views(r@)),
{
    let mut keys: Vec<u64> = Vec::new();
    let n = groups.len();
    let ghost all = group_views(groups@);
    for i in 0..n
        invariant
            n == groups@.len(),
            all == group_views(groups@),
            keys@ == wasted_spaces(all).take(i as int),
    {
        keys.push(groups[i].wasted_space);
        assert(wasted_spaces(all).take(i + 1) =~= wasted_spaces(all).take(i as int).push(
            groups@[i as int].wasted_space,
        ));
    }
    assert(wasted_spaces(all).take(n as int) =~= wasted_spaces(all));
    let p = order_desc(&keys);
    let mut out: Vec<DuplicateGroup> = Vec::new();
    let m = p.len();
    for i in 0..m
        invariant
            n == groups@.len(),
            all == group_views(groups@),
            m == p@.len(),
            is_order(wasted_spaces(all), p@),
            group_views(out@) == picked(all, p@).take(i as int),
    {
        let ghost before = group_views(out@);
        assert(0 <= p@[i as int] < n);
        out.push(groups[p[i]].clone());
        assert(group_views(out@) =~= before.push(all[p@[i as int] as int]));
        assert(picked(all, p@).take(i + 1) =~= picked(all, p@).take(i as int).push(all[p@[i as int] as int]));
    }
    assert(picked(all, p@).take(m as int) =~= picked(all, p@));
    out
}

/// Sorting keeps the groups, and puts those that waste more first.
pub proof fn sorting_keeps_the_groups(groups: Seq<GroupView>, sorted: Seq<GroupView>)
    requires
        sorted_by_waste(groups, sorted),
    ensures
        sorted.len() == groups.len(),
        forall|g: GroupView| #[trigger] sorted.contains(g) <==> groups.contains(g),
        ordered(sorted),
{
    let keys = wasted_spaces(groups);
    let p = choose|p: Seq<usize>| #[trigger] is_order(keys, p) && sorted == picked(groups, p);
    lemma_every_position(keys, p);
    assert forall|g: GroupView| #[trigger] sorted.contains(g) <==> groups.contains(g) by {
        if sorted.contains(g) {
            let k = choose|k: int| 0 <= k < sorted.len() && sorted[k] == g;
            assert(0 <= p[k] < keys.len());
            assert(groups[p[k] as int] == g);
        }
        if groups.contains(g) {
            let k = choose|k: int| 0 <= k < groups.len() && groups[k] == g;
            lemma_position(keys, p, k);
            let m = choose|m: int| 0 <= m < p.len() && p[m] == k;
            assert(sorted[m] == g);
        }
    }
    assert forall|i: int, j: int| 0 <= i < j < sorted.len() implies (#[trigger] sorted[i]).wasted_space >= (
    #[trigger] sorted[j]).wasted_space by {
        assert(ahead(keys, p[i], p[j]));
        assert(0 <= p[i] < keys.len() && 0 <= p[j] < keys.len());
    }
}

/// Groups that are in order already stay as they are when they are sorted.
pub proof fn sorting_again_changes_nothing(groups: Seq<GroupView>)
    requires
        ordered(groups),
        groups.len() <= usize::MAX,
    ensures
        sorted_by_waste(groups, groups),
        forall|sorted: Seq<GroupView>| #[trigger] sorted_by_waste(groups, sorted) ==> sorted == groups,
{
    let keys = wasted_spaces(groups);
    let p = Seq::new(groups.len(), |i: int| i as usize);
    assert forall|i: int, j: int| 0 <= i < j < p.len() implies #[trigger] ahead(keys, p[i], p[j]) by {
        assert(groups[i].wasted_space >= groups[j].wasted_space);
    }
    assert(is_order(keys, p));
    assert(groups =~= picked(groups, p));
    assert forall|sorted: Seq<GroupView>| #[trigger] sorted_by_waste(groups, sorted) implies sorted == groups by {
        let q = choose|q: Seq<usize>| #[trigger] is_order(keys, q) && sorted == picked(groups, q);
        crate::order::order_is_unique(keys, p, q);
    }
}

proof fn lemma_position(keys: Seq<u64>, p: Seq<usize>, k: int)
    requires
        is_order(keys, p),
        0 <= k < keys.len(),
    ensures
        exists|m: int| 0 <= m < p.len() && p[m] == k,
{
    lemma_every_position(keys, p);
    crate::order::lemma_small(keys, p);
    assert(p.contains(k as usize));
}

pub proof fn lemma_sorting_settled(v: FinderView, sorted: Seq<GroupView>)
    requires
        v.settled(),
        sorted_by_waste(v.groups, sorted),
    ensures
        (FinderView { groups: sorted, ..v }).settled(),
{
    let w = FinderView { groups: sorted, ..v };
    sorting_keeps_the_groups(v.groups, sorted);
    let keys = wasted_spaces(v.groups);
    let p = choose|p: Seq<usize>| #[trigger] is_order(keys, p) && sorted == picked(v.groups, p);
    lemma_every_position(keys, p);
    assert forall|i: int, j: int| 0 <= i < j < sorted.len() implies (#[trigger] sorted[i]).hash != (
    #[trigger] sorted[j]).hash || sorted[i].file_size() != sorted[j].file_size() by {
        assert(0 <= p[i] < keys.len() && 0 <= p[j] < keys.len());
        assert(p[i] != p[j]);
        let a = v.groups[p[i] as int];
        let b = v.groups[p[j] as int];
        if p[i] < p[j] {
            assert(v.groups[p[i] as int].hash != v.groups[p[j] as int].hash || a.file_size() != b.file_size());
        } else {
            assert(v.groups[p[j] as int].hash != v.groups[p[i] as int].hash || a.file_size() != b.file_size());
        }
    }
    assert forall|s: u64, h: Seq<char>|
        #![trigger members(w.buckets[s], h)]
        w.buckets.contains_key(s) && !w.pending.contains(s) && members(w.buckets[s], h).len() >= 2 implies
        w.groups.contains(dup_group(w.buckets[s], h)) by {
        assert(members(v.buckets[s], h).len() >= 2);
        assert(v.groups.contains(dup_group(v.buckets[s], h)));
    }
}

/// The file at `i`, and the others of its bucket, decide whether it is read.
fn is_wanted(bucket: &Vec<FileInfo>, i: usize, tier: Tier) -> (r: bool)
    requires
        i < bucket@.len(),
    ensures
        r == wanted(file_views(bucket@), i as int, tier),
{
    let ghost all = file_views(bucket@);
    assert(all[i as int] == bucket@[i as int]@);
    match tier {
        Tier::Quick => bucket.len() >= 2 && bucket[i].quick_hash.is_none(),
        Tier::Full => {
            if bucket[i].hash.is_some() {
                return false;
            }
            match &bucket[i].quick_hash {
                None => false,
                Some(q) => {
                    let n = bucket.len();
                    for j in 0..n
                        invariant
                            n == bucket@.len(),
                            i < n,
                            all == file_views(bucket@),
                            tier == Tier::Full,
                            all[i as int].quick_hash == Some(q@),
                            all[i as int].hash is None,
                            forall|k: int|
                                0 <= k < j && k != i ==> (#[trigger] all[k]).quick_hash != Some(q@),
                    {
                        if j != i {
                            assert(all[j as int] == bucket@[j as int]@);
                            if let Some(o) = &bucket[j].quick_hash {
                                if *o == *q {
                                    assert(all[j as int].quick_hash == all[i as int].quick_hash);
                                    return true;
                                }
                            }
                        }
                    }
                    false
                },
            }
        },
    }
}

/// The groups of one bucket.
fn groups_of_bucket(bucket: &Vec<FileInfo>) -> (r: Vec<DuplicateGroup>)
    ensures
        group_views(r@) == bucket_groups(file_views(bucket@)),
{
    let ghost all = file_views(bucket@);
    // The files by hash: `slot_of` tells at which place of `slots` they are.
    let mut keys: Vec<String> = Vec::new();
    let mut slots: Vec<Vec<FileInfo>> = Vec::new();
    let mut slot_of: StringHashMap<usize> = StringHashMap::new();
    let n = bucket.len();
    assert(crate::text::views(keys@) =~= hashes(all.take(0)));
    for i in 0..n
        invariant
            n == bucket@.len(),
            all == file_views(bucket@),
            keys@.len() == slots@.len(),
            crate::text::views(keys@) == hashes(all.take(i as int)),
            forall|h: Seq<char>| #[trigger]
                slot_of@.contains_key(h) <==> hashes(all.take(i as int)).contains(h),
            forall|h: Seq<char>| #[trigger]
                slot_of@.contains_key(h) ==> slot_of@[h] < keys@.len() && keys@[slot_of@[h] as int]@ == h,
            forall|k: int|
                0 <= k < slots@.len() ==> file_views((#[trigger] slots@[k])@) == members(
                    all.take(i as int),
                    keys@[k]@,
                ),
    {
        let ghost head = all.take(i as int);
        let ghost next = all.take(i + 1);
        let ghost hs = hashes(head);
        assert(next.drop_last() =~= head);
        assert(next.last() == bucket@[i as int]@);
        proof {
            lemma_members(head, seq![]);
        }
        if let Some(h) = &bucket[i].hash {
            match slot_of.get(h.as_str()) {
                Some(at) => {
                    let k = *at;
                    let ghost before = slots@;
                    slots[k].push(bucket[i].clone());
                    proof {
                        assert(file_views(slots@[k as int]@) =~= file_views(before[k as int]@).push(
                            bucket@[i as int]@,
                        ));
                        assert forall|m: int| 0 <= m < slots@.len() implies file_views((#[trigger] slots@[m])@)
                            == members(next, keys@[m]@) by {
                            if m != k {
                                assert(before[m] == slots@[m]);
                                assert(hs[m] == keys@[m]@ && hs[k as int] == keys@[k as int]@);
                                assert(hs[m] != hs[k as int]);
                            }
                        }
                    }
                },
                None => {
                    let mut first: Vec<FileInfo> = Vec::new();
                    first.push(bucket[i].clone());
                    let ghost before = slots@;
                    let ghost oldkeys = keys@;
                    proof {
                        lemma_members(head, h@);
                        assert(members(head, h@) =~= seq![]);
                        assert(file_views(first@) =~= members(next, h@));
                    }
                    slot_of.insert(h.clone(), keys.len());
                    keys.push(h.clone());
                    slots.push(first);
                    proof {
                        assert(crate::text::views(keys@) =~= hs.push(h@));
                        assert forall|x: Seq<char>| #[trigger] hs.push(h@).contains(x) <==> hs.contains(x) || x == h@ by {
                            if hs.contains(x) {
                                let k = choose|k: int| 0 <= k < hs.len() && hs[k] == x;
                                assert(hs.push(h@)[k] == x);
                            }
                            assert(hs.push(h@)[hs.len() as int] == h@);
                        }
                        assert forall|m: int| 0 <= m < slots@.len() implies file_views((#[trigger] slots@[m])@)
                            == members(next, keys@[m]@) by {
                            if m < before.len() {
                                assert(before[m] == slots@[m]);
                                assert(hs[m] == keys@[m]@);
                                assert(hs.contains(hs[m]));
                            }
                        }
                    }
                },
            }
        } else {
            assert forall|m: int| 0 <= m < slots@.len() implies file_views((#[trigger] slots@[m])@) == members(
                next,
                keys@[m]@,
            ) by {
            }
        }
    }
    assert(all.take(n as int) =~= all);
    let ghost hs = hashes(all);
    let mut out: Vec<DuplicateGroup> = Vec::new();
    let m = keys.len();
    assert(group_views(out@) =~= groups_for(all, hs.take(0)));
    for k in 0..m
        invariant
            m == keys@.len(),
            m == slots@.len(),
            hs == crate::text::views(keys@),
            forall|k: int|
                0 <= k < slots@.len() ==> file_views((#[trigger] slots@[k])@) == members(all, keys@[k]@),
            group_views(out@) == groups_for(all, hs.take(k as int)),
    {
        let ghost before = group_views(out@);
        assert(hs.take(k + 1).drop_last() =~= hs.take(k as int));
        assert(hs.take(k + 1).last() == keys@[k as int]@);
        assert(file_views(slots@[k as int]@).len() == slots@[k as int]@.len());
        if slots[k].len() >= 2 {
            let g = DuplicateGroup::new(keys[k].clone(), crate::scanner::copy_files(&slots[k]));
            let ghost gv = g@;
            out.push(g);
            assert(group_views(out@) =~= before.push(gv));
        }
    }
    assert(hs.take(m as int) =~= hs);
    out
}

impl View for DuplicateFinder {
    type V = FinderView;

    closed spec fn view(&self) -> FinderView {
        FinderView {
            buckets: Map::new(
                |s: u64| self.size_groups@.contains_key(s),
                |s: u64| file_views(self.size_groups@[s]@),
            ),
            known: self.known@,
            gone: self.gone@,
            pending: self.pending@,
            groups: group_views(self.found.groups@),
        }
    }
}

impl DuplicateFinder {
    pub open spec fn wf(&self) -> bool {
        &&& self@.well_kept()
        &&& self@.settled()
        &&& !self.unsorted() ==> ordered(self@.groups)
        &&& !self.outdated() ==> self.totals() == sums(self@.groups)
    }

    /// Are the groups out of order?
    pub closed spec fn unsorted(&self) -> bool {
        self.found.needs_sort
    }

    /// Are the totals out of date?
    pub closed spec fn outdated(&self) -> bool {
        self.found.needs_stats_update
    }

    pub closed spec fn totals(&self) -> (usize, u64) {
        (self.found.total_duplicates, self.found.total_wasted_space)
    }

    pub fn new() -> (r: DuplicateFinder)
        ensures
            r.wf(),
            r@ == (FinderView {
                buckets: Map::empty(),
                known: Map::empty(),
                gone: Set::empty(),
                pending: seq![],
                groups: seq![],
            }),
            r.totals() == (0usize, 0u64),
            !r.unsorted(),
            !r.outdated(),
    {
        let groups: Vec<DuplicateGroup> = Vec::new();
        assert(group_views(groups@) =~= seq![]);
        let r = DuplicateFinder {
            found: FoundGroups {
                groups,
                total_duplicates: 0,
                total_wasted_space: 0,
                needs_sort: false,
                needs_stats_update: false,
            },
            size_groups: HashMap::new(),
            known: StringHashMap::new(),
            gone: PathSet::new(),
            pending: Vec::new(),
        };
        proof {
            assert(r@.buckets =~= Map::<u64, Seq<FileView>>::empty());
            assert(r@.groups =~= seq![]);
            assert(r@.pending =~= seq![]);
        }
        r
    }

    fn touch(&mut self, size: u64)
        ensures
            final(self)@ == (FinderView { pending: with_size(old(self)@.pending, size), ..old(self)@ }),
            final(self).totals() == old(self).totals(),
            final(self).unsorted() == old(self).unsorted(),
            final(self).outdated() == old(self).outdated(),
    {
        let n = self.pending.len();
        for i in 0..n
            invariant
                n == self.pending@.len(),
                *self == *old(self),
                forall|k: int| 0 <= k < i ==> self.pending@[k] != size,
        {
            if self.pending[i] == size {
                return ;
            }
        }
        self.pending.push(size);
    }

    /// The files of one size, taken out to be changed.
    fn take_bucket(&mut self, size: u64) -> (r: Vec<FileInfo>)
        ensures
            file_views(r@) == bucket_of(old(self)@.buckets, size),
            final(self)@ == (FinderView { buckets: old(self)@.buckets.remove(size), ..old(self)@ }),
            final(self).totals() == old(self).totals(),
            final(self).unsorted() == old(self).unsorted(),
            final(self).outdated() == old(self).outdated(),
    {
        let taken = self.size_groups.remove(&size);
        assert(self@.buckets =~= old(self)@.buckets.remove(size));
        match taken {
            Some(b) => b,
            None => {
                let b: Vec<FileInfo> = Vec::new();
                assert(file_views(b@) =~= seq![]);
                b
            },
        }
    }

    fn put_bucket(&mut self, size: u64, bucket: Vec<FileInfo>)
        ensures
            final(self)@ == (FinderView {
                buckets: old(self)@.buckets.insert(size, file_views(bucket@)),
                ..old(self)@
            }),
            final(self).totals() == old(self).totals(),
            final(self).unsorted() == old(self).unsorted(),
            final(self).outdated() == old(self).outdated(),
    {
        self.size_groups.insert(size, bucket);
        assert(self@.buckets =~= old(self)@.buckets.insert(size, file_views(bucket@)));
    }

    fn register(&mut self, file: FileInfo)
        requires
            old(self).wf(),
        ensures
            final(self).wf(),
            final(self)@ == old(self)@.register(file@),
            final(self).totals() == old(self).totals(),
            final(self).unsorted() == old(self).unsorted(),
            final(self).outdated() == old(self).outdated(),
    {
        let key = key_of(file.path.as_str());
        if self.known.contains_key(key.as_str()) || self.gone.contains(file.path.as_str()) {
            return ;
        }
        proof {
            registering_keeps_order(self@, file@);
        }
        let size = file.size;
        let ghost fv = file@;
        let mut bucket = self.take_bucket(size);
        let ghost before = file_views(bucket@);
        bucket.push(file);
        assert(file_views(bucket@) =~= before.push(fv));
        self.put_bucket(size, bucket);
        assert(self@.buckets =~= old(self)@.buckets.insert(size, before.push(fv)));
        self.known.insert(key, size);
        self.touch(size);
        assert(self@ == old(self)@.register(fv));
    }

    /// Which files of the pending sizes must be read for this hash.
    fn requests(&self, tier: Tier) -> (r: Vec<HashRequest>)
        ensures
            request_views(r@) == requests_for(self@.buckets, self@.pending, tier),
    {
        let mut out: Vec<HashRequest> = Vec::new();
        let n = self.pending.len();
        let ghost sizes = self@.pending;
        assert(request_views(out@) =~= requests_for(self@.buckets, sizes.take(0), tier));
        for i in 0..n
            invariant
                n == self.pending@.len(),
                sizes == self.pending@,
                request_views(out@) == requests_for(self@.buckets, sizes.take(i as int), tier),
        {
            let size = self.pending[i];
            let ghost before = request_views(out@);
            let ghost b = bucket_of(self@.buckets, size);
            assert(sizes.take(i + 1).drop_last() =~= sizes.take(i as int));
            assert(sizes.take(i + 1).last() == size);
            match self.size_groups.get(&size) {
                None => {
                    assert(before + requests_in(b, size, b.len(), tier) =~= before);
                },
                Some(bucket) => {
                    let m = bucket.len();
                    assert(b == file_views(bucket@));
                    assert(before + requests_in(b, size, 0, tier) =~= before);
                    for k in 0..m
                        invariant
                            m == bucket@.len(),
                            b == file_views(bucket@),
                            request_views(out@) == before + requests_in(b, size, k as nat, tier),
                    {
                        let ghost inner = request_views(out@);
                        assert(b[k as int] == bucket@[k as int]@);
                        if is_wanted(bucket, k, tier) {
                            out.push(HashRequest { size, index: k, path: bucket[k].path.clone() });
                            assert(request_views(out@) =~= inner.push(
                                RequestView { size, index: k as int, path: b[k as int].path },
                            ));
                            assert(request_views(out@) =~= before + requests_in(b, size, (k + 1) as nat, tier));
                        }
                    }
                },
            }
        }
        assert(sizes.take(n as int) =~= sizes);
        out
    }

    /// Takes in one file. The result tells which files are to be read for
    /// their first hash now.
    pub fn process_file(&mut self, file: FileInfo) -> (r: Vec<HashRequest>)
        requires
            old(self).wf(),
        ensures
            final(self).wf(),
            final(self)@ == old(self)@.register(file@),
            request_views(r@) == requests_for(final(self)@.buckets, final(self)@.pending, Tier::Quick),
            final(self).totals() == old(self).totals(),
            final(self).unsorted() == old(self).unsorted(),
            final(self).outdated() == old(self).outdated(),
    {
        self.register(file);
        self.requests(Tier::Quick)
    }

    /// Takes in a batch of files. The result tells which files are to be
    /// read for their first hash now: those without one, of every touched
    /// size that more than one file has.
    pub fn process_batch(&mut self, batch: Vec<FileInfo>) -> (r: Vec<HashRequest>)
        requires
            old(self).wf(),
        ensures
            final(self).wf(),
            final(self)@ == old(self)@.register_all(file_views(batch@)),
            request_views(r@) == requests_for(final(self)@.buckets, final(self)@.pending, Tier::Quick),
            final(self).totals() == old(self).totals(),
            final(self).unsorted() == old(self).unsorted(),
            final(self).outdated() == old(self).outdated(),
    {
        let n = batch.len();
        let ghost all = file_views(batch@);
        for i in 0..n
            invariant
                n == batch@.len(),
                all == file_views(batch@),
                self.wf(),
                self@ == old(self)@.register_all(all.take(i as int)),
                self.totals() == old(self).totals(),
                self.unsorted() == old(self).unsorted(),
                self.outdated() == old(self).outdated(),
        {
            assert(all.take(i + 1).drop_last() =~= all.take(i as int));
            assert(all.take(i + 1).last() == batch@[i as int]@);
            self.register(batch[i].clone());
        }
        assert(all.take(n as int) =~= all);
        self.requests(Tier::Quick)
    }

    fn note(&mut self, ask: &HashRequest, tier: Tier, digest: Result<String, String>)
        requires
            old(self).wf(),
        ensures
            final(self).wf(),
            final(self)@ == old(self)@.note(ask@, tier, digest_view(digest)),
            final(self).totals() == old(self).totals(),
            final(self).unsorted() == old(self).unsorted(),
            final(self).outdated() == old(self).outdated(),
    {
        proof {
            noting_keeps_order(self@, ask@, tier, digest_view(digest));
        }
        let open = match self.size_groups.get(&ask.size) {
            None => false,
            Some(b) => {
                let ghost bv = bucket_of(self@.buckets, ask.size);
                assert(bv == file_views(b@));
                if ask.index >= b.len() {
                    false
                } else {
                    assert(bv[ask.index as int] == b@[ask.index as int]@);
                    b[ask.index].path == ask.path && match tier {
                        Tier::Quick => b[ask.index].quick_hash.is_none(),
                        Tier::Full => b[ask.index].hash.is_none(),
                    }
                }
            },
        };
        assert(open == open_request(self@.buckets, ask@, tier));
        if !open {
            return ;
        }
        let mut bucket = self.take_bucket(ask.size);
        let ghost before = file_views(bucket@);
        let mut f = bucket[ask.index].clone();
        assert(before[ask.index as int] == f@);
        let ghost dv = digest_view(digest);
        match tier {
            Tier::Quick => {
                let _ = f.compute_quick_hash(digest);
            },
            Tier::Full => {
                let _ = f.compute_hash(digest);
            },
        }
        let ghost fv = f@;
        bucket.set(ask.index, f);
        assert(file_views(bucket@) =~= before.update(ask.index as int, fv));
        self.put_bucket(ask.size, bucket);
        assert(self@.buckets =~= old(self)@.buckets.insert(ask.size, before.update(ask.index as int, fv)));
        self.touch(ask.size);
    }

    /// Takes the answer to a request for a first hash: the hash, or why the
    /// file could not be read. An answer for a file that has its hash, or
    /// that is not there any more, changes nothing.
    pub fn note_quick(&mut self, ask: &HashRequest, digest: Result<String, String>)
        requires
            old(self).wf(),
        ensures
            final(self).wf(),
            final(self)@ == old(self)@.note(ask@, Tier::Quick, digest_view(digest)),
            final(self).totals() == old(self).totals(),
            final(self).unsorted() == old(self).unsorted(),
            final(self).outdated() == old(self).outdated(),
    {
        self.note(ask, Tier::Quick, digest);
    }

    /// Which files are to be read in full now: those without their full hash
    /// that share their first hash with another file of their size.
    pub fn full_requests(&self) -> (r: Vec<HashRequest>)
        ensures
            request_views(r@) == requests_for(self@.buckets, self@.pending, Tier::Full),
    {
        self.requests(Tier::Full)
    }

    /// Takes the answer to a request for a full hash.
    pub fn note_full(&mut self, ask: &HashRequest, digest: Result<String, String>)
        requires
            old(self).wf(),
        ensures
            final(self).wf(),
            final(self)@ == old(self)@.note(ask@, Tier::Full, digest_view(digest)),
            final(self).totals() == old(self).totals(),
            final(self).unsorted() == old(self).unsorted(),
            final(self).outdated() == old(self).outdated(),
    {
        self.note(ask, Tier::Full, digest);
    }

    fn is_pending(&self, size: u64) -> (r: bool)
        ensures
            r == self@.pending.contains(size),
    {
        let n = self.pending.len();
        for i in 0..n
            invariant
                n == self.pending@.len(),
                forall|k: int| 0 <= k < i ==> self.pending@[k] != size,
        {
            if self.pending[i] == size {
                assert(self@.pending[i as int] == size);
                return true;
            }
        }
        false
    }

    /// Makes the groups of the touched sizes anew, from all files of those
    /// sizes.
    pub fn rebuild(&mut self)
        requires
            old(self).wf(),
        ensures
            final(self).wf(),
            final(self)@ == old(self)@.rebuild(),
            final(self).totals() == old(self).totals(),
            final(self).unsorted() == (old(self).unsorted() || old(self)@.pending.len() > 0),
            final(self).outdated() == (old(self).outdated() || old(self)@.pending.len() > 0),
    {
        proof {
            rebuilding_settles(self@);
        }
        if self.pending.len() == 0 {
            proof {
                lemma_untouched_all(self@.groups, self@.pending);
                assert(self@.groups + seq![] =~= self@.groups);
                assert(self@.pending =~= seq![]);
            }
            return ;
        }
        let mut out: Vec<DuplicateGroup> = Vec::new();
        let n = self.found.groups.len();
        let ghost gs = self@.groups;
        let ghost sizes = self@.pending;
        assert(group_views(out@) =~= untouched(gs.take(0), sizes));
        for i in 0..n
            invariant
                n == self.found.groups@.len(),
                gs == group_views(self.found.groups@),
                sizes == self@.pending,
                *self == *old(self),
                group_views(out@) == untouched(gs.take(i as int), sizes),
        {
            let ghost before = group_views(out@);
            assert(gs.take(i + 1).drop_last() =~= gs.take(i as int));
            assert(gs.take(i + 1).last() == self.found.groups@[i as int]@);
            if !self.is_pending(self.found.groups[i].file_size()) {
                out.push(self.found.groups[i].clone());
                assert(group_views(out@) =~= before.push(self.found.groups@[i as int]@));
            }
        }
        assert(gs.take(n as int) =~= gs);
        let ghost rest = group_views(out@);
        let m = self.pending.len();
        assert(rest + fresh_groups(self@.buckets, sizes.take(0)) =~= rest);
        for i in 0..m
            invariant
                m == self.pending@.len(),
                sizes == self.pending@,
                *self == *old(self),
                group_views(out@) == rest + fresh_groups(self@.buckets, sizes.take(i as int)),
        {
            let size = self.pending[i];
            let ghost before = group_views(out@);
            assert(sizes.take(i + 1).drop_last() =~= sizes.take(i as int));
            assert(sizes.take(i + 1).last() == size);
            let ghost b = bucket_of(self@.buckets, size);
            match self.size_groups.get(&size) {
                Some(bucket) => {
                    assert(b == file_views(bucket@));
                    let mut fresh = groups_of_bucket(bucket);
                    let ghost fv = group_views(fresh@);
                    out.append(&mut fresh);
                    assert(group_views(out@) =~= before + fv);
                },
                None => {
                    assert(bucket_groups(b) =~= seq![]);
                },
            }
            assert(group_views(out@) =~= rest + fresh_groups(self@.buckets, sizes.take(i + 1)));
        }
        assert(sizes.take(m as int) =~= sizes);
        self.found.needs_sort = true;
        self.found.needs_stats_update = true;
        self.found.groups = out;
        self.pending = Vec::new();
        assert(self@.pending =~= seq![]);
        assert(self@.buckets =~= old(self)@.buckets);
    }

    /// Takes out the files with these paths, which do not come back, and
    /// makes the groups of their sizes anew.
    pub fn remove_paths(&mut self, gone: &PathSet)
        requires
            old(self).wf(),
        ensures
            final(self).wf(),
            final(self)@ == old(self)@.forget_all(gone.keys()).rebuild(),
            final(self).totals() == old(self).totals(),
            final(self).unsorted() == (old(self).unsorted() || old(self)@.forget_all(
                gone.keys(),
            ).pending.len() > 0),
            final(self).outdated() == (old(self).outdated() || old(self)@.forget_all(
                gone.keys(),
            ).pending.len() > 0),
    {
        let n = gone.len();
        let ghost list = gone.keys();
        for i in 0..n
            invariant
                n == gone.keys().len(),
                list == gone.keys(),
                self.wf(),
                self@ == old(self)@.forget_all(list.take(i as int)),
                self.totals() == old(self).totals(),
                self.unsorted() == old(self).unsorted(),
                self.outdated() == old(self).outdated(),
        {
            assert(list.take(i + 1).drop_last() =~= list.take(i as int));
            let p = gone.get(i);
            assert(list.take(i + 1).last() == path_key(p@));
            self.forget(p);
        }
        assert(list.take(n as int) =~= list);
        self.rebuild();
    }

    fn forget(&mut self, p: &String)
        requires
            old(self).wf(),
        ensures
            final(self).wf(),
            final(self)@ == old(self)@.forget(path_key(p@)),
            final(self).totals() == old(self).totals(),
            final(self).unsorted() == old(self).unsorted(),
            final(self).outdated() == old(self).outdated(),
    {
        proof {
            forgetting_keeps_order(self@, path_key(p@));
        }
        let key = key_of(p.as_str());
        let size = match self.known.get(key.as_str()) {
            Some(s) => Some(*s),
            None => None,
        };
        self.gone.insert(p.clone());
        if let Some(s) = size {
            let bucket = self.take_bucket(s);
            let mut one = PathSet::new();
            one.insert(p.clone());
            let rest = keep_files(&bucket, &one);
            assert(one@ =~= set![path_key(p@)]);
            self.put_bucket(s, rest);
            assert(self@.buckets =~= old(self)@.forget(path_key(p@)).buckets);
            self.known.remove(key.as_str());
            self.touch(s);
        }
    }

    pub fn groups(&self) -> (r: &Vec<DuplicateGroup>)
        ensures
            group_views(r@) == self@.groups,
    {
        &self.found.groups
    }

    /// Puts the groups in order, those that waste most first, and brings the
    /// totals up to date.
    pub fn ensure_sorted(&mut self)
        ensures
            old(self).wf() ==> final(self).wf(),
            final(self)@ == (FinderView { groups: final(self)@.groups, ..old(self)@ }),
            sorted_by_waste(old(self)@.groups, final(self)@.groups),
            !old(self).unsorted() ==> final(self)@.groups == old(self)@.groups,
            ordered(final(self)@.groups),
            final(self).totals() == sums(final(self)@.groups),
            !final(self).unsorted(),
            !final(self).outdated(),
    {
        proof {
            use_type_invariant(&self.found);
        }
        let n = self.found.groups.len();
        assert(self@.groups.len() == n);
        if self.found.needs_sort {
            let sorted = sort_by_waste(&self.found.groups);
            proof {
                if self@.settled() {
                    lemma_sorting_settled(self@, group_views(sorted@));
                }
                sorting_keeps_the_groups(self@.groups, group_views(sorted@));
            }
            self.found.needs_stats_update = true;
            self.found.groups = sorted;
            self.found.needs_sort = false;
            assert(self@.buckets =~= old(self)@.buckets);
        } else {
            proof {
                sorting_again_changes_nothing(self@.groups);
            }
        }
        if self.found.needs_stats_update {
            self.recalculate_stats();
        }
        proof {
            use_type_invariant(&self.found);
        }
    }

    /// The groups, to be changed in place. They count as unsorted from then
    /// on, and the totals as out of date.
    pub fn groups_mut(&mut self) -> (r: &mut Vec<DuplicateGroup>)
        ensures
            group_views(r@) == old(self)@.groups,
            final(self)@ == (FinderView { groups: group_views(final(r)@), ..old(self)@ }),
            final(self).totals() == old(self).totals(),
            final(self).unsorted(),
            final(self).outdated(),
    {
        proof {
            use_type_invariant(&self.found);
        }
        self.found.needs_sort = true;
        self.found.needs_stats_update = true;
        lend(&mut self.found.groups)
    }

    pub fn total_duplicates(&self) -> (r: usize)
        ensures
            r == self.totals().0,
            !self.outdated() ==> r == sums(self@.groups).0,
    {
        proof {
            use_type_invariant(&self.found);
        }
        self.found.total_duplicates
    }

    pub fn total_wasted_space(&self) -> (r: u64)
        ensures
            r == self.totals().1,
            !self.outdated() ==> r == sums(self@.groups).1,
    {
        proof {
            use_type_invariant(&self.found);
        }
        self.found.total_wasted_space
    }

    /// Drops the groups with no more than one file and brings the totals up
    /// to date.
    pub fn remove_empty_groups(&mut self)
        ensures
            old(self).wf() ==> final(self).wf(),
            final(self)@ == (FinderView { groups: nontrivial(old(self)@.groups), ..old(self)@ }),
            final(self).totals() == sums(final(self)@.groups),
            final(self).unsorted() == old(self).unsorted(),
            !final(self).outdated(),
    {
        proof {
            use_type_invariant(&self.found);
            dropping_trivial_groups_settles(self@);
            lemma_nontrivial_order(self@.groups);
        }
        self.found.needs_stats_update = true;
        self.found.groups = drop_trivial(&self.found.groups);
        assert(self@.buckets =~= old(self)@.buckets);
        self.recalculate_stats();
        proof {
            use_type_invariant(&self.found);
        }
    }

    fn recalculate_stats(&mut self)
        requires
            old(self).outdated(),
        ensures
            final(self)@ == old(self)@,
            final(self).totals() == sums(old(self)@.groups),
            final(self).unsorted() == old(self).unsorted(),
            !final(self).outdated(),
    {
        proof {
            use_type_invariant(&self.found);
        }
        self.found.total_duplicates = count_files(&self.found.groups);
        self.found.total_wasted_space = count_waste(&self.found.groups);
        self.found.needs_stats_update = false;
        assert(self@.buckets =~= old(self)@.buckets);
    }
}

fn lend(groups: &mut Vec<DuplicateGroup>) -> (r: &mut Vec<DuplicateGroup>)
    ensures
        *r == *old(groups),
        *final(groups) == *final(r),
    no_unwind
{
    groups
}

/// Dropping groups of no more than one file keeps the order of the others.
proof fn lemma_nontrivial_order(groups: Seq<GroupView>)
    ensures
        ordered(groups) ==> ordered(nontrivial(groups)),
        distinct(groups) ==> distinct(nontrivial(groups)),
    decreases groups.len(),
{
    if groups.len() > 0 {
        let head = groups.drop_last();
        let last = groups.last();
        lemma_nontrivial_order(head);
        let n = nontrivial(head);
        let all = nontrivial(groups);
        assert forall|k: int| 0 <= k < n.len() implies exists|m: int| 0 <= m < head.len() && head[m] == #[trigger] n[k] by {
            crate::edits::lemma_nontrivial(head, n[k]);
            assert(n.contains(n[k]));
        }
        assert(groups[groups.len() - 1] == last);
        if ordered(groups) {
            assert(ordered(head));
            assert forall|i: int, j: int| 0 <= i < j < all.len() implies (#[trigger] all[i]).wasted_space >= (
            #[trigger] all[j]).wasted_space by {
                if j == n.len() {
                    let m = choose|m: int| 0 <= m < head.len() && head[m] == n[i];
                    assert(groups[m] == n[i]);
                } else {
                    assert(n[i] == all[i] && n[j] == all[j]);
                }
            }
        }
        if distinct(groups) {
            assert(distinct(head));
            assert forall|i: int, j: int| 0 <= i < j < all.len() implies (#[trigger] all[i]).hash != (
            #[trigger] all[j]).hash || all[i].file_size() != all[j].file_size() by {
                if j == n.len() {
                    let m = choose|m: int| 0 <= m < head.len() && head[m] == n[i];
                    assert(groups[m] == n[i]);
                } else {
                    assert(n[i] == all[i] && n[j] == all[j]);
                }
            }
        }
    }
}

/// Groups of no more than one file are no duplicates: without them the groups
/// are as settled as with them.
pub proof fn dropping_trivial_groups_settles(v: FinderView)
    ensures
        v.settled() ==> (FinderView { groups: nontrivial(v.groups), ..v }).settled(),
{
    let w = FinderView { groups: nontrivial(v.groups), ..v };
    if v.settled() {
        lemma_nontrivial_order(v.groups);
        assert(distinct(v.groups));
        assert forall|g: GroupView| #[trigger]
            w.groups.contains(g) && !w.pending.contains(g.file_size()) implies w.buckets.contains_key(
            g.file_size(),
        ) && members(w.buckets[g.file_size()], g.hash).len() >= 2 && g == dup_group(
            w.buckets[g.file_size()],
            g.hash,
        ) by {
            crate::edits::lemma_nontrivial(v.groups, g);
            assert(v.groups.contains(g));
        }
        assert forall|s: u64, h: Seq<char>|
            #![trigger members(w.buckets[s], h)]
            w.buckets.contains_key(s) && !w.pending.contains(s) && members(w.buckets[s], h).len() >= 2 implies
            w.groups.contains(dup_group(w.buckets[s], h)) by {
            let g = dup_group(v.buckets[s], h);
            assert(members(v.buckets[s], h).len() >= 2);
            assert(v.groups.contains(g));
            sorting_keeps_the_files(members(v.buckets[s], h));
            crate::edits::lemma_nontrivial(v.groups, g);
        }
    }
}

proof fn lemma_untouched_all(groups: Seq<GroupView>, sizes: Seq<u64>)
    requires
        sizes.len() == 0,
    ensures
        untouched(groups, sizes) == groups,
    decreases groups.len(),
{
    if groups.len() > 0 {
        lemma_untouched_all(groups.drop_last(), sizes);
        assert(groups.drop_last().push(groups.last()) =~= groups);
    }
}

impl Default for DuplicateFinder {
    fn default() -> (r: DuplicateFinder)
        ensures
            r.wf(),
            r@ == (FinderView {
                buckets: Map::empty(),
                known: Map::empty(),
                gone: Set::empty(),
                pending: seq![],
                groups: seq![],
            }),
            r.totals() == (0usize, 0u64),
            !r.unsorted(),
            !r.outdated(),
    {
        DuplicateFinder::new()
    }
}

/// A file has to be read for its quick hash where another file has its size
/// and the hash is unknown, and for its full hash where another file has its
/// size and its quick hash.
pub proof fn files_are_read_where_it_matters(bucket: Seq<FileView>, i: int)
    requires
        0 <= i < bucket.len(),
    ensures
        wanted(bucket, i, Tier::Quick) <==> bucket[i].quick_hash is None && bucket.len() > 1,
        wanted(bucket, i, Tier::Full) <==> bucket[i].hash is None && bucket[i].quick_hash is Some && exists|j: int|
            0 <= j < bucket.len() && j != i && (#[trigger] bucket[j]).quick_hash == bucket[i].quick_hash,
{
}

/// Groups are listed by what they waste, the most first, and those that
/// waste as much as they stood.
pub proof fn the_largest_waste_comes_first(groups: Seq<GroupView>, sorted: Seq<GroupView>)
    requires
        sorted_by_waste(groups, sorted),
    ensures
        forall|i: int, j: int|
            0 <= i < j < sorted.len() ==> (#[trigger] sorted[i]).wasted_space >= (#[trigger] sorted[j]).wasted_space,
{
    let p = choose|p: Seq<usize>| #[trigger] is_order(wasted_spaces(groups), p) && sorted == picked(groups, p);
    assert forall|i: int, j: int| 0 <= i < j < sorted.len() implies (#[trigger] sorted[i]).wasted_space >= (
    #[trigger] sorted[j]).wasted_space by {
        larger_keys_come_first(wasted_spaces(groups), p, i, j);
    }
}

/// Only groups of two files or more are kept, in their order.
pub proof fn lone_files_are_no_group(groups: Seq<GroupView>)
    ensures
        nontrivial(groups) == groups.filter(|g: GroupView| g.files.len() >= 2),
    decreases groups.len(),
{
    reveal(Seq::filter);
    if groups.len() > 0 {
        lone_files_are_no_group(groups.drop_last());
    }
}

/// The totals count the files of all groups, and what could be freed in
/// them; what does not fit is written as the largest number.
pub proof fn totals_add_up(groups: Seq<GroupView>, g: GroupView)
    ensures
        count_sum(Seq::<GroupView>::empty()) == 0,
        waste_sum(Seq::<GroupView>::empty()) == 0,
        count_sum(groups.push(g)) == count_sum(groups) + g.files.len(),
        waste_sum(groups.push(g)) == waste_sum(groups) + g.wasted_space,
        0 <= count_sum(groups) <= usize::MAX ==> sums(groups).0 == count_sum(groups),
        0 <= waste_sum(groups) <= u64::MAX ==> sums(groups).1 == waste_sum(groups),
{
    assert(groups.push(g).drop_last() == groups);
}

/// A file is taken in once: a path that is known already, or was removed,
/// changes nothing, and any other file joins the files of its size.
pub proof fn files_are_taken_in_once(v: FinderView, f: FileView)
    ensures
        v.known.contains_key(path_key(f.path)) ==> v.register(f) == v,
        v.gone.contains(path_key(f.path)) ==> v.register(f) == v,
        v.register(f).register(f) == v.register(f),
        v.forget(path_key(f.path)).register(f) == v.forget(path_key(f.path)),
        !v.known.contains_key(path_key(f.path)) && !v.gone.contains(path_key(f.path)) ==> {
            let w = v.register(f);
            &&& w.buckets.contains_key(f.size)
            &&& w.buckets[f.size] == (if v.buckets.contains_key(f.size) {
                v.buckets[f.size]
            } else {
                seq![]
            }).push(f)
            &&& w.known == v.known.insert(path_key(f.path), f.size)
            &&& w.pending.contains(f.size)
            &&& w.groups == v.groups
            &&& w.gone == v.gone
        },
{
    if !v.known.contains_key(path_key(f.path)) && !v.gone.contains(path_key(f.path)) {
        let w = v.register(f);
        if !v.pending.contains(f.size) {
            assert(w.pending[w.pending.len() - 1] == f.size);
        }
    }
}

/// A removed path is remembered as gone, is known no more, and leaves the
/// files of its size; those of other sizes stay.
pub proof fn removed_paths_leave_their_bucket(v: FinderView, p: Seq<char>, s: u64)
    requires
        v.known.contains_key(p),
        v.buckets.contains_key(v.known[p]),
    ensures
        v.forget(p).gone == v.gone.insert(p),
        v.forget(p).known == v.known.remove(p),
        v.forget(p).pending.contains(v.known[p]),
        v.forget(p).buckets[v.known[p]] == v.buckets[v.known[p]].filter(|f: FileView| path_key(f.path) != p),
        s != v.known[p] && v.buckets.contains_key(s) ==> v.forget(p).buckets[s] == v.buckets[s],
        v.forget(p).groups == v.groups,
{
    let size = v.known[p];
    lemma_kept_without(v.buckets[size], p);
    let w = v.forget(p);
    if !v.pending.contains(size) {
        assert(w.pending[w.pending.len() - 1] == size);
    }
}

proof fn lemma_kept_without(files: Seq<FileView>, p: Seq<char>)
    ensures
        kept(files, set![p]) == files.filter(|f: FileView| path_key(f.path) != p),
    decreases files.len(),
{
    reveal(Seq::filter);
    if files.len() > 0 {
        lemma_kept_without(files.drop_last(), p);
    }
}

/// The answer to a request goes to the file that was asked for, to the hash
/// that was asked for, and marks the files of that size for regrouping.
pub proof fn answers_reach_their_file(v: FinderView, ask: RequestView, h: Seq<char>)
    requires
        v.buckets.contains_key(ask.size),
        0 <= ask.index < v.buckets[ask.size].len(),
        v.buckets[ask.size][ask.index].path == ask.path,
    ensures
        v.buckets[ask.size][ask.index].quick_hash is None ==> {
            let w = v.note(ask, Tier::Quick, Ok(h));
            w.buckets[ask.size][ask.index].quick_hash == Some(h) && w.pending.contains(ask.size)
        },
        v.buckets[ask.size][ask.index].hash is None && v.buckets[ask.size][ask.index].size > 65536 ==> {
            let w = v.note(ask, Tier::Full, Ok(h));
            w.buckets[ask.size][ask.index].hash == Some(h) && w.pending.contains(ask.size)
        },
        v.buckets[ask.size][ask.index].quick_hash is Some ==> v.note(ask, Tier::Quick, Ok(h)) == v,
        v.buckets[ask.size][ask.index].hash is Some ==> v.note(ask, Tier::Full, Ok(h)) == v,
{
    let q = v.note(ask, Tier::Quick, Ok(h));
    let f = v.note(ask, Tier::Full, Ok(h));
    if !v.pending.contains(ask.size) {
        if v.buckets[ask.size][ask.index].quick_hash is None {
            assert(q.pending[q.pending.len() - 1] == ask.size);
        }
        if v.buckets[ask.size][ask.index].hash is None {
            assert(f.pending[f.pending.len() - 1] == ask.size);
        }
    }
}

/// A batch is taken in file by file, and paths are removed one by one.
pub proof fn batches_are_taken_in_file_by_file(v: FinderView, files: Seq<FileView>, f: FileView, p: Seq<char>, paths: Seq<Seq<char>>)
    ensures
        v.register_all(Seq::<FileView>::empty()) == v,
        v.register_all(files.push(f)) == v.register_all(files).register(f),
        v.forget_all(Seq::<Seq<char>>::empty()) == v,
        v.forget_all(paths.push(p)) == v.forget_all(paths).forget(p),
{
    assert(files.push(f).drop_last() == files);
    assert(paths.push(p).drop_last() == paths);
}

/// Making the groups anew keeps those of other sizes as they stood, and
/// leaves no size to look at.
pub proof fn other_sizes_keep_their_groups(v: FinderView, g: GroupView)
    requires
        !v.pending.contains(g.file_size()),
        v.groups.contains(g),
    ensures
        v.rebuild().groups.contains(g),
        v.rebuild().pending.len() == 0,
        v.rebuild().buckets == v.buckets && v.rebuild().known == v.known && v.rebuild().gone == v.gone,
{
    lemma_untouched_keeps(v.groups, v.pending, g);
    let u = untouched(v.groups, v.pending);
    let k = choose|k: int| 0 <= k < u.len() && u[k] == g;
    assert(v.rebuild().groups[k] == g);
}

proof fn lemma_untouched_keeps(groups: Seq<GroupView>, sizes: Seq<u64>, g: GroupView)
    requires
        groups.contains(g),
        !sizes.contains(g.file_size()),
    ensures
        untouched(groups, sizes).contains(g),
    decreases groups.len(),
{
    let rest = groups.drop_last();
    let u = untouched(groups, sizes);
    if groups.last() == g {
        assert(u.last() == g);
        assert(u[u.len() - 1] == g);
    } else {
        let k = choose|k: int| 0 <= k < groups.len() && groups[k] == g;
        assert(rest[k] == g);
        lemma_untouched_keeps(rest, sizes, g);
        let w = untouched(rest, sizes);
        let j = choose|j: int| 0 <= j < w.len() && w[j] == g;
        assert(u[j] == g);
    }
}

} // verus!
