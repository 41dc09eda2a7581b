//! What holds of a finder after any run of calls, from the first on.

use vstd::prelude::*;
use crate::duplicates::{by_path, lemma_kept, sorting_keeps_the_files, GroupView};
use crate::finder::{
    bucket_of, digest_on, dropping_trivial_groups_settles, dup_group, forgetting_keeps_order,
    groups_hold_only_duplicates, knowledge_stays_true, lemma_members, lemma_sorting_settled, members, noting_keeps_order,
    nontrivial, open_request, rebuilding_settles, registering_keeps_order, sorted_by_waste, true_of, true_to, FinderView,
    RequestView, Tier,
};
use crate::scanner::{full_hash_of, FileView, Timestamp};

verus! {

/// What can be asked of a finder.
pub enum Call {
    /// A file that the walk came across.
    Take(FileView),
    /// What reading a file gave.
    Answer(RequestView, Tier, Result<Seq<char>, Seq<char>>),
    /// A file that has gone, by the key of its path.
    Forget(Seq<char>),
    /// The groups of the touched sizes, made anew.
    Rebuild,
    /// The groups put in order.
    Sort,
    /// The groups of no more than one file dropped.
    Drop,
}

/// The finder that knows nothing.
pub open spec fn nothing() -> FinderView {
    FinderView {
        buckets: Map::empty(),
        known: Map::empty(),
        gone: Set::empty(),
        pending: seq![],
        groups: seq![],
    }
}

impl Call {
    /// Does the call lead from the one state to the other?
    pub open spec fn leads(self, v: FinderView, w: FinderView) -> bool {
        match self {
            Call::Take(f) => w == v.register(f),
            Call::Answer(ask, tier, digest) => w == v.note(ask, tier, digest),
            Call::Forget(p) => w == v.forget(p),
            Call::Rebuild => w == v.rebuild(),
            Call::Sort => sorted_by_waste(v.groups, w.groups) && w == (FinderView { groups: w.groups, ..v }),
            Call::Drop => w == (FinderView { groups: nontrivial(v.groups), ..v }),
        }
    }

    /// Does the call tell the finder only what is true, `disk` being what the
    /// files hold?
    pub open spec fn truthful(self, disk: Map<Seq<char>, Seq<u8>>) -> bool {
        match self {
            Call::Take(f) => true_of(f, disk),
            Call::Answer(ask, tier, Ok(digest)) => digest == digest_on(disk, ask, tier),
            _ => true,
        }
    }
}

/// Do these calls, one after the other, lead through these states?
pub open spec fn is_run(calls: Seq<Call>, states: Seq<FinderView>) -> bool {
    &&& states.len() == calls.len() + 1
    &&& states[0] == nothing()
    &&& forall|k: int| 0 <= k < calls.len() ==> (#[trigger] calls[k]).leads(states[k], states[k + 1])
}

/// Was a file with this path and size handed in by one of the calls?
pub open spec fn handed_in(calls: Seq<Call>, path: Seq<char>, size: u64) -> bool {
    exists|k: int|
        0 <= k < calls.len() && (match #[trigger] calls[k] {
            Call::Take(f) => f.path == path && f.size == size,
            _ => false,
        })
}

/// Is every file that the finder knows one that was handed in?
pub open spec fn knows_only(v: FinderView, calls: Seq<Call>) -> bool {
    forall|s: u64, i: int|
        #![trigger v.buckets[s][i]]
        v.buckets.contains_key(s) && 0 <= i < v.buckets[s].len() ==> handed_in(
            calls,
            v.buckets[s][i].path,
            v.buckets[s][i].size,
        )
}

proof fn lemma_knows_only(v: FinderView, w: FinderView, call: Call, calls: Seq<Call>)
    requires
        knows_only(v, calls),
        call.leads(v, w),
        calls.contains(call),
    ensures
        knows_only(w, calls),
{
    assert forall|s: u64, i: int|
        #![trigger w.buckets[s][i]]
        w.buckets.contains_key(s) && 0 <= i < w.buckets[s].len() implies handed_in(
        calls,
        w.buckets[s][i].path,
        w.buckets[s][i].size,
    ) by {
        let b = bucket_of(v.buckets, s);
        match call {
            Call::Take(f) => {
                if i < b.len() && w != v {
                    assert(w.buckets[s][i] == v.buckets[s][i]);
                } else if w != v {
                    let k = choose|k: int| 0 <= k < calls.len() && calls[k] == call;
                    assert(calls[k] == Call::Take(f));
                    assert(w.buckets[s][i] == f);
                } else {
                    assert(handed_in(calls, v.buckets[s][i].path, v.buckets[s][i].size));
                }
            },
            Call::Answer(ask, tier, digest) => {
                assert(handed_in(calls, v.buckets[s][i].path, v.buckets[s][i].size));
                if open_request(v.buckets, ask, tier) {
                    assert(w.buckets[s][i].path == v.buckets[s][i].path);
                    assert(w.buckets[s][i].size == v.buckets[s][i].size);
                }
            },
            Call::Forget(p) => {
                lemma_kept(b, set![p]);
                let f = w.buckets[s][i];
                assert(w.buckets[s].contains(f));
                if w.buckets[s] != b {
                    let k = choose|k: int| 0 <= k < b.len() && b[k] == f;
                    assert(v.buckets[s][k] == f);
                } else {
                    assert(v.buckets[s][i] == f);
                }
            },
            _ => {
                assert(w.buckets[s][i] == v.buckets[s][i]);
            },
        }
    }
}

/// After every run of calls the files are kept in order and are among those
/// that were handed in, and the groups are those of identical files, but for
/// the sizes touched since.
pub proof fn runs_keep_order(calls: Seq<Call>, states: Seq<FinderView>, n: int)
    requires
        is_run(calls, states),
        0 <= n <= calls.len(),
    ensures
        states[n].well_kept(),
        states[n].settled(),
        knows_only(states[n], calls),
    decreases n,
{
    if n > 0 {
        runs_keep_order(calls, states, n - 1);
        let call = calls[n - 1];
        let v = states[n - 1];
        let w = states[n];
        assert(call.leads(v, states[n - 1 + 1]));
        assert(calls.contains(call));
        lemma_knows_only(v, w, call, calls);
        match call {
            Call::Take(f) => {
                registering_keeps_order(v, f);
            },
            Call::Answer(ask, tier, digest) => {
                noting_keeps_order(v, ask, tier, digest);
            },
            Call::Forget(p) => {
                forgetting_keeps_order(v, p);
            },
            Call::Rebuild => {
                rebuilding_settles(v);
            },
            Call::Sort => {
                lemma_sorting_settled(v, w.groups);
            },
            Call::Drop => {
                dropping_trivial_groups_settles(v);
            },
        }
    }
}

/// What the finder knows of the files is true, as long as it was told nothing
/// else.
pub proof fn runs_stay_true(calls: Seq<Call>, states: Seq<FinderView>, disk: Map<Seq<char>, Seq<u8>>, n: int)
    requires
        is_run(calls, states),
        forall|k: int| 0 <= k < calls.len() ==> (#[trigger] calls[k]).truthful(disk),
        0 <= n <= calls.len(),
    ensures
        true_to(states[n], disk),
    decreases n,
{
    if n > 0 {
        runs_keep_order(calls, states, n - 1);
        runs_stay_true(calls, states, disk, n - 1);
        let call = calls[n - 1];
        let v = states[n - 1];
        let w = states[n];
        assert(call.leads(v, states[n - 1 + 1]));
        assert(call.truthful(disk));
        let f0 = FileView {
            path: seq![],
            size: 0,
            quick_hash: None,
            hash: None,
            modified: Timestamp { secs: 0, nanos: 0 },
            depth: 0,
        };
        let ask0 = RequestView { size: 0, index: 0, path: seq![] };
        match call {
            Call::Take(f) => {
                knowledge_stays_true(v, disk, f, ask0, Tier::Quick, seq![]);
            },
            Call::Answer(ask, tier, Ok(_)) => {
                knowledge_stays_true(v, disk, f0, ask, tier, seq![]);
            },
            Call::Answer(ask, tier, Err(e)) => {
                knowledge_stays_true(v, disk, f0, ask, tier, e);
            },
            Call::Forget(p) => {
                let ask = RequestView { size: 0, index: 0, path: p };
                knowledge_stays_true(v, disk, f0, ask, Tier::Quick, seq![]);
            },
            Call::Rebuild => {
                knowledge_stays_true(v, disk, f0, ask0, Tier::Quick, seq![]);
            },
            _ => {
                assert forall|s: u64, i: int|
                    #![trigger w.buckets[s][i]]
                    w.buckets.contains_key(s) && 0 <= i < w.buckets[s].len() implies true_of(
                    w.buckets[s][i],
                    disk,
                ) by {
                    assert(true_of(v.buckets[s][i], disk));
                }
            },
        }
    }
}

/// No two contents of different length have one digest.
pub open spec fn digests_tell_lengths(disk: Map<Seq<char>, Seq<u8>>) -> bool {
    forall|p: Seq<char>, q: Seq<char>|
        disk.contains_key(p) && disk.contains_key(q) && #[trigger] full_hash_of(disk[p]) == #[trigger] full_hash_of(
            disk[q],
        ) ==> disk[p].len() == disk[q].len()
}

proof fn lemma_members_once(bucket: Seq<FileView>, h: Seq<char>)
    requires
        bucket.no_duplicates(),
    ensures
        members(bucket, h).no_duplicates(),
    decreases bucket.len(),
{
    if bucket.len() > 0 {
        let head = bucket.drop_last();
        let last = bucket.last();
        assert(head.no_duplicates());
        lemma_members_once(head, h);
        lemma_members(head, h);
        let m = members(head, h);
        if last.hash == Some(h) {
            assert forall|i: int, j: int| 0 <= i < j < m.push(last).len() implies m.push(last)[i] != m.push(last)[j] by {
                if j == m.len() {
                    assert(m.contains(m[i]));
                    let k = choose|k: int| 0 <= k < head.len() && head[k] == m[i];
                    assert(bucket[k] == m[i] && bucket[bucket.len() - 1] == last);
                }
            }
        }
    }
}

/// No path stands twice in a group.
proof fn lemma_group_paths(v: FinderView, g: GroupView, i: int, j: int)
    requires
        v.well_kept(),
        v.settled(),
        v.groups.contains(g),
        !v.pending.contains(g.file_size()),
        0 <= i < j < g.files.len(),
    ensures
        g.files[i].key() != g.files[j].key(),
{
    let s = g.file_size();
    let b = v.buckets[s];
    groups_hold_only_duplicates(v, g);
    assert(b.no_duplicates()) by {
        assert forall|x: int, y: int| 0 <= x < b.len() && 0 <= y < b.len() && x != y implies b[x] != b[y] by {
            if x < y {
                assert(v.buckets[s][x].key() != v.buckets[s][y].key());
            } else {
                assert(v.buckets[s][y].key() != v.buckets[s][x].key());
            }
        }
    }
    let m = members(b, g.hash);
    lemma_members_once(b, g.hash);
    m.lemma_multiset_has_no_duplicates();
    sorting_keeps_the_files(m);
    by_path(m).lemma_multiset_has_no_duplicates_conv();
    assert(g == dup_group(b, g.hash));
    let x = choose|x: int| 0 <= x < b.len() && b[x] == g.files[i];
    let y = choose|y: int| 0 <= y < b.len() && b[y] == g.files[j];
    assert(g.files[i] != g.files[j]);
    if x < y {
        assert(v.buckets[s][x].key() != v.buckets[s][y].key());
    } else {
        assert(v.buckets[s][y].key() != v.buckets[s][x].key());
    }
}

/// After any run of calls, once the groups of the touched sizes were made
/// anew, each group holds at least two files; each of them was handed in with
/// that path and size, and has the hash of the group.
pub proof fn groups_hold_what_was_handed_in(calls: Seq<Call>, states: Seq<FinderView>, g: GroupView)
    requires
        is_run(calls, states),
        states.last().pending.len() == 0,
        states.last().groups.contains(g),
    ensures
        g.files.len() >= 2,
        forall|i: int|
            0 <= i < g.files.len() ==> (#[trigger] g.files[i]).hash == Some(g.hash) && handed_in(
                calls,
                g.files[i].path,
                g.files[i].size,
            ),
{
    runs_keep_order(calls, states, calls.len() as int);
    let v = states.last();
    groups_hold_only_duplicates(v, g);
    assert forall|i: int| 0 <= i < g.files.len() implies (#[trigger] g.files[i]).hash == Some(g.hash) && handed_in(
        calls,
        g.files[i].path,
        g.files[i].size,
    ) by {
        let f = g.files[i];
        let b = v.buckets[f.size];
        let x = choose|x: int| 0 <= x < b.len() && b[x] == f;
        assert(v.buckets[f.size][x] == f);
    }
}

/// After such a run no path stands twice in the groups, neither in one nor in
/// two of them.
pub proof fn paths_are_grouped_once(calls: Seq<Call>, states: Seq<FinderView>, a: int, b: int, i: int, j: int)
    requires
        is_run(calls, states),
        states.last().pending.len() == 0,
        0 <= a < states.last().groups.len(),
        0 <= b < states.last().groups.len(),
        0 <= i < states.last().groups[a].files.len(),
        0 <= j < states.last().groups[b].files.len(),
        a != b || i != j,
    ensures
        states.last().groups[a].files[i].key() != states.last().groups[b].files[j].key(),
{
    runs_keep_order(calls, states, calls.len() as int);
    let v = states.last();
    let g = v.groups[a];
    let h = v.groups[b];
    assert(v.groups.contains(g) && v.groups.contains(h));
    if a == b {
        if i < j {
            lemma_group_paths(v, g, i, j);
        } else {
            lemma_group_paths(v, g, j, i);
        }
    } else if g.files[i].key() == h.files[j].key() {
        groups_hold_only_duplicates(v, g);
        groups_hold_only_duplicates(v, h);
        let s = g.files[i].size;
        let t = h.files[j].size;
        let x = choose|x: int| 0 <= x < v.buckets[s].len() && v.buckets[s][x] == g.files[i];
        let y = choose|y: int| 0 <= y < v.buckets[t].len() && v.buckets[t][y] == h.files[j];
        assert(v.known[v.buckets[s][x].key()] == s && v.known[v.buckets[t][y].key()] == t);
        assert(s == t);
        assert(x == y) by {
            if x < y {
                assert(v.buckets[s][x].key() != v.buckets[s][y].key());
            } else if y < x {
                assert(v.buckets[s][y].key() != v.buckets[s][x].key());
            }
        }
        assert(g.hash == h.hash && g.file_size() == h.file_size());
        if a < b {
            assert(v.groups[a].hash != v.groups[b].hash || g.file_size() != h.file_size());
        } else {
            assert(v.groups[b].hash != v.groups[a].hash || g.file_size() != h.file_size());
        }
    }
}

/// After such a run no two groups have both one hash and one size.
pub proof fn groups_differ_in_hash_or_size(calls: Seq<Call>, states: Seq<FinderView>, a: int, b: int)
    requires
        is_run(calls, states),
        states.last().pending.len() == 0,
        0 <= a < b < states.last().groups.len(),
    ensures
        states.last().groups[a].hash != states.last().groups[b].hash || states.last().groups[a].file_size()
            != states.last().groups[b].file_size(),
{
    runs_keep_order(calls, states, calls.len() as int);
}

/// Has no hash come in for files of different sizes?
pub open spec fn hashes_tell_sizes(v: FinderView) -> bool {
    forall|s: u64, t: u64, i: int, j: int|
        #![trigger v.buckets[s][i], v.buckets[t][j]]
        v.buckets.contains_key(s) && v.buckets.contains_key(t) && 0 <= i < v.buckets[s].len() && 0 <= j
            < v.buckets[t].len() && v.buckets[s][i].hash is Some && v.buckets[s][i].hash == v.buckets[t][j].hash
            ==> s == t
}

/// After such a run no two groups have one hash, as long as none came in for
/// files of different sizes: files are grouped by their size first.
pub proof fn groups_have_different_hashes(calls: Seq<Call>, states: Seq<FinderView>, a: int, b: int)
    requires
        is_run(calls, states),
        hashes_tell_sizes(states.last()),
        states.last().pending.len() == 0,
        0 <= a < b < states.last().groups.len(),
    ensures
        states.last().groups[a].hash != states.last().groups[b].hash,
{
    runs_keep_order(calls, states, calls.len() as int);
    groups_differ_in_hash_or_size(calls, states, a, b);
    let v = states.last();
    let g = v.groups[a];
    let h = v.groups[b];
    assert(v.groups.contains(g) && v.groups.contains(h));
    groups_hold_only_duplicates(v, g);
    groups_hold_only_duplicates(v, h);
    if g.hash == h.hash {
        let s = g.files[0].size;
        let t = h.files[0].size;
        let x = choose|x: int| 0 <= x < v.buckets[s].len() && v.buckets[s][x] == g.files[0];
        let y = choose|y: int| 0 <= y < v.buckets[t].len() && v.buckets[t][y] == h.files[0];
        assert(v.buckets[s][x].hash == v.buckets[t][y].hash);
    }
}

/// Where the finder was told only what is true, no hash came in for files of
/// different sizes, unless two contents of different length have one digest.
pub proof fn true_hashes_tell_sizes(calls: Seq<Call>, states: Seq<FinderView>, disk: Map<Seq<char>, Seq<u8>>)
    requires
        is_run(calls, states),
        forall|k: int| 0 <= k < calls.len() ==> (#[trigger] calls[k]).truthful(disk),
        digests_tell_lengths(disk),
    ensures
        hashes_tell_sizes(states.last()),
{
    runs_keep_order(calls, states, calls.len() as int);
    runs_stay_true(calls, states, disk, calls.len() as int);
    let v = states.last();
    assert forall|s: u64, t: u64, i: int, j: int|
        #![trigger v.buckets[s][i], v.buckets[t][j]]
        v.buckets.contains_key(s) && v.buckets.contains_key(t) && 0 <= i < v.buckets[s].len() && 0 <= j
            < v.buckets[t].len() && v.buckets[s][i].hash is Some && v.buckets[s][i].hash
            == v.buckets[t][j].hash implies s == t by {
        let f = v.buckets[s][i];
        let h = v.buckets[t][j];
        assert(true_of(v.buckets[s][i], disk) && true_of(v.buckets[t][j], disk));
        assert(full_hash_of(disk[f.path]) == full_hash_of(disk[h.path]));
        assert(f.size == s && h.size == t);
    }
}

} // verus!
