//! The state of a scan as it is saved between runs.

use vstd::prelude::*;
use std::collections::HashMap;
use crate::duplicates::{copy_groups, group_views, DuplicateGroup};
use crate::finder::DuplicateFinder;
use crate::outside::{md5_hex, md5_hex_of, utc_text, utc_text_of};
use crate::paths::{
    chars_before, data_dir, extension_chars, extension_of, extensions_follow_the_last_dot, is_plain_name, join,
    join_of, text_before,
};
use crate::scanner::{FileInfo, ScanConfig, Timestamp};
use crate::text::{chars_of, is_text};

verus! {

#[derive(Debug, Clone)]
pub struct ScanState {
    pub config: ScanConfig,
    pub size_groups: HashMap<u64, Vec<FileInfo>>,
    pub duplicate_groups: Vec<DuplicateGroup>,
    pub scanned_count: usize,
    pub total_size: u64,
    pub timestamp: Timestamp,
    pub completed: bool,
}

impl ScanState {
    /// A scan that has not begun, at the time `now`.
    pub fn new(config: ScanConfig, now: Timestamp) -> (r: ScanState)
        ensures
            r.config == config,
            r.size_groups@ == Map::<u64, Vec<FileInfo>>::empty(),
            r.duplicate_groups@.len() == 0,
            r.scanned_count == 0,
            r.total_size == 0,
            r.timestamp == now,
            !r.completed,
    {
        ScanState {
            config,
            size_groups: HashMap::new(),
            duplicate_groups: Vec::new(),
            scanned_count: 0,
            total_size: 0,
            timestamp: now,
            completed: false,
        }
    }

    /// Takes over the groups found so far, at the time `now`.
    pub fn update_from_finder(&mut self, finder: &DuplicateFinder, now: Timestamp)
        ensures
            group_views(final(self).duplicate_groups@) == finder@.groups,
            final(self).timestamp == now,
            final(self).config == old(self).config,
            final(self).size_groups == old(self).size_groups,
            final(self).scanned_count == old(self).scanned_count,
            final(self).total_size == old(self).total_size,
            final(self).completed == old(self).completed,
    {
        self.duplicate_groups = copy_groups(finder.groups());
        self.timestamp = now;
    }
}

// ----- files ---------------------------------------------------------------

/// The directory of the state files, given the user's local data directory.
pub fn get_state_dir(local_data_dir: &Option<String>) -> (r: Result<String, String>)
    ensures
        match *local_data_dir {
            Some(d) => r matches Ok(p) && p@ == join_of(d@, "dupscanner"@),
            None => r matches Err(e) && e@ == "Failed to get local data directory"@,
        },
{
    match local_data_dir {
        Some(d) => Ok(data_dir(d.as_str())),
        None => Err("Failed to get local data directory".to_owned()),
    }
}

pub open spec fn state_file_name(digest: Seq<char>) -> Seq<char> {
    "scan_"@ + digest + ".json"@
}

/// The name of the state file of a path with this MD5 digest.
pub fn state_file_for(digest: &str) -> (r: String)
    ensures
        r@ == state_file_name(digest@),
{
    let mut name = "scan_".to_owned();
    name.append(digest);
    name.append(".json");
    name
}

/// The state file of a scanned path.
pub fn get_default_state_file(scan_path: &str, local_data_dir: &Option<String>) -> (r: Result<String, String>)
    ensures
        match *local_data_dir {
            Some(d) => r matches Ok(p) && p@ == join_of(
                join_of(d@, "dupscanner"@),
                state_file_name(md5_hex_of(vstd::utf8::encode_utf8(scan_path@))),
            ),
            None => r matches Err(e) && e@ == "Failed to get local data directory"@,
        },
{
    match get_state_dir(local_data_dir) {
        Ok(dir) => {
            let digest = md5_hex(scan_path.as_bytes());
            Ok(join(dir.as_str(), state_file_for(digest.as_str()).as_str()))
        },
        Err(e) => Err(e),
    }
}

pub open spec fn is_state_file(path: Seq<char>) -> bool {
    extension_of(path) == Some("json"@)
}

fn names_state_file(path: &str) -> (r: bool)
    ensures
        r == is_state_file(path@),
{
    match extension_chars(path) {
        Some(e) => is_text(&e, "json"),
        None => false,
    }
}

/// A file in the state directory, and when it was last written, where that
/// can be told.
#[derive(Debug)]
pub struct StateFile {
    pub path: String,
    pub modified: Option<Timestamp>,
}

/// Was `a` written before `b`? A file of unknown age comes first.
pub open spec fn older(a: Option<Timestamp>, b: Option<Timestamp>) -> bool {
    match b {
        Some(y) => match a {
            Some(x) => x.before(y),
            None => true,
        },
        None => false,
    }
}

/// The newest state file among the first `n`; of two as new, the later one.
pub open spec fn newest_of(files: Seq<StateFile>, n: nat) -> Option<int>
    decreases n,
{
    if n == 0 {
        None
    } else {
        let rest = newest_of(files, (n - 1) as nat);
        if is_state_file(files[n - 1].path@) && !(rest matches Some(k) && older(
            files[n - 1].modified,
            files[k].modified,
        )) {
            Some(n - 1)
        } else {
            rest
        }
    }
}

/// The state file that was written last.
pub fn get_latest_state_file(files: &Vec<StateFile>) -> (r: Result<String, String>)
    ensures
        match newest_of(files@, files@.len()) {
            Some(k) => r matches Ok(p) && p@ == files@[k].path@,
            None => r matches Err(e) && e@ == "No state files found"@,
        },
{
    let mut best: Option<usize> = None;
    let n = files.len();
    for i in 0..n
        invariant
            n == files@.len(),
            match best {
                Some(k) => k < i && newest_of(files@, i as nat) == Some(k as int),
                None => newest_of(files@, i as nat) is None,
            },
    {
        if names_state_file(files[i].path.as_str()) {
            let behind = match best {
                Some(k) => match files[k].modified {
                    Some(y) => match files[i].modified {
                        Some(x) => x.is_before(&y),
                        None => true,
                    },
                    None => false,
                },
                None => false,
            };
            if !behind {
                best = Some(i);
            }
        }
    }
    match best {
        Some(k) => Ok(files[k].path.clone()),
        None => Err("No state files found".to_owned()),
    }
}

/// The newest state file is one of them, and none of the others is newer.
pub proof fn newest_is_not_older(files: Seq<StateFile>, n: nat, i: int)
    requires
        n <= files.len(),
        0 <= i < n,
        is_state_file(files[i].path@),
    ensures
        newest_of(files, n) matches Some(k) && 0 <= k < n && is_state_file(files[k].path@) && !older(
            files[k].modified,
            files[i].modified,
        ),
    decreases n,
{
    if i < n - 1 {
        newest_is_not_older(files, (n - 1) as nat, i);
    } else {
        lemma_newest(files, (n - 1) as nat);
    }
}

proof fn lemma_newest(files: Seq<StateFile>, n: nat)
    requires
        n <= files.len(),
    ensures
        newest_of(files, n) matches Some(k) ==> 0 <= k < n && is_state_file(files[k].path@),
    decreases n,
{
    if n > 0 {
        lemma_newest(files, (n - 1) as nat);
    }
}

// ----- listing -------------------------------------------------------------

#[derive(Debug)]
pub struct StateInfo {
    pub path: String,
    pub timestamp: String,
    pub files_scanned: usize,
}

pub struct InfoView {
    pub path: Seq<char>,
    pub timestamp: Seq<char>,
    pub files_scanned: usize,
}

impl View for StateInfo {
    type V = InfoView;

    open spec fn view(&self) -> InfoView {
        InfoView { path: self.path@, timestamp: self.timestamp@, files_scanned: self.files_scanned }
    }
}

impl Clone for StateInfo {
    fn clone(&self) -> (r: StateInfo)
        ensures
            r == *self,
    {
        StateInfo {
            path: self.path.clone(),
            timestamp: self.timestamp.clone(),
            files_scanned: self.files_scanned,
        }
    }
}

pub open spec fn info_views(v: Seq<StateInfo>) -> Seq<InfoView> {
    Seq::new(v.len(), |i: int| v[i]@)
}

/// A file in the state directory, with the state read from it where it could
/// be read.
pub struct StoredState {
    pub path: String,
    pub state: Option<ScanState>,
}

pub open spec fn time_text(t: Timestamp) -> Option<Seq<char>> {
    utc_text_of(t.secs, t.nanos, "%Y-%m-%d %H:%M:%S"@)
}

/// What is listed of a file: nothing where it is not a state file, could not
/// be read or was written at no time of the calendar.
pub open spec fn info_of(f: StoredState) -> Option<InfoView> {
    match f.state {
        Some(s) => if is_state_file(f.path@) && time_text(s.timestamp) is Some {
            Some(
                InfoView {
                    path: s.config.root_path@,
                    timestamp: time_text(s.timestamp)->0,
                    files_scanned: s.scanned_count,
                },
            )
        } else {
            None
        },
        None => None,
    }
}

/// A list with one more entry, after those with its timestamp or a later
/// one.
pub open spec fn listed_in(list: Seq<InfoView>, x: InfoView) -> Seq<InfoView>
    decreases list.len(),
{
    if list.len() == 0 || !text_before(list.last().timestamp, x.timestamp) {
        list.push(x)
    } else {
        listed_in(list.drop_last(), x).push(list.last())
    }
}

/// The state files that can be read, those with the latest timestamps first.
pub open spec fn listing(files: Seq<StoredState>) -> Seq<InfoView>
    decreases files.len(),
{
    if files.len() == 0 {
        seq![]
    } else {
        match info_of(files.last()) {
            Some(x) => listed_in(listing(files.drop_last()), x),
            None => listing(files.drop_last()),
        }
    }
}

pub open spec fn newest_first(list: Seq<InfoView>) -> bool {
    forall|i: int, j: int|
        0 <= i < j < list.len() ==> !text_before((#[trigger] list[i]).timestamp, (#[trigger] list[j]).timestamp)
}

proof fn lemma_listed_in(list: Seq<InfoView>, x: InfoView)
    requires
        newest_first(list),
    ensures
        newest_first(listed_in(list, x)),
        listed_in(list, x).to_multiset() == list.to_multiset().insert(x),
    decreases list.len(),
{
    broadcast use vstd::seq_lib::group_to_multiset_ensures;

    if list.len() == 0 || !text_before(list.last().timestamp, x.timestamp) {
        let r = list.push(x);
        assert forall|i: int, j: int| 0 <= i < j < r.len() implies !text_before(
            (#[trigger] r[i]).timestamp,
            (#[trigger] r[j]).timestamp,
        ) by {
            if j < list.len() {
                assert(r[i] == list[i] && r[j] == list[j]);
            } else if i < list.len() - 1 {
                let last = list[list.len() - 1];
                assert(!text_before(list[i].timestamp, last.timestamp));
                crate::paths::lemma_text_order(list[i].timestamp, x.timestamp, last.timestamp);
            }
        }
    } else {
        let head = list.drop_last();
        let inner = listed_in(head, x);
        let r = listed_in(list, x);
        assert forall|i: int, j: int| 0 <= i < j < head.len() implies !text_before(
            (#[trigger] head[i]).timestamp,
            (#[trigger] head[j]).timestamp,
        ) by {
            assert(head[i] == list[i] && head[j] == list[j]);
        }
        lemma_listed_in(head, x);
        assert(list =~= head.push(list.last()));
        assert forall|i: int, j: int| 0 <= i < j < r.len() implies !text_before(
            (#[trigger] r[i]).timestamp,
            (#[trigger] r[j]).timestamp,
        ) by {
            if j < inner.len() {
                assert(r[i] == inner[i] && r[j] == inner[j]);
            } else {
                let y = inner[i];
                assert(r[i] == y);
                assert(inner.to_multiset().count(y) > 0) by {
                    assert(inner.contains(y));
                }
                if y == x {
                    crate::paths::lemma_text_order(list.last().timestamp, x.timestamp, x.timestamp);
                } else {
                    assert(head.to_multiset().count(y) > 0);
                    assert(head.contains(y));
                    let k = choose|k: int| 0 <= k < head.len() && head[k] == y;
                    assert(list[k] == y);
                    assert(list[list.len() - 1] == list.last());
                }
            }
        }
    }
}

/// The listing has the latest timestamps first.
pub proof fn states_are_listed_newest_first(files: Seq<StoredState>)
    ensures
        newest_first(listing(files)),
    decreases files.len(),
{
    if files.len() > 0 {
        states_are_listed_newest_first(files.drop_last());
        match info_of(files.last()) {
            Some(x) => {
                lemma_listed_in(listing(files.drop_last()), x);
            },
            None => {},
        }
    }
}

fn list_in(list: &mut Vec<StateInfo>, x: StateInfo)
    ensures
        info_views(final(list)@) == listed_in(info_views(old(list)@), x@),
{
    let n = list.len();
    let ghost all = info_views(list@);
    let key = chars_of(x.timestamp.as_str());
    let mut at = n;
    proof {
        assert(all.take(n as int) =~= all);
        assert(all.skip(n as int) =~= seq![]);
        assert(listed_in(all, x@) =~= listed_in(all, x@) + seq![]);
    }
    while at > 0 && chars_before(&chars_of(list[at - 1].timestamp.as_str()), &key)
        invariant
            at <= n,
            n == list@.len(),
            all == info_views(list@),
            key@ == x@.timestamp,
            listed_in(all, x@) == listed_in(all.take(at as int), x@) + all.skip(at as int),
        decreases at,
    {
        proof {
            let head = all.take(at as int);
            assert(head.last() == list@[at - 1]@);
            assert(head.drop_last() =~= all.take(at - 1));
            assert(all.skip(at - 1) =~= seq![head.last()] + all.skip(at as int));
            assert(listed_in(all.take(at - 1), x@).push(head.last()) + all.skip(at as int) =~= listed_in(
                all.take(at - 1),
                x@,
            ) + all.skip(at - 1));
        }
        at = at - 1;
    }
    proof {
        let head = all.take(at as int);
        if at > 0 {
            assert(head.last() == list@[at - 1]@);
        }
        assert(listed_in(head, x@) == head.push(x@));
    }
    list.insert(at, x);
    assert(info_views(list@) =~= all.take(at as int).push(x@) + all.skip(at as int));
}

/// The state files that can be read, newest first.
pub fn list_state_files(files: &Vec<StoredState>) -> (r: Vec<StateInfo>)
    ensures
        info_views(r@) == listing(files@),
{
    let mut out: Vec<StateInfo> = Vec::new();
    let n = files.len();
    assert(info_views(out@) =~= listing(files@.take(0)));
    for i in 0..n
        invariant
            n == files@.len(),
            info_views(out@) == listing(files@.take(i as int)),
    {
        assert(files@.take(i + 1).drop_last() =~= files@.take(i as int));
        assert(files@.take(i + 1).last() == files@[i as int]);
        if let Some(s) = &files[i].state {
            if names_state_file(files[i].path.as_str()) {
                if let Some(t) = utc_text(s.timestamp.secs, s.timestamp.nanos, "%Y-%m-%d %H:%M:%S") {
                    list_in(
                        &mut out,
                        StateInfo {
                            path: s.config.root_path.clone(),
                            timestamp: t,
                            files_scanned: s.scanned_count,
                        },
                    );
                }
            }
        }
    }
    assert(files@.take(n as int) =~= files@);
    out
}

/// State files are named after the digest of the scanned path and end in
/// `.json`, and files that end otherwise are none.
pub proof fn state_files_end_in_json(dir: Seq<char>, digest: Seq<char>, stem: Seq<char>, ext: Seq<char>)
    requires
        !digest.contains('/'),
        is_plain_name(stem + "."@ + ext),
        !ext.contains('.'),
        stem.len() > 0,
    ensures
        state_file_name(digest) == "scan_"@ + digest + ".json"@,
        is_state_file(join_of(dir, state_file_name(digest))),
        is_state_file(join_of(dir, stem + "."@ + ext)) <==> ext == "json"@,
{
    reveal_strlit("scan_");
    reveal_strlit(".json");
    reveal_strlit("json");
    reveal_strlit(".");
    extensions_follow_the_last_dot(dir, stem, ext);
    let head = "scan_"@ + digest;
    let name = state_file_name(digest);
    assert(name == head + "."@ + "json"@);
    assert(!name.contains('/')) by {
        if name.contains('/') {
            let i = choose|i: int| 0 <= i < name.len() && name[i] == '/';
            if i < 5 {
                assert(name[i] == "scan_"@[i]);
            } else if i < 5 + digest.len() {
                assert(name[i] == digest[i - 5]);
                assert(digest.contains(digest[i - 5]));
            } else {
                assert(name[i] == ".json"@[i - 5 - digest.len()]);
            }
        }
    }
    assert(name.len() > 2);
    assert(!"json"@.contains('.'));
    assert(is_plain_name(name));
    extensions_follow_the_last_dot(dir, head, "json"@);
}

/// The newest state file was written at or after every other whose time is
/// known, and of those written at once it is the last; a file of unknown age
/// is taken only where no known one is there.
pub proof fn the_newest_state_is_taken(files: Seq<StateFile>, n: nat, i: int)
    requires
        n <= files.len(),
        0 <= i < n,
        is_state_file(files[i].path@),
    ensures
        newest_of(files, n) is Some,
        ({
            let k = newest_of(files, n)->0;
            &&& 0 <= k < n
            &&& is_state_file(files[k].path@)
            &&& files[i].modified is Some ==> files[k].modified is Some && files[i].modified->0.secs
                <= files[k].modified->0.secs
            &&& files[i].modified is Some && files[i].modified->0.secs == files[k].modified->0.secs
                ==> files[i].modified->0.nanos <= files[k].modified->0.nanos
            &&& files[i].modified == files[k].modified ==> i <= k
        }),
    decreases n,
{
    if i < n - 1 {
        the_newest_state_is_taken(files, (n - 1) as nat, i);
    } else if newest_of(files, (n - 1) as nat) is Some {
        lemma_newest(files, (n - 1) as nat);
    }
}

/// Every state file that was read and has a time is listed, with its root,
/// its time and its count, and nothing else is.
pub proof fn every_readable_state_is_listed(files: Seq<StoredState>, x: InfoView)
    ensures
        listing(files).contains(x) <==> exists|i: int|
            0 <= i < files.len() && (#[trigger] files[i]).state is Some && is_state_file(files[i].path@)
                && utc_text_of(
                files[i].state->0.timestamp.secs,
                files[i].state->0.timestamp.nanos,
                "%Y-%m-%d %H:%M:%S"@,
            ) == Some(x.timestamp) && x.path == files[i].state->0.config.root_path@ && x.files_scanned
                == files[i].state->0.scanned_count,
    decreases files.len(),
{
    if files.len() > 0 {
        let rest = files.drop_last();
        every_readable_state_is_listed(rest, x);
        let last = files.last();
        assert(files[files.len() - 1] == last);
        if info_of(last) is Some {
            lemma_listed(listing(rest), info_of(last)->0, x);
        }
        if listing(rest).contains(x) {
            let i = choose|i: int|
                0 <= i < rest.len() && (#[trigger] rest[i]).state is Some && is_state_file(rest[i].path@)
                    && utc_text_of(
                    rest[i].state->0.timestamp.secs,
                    rest[i].state->0.timestamp.nanos,
                    "%Y-%m-%d %H:%M:%S"@,
                ) == Some(x.timestamp) && x.path == rest[i].state->0.config.root_path@ && x.files_scanned
                    == rest[i].state->0.scanned_count;
            assert(files[i] == rest[i]);
        }
        assert forall|i: int| 0 <= i < rest.len() implies rest[i] == #[trigger] files[i] by {}
    }
}

proof fn lemma_listed(list: Seq<InfoView>, new: InfoView, x: InfoView)
    ensures
        listed_in(list, new).contains(x) <==> list.contains(x) || x == new,
    decreases list.len(),
{
    let out = listed_in(list, new);
    if list.len() == 0 || !text_before(list.last().timestamp, new.timestamp) {
        assert(out[list.len() as int] == new);
        assert forall|i: int| 0 <= i < list.len() implies out[i] == #[trigger] list[i] by {}
    } else {
        let rest = list.drop_last();
        lemma_listed(rest, new, x);
        let head = listed_in(rest, new);
        assert(out == head.push(list.last()));
        assert(out[head.len() as int] == list.last());
        assert(list[list.len() - 1] == list.last());
        assert forall|i: int| 0 <= i < head.len() implies out[i] == #[trigger] head[i] by {}
        assert forall|i: int| 0 <= i < rest.len() implies list[i] == #[trigger] rest[i] by {}
        if list.contains(x) && x != list.last() {
            let i = choose|i: int| 0 <= i < list.len() && list[i] == x;
            assert(rest[i] == x);
        }
        if head.contains(x) {
            let i = choose|i: int| 0 <= i < head.len() && head[i] == x;
            assert(out[i] == x);
        }
    }
}

} // verus!
