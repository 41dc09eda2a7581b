//! Shared scan driver used by every front end.
//!
//! An `Engine` owns the `DuplicateFinder` while a scan runs. It takes what
//! the directory walk reports and what reading files gives, and says which
//! `EngineEvent`s go to the front end: progress updates, snapshots of the
//! current duplicate groups, and finally the finished `DuplicateFinder`. A
//! `ScanSession` is the front end's side: the events that have arrived, in
//! order, and the paths removed meanwhile.

use vstd::prelude::*;
use crate::duplicates::{copy_groups, group_views, DuplicateGroup, GroupView};
use crate::finder::{
    ordered, request_views, requests_for, sorted_by_waste, sums, DuplicateFinder, FinderView, HashRequest,
    Tier,
};
use crate::path_set::PathSet;
use crate::paths::{path_key, path_keys};
use crate::scanner::{digest_view, file_views, FileInfo, ScanConfig, ScanProgress};
use crate::text::views;

verus! {

pub enum EngineEvent {
    /// Walker progress. Sent whenever the walker reports.
    Progress(ScanProgress),
    /// Current duplicate groups, sorted by wasted space. Sent after each
    /// processed batch, throttled to a few times per second.
    Groups(Vec<DuplicateGroup>),
    /// Scan finished. Carries the finder with all state, and the time the
    /// scan took, in nanoseconds.
    Complete { finder: DuplicateFinder, progress: ScanProgress, elapsed: u64 },
}

/// Paths removed by a front end while the scan is still running. The
/// engine drops them from its state so the final result is accurate.
pub struct RemovedPaths {
    paths: PathSet,
}

impl View for RemovedPaths {
    type V = Set<Seq<char>>;

    closed spec fn view(&self) -> Set<Seq<char>> {
        self.paths@
    }
}

impl Default for RemovedPaths {
    fn default() -> (r: RemovedPaths)
        ensures
            r@ == Set::<Seq<char>>::empty(),
    {
        RemovedPaths { paths: PathSet::new() }
    }
}

impl RemovedPaths {
    pub fn add(&mut self, path: String)
        ensures
            final(self)@ == old(self)@.insert(path_key(path@)),
    {
        self.paths.insert(path);
    }

    pub fn add_all(&mut self, paths: &Vec<String>)
        ensures
            forall|p: Seq<char>| #[trigger]
                final(self)@.contains(p) <==> old(self)@.contains(p) || path_keys(views(paths@)).contains(p),
    {
        self.paths.insert_all(paths);
    }

    /// Hands over the paths and keeps none of them.
    pub fn take(&mut self) -> (r: PathSet)
        ensures
            r@ == old(self)@,
            final(self)@ == Set::<Seq<char>>::empty(),
    {
        let mut taken = PathSet::new();
        core::mem::swap(&mut taken, &mut self.paths);
        taken
    }
}

// ----- the engine ----------------------------------------------------------

/// How long a front end waits for the next snapshot at least, in
/// milliseconds.
pub const SNAPSHOT_MILLIS: u64 = 250;

pub struct Engine {
    pub finder: DuplicateFinder,
    pub last_progress: ScanProgress,
    /// When the last snapshot was sent, in milliseconds on a clock that does
    /// not go back.
    pub last_snapshot: Option<u64>,
    /// Have the groups changed since?
    pub dirty: bool,
}

/// The state of a finder once the files that have gone are taken out.
pub open spec fn without_gone(v: FinderView, gone: PathSet) -> FinderView {
    if gone@ =~= Set::<Seq<char>>::empty() {
        v
    } else {
        v.forget_all(gone.keys()).rebuild()
    }
}

/// The two states differ at most in the order of their groups, and the
/// second has those that waste more first.
pub open spec fn put_in_order(before: FinderView, after: FinderView) -> bool {
    &&& after == FinderView { groups: after.groups, ..before }
    &&& sorted_by_waste(before.groups, after.groups)
    &&& ordered(after.groups)
}

impl Engine {
    pub open spec fn wf(&self) -> bool {
        self.finder.wf()
    }

    /// Is it time for a snapshot?
    pub open spec fn due(&self, now: u64) -> bool {
        match self.last_snapshot {
            Some(t) => now - t >= SNAPSHOT_MILLIS,
            None => true,
        }
    }

    pub fn new() -> (r: Engine)
        ensures
            r.wf(),
            r.finder@.groups == Seq::<GroupView>::empty(),
            r.finder@.pending == Seq::<u64>::empty(),
            r.finder@.known == Map::<Seq<char>, u64>::empty(),
            r.finder@.gone == Set::<Seq<char>>::empty(),
            r.finder@.buckets == Map::<u64, Seq<crate::scanner::FileView>>::empty(),
            r.finder.totals() == (0usize, 0u64),
            !r.finder.unsorted(),
            !r.finder.outdated(),
            r.last_progress == (ScanProgress { scanned_count: 0, total_size: 0, skipped: 0 }),
            r.last_snapshot is None,
            !r.dirty,
    {
        Engine {
            finder: DuplicateFinder::new(),
            last_progress: ScanProgress::default(),
            last_snapshot: None,
            dirty: false,
        }
    }

    fn is_due(&self, now: u64) -> (r: bool)
        ensures
            r == self.due(now),
    {
        match self.last_snapshot {
            Some(t) => now >= t && now - t >= SNAPSHOT_MILLIS,
            None => true,
        }
    }

    /// The walker reported progress: the event to pass on.
    pub fn on_progress(&mut self, p: ScanProgress) -> (r: EngineEvent)
        requires
            old(self).wf(),
        ensures
            final(self).wf(),
            *final(self) == (Engine { last_progress: p, ..*old(self) }),
            r == EngineEvent::Progress(p),
    {
        self.last_progress = p;
        EngineEvent::Progress(p)
    }

    /// The walker sent a batch: the files to be read for their first hash.
    pub fn on_batch(&mut self, batch: Vec<FileInfo>) -> (r: Vec<HashRequest>)
        requires
            old(self).wf(),
        ensures
            final(self).wf(),
            final(self).finder@ == old(self).finder@.register_all(file_views(batch@)),
            request_views(r@) == requests_for(
                final(self).finder@.buckets,
                final(self).finder@.pending,
                Tier::Quick,
            ),
            final(self).last_progress == old(self).last_progress,
            final(self).last_snapshot == old(self).last_snapshot,
            final(self).dirty == old(self).dirty,
    {
        self.finder.process_batch(batch)
    }

    /// A first hash was read, or could not be.
    pub fn on_quick_hash(&mut self, ask: &HashRequest, digest: Result<String, String>)
        requires
            old(self).wf(),
        ensures
            final(self).wf(),
            final(self).finder@ == old(self).finder@.note(ask@, Tier::Quick, digest_view(digest)),
            final(self).last_progress == old(self).last_progress,
            final(self).last_snapshot == old(self).last_snapshot,
            final(self).dirty == old(self).dirty,
    {
        self.finder.note_quick(ask, digest);
    }

    /// The files to be read in full, once all first hashes are in.
    pub fn full_requests(&self) -> (r: Vec<HashRequest>)
        ensures
            request_views(r@) == requests_for(self.finder@.buckets, self.finder@.pending, Tier::Full),
    {
        self.finder.full_requests()
    }

    /// A full hash was read, or could not be.
    pub fn on_full_hash(&mut self, ask: &HashRequest, digest: Result<String, String>)
        requires
            old(self).wf(),
        ensures
            final(self).wf(),
            final(self).finder@ == old(self).finder@.note(ask@, Tier::Full, digest_view(digest)),
            final(self).last_progress == old(self).last_progress,
            final(self).last_snapshot == old(self).last_snapshot,
            final(self).dirty == old(self).dirty,
    {
        self.finder.note_full(ask, digest);
    }

    /// Takes a snapshot of the groups.
    fn snapshot(&mut self, now: u64) -> (r: Vec<DuplicateGroup>)
        requires
            old(self).wf(),
        ensures
            final(self).wf(),
            put_in_order(old(self).finder@, final(self).finder@),
            group_views(r@) == final(self).finder@.groups,
            final(self).last_progress == old(self).last_progress,
            final(self).last_snapshot == Some(now),
            !final(self).dirty,
    {
        self.finder.ensure_sorted();
        self.last_snapshot = Some(now);
        self.dirty = false;
        copy_groups(self.finder.groups())
    }

    /// All hashes of a batch are in: the groups are made anew, the files
    /// that have gone are taken out, and a snapshot comes back where it is
    /// time for one.
    pub fn finish_batch(&mut self, gone: &PathSet, now: u64) -> (r: Option<Vec<DuplicateGroup>>)
        requires
            old(self).wf(),
        ensures
            final(self).wf(),
            final(self).last_progress == old(self).last_progress,
            r is Some <==> old(self).due(now),
            match r {
                Some(groups) => {
                    &&& put_in_order(without_gone(old(self).finder@.rebuild(), *gone), final(self).finder@)
                    &&& group_views(groups@) == final(self).finder@.groups
                    &&& final(self).last_snapshot == Some(now)
                    &&& !final(self).dirty
                },
                None => {
                    &&& final(self).finder@ == without_gone(old(self).finder@.rebuild(), *gone)
                    &&& final(self).last_snapshot == old(self).last_snapshot
                    &&& final(self).dirty
                },
            },
    {
        self.finder.rebuild();
        if !gone.is_empty() {
            self.finder.remove_paths(gone);
        }
        self.dirty = true;
        if self.is_due(now) {
            Some(self.snapshot(now))
        } else {
            None
        }
    }

    /// Nothing came from the walker for a while: a snapshot comes back where
    /// the groups changed since the last one and it is time for one.
    pub fn on_timeout(&mut self, now: u64) -> (r: Option<Vec<DuplicateGroup>>)
        requires
            old(self).wf(),
        ensures
            final(self).wf(),
            r is Some <==> old(self).dirty && old(self).due(now),
            r is None ==> *final(self) == *old(self),
            r is Some ==> {
                &&& put_in_order(old(self).finder@, final(self).finder@)
                &&& group_views(r->0@) == final(self).finder@.groups
                &&& final(self).last_progress == old(self).last_progress
                &&& final(self).last_snapshot == Some(now)
                &&& !final(self).dirty
            },
    {
        if self.dirty && self.is_due(now) {
            Some(self.snapshot(now))
        } else {
            None
        }
    }

    /// The walk is over: the last snapshot, and the event that ends the scan.
    pub fn finish(self, gone: &PathSet, elapsed: u64) -> (r: (EngineEvent, EngineEvent))
        requires
            self.wf(),
        ensures
            r.0 matches EngineEvent::Groups(groups) && (r.1 matches EngineEvent::Complete {
                finder,
                progress,
                elapsed: e,
            } && finder.wf() && put_in_order(without_gone(self.finder@, *gone), finder@) && group_views(
                groups@,
            ) == finder@.groups && finder.totals() == sums(finder@.groups) && !finder.outdated() && progress
                == self.last_progress && e == elapsed),
    {
        let mut finder = self.finder;
        if !gone.is_empty() {
            finder.remove_paths(gone);
        }
        finder.ensure_sorted();
        let groups = copy_groups(finder.groups());
        (
            EngineEvent::Groups(groups),
            EngineEvent::Complete { finder, progress: self.last_progress, elapsed },
        )
    }
}

// ----- the front end's side ------------------------------------------------

/// The events that have arrived and wait to be taken, oldest first.
pub struct ScanSession {
    pub config: ScanConfig,
    pub events: Vec<EngineEvent>,
    /// Has the engine gone?
    pub closed: bool,
    /// How many groups the last snapshot that `run_to_completion` saw had.
    pub group_count: usize,
    pub removed: RemovedPaths,
}

/// What a run saw until it had to wait, or until the scan was complete.
pub struct RunSoFar {
    /// Each progress event, with the number of groups known by then.
    pub reports: Vec<(ScanProgress, usize)>,
    pub finished: Option<(DuplicateFinder, ScanProgress, u64)>,
}

/// Where the first event that ends the scan stands; the number of events
/// where there is none.
pub open spec fn end_of(events: Seq<EngineEvent>) -> int
    decreases events.len(),
{
    if events.len() == 0 {
        0
    } else if events[0] is Complete {
        0
    } else {
        1 + end_of(events.drop_first())
    }
}

proof fn lemma_end_of(events: Seq<EngineEvent>)
    ensures
        0 <= end_of(events) <= events.len(),
    decreases events.len(),
{
    if events.len() > 0 {
        lemma_end_of(events.drop_first());
    }
}

/// How many events a front end takes in one go at most.
pub const EVENTS_PER_FRAME: usize = 32;

/// How many of the events that wait are taken in one go: up to the one that
/// ends the scan, and no more than a frame's worth.
pub open spec fn frame_of(events: Seq<EngineEvent>) -> int {
    let n = if end_of(events) < events.len() {
        end_of(events) + 1
    } else {
        events.len() as int
    };
    if n > EVENTS_PER_FRAME {
        EVENTS_PER_FRAME as int
    } else {
        n
    }
}

/// How many groups are known after these events.
pub open spec fn count_after(events: Seq<EngineEvent>, count: usize) -> usize
    decreases events.len(),
{
    if events.len() == 0 {
        count
    } else {
        match events.last() {
            EngineEvent::Groups(g) => g@.len() as usize,
            _ => count_after(events.drop_last(), count),
        }
    }
}

/// The progress events among these, each with the number of groups known by
/// then.
pub open spec fn reports_of(events: Seq<EngineEvent>, count: usize) -> Seq<(ScanProgress, usize)>
    decreases events.len(),
{
    if events.len() == 0 {
        seq![]
    } else {
        let head = events.drop_last();
        match events.last() {
            EngineEvent::Progress(p) => reports_of(head, count).push((p, count_after(head, count))),
            _ => reports_of(head, count),
        }
    }
}

impl ScanSession {
    /// A session before its first event.
    pub fn start(config: ScanConfig) -> (r: ScanSession)
        ensures
            r.config == config,
            r.events@.len() == 0,
            !r.closed,
            r.group_count == 0,
            r.removed@ == Set::<Seq<char>>::empty(),
    {
        ScanSession {
            config,
            events: Vec::new(),
            closed: false,
            group_count: 0,
            removed: RemovedPaths::default(),
        }
    }

    /// The handle used to tell the engine about files deleted mid-scan.
    pub fn removed_paths(&mut self) -> (r: &mut RemovedPaths)
        ensures
            *r == old(self).removed,
            *final(self) == (ScanSession { removed: *final(r), ..*old(self) }),
    {
        &mut self.removed
    }

    /// An event has arrived.
    pub fn deliver(&mut self, event: EngineEvent)
        ensures
            final(self).events@ == old(self).events@.push(event),
            final(self).closed == old(self).closed,
            final(self).group_count == old(self).group_count,
            final(self).removed == old(self).removed,
            final(self).config == old(self).config,
    {
        self.events.push(event);
    }

    /// The engine has gone; no more events will arrive.
    pub fn close(&mut self)
        ensures
            *final(self) == (ScanSession { closed: true, ..*old(self) }),
    {
        self.closed = true;
    }

    /// Non-blocking poll for the next event.
    pub fn try_next(&mut self) -> (r: Option<EngineEvent>)
        ensures
            r is Some <==> old(self).events@.len() > 0,
            r is Some ==> r->0 == old(self).events@[0] && final(self).events@ == old(self).events@.drop_first(),
            r is None ==> *final(self) == *old(self),
            final(self).closed == old(self).closed,
            final(self).group_count == old(self).group_count,
            final(self).removed == old(self).removed,
            final(self).config == old(self).config,
    {
        if self.events.len() == 0 {
            return None;
        }
        let e = self.events.remove(0);
        assert(self.events@ =~= old(self).events@.drop_first());
        Some(e)
    }

    /// The events that wait, up to a frame's worth.
    pub fn take_events(&mut self) -> (r: Vec<EngineEvent>)
        ensures
            0 <= frame_of(old(self).events@) <= old(self).events@.len(),
            r@ == old(self).events@.take(frame_of(old(self).events@)),
            final(self).events@ == old(self).events@.skip(frame_of(old(self).events@)),
            final(self).closed == old(self).closed,
            final(self).group_count == old(self).group_count,
            final(self).removed == old(self).removed,
            final(self).config == old(self).config,
    {
        let mut batch: Vec<EngineEvent> = Vec::new();
        let ghost all = self.events@;
        assert(all.skip(0) =~= all);
        assert(batch@ =~= all.take(0));
        proof {
            lemma_end_of(all);
        }
        while batch.len() < EVENTS_PER_FRAME
            invariant_except_break
                batch@.len() + end_of(all.skip(batch@.len() as int)) == end_of(all),
                batch@.len() <= end_of(all),
            invariant
                all == old(self).events@,
                0 <= end_of(all) <= all.len(),
                batch@.len() <= EVENTS_PER_FRAME,
                batch@.len() <= all.len(),
                batch@ == all.take(batch@.len() as int),
                self.events@ == all.skip(batch@.len() as int),
                self.closed == old(self).closed,
                self.group_count == old(self).group_count,
                self.removed == old(self).removed,
                self.config == old(self).config,
            ensures
                batch@.len() == frame_of(all),
                batch@ == all.take(batch@.len() as int),
                self.events@ == all.skip(batch@.len() as int),
                batch@.len() <= all.len(),
            decreases EVENTS_PER_FRAME - batch@.len(),
        {
            let ghost taken = batch@.len() as int;
            let ghost rest = all.skip(taken);
            proof {
                lemma_end_of(rest);
            }
            match self.try_next() {
                None => {
                    break;
                },
                Some(ev) => {
                    let done = matches!(ev, EngineEvent::Complete { .. });
                    batch.push(ev);
                    proof {
                        assert(rest[0] == all[taken]);
                        assert(rest.drop_first() =~= all.skip(taken + 1));
                        assert(all.take(taken + 1) =~= all.take(taken).push(all[taken]));
                        lemma_end_of(rest.drop_first());
                    }
                    if done {
                        break;
                    }
                },
            }
        }
        batch
    }

    /// The next event once one has arrived; `None` once the engine is gone.
    pub fn next(&mut self) -> (r: Option<EngineEvent>)
        requires
            old(self).events@.len() > 0 || old(self).closed,
        ensures
            r is None <==> old(self).events@.len() == 0,
            r is Some ==> r->0 == old(self).events@[0] && final(self).events@ == old(self).events@.drop_first(),
            r is None ==> *final(self) == *old(self),
            final(self).closed == old(self).closed,
            final(self).group_count == old(self).group_count,
            final(self).removed == old(self).removed,
            final(self).config == old(self).config,
    {
        self.try_next()
    }

    /// What a wait that has run out gives: an event, nothing yet, or the
    /// end of the stream.
    pub fn next_timeout(&mut self) -> (r: Result<Option<EngineEvent>, ()>)
        ensures
            r is Err <==> old(self).events@.len() == 0 && old(self).closed,
            r matches Ok(Some(e)) ==> old(self).events@.len() > 0 && e == old(self).events@[0]
                && final(self).events@ == old(self).events@.drop_first(),
            r matches Ok(None) ==> old(self).events@.len() == 0 && !old(self).closed,
            !(r matches Ok(Some(_))) ==> *final(self) == *old(self),
            final(self).closed == old(self).closed,
            final(self).group_count == old(self).group_count,
            final(self).removed == old(self).removed,
            final(self).config == old(self).config,
    {
        match self.try_next() {
            Some(e) => Ok(Some(e)),
            None => if self.closed {
                Err(())
            } else {
                Ok(None)
            },
        }
    }

    /// Run on towards completion, ignoring intermediate snapshots but for
    /// the number of their groups: takes events until the scan is complete
    /// or none is left.
    pub fn run_to_completion(&mut self) -> (r: RunSoFar)
        ensures
            ({
                let all = old(self).events@;
                let n = end_of(all);
                &&& 0 <= n <= all.len()
                &&& r.reports@ == reports_of(all.take(n), old(self).group_count)
                &&& final(self).group_count == count_after(all.take(n), old(self).group_count)
                &&& r.finished is Some <==> n < all.len()
                &&& r.finished is Some ==> all[n] == (EngineEvent::Complete {
                    finder: (r.finished->0).0,
                    progress: (r.finished->0).1,
                    elapsed: (r.finished->0).2,
                }) && final(self).events@ == all.skip(n + 1)
                &&& r.finished is None ==> final(self).events@.len() == 0
            }),
            final(self).closed == old(self).closed,
            final(self).removed == old(self).removed,
            final(self).config == old(self).config,
    {
        let mut reports: Vec<(ScanProgress, usize)> = Vec::new();
        let ghost all = self.events@;
        let ghost mut taken: int = 0;
        assert(all.skip(0) =~= all);
        assert(reports@ =~= reports_of(all.take(0), self.group_count));
        loop
            invariant
                all == old(self).events@,
                0 <= taken <= all.len(),
                self.events@ == all.skip(taken),
                taken + end_of(all.skip(taken)) == end_of(all),
                reports@ == reports_of(all.take(taken), old(self).group_count),
                self.group_count == count_after(all.take(taken), old(self).group_count),
                self.closed == old(self).closed,
                self.removed == old(self).removed,
                self.config == old(self).config,
            decreases all.len() - taken,
        {
            let ghost rest = all.skip(taken);
            match self.try_next() {
                None => {
                    assert(end_of(rest) == 0);
                    return RunSoFar { reports, finished: None };
                },
                Some(ev) => {
                    proof {
                        assert(rest[0] == all[taken]);
                        assert(rest.drop_first() =~= all.skip(taken + 1));
                        assert(all.take(taken + 1).drop_last() =~= all.take(taken));
                        assert(all.take(taken + 1).last() == all[taken]);
                    }
                    match ev {
                        EngineEvent::Progress(p) => {
                            reports.push((p, self.group_count));
                        },
                        EngineEvent::Groups(g) => {
                            self.group_count = g.len();
                        },
                        EngineEvent::Complete { finder, progress, elapsed } => {
                            return RunSoFar {
                                reports,
                                finished: Some((finder, progress, elapsed)),
                            };
                        },
                    }
                    proof {
                        taken = taken + 1;
                    }
                },
            }
        }
    }
}

/// A snapshot is due where none was sent yet, or the last one is a quarter
/// of a second old or older.
pub proof fn snapshots_wait_a_quarter_of_a_second(engine: Engine, now: u64)
    ensures
        engine.last_snapshot is None ==> engine.due(now),
        engine.last_snapshot is Some ==> (engine.due(now) <==> now >= engine.last_snapshot->0 + 250),
{
}

/// A run ends at the first event that says so, and not before.
pub proof fn runs_end_with_the_first_complete(events: Seq<EngineEvent>)
    ensures
        0 <= end_of(events) <= events.len(),
        forall|i: int| 0 <= i < end_of(events) ==> !((#[trigger] events[i]) is Complete),
        end_of(events) < events.len() ==> events[end_of(events)] is Complete,
    decreases events.len(),
{
    if events.len() > 0 && !(events[0] is Complete) {
        let rest = events.drop_first();
        runs_end_with_the_first_complete(rest);
        assert(end_of(events) == 1 + end_of(rest));
        assert forall|i: int| 0 <= i < end_of(events) implies !((#[trigger] events[i]) is Complete) by {
            if i > 0 {
                assert(events[i] == rest[i - 1]);
            }
        }
        assert(end_of(rest) < rest.len() ==> events[end_of(events)] == rest[end_of(rest)]);
    }
}

/// A frame takes as many events as there are, but no more than thirty-two,
/// and none after the one that ends the run.
pub proof fn frames_take_thirty_two_events(events: Seq<EngineEvent>)
    ensures
        0 <= frame_of(events) <= events.len(),
        frame_of(events) <= 32,
        forall|i: int| 0 <= i < frame_of(events) - 1 ==> !((#[trigger] events[i]) is Complete),
        frame_of(events) < events.len() && frame_of(events) < 32 ==> frame_of(events) > 0 && events[frame_of(
            events,
        ) - 1] is Complete,
{
    runs_end_with_the_first_complete(events);
}

/// The number of groups is that of the last event that brought groups.
pub proof fn counts_follow_the_last_groups(events: Seq<EngineEvent>, e: EngineEvent, count: usize)
    ensures
        count_after(Seq::<EngineEvent>::empty(), count) == count,
        e is Groups ==> count_after(events.push(e), count) == e->Groups_0@.len() as usize,
        !(e is Groups) ==> count_after(events.push(e), count) == count_after(events, count),
{
    assert(events.push(e).drop_last() == events);
}

/// Every event of progress is reported, with the number of groups there
/// were by then, and no other event is.
pub proof fn progress_is_reported_as_it_comes(events: Seq<EngineEvent>, e: EngineEvent, count: usize)
    ensures
        reports_of(Seq::<EngineEvent>::empty(), count).len() == 0,
        e is Progress ==> reports_of(events.push(e), count) == reports_of(events, count).push(
            (e->Progress_0, count_after(events, count)),
        ),
        !(e is Progress) ==> reports_of(events.push(e), count) == reports_of(events, count),
{
    assert(events.push(e).drop_last() == events);
}

/// Without removed paths the groups stay as they are, and with them the
/// finder forgets them and makes its groups anew.
pub proof fn removed_paths_are_forgotten(v: FinderView, gone: PathSet)
    ensures
        gone@ == Set::<Seq<char>>::empty() ==> without_gone(v, gone) == v,
        gone@ != Set::<Seq<char>>::empty() ==> without_gone(v, gone) == v.forget_all(gone.keys()).rebuild(),
{
}

/// Putting in order lists the groups by what they waste, and changes nothing
/// else.
pub proof fn order_changes_only_the_list(before: FinderView, after: FinderView, g: GroupView)
    requires
        put_in_order(before, after),
    ensures
        after.groups.contains(g) <==> before.groups.contains(g),
        after.groups.len() == before.groups.len(),
        forall|i: int, j: int|
            0 <= i < j < after.groups.len() ==> (#[trigger] after.groups[i]).wasted_space >= (
            #[trigger] after.groups[j]).wasted_space,
        after.buckets == before.buckets && after.known == before.known && after.gone == before.gone
            && after.pending == before.pending,
{
    crate::finder::sorting_keeps_the_groups(before.groups, after.groups);
    crate::finder::the_largest_waste_comes_first(before.groups, after.groups);
}

} // verus!
