//! The image previews of the terminal UI: which files have one, which ones
//! are being decoded, and the cache of those that are done.
//!
//! Results are downscaled once and cached by path. Only the most recent
//! request is decoded; older requests still queued are dropped, because the
//! user has already moved on.

use vstd::prelude::*;
use std::sync::Arc;
use crate::filters::{kinds_go_by_extension, FileKind};
use crate::outside::{
    image_height, image_height_of, image_width, image_width_of, thumbnail, thumbnail_of,
};
use crate::path_set::PathSet;
use crate::paths::{
    extension_chars, extension_of, extensions_follow_the_last_dot, is_plain_name, join_of, path_key, same_path,
};
use crate::text::{lower_chars, lower_text, same_text, text_of, views};

verus! {

/// Longest side of a cached preview, in pixels. Terminal cells are far
/// coarser than this even with the pixel protocols.
pub const MAX_SIDE: u32 = 1200;

/// Longest side of an image that is decoded at all, in pixels.
pub const MAX_SOURCE_SIDE: u32 = 20_000;

/// How many bytes decoding an image may take.
pub const MAX_DECODE_BYTES: u64 = 805_306_368;

pub const CACHE_ENTRIES: usize = 24;

#[derive(Debug)]
pub enum Preview {
    /// Not an image format we can decode.
    Unsupported,
    Loading,
    Ready(Arc<image::DynamicImage>),
    Failed(String),
}

impl Clone for Preview {
    fn clone(&self) -> (r: Preview)
        ensures
            r == *self,
    {
        match self {
            Preview::Unsupported => Preview::Unsupported,
            Preview::Loading => Preview::Loading,
            Preview::Ready(img) => Preview::Ready(img.clone()),
            Preview::Failed(e) => Preview::Failed(e.clone()),
        }
    }
}

// ----- decoding ------------------------------------------------------------

/// What is kept of a decoded image.
pub open spec fn fitted(img: image::DynamicImage) -> image::DynamicImage {
    if image_width_of(img) > MAX_SIDE || image_height_of(img) > MAX_SIDE {
        thumbnail_of(img, MAX_SIDE, MAX_SIDE)
    } else {
        img
    }
}

/// Scales a decoded image down where it is larger than a preview needs.
pub fn fit(img: image::DynamicImage) -> (r: image::DynamicImage)
    requires
        image_width_of(img) <= MAX_SOURCE_SIDE,
        image_height_of(img) <= MAX_SOURCE_SIDE,
    ensures
        r == fitted(img),
        image_width_of(r) <= MAX_SIDE,
        image_height_of(r) <= MAX_SIDE,
{
    if image_width(&img) > MAX_SIDE || image_height(&img) > MAX_SIDE {
        thumbnail(&img, MAX_SIDE, MAX_SIDE)
    } else {
        img
    }
}

/// The preview of a decoded image; none of one that is too large to be
/// decoded.
pub fn preview_of(img: image::DynamicImage) -> (r: Option<image::DynamicImage>)
    ensures
        r == if image_width_of(img) > MAX_SOURCE_SIDE || image_height_of(img) > MAX_SOURCE_SIDE {
            None
        } else {
            Some(fitted(img))
        },
        r is Some ==> image_width_of(r->0) <= MAX_SIDE && image_height_of(r->0) <= MAX_SIDE,
{
    if image_width(&img) > MAX_SOURCE_SIDE || image_height(&img) > MAX_SOURCE_SIDE {
        None
    } else {
        Some(fit(img))
    }
}

/// Collapses a burst of requests to the newest one; the others were files
/// the user scrolled past.
pub fn newest_request(first: String, rest: Vec<String>) -> (r: (String, Vec<String>))
    ensures
        views(r.1@).push(r.0@) == seq![first@] + views(rest@),
{
    let ghost all = seq![first@] + views(rest@);
    let mut latest = first;
    let mut skipped: Vec<String> = Vec::new();
    let n = rest.len();
    assert(views(skipped@).push(latest@) =~= all.take(1));
    for i in 0..n
        invariant
            n == rest@.len(),
            all == seq![first@] + views(rest@),
            views(skipped@).push(latest@) == all.take(i + 1),
    {
        let ghost before = views(skipped@);
        let next = rest[i].clone();
        skipped.push(latest);
        assert(views(skipped@) =~= before.push(latest@));
        latest = next;
        assert(all.take(i + 2) =~= all.take(i + 1).push(all[i + 1]));
    }
    assert(all.take(n + 1) =~= all);
    (latest, skipped)
}

/// The extensions of the formats that can be decoded.
pub open spec fn decodable(e: Seq<char>) -> bool {
    e == "jpg"@ || e == "jpeg"@ || e == "png"@ || e == "gif"@ || e == "webp"@ || e == "bmp"@ || e == "tif"@
        || e == "tiff"@ || e == "ico"@ || e == "qoi"@
}

pub open spec fn supported(path: Seq<char>) -> bool {
    FileKind::holding(path) == FileKind::Image && (extension_of(path) matches Some(e) && decodable(
        lower_text(e),
    ))
}

// ----- the cache -----------------------------------------------------------

pub struct Entry {
    pub path: String,
    pub preview: Preview,
}

pub struct EntryView {
    /// The key of the path.
    pub key: Seq<char>,
    pub preview: Preview,
}

pub open spec fn entry_views(v: Seq<Entry>) -> Seq<EntryView> {
    Seq::new(v.len(), |i: int| EntryView { key: path_key(v[i].path@), preview: v[i].preview })
}

/// The previews of the files that were looked at, oldest first, and the
/// requests that are on their way.
pub struct Previewer {
    cache: Vec<Entry>,
    pending: PathSet,
    requests: Vec<String>,
}

pub struct PreviewerView {
    pub cache: Seq<EntryView>,
    /// The keys of the paths asked for, with no answer yet.
    pub pending: Set<Seq<char>>,
    /// Asked for, and not handed to the decoder yet, oldest first.
    pub requests: Seq<Seq<char>>,
}

impl View for Previewer {
    type V = PreviewerView;

    closed spec fn view(&self) -> PreviewerView {
        PreviewerView {
            cache: entry_views(self.cache@),
            pending: self.pending@,
            requests: views(self.requests@),
        }
    }
}

/// Where the cache holds the path of this key.
pub open spec fn entry_at(cache: Seq<EntryView>, key: Seq<char>) -> Option<int>
    decreases cache.len(),
{
    if cache.len() == 0 {
        None
    } else if cache.last().key == key {
        Some(cache.len() - 1)
    } else {
        entry_at(cache.drop_last(), key)
    }
}

/// The cache with a new entry. One for the same path is replaced where it
/// stands; else the entry comes last, and the oldest ones leave until there
/// is room.
pub open spec fn with_entry(cache: Seq<EntryView>, key: Seq<char>, preview: Preview) -> Seq<EntryView> {
    match entry_at(cache, key) {
        Some(k) => cache.update(k, EntryView { key, preview }),
        None => {
            let longer = cache.push(EntryView { key, preview });
            if longer.len() > CACHE_ENTRIES {
                longer.skip(longer.len() - CACHE_ENTRIES)
            } else {
                longer
            }
        },
    }
}

/// The cache without the paths of these keys.
pub open spec fn without_paths(cache: Seq<EntryView>, gone: Set<Seq<char>>) -> Seq<EntryView>
    decreases cache.len(),
{
    if cache.len() == 0 {
        seq![]
    } else if gone.contains(cache.last().key) {
        without_paths(cache.drop_last(), gone)
    } else {
        without_paths(cache.drop_last(), gone).push(cache.last())
    }
}

/// How an answer of the decoder is shown.
pub open spec fn answer(result: Result<image::DynamicImage, String>) -> Preview {
    match result {
        Ok(img) => Preview::Ready(Arc::new(img)),
        Err(e) => Preview::Failed(e),
    }
}

impl PreviewerView {
    /// Every path is cached once at most, and there is room for all.
    pub open spec fn wf(self) -> bool {
        &&& self.cache.len() <= CACHE_ENTRIES
        &&& forall|i: int, j: int|
            0 <= i < j < self.cache.len() ==> (#[trigger] self.cache[i]).key != (
            #[trigger] self.cache[j]).key
    }

    /// The preview that is cached for a path.
    pub open spec fn cached(self, path: Seq<char>) -> Option<Preview> {
        match entry_at(self.cache, path_key(path)) {
            Some(k) => Some(self.cache[k].preview),
            None => None,
        }
    }

    /// What is shown for a path.
    pub open spec fn shown(self, path: Seq<char>) -> Preview {
        if !supported(path) {
            Preview::Unsupported
        } else {
            match self.cached(path) {
                Some(p) => p,
                None => Preview::Loading,
            }
        }
    }

    /// The state once a path was looked at: one that is supported and not
    /// cached is asked for, unless it was already.
    pub open spec fn asked(self, path: Seq<char>) -> PreviewerView {
        if supported(path) && self.cached(path) is None && !self.pending.contains(path_key(path)) {
            PreviewerView {
                pending: self.pending.insert(path_key(path)),
                requests: self.requests.push(path),
                ..self
            }
        } else {
            self
        }
    }

    /// The state once the paths of these keys were forgotten.
    pub open spec fn forgotten(self, gone: Set<Seq<char>>) -> PreviewerView {
        PreviewerView { cache: without_paths(self.cache, gone), ..self }
    }

    /// The state once the decoder answered.
    pub open spec fn answered(
        self,
        path: Seq<char>,
        result: Result<image::DynamicImage, String>,
    ) -> PreviewerView {
        PreviewerView {
            cache: with_entry(self.cache, path_key(path), answer(result)),
            pending: self.pending.remove(path_key(path)),
            ..self
        }
    }

    pub open spec fn answered_all(
        self,
        results: Seq<(String, Result<image::DynamicImage, String>)>,
    ) -> PreviewerView
        decreases results.len(),
    {
        if results.len() == 0 {
            self
        } else {
            self.answered_all(results.drop_last()).answered(results.last().0@, results.last().1)
        }
    }
}

proof fn lemma_entry_at(cache: Seq<EntryView>, key: Seq<char>)
    ensures
        match entry_at(cache, key) {
            Some(k) => 0 <= k < cache.len() && cache[k].key == key,
            None => forall|i: int| 0 <= i < cache.len() ==> (#[trigger] cache[i]).key != key,
        },
    decreases cache.len(),
{
    if cache.len() > 0 && cache.last().key != key {
        lemma_entry_at(cache.drop_last(), key);
        if entry_at(cache, key) is None {
            assert forall|i: int| 0 <= i < cache.len() implies (#[trigger] cache[i]).key != key by {
                if i < cache.len() - 1 {
                    assert(cache.drop_last()[i] == cache[i]);
                }
            }
        }
    }
}

proof fn lemma_without(cache: Seq<EntryView>, gone: Set<Seq<char>>)
    ensures
        without_paths(cache, gone).len() <= cache.len(),
        forall|i: int|
            0 <= i < without_paths(cache, gone).len() ==> !gone.contains(
                (#[trigger] without_paths(cache, gone)[i]).key,
            ),
        forall|i: int|
            0 <= i < without_paths(cache, gone).len() ==> exists|k: int|
                0 <= k < cache.len() && cache[k] == #[trigger] without_paths(cache, gone)[i],
        (forall|i: int, j: int|
            0 <= i < j < cache.len() ==> (#[trigger] cache[i]).key != (#[trigger] cache[j]).key)
            ==> forall|i: int, j: int|
            0 <= i < j < without_paths(cache, gone).len() ==> (#[trigger] without_paths(cache, gone)[i]).key
                != (#[trigger] without_paths(cache, gone)[j]).key,
    decreases cache.len(),
{
    if cache.len() > 0 {
        let head = cache.drop_last();
        lemma_without(head, gone);
        let w = without_paths(head, gone);
        let r = without_paths(cache, gone);
        assert forall|i: int| 0 <= i < r.len() implies exists|k: int|
            0 <= k < cache.len() && cache[k] == #[trigger] r[i] by {
            if i < w.len() {
                assert(r[i] == w[i]);
                let k = choose|k: int| 0 <= k < head.len() && head[k] == w[i];
                assert(cache[k] == r[i]);
            } else {
                assert(cache[cache.len() - 1] == r[i]);
            }
        }
        if forall|i: int, j: int|
            0 <= i < j < cache.len() ==> (#[trigger] cache[i]).key != (#[trigger] cache[j]).key {
            assert forall|i: int, j: int| 0 <= i < j < head.len() implies (#[trigger] head[i]).key != (
            #[trigger] head[j]).key by {
                assert(cache[i] == head[i] && cache[j] == head[j]);
            }
            assert forall|i: int, j: int| 0 <= i < j < r.len() implies (#[trigger] r[i]).key != (
            #[trigger] r[j]).key by {
                assert(r[i] == w[i]);
                if j < w.len() {
                    assert(r[j] == w[j]);
                } else {
                    let k = choose|k: int| 0 <= k < head.len() && head[k] == w[i];
                    assert(cache[k] == w[i]);
                    assert(cache[cache.len() - 1] == r[j]);
                }
            }
        }
    }
}

/// Every step keeps the cache in order and within its bounds.
pub proof fn previews_stay_in_order(
    v: PreviewerView,
    path: Seq<char>,
    result: Result<image::DynamicImage, String>,
    gone: Set<Seq<char>>,
)
    requires
        v.wf(),
    ensures
        v.asked(path).wf(),
        v.answered(path, result).wf(),
        v.forgotten(gone).wf(),
{
    lemma_entry_at(v.cache, path_key(path));
    lemma_without(v.cache, gone);
}

/// An answer is shown from then on; a path that is forgotten is asked for
/// anew when it is looked at again; and while a request is on its way it is
/// not made twice.
pub proof fn answers_are_shown(
    v: PreviewerView,
    path: Seq<char>,
    result: Result<image::DynamicImage, String>,
)
    requires
        v.wf(),
        supported(path),
    ensures
        v.answered(path, result).shown(path) == answer(result),
        v.forgotten(set![path_key(path)]).shown(path) == Preview::Loading,
        v.asked(path).asked(path) == v.asked(path),
{
    let next = v.answered(path, result);
    lemma_entry_at(v.cache, path_key(path));
    lemma_entry_at(next.cache, path_key(path));
    previews_stay_in_order(v, path, result, set![path_key(path)]);
    match entry_at(v.cache, path_key(path)) {
        Some(k) => {
            assert(next.cache[k].key == path_key(path));
        },
        None => {
            assert(next.cache[next.cache.len() - 1].key == path_key(path));
        },
    }
    lemma_without(v.cache, set![path_key(path)]);
    lemma_entry_at(without_paths(v.cache, set![path_key(path)]), path_key(path));
}

impl Previewer {
    pub fn new() -> (r: Previewer)
        ensures
            r@.wf(),
            r@ == (PreviewerView { cache: seq![], pending: Set::empty(), requests: seq![] }),
    {
        let r = Previewer { cache: Vec::new(), pending: PathSet::new(), requests: Vec::new() };
        assert(r@.cache =~= seq![]);
        assert(r@.requests =~= seq![]);
        r
    }

    /// Can we decode this file? Decided by extension, matching the decoders
    /// compiled into the `image` crate.
    pub fn supports(path: &str) -> (r: bool)
        ensures
            r == supported(path@),
    {
        if FileKind::of(path) != FileKind::Image {
            return false;
        }
        match extension_chars(path) {
            Some(e) => {
                let ext = text_of(&lower_chars(&e));
                let e = ext.as_str();
                same_text(e, "jpg") || same_text(e, "jpeg") || same_text(e, "png") || same_text(e, "gif")
                    || same_text(e, "webp") || same_text(e, "bmp") || same_text(e, "tif") || same_text(
                    e,
                    "tiff",
                ) || same_text(e, "ico") || same_text(e, "qoi")
            },
            None => false,
        }
    }

    fn find(&self, path: &str) -> (r: Option<usize>)
        ensures
            match r {
                Some(k) => entry_at(self@.cache, path_key(path@)) == Some(k as int) && k < self.cache@.len(),
                None => entry_at(self@.cache, path_key(path@)) is None,
            },
    {
        let n = self.cache.len();
        let ghost all = self@.cache;
        let mut found: Option<usize> = None;
        for i in 0..n
            invariant
                n == self.cache@.len(),
                all == entry_views(self.cache@),
                match found {
                    Some(k) => entry_at(all.take(i as int), path_key(path@)) == Some(k as int) && k < i,
                    None => entry_at(all.take(i as int), path_key(path@)) is None,
                },
        {
            assert(all.take(i + 1).drop_last() =~= all.take(i as int));
            assert(all.take(i + 1).last() == all[i as int]);
            if same_path(self.cache[i].path.as_str(), path) {
                found = Some(i);
            }
        }
        assert(all.take(n as int) =~= all);
        found
    }

    /// Current state for `path`, requesting a decode if needed.
    pub fn get(&mut self, path: &str) -> (r: Preview)
        ensures
            old(self)@.wf() ==> final(self)@.wf(),
            r == old(self)@.shown(path@),
            final(self)@ == old(self)@.asked(path@),
    {
        if !Self::supports(path) {
            return Preview::Unsupported;
        }
        match self.find(path) {
            Some(k) => {
                return self.cache[k].preview.clone();
            },
            None => {},
        }
        let ghost before = views(self.requests@);
        if self.pending.insert(path.to_owned()) {
            self.requests.push(path.to_owned());
            assert(views(self.requests@) =~= before.push(path@));
        } else {
            assert(self@.pending =~= old(self)@.pending);
        }
        Preview::Loading
    }

    /// Hands out the requests that the decoder has not been told of.
    pub fn take_requests(&mut self) -> (r: Vec<String>)
        ensures
            old(self)@.wf() ==> final(self)@.wf(),
            views(r@) == old(self)@.requests,
            final(self)@ == (PreviewerView { requests: seq![], ..old(self)@ }),
    {
        let mut out: Vec<String> = Vec::new();
        core::mem::swap(&mut out, &mut self.requests);
        assert(views(self.requests@) =~= seq![]);
        out
    }

    /// Drains finished decodes into the cache. Returns true if anything new
    /// arrived, so the caller can redraw.
    pub fn poll(&mut self, results: Vec<(String, Result<image::DynamicImage, String>)>) -> (r: bool)
        ensures
            old(self)@.wf() ==> final(self)@.wf(),
            r == (results@.len() > 0),
            final(self)@ == old(self)@.answered_all(results@),
    {
        let changed = results.len() > 0;
        let ghost all = results@;
        let ghost start = self@;
        let ghost mut done: int = 0;
        let mut rest = results;
        proof {
            assert(all.take(0) =~= seq![]);
        }
        while rest.len() > 0
            invariant
                0 <= done <= all.len(),
                rest@ == all.skip(done),
                start.wf() ==> self@.wf(),
                self@ == start.answered_all(all.take(done)),
            decreases rest@.len(),
        {
            let (path, result) = rest.remove(0);
            proof {
                let k = done;
                assert(all.take(k + 1).drop_last() =~= all.take(k));
                assert(all.take(k + 1).last() == all[k]);
                assert(rest@ =~= all.skip(k + 1));
                done = k + 1;
            }
            self.settle(path, result);
        }
        assert(all.take(all.len() as int) =~= all);
        changed
    }

    fn settle(&mut self, path: String, result: Result<image::DynamicImage, String>)
        ensures
            old(self)@.wf() ==> final(self)@.wf(),
            final(self)@ == old(self)@.answered(path@, result),
    {
        let ghost before = self@;
        proof {
            if before.wf() {
                previews_stay_in_order(before, path@, result, set![]);
            }
        }
        self.pending.remove(path.as_str());
        let entry = match result {
            Ok(img) => Preview::Ready(Arc::new(img)),
            Err(e) => Preview::Failed(e),
        };
        self.insert(path, entry);
    }

    fn insert(&mut self, path: String, preview: Preview)
        ensures
            final(self)@ == (PreviewerView {
                cache: with_entry(old(self)@.cache, path_key(path@), preview),
                ..old(self)@
            }),
    {
        let ghost before = self@.cache;
        let ghost p = path_key(path@);
        let entry = Entry { path, preview };
        match self.find(entry.path.as_str()) {
            Some(k) => {
                self.cache.set(k, entry);
                assert(self@.cache =~= before.update(k as int, EntryView { key: p, preview }));
            },
            None => {
                self.cache.push(entry);
                assert(self@.cache =~= before.push(EntryView { key: p, preview }));
                let ghost longer = self@.cache;
                assert(longer.skip(0) =~= longer);
                while self.cache.len() > CACHE_ENTRIES
                    invariant
                        self@ == (PreviewerView { cache: self@.cache, ..old(self)@ }),
                        self@.cache.len() == self.cache@.len(),
                        self.cache@.len() <= longer.len(),
                        self@.cache == longer.skip(longer.len() - self.cache@.len()),
                        longer.len() > CACHE_ENTRIES ==> self.cache@.len() >= CACHE_ENTRIES,
                        longer.len() <= CACHE_ENTRIES ==> self.cache@.len() == longer.len(),
                    decreases self.cache@.len(),
                {
                    let ghost now = self@.cache;
                    self.cache.remove(0);
                    assert(self@.cache =~= now.skip(1));
                    assert(self@.cache =~= longer.skip(longer.len() - self.cache@.len()));
                }
            },
        }
    }

    /// Forgets a path (after a rename).
    pub fn forget(&mut self, path: &str)
        ensures
            old(self)@.wf() ==> final(self)@.wf(),
            final(self)@ == old(self)@.forgotten(set![path_key(path@)]),
    {
        let mut gone = PathSet::new();
        gone.insert(path.to_owned());
        assert(gone@ =~= set![path_key(path@)]);
        self.forget_all(&gone);
    }

    /// Forgets paths (after a deletion).
    pub fn forget_all(&mut self, gone: &PathSet)
        ensures
            old(self)@.wf() ==> final(self)@.wf(),
            final(self)@ == old(self)@.forgotten(gone@),
    {
        proof {
            lemma_without(self@.cache, gone@);
        }
        let n = self.cache.len();
        let ghost all = self@.cache;
        let mut kept: Vec<Entry> = Vec::new();
        assert(entry_views(kept@) =~= seq![]);
        for i in 0..n
            invariant
                n == self.cache@.len(),
                all == entry_views(self.cache@),
                entry_views(kept@) == without_paths(all.take(i as int), gone@),
        {
            let e = &self.cache[i];
            assert(all.take(i + 1).drop_last() =~= all.take(i as int));
            assert(all.take(i + 1).last() == all[i as int]);
            if !gone.contains(e.path.as_str()) {
                let ghost before = entry_views(kept@);
                kept.push(Entry { path: e.path.clone(), preview: e.preview.clone() });
                assert(entry_views(kept@) =~= before.push(all[i as int]));
            }
        }
        assert(all.take(n as int) =~= all);
        self.cache = kept;
    }
}

impl Default for Previewer {
    fn default() -> (r: Previewer)
        ensures
            r@.wf(),
            r@ == (PreviewerView { cache: seq![], pending: Set::empty(), requests: seq![] }),
    {
        Previewer::new()
    }
}

/// What stands in the pane in place of an image.
pub fn placeholder(preview: &Preview, path: &str) -> (r: Option<String>)
    ensures
        r is None <==> preview is Ready,
        r matches Some(t) ==> t@ == match *preview {
            Preview::Unsupported => "No terminal preview for "@ + FileKind::holding(path@).label_text()
                + " files. Press e to open with the default application."@,
            Preview::Loading => "Decoding…"@,
            Preview::Failed(e) => "Could not decode image: "@ + e@,
            Preview::Ready(_) => ""@,
        },
{
    match preview {
        Preview::Unsupported => {
            let mut s = "No terminal preview for ".to_owned();
            s.append(FileKind::of(path).label());
            s.append(" files. Press e to open with the default application.");
            Some(s)
        },
        Preview::Loading => Some("Decoding…".to_owned()),
        Preview::Failed(e) => {
            let mut s = "Could not decode image: ".to_owned();
            s.append(e.as_str());
            Some(s)
        },
        Preview::Ready(_) => None,
    }
}

/// Previews are at most 1200 pixels wide and high, pictures within that stay
/// as they are, and none over 20000 is taken.
pub proof fn previews_have_their_limits(img: image::DynamicImage)
    ensures
        MAX_SIDE == 1200,
        MAX_SOURCE_SIDE == 20000,
        image_width_of(img) <= 1200 && image_height_of(img) <= 1200 ==> fitted(img) == img,
        image_width_of(img) > 1200 || image_height_of(img) > 1200 ==> fitted(img) == thumbnail_of(img, 1200, 1200),
{
}

/// A preview is shown of the pictures that can be decoded, by extension,
/// whatever its case.
pub proof fn decodable_pictures_are_shown(dir: Seq<char>, stem: Seq<char>, ext: Seq<char>)
    requires
        is_plain_name(stem + "."@ + ext),
        !ext.contains('.'),
        stem.len() > 0,
    ensures
        ({
            let e = lower_text(ext);
            supported(join_of(dir, stem + "."@ + ext)) <==> e == "jpg"@ || e == "jpeg"@ || e == "png"@ || e
                == "gif"@ || e == "webp"@ || e == "bmp"@ || e == "tif"@ || e == "tiff"@ || e == "ico"@
        }),
        is_plain_name(ext) ==> !supported(join_of(dir, ext)),
{
    extensions_follow_the_last_dot(dir, stem, ext);
    let e = lower_text(ext);
    kinds_go_by_extension(e);
    if e == "qoi"@ {
        reveal_strlit("qoi");
        reveal_strlit("jpg");
        reveal_strlit("jpeg");
        reveal_strlit("png");
        reveal_strlit("gif");
        reveal_strlit("bmp");
        reveal_strlit("webp");
        reveal_strlit("heic");
        reveal_strlit("heif");
        reveal_strlit("tif");
        reveal_strlit("tiff");
        reveal_strlit("svg");
        reveal_strlit("ico");
        reveal_strlit("avif");
        reveal_strlit("raw");
        reveal_strlit("cr2");
        reveal_strlit("nef");
        reveal_strlit("arw");
        reveal_strlit("dng");
        reveal_strlit("psd");
        assert(e[0] == 'q');
    }
}

/// Twenty-four previews are kept: a new one goes to the end and drives out
/// the oldest where there are that many, and an answer for a path that is
/// there takes its place.
pub proof fn the_oldest_preview_goes_first(cache: Seq<EntryView>, key: Seq<char>, preview: Preview, k: int)
    requires
        cache.len() <= 24,
        forall|i: int, j: int| 0 <= i < j < cache.len() ==> (#[trigger] cache[i]).key != (#[trigger] cache[j]).key,
    ensures
        0 <= k < cache.len() && cache[k].key == key ==> with_entry(cache, key, preview) == cache.update(
            k,
            EntryView { key, preview },
        ),
        (forall|i: int| 0 <= i < cache.len() ==> (#[trigger] cache[i]).key != key) && cache.len() < 24
            ==> with_entry(cache, key, preview) == cache.push(EntryView { key, preview }),
        (forall|i: int| 0 <= i < cache.len() ==> (#[trigger] cache[i]).key != key) && cache.len() == 24
            ==> with_entry(cache, key, preview) == cache.drop_first().push(EntryView { key, preview }),
{
    lemma_entry_at(cache, key);
    if cache.len() == 24 {
        let longer = cache.push(EntryView { key, preview });
        assert(longer.skip(1) == cache.drop_first().push(EntryView { key, preview }));
    }
}

/// Forgetting takes the previews of those paths and no others.
pub proof fn forgotten_previews_go(v: PreviewerView, gone: Set<Seq<char>>)
    ensures
        v.forgotten(gone).cache == v.cache.filter(|e: EntryView| !gone.contains(e.key)),
        v.forgotten(gone).pending == v.pending,
        v.forgotten(gone).requests == v.requests,
{
    lemma_without_paths(v.cache, gone);
}

proof fn lemma_without_paths(cache: Seq<EntryView>, gone: Set<Seq<char>>)
    ensures
        without_paths(cache, gone) == cache.filter(|e: EntryView| !gone.contains(e.key)),
    decreases cache.len(),
{
    reveal(Seq::filter);
    if cache.len() > 0 {
        lemma_without_paths(cache.drop_last(), gone);
    }
}

/// A path is asked for once: where a preview can be shown, is not there and
/// was not asked for. What cannot be shown is never asked for.
pub proof fn previews_are_asked_for_once(v: PreviewerView, path: Seq<char>)
    ensures
        !supported(path) ==> v.asked(path) == v && v.shown(path) == Preview::Unsupported,
        v.pending.contains(path_key(path)) ==> v.asked(path) == v,
        supported(path) && (forall|i: int|
            0 <= i < v.cache.len() ==> (#[trigger] v.cache[i]).key != path_key(path)) ==> v.shown(path)
            == Preview::Loading && v.asked(path).pending.contains(path_key(path)),
        supported(path) && (forall|i: int|
            0 <= i < v.cache.len() ==> (#[trigger] v.cache[i]).key != path_key(path)) && !v.pending.contains(
            path_key(path),
        ) ==> v.asked(path).requests == v.requests.push(path),
        (exists|i: int| 0 <= i < v.cache.len() && (#[trigger] v.cache[i]).key == path_key(path)) ==> v.asked(path)
            == v,
{
    lemma_entry_at(v.cache, path_key(path));
}

/// Answers are taken in one after the other.
pub proof fn answers_come_one_by_one(
    v: PreviewerView,
    results: Seq<(String, Result<image::DynamicImage, String>)>,
    r: (String, Result<image::DynamicImage, String>),
)
    ensures
        v.answered_all(Seq::<(String, Result<image::DynamicImage, String>)>::empty()) == v,
        v.answered_all(results.push(r)) == v.answered_all(results).answered(r.0@, r.1),
        v.answered(r.0@, r.1).pending == v.pending.remove(path_key(r.0@)),
        v.answered(r.0@, r.1).requests == v.requests,
{
    assert(results.push(r).drop_last() == results);
}

} // verus!
