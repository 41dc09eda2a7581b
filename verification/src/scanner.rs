//! What a scan looks at: its settings, the files it finds, which entries it
//! leaves out, and how files are hashed.

use vstd::prelude::*;
use crate::duplicates::size_sum;
use crate::outside::{
    absorbed, compile_pattern, glob_accepts, glob_match, no_backslash, pattern_matches, pattern_text,
    sha256_hex, Sha256Stream,
};
use crate::paths::{
    a_name_lies_in_its_folder, components, depth, file_name, file_name_of, is_plain_name, join_of, path_key,
};
use crate::text::{
    chars_of, ends_with, has_prefix, has_suffix, slice_of, starts_with, text_of, trim, copy_texts,
    same_chars, trim_chars, trim_end, trim_start, views,
};

verus! {

/// Size of the prefix hashed for the quick hash.
pub const QUICK_HASH_BYTES: u64 = 65536;

/// A point in time: whole seconds since the Unix epoch, rounded down, and
/// the nanoseconds after them.
#[derive(Debug, Clone, Copy, PartialEq, Eq, Hash, Structural)]
pub struct Timestamp {
    pub secs: i64,
    pub nanos: u32,
}

impl Timestamp {
    pub open spec fn before(self, other: Timestamp) -> bool {
        self.secs < other.secs || (self.secs == other.secs && self.nanos < other.nanos)
    }

    pub fn is_before(&self, other: &Timestamp) -> (r: bool)
        ensures
            r == self.before(*other),
    {
        self.secs < other.secs || (self.secs == other.secs && self.nanos < other.nanos)
    }

    pub fn from_secs(secs: i64) -> (r: Timestamp)
        ensures
            r == (Timestamp { secs, nanos: 0 }),
    {
        Timestamp { secs, nanos: 0 }
    }
}

#[derive(Debug)]
pub struct ScanConfig {
    pub root_path: String,
    pub min_size: u64,
    pub max_size: Option<u64>,
    pub exclude_patterns: Vec<String>,
    pub batch_size: usize,
}

pub fn default_batch_size() -> (r: usize)
    ensures
        r == 1000,
{
    1000
}

/// A sum that stays at the largest number once it would pass it.
pub open spec fn capped(n: int) -> u64 {
    if n > u64::MAX {
        u64::MAX
    } else {
        n as u64
    }
}

pub open spec fn capped_count(n: int) -> usize {
    if n > usize::MAX {
        usize::MAX
    } else {
        n as usize
    }
}

pub fn add_capped(a: u64, b: u64) -> (r: u64)
    ensures
        r == capped(a + b),
{
    if a > u64::MAX - b {
        u64::MAX
    } else {
        a + b
    }
}

pub fn count_capped(a: usize, b: usize) -> (r: usize)
    ensures
        r == capped_count(a + b),
{
    if a > usize::MAX - b {
        usize::MAX
    } else {
        a + b
    }
}

// ----- files ---------------------------------------------------------------

/// A file. Two are equal where all they hold is, the path as it is written.
#[derive(Debug, PartialEq, Eq, Hash)]
pub struct FileInfo {
    pub path: String,
    pub size: u64,
    /// SHA-256 of the first 64 KiB, computed lazily.
    pub quick_hash: Option<String>,
    /// SHA-256 of the whole file, computed lazily.
    pub hash: Option<String>,
    pub modified: Timestamp,
    pub depth: usize,
}

/// What a `FileInfo` says, with its texts as sequences of characters.
pub struct FileView {
    pub path: Seq<char>,
    pub size: u64,
    pub quick_hash: Option<Seq<char>>,
    pub hash: Option<Seq<char>>,
    pub modified: Timestamp,
    pub depth: usize,
}

impl FileView {
    /// By what the file's path is compared and looked up.
    pub open spec fn key(self) -> Seq<char> {
        path_key(self.path)
    }
}

pub open spec fn opt_view(t: Option<String>) -> Option<Seq<char>> {
    match t {
        Some(s) => Some(s@),
        None => None,
    }
}

impl View for FileInfo {
    type V = FileView;

    open spec fn view(&self) -> FileView {
        FileView {
            path: self.path@,
            size: self.size,
            quick_hash: opt_view(self.quick_hash),
            hash: opt_view(self.hash),
            modified: self.modified,
            depth: self.depth,
        }
    }
}

/// The views of a list of files.
pub open spec fn file_views(v: Seq<FileInfo>) -> Seq<FileView> {
    Seq::new(v.len(), |i: int| v[i]@)
}

pub fn copy_opt(t: &Option<String>) -> (r: Option<String>)
    ensures
        opt_view(r) == opt_view(*t),
        r == *t,
{
    match t {
        Some(s) => Some(s.clone()),
        None => None,
    }
}

impl Clone for FileInfo {
    fn clone(&self) -> (r: FileInfo)
        ensures
            r == *self,
    {
        FileInfo {
            path: self.path.clone(),
            size: self.size,
            quick_hash: copy_opt(&self.quick_hash),
            hash: copy_opt(&self.hash),
            modified: self.modified,
            depth: self.depth,
        }
    }
}

/// A copy of a list of files.
pub fn copy_files(v: &Vec<FileInfo>) -> (r: Vec<FileInfo>)
    ensures
        r@ == v@,
{
    let mut out: Vec<FileInfo> = Vec::new();
    let n = v.len();
    for i in 0..n
        invariant
            n == v@.len(),
            out@ == v@.take(i as int),
    {
        out.push(v[i].clone());
        assert(v@.take(i + 1) =~= v@.take(i as int).push(v@[i as int]));
    }
    assert(v@.take(n as int) =~= v@);
    out
}

/// Does the whole file fit in the prefix that the quick hash covers?
pub open spec fn is_small(size: u64) -> bool {
    size <= QUICK_HASH_BYTES
}

impl FileView {
    /// The file once its quick hash is known to be `h`. For a small file it
    /// is the full hash as well.
    pub open spec fn with_quick(self, h: Seq<char>) -> FileView {
        FileView {
            quick_hash: Some(h),
            hash: if is_small(self.size) {
                Some(h)
            } else {
                self.hash
            },
            ..self
        }
    }

    /// The file once its full hash was read off the disk as `h`.
    pub open spec fn with_full(self, h: Seq<char>) -> FileView {
        FileView {
            hash: Some(h),
            quick_hash: if is_small(self.size) {
                Some(h)
            } else {
                self.quick_hash
            },
            ..self
        }
    }

    /// Can the full hash be had without reading the file?
    pub open spec fn quick_is_full(self) -> bool {
        is_small(self.size) && self.quick_hash is Some
    }

    /// The file after its full hash was asked for, where reading the file
    /// yields `digest`: the quick hash of a small file is reused.
    pub open spec fn hashed(self, digest: Result<Seq<char>, Seq<char>>) -> FileView {
        if self.quick_is_full() {
            FileView { hash: self.quick_hash, ..self }
        } else {
            match digest {
                Ok(h) => self.with_full(h),
                Err(_) => self,
            }
        }
    }

    pub open spec fn quick_hashed(self, digest: Result<Seq<char>, Seq<char>>) -> FileView {
        match digest {
            Ok(h) => self.with_quick(h),
            Err(_) => self,
        }
    }
}

pub open spec fn digest_view(d: Result<String, String>) -> Result<Seq<char>, Seq<char>> {
    match d {
        Ok(h) => Ok(h@),
        Err(e) => Err(e@),
    }
}

impl FileInfo {
    /// A file as the directory walk meets it. A file system that keeps no
    /// modification time counts as the epoch.
    pub fn from_path(path: &str, size: u64, modified: Option<Timestamp>) -> (r: FileInfo)
        ensures
            r@ == (FileView {
                path: path@,
                size,
                quick_hash: None,
                hash: None,
                modified: match modified {
                    Some(t) => t,
                    None => Timestamp { secs: 0, nanos: 0 },
                },
                depth: components(path@).len() as usize,
            }),
    {
        FileInfo {
            path: path.to_owned(),
            size,
            quick_hash: None,
            hash: None,
            modified: match modified {
                Some(t) => t,
                None => Timestamp { secs: 0, nanos: 0 },
            },
            depth: depth(path),
        }
    }

    /// Must the file be read for its full hash?
    pub fn needs_reading(&self) -> (r: bool)
        ensures
            r == !self@.quick_is_full(),
    {
        !(self.size <= QUICK_HASH_BYTES && self.quick_hash.is_some())
    }

    /// Notes the full hash. `digest` is what reading the whole file gave; it
    /// is not looked at where the file need not be read.
    pub fn compute_hash(&mut self, digest: Result<String, String>) -> (r: Result<(), String>)
        ensures
            final(self)@ == old(self)@.hashed(digest_view(digest)),
            r is Ok <==> old(self)@.quick_is_full() || digest is Ok,
            r is Err ==> r->Err_0@ == digest->Err_0@,
    {
        if !self.needs_reading() {
            self.hash = copy_opt(&self.quick_hash);
            return Ok(());
        }
        match digest {
            Ok(h) => {
                if self.size <= QUICK_HASH_BYTES {
                    self.quick_hash = Some(h.clone());
                }
                self.hash = Some(h);
                Ok(())
            },
            Err(e) => Err(e),
        }
    }

    /// The full hash, noted first where it is not known yet.
    pub fn get_or_compute_hash(&mut self, digest: Result<String, String>) -> (r: Result<String, String>)
        ensures
            final(self)@ == if old(self)@.hash is Some {
                old(self)@
            } else {
                old(self)@.hashed(digest_view(digest))
            },
            r is Ok <==> final(self)@.hash is Some,
            r is Ok ==> Some(r->Ok_0@) == final(self)@.hash,
            r is Err ==> r->Err_0@ == digest->Err_0@,
    {
        if self.hash.is_none() {
            match self.compute_hash(digest) {
                Ok(()) => {},
                Err(e) => {
                    return Err(e);
                },
            }
        }
        match &self.hash {
            Some(h) => Ok(h.clone()),
            None => Ok(String::new()),
        }
    }

    /// Notes the quick hash. `digest` is what reading the file's first bytes
    /// gave.
    pub fn compute_quick_hash(&mut self, digest: Result<String, String>) -> (r: Result<(), String>)
        ensures
            final(self)@ == old(self)@.quick_hashed(digest_view(digest)),
            r is Ok <==> digest is Ok,
            r is Err ==> r->Err_0@ == digest->Err_0@,
    {
        match digest {
            Ok(h) => {
                if self.size <= QUICK_HASH_BYTES {
                    self.hash = Some(h.clone());
                }
                self.quick_hash = Some(h);
                Ok(())
            },
            Err(e) => Err(e),
        }
    }

    /// The quick hash, noted first where it is not known yet.
    pub fn get_or_compute_quick_hash(&mut self, digest: Result<String, String>) -> (r: Result<
        String,
        String,
    >)
        ensures
            final(self)@ == if old(self)@.quick_hash is Some {
                old(self)@
            } else {
                old(self)@.quick_hashed(digest_view(digest))
            },
            r is Ok <==> final(self)@.quick_hash is Some,
            r is Ok ==> Some(r->Ok_0@) == final(self)@.quick_hash,
            r is Err ==> r->Err_0@ == digest->Err_0@,
    {
        if self.quick_hash.is_none() {
            match self.compute_quick_hash(digest) {
                Ok(()) => {},
                Err(e) => {
                    return Err(e);
                },
            }
        }
        match &self.quick_hash {
            Some(h) => Ok(h.clone()),
            None => Ok(String::new()),
        }
    }
}

// ----- hashing -------------------------------------------------------------

/// The part of a file's content that a hash covers: all of it, or no more
/// than `limit` bytes from its start.
pub open spec fn covered(content: Seq<u8>, limit: Option<u64>) -> Seq<u8> {
    match limit {
        Some(n) => if content.len() <= n {
            content
        } else {
            content.take(n as int)
        },
        None => content,
    }
}

pub open spec fn full_hash_of(content: Seq<u8>) -> Seq<char> {
    sha256_hex(covered(content, None))
}

pub open spec fn quick_hash_of(content: Seq<u8>) -> Seq<char> {
    sha256_hex(covered(content, Some(QUICK_HASH_BYTES)))
}

/// Hashes a file's content as it is read, piece by piece.
pub struct ContentHasher {
    stream: Sha256Stream,
    room: Option<u64>,
    limit: Option<u64>,
    content: Ghost<Seq<u8>>,
}

impl ContentHasher {
    /// The content fed in so far.
    pub closed spec fn content(&self) -> Seq<u8> {
        self.content@
    }

    /// How much of the content the hash covers.
    pub closed spec fn limit(&self) -> Option<u64> {
        self.limit
    }

    pub closed spec fn wf(&self) -> bool {
        &&& absorbed(self.stream) == covered(self.content@, self.limit)
        &&& self.limit is Some <==> self.room is Some
        &&& self.limit is Some ==> self.room->0 == self.limit->0 - absorbed(self.stream).len()
    }

    /// A hash of the whole content.
    pub fn full() -> (r: ContentHasher)
        ensures
            r.wf(),
            r.content() == Seq::<u8>::empty(),
            r.limit() is None,
    {
        ContentHasher {
            stream: Sha256Stream::start(),
            room: None,
            limit: None,
            content: Ghost(Seq::empty()),
        }
    }

    /// A hash of the first `QUICK_HASH_BYTES` of the content.
    pub fn quick() -> (r: ContentHasher)
        ensures
            r.wf(),
            r.content() == Seq::<u8>::empty(),
            r.limit() == Some(QUICK_HASH_BYTES),
    {
        ContentHasher {
            stream: Sha256Stream::start(),
            room: Some(QUICK_HASH_BYTES),
            limit: Some(QUICK_HASH_BYTES),
            content: Ghost(Seq::empty()),
        }
    }

    /// Takes in the next piece of the content.
    pub fn feed(&mut self, piece: &[u8])
        requires
            old(self).wf(),
        ensures
            final(self).wf(),
            final(self).content() == old(self).content() + piece@,
            final(self).limit() == old(self).limit(),
    {
        let ghost before = self.content@;
        let ghost taken = absorbed(self.stream);
        match self.room {
            None => {
                self.stream.absorb(piece);
            },
            Some(room) => {
                let n = piece.len();
                if n as u64 <= room {
                    self.stream.absorb(piece);
                    self.room = Some(room - n as u64);
                    proof {
                        if before.len() > self.limit->0 {
                            assert(room == 0);
                            assert(taken + piece@ =~= taken);
                            assert((before + piece@).take(self.limit->0 as int) =~= taken);
                        }
                    }
                } else {
                    self.stream.absorb(vstd::slice::slice_subrange(piece, 0, room as usize));
                    self.room = Some(0);
                    proof {
                        let limit = self.limit->0 as int;
                        if before.len() > limit {
                            assert((before + piece@).take(limit) =~= taken + piece@.subrange(0, room as int));
                        } else {
                            assert((before + piece@).take(limit) =~= taken + piece@.subrange(0, room as int));
                        }
                    }
                }
            },
        }
        proof {
            self.content@ = before + piece@;
        }
    }

    /// Does the rest of the content still matter?
    pub fn wants_more(&self) -> (r: bool)
        requires
            self.wf(),
        ensures
            r <==> (self.limit() is Some ==> self.content().len() < self.limit()->0),
    {
        match self.room {
            None => true,
            Some(room) => room > 0,
        }
    }

    /// The hash of what was fed in.
    pub fn finish(self) -> (r: String)
        requires
            self.wf(),
        ensures
            r@ == sha256_hex(covered(self.content(), self.limit())),
    {
        self.stream.hex()
    }
}

/// SHA-256 of a whole content.
pub fn compute_file_hash(content: &[u8]) -> (r: String)
    ensures
        r@ == full_hash_of(content@),
{
    let mut h = ContentHasher::full();
    h.feed(content);
    assert(h.content() =~= content@);
    h.finish()
}

/// SHA-256 of the first `QUICK_HASH_BYTES` of a content.
pub fn compute_quick_hash(content: &[u8]) -> (r: String)
    ensures
        r@ == quick_hash_of(content@),
{
    let mut h = ContentHasher::quick();
    h.feed(content);
    assert(h.content() =~= content@);
    h.finish()
}

/// For a file that fits in the quick-hash prefix the two hashes are the same.
pub proof fn quick_hash_is_full_hash_of_small_content(content: Seq<u8>)
    requires
        content.len() <= QUICK_HASH_BYTES,
    ensures
        quick_hash_of(content) == full_hash_of(content),
{
}

/// The quick hash does not depend on what follows the prefix.
pub proof fn quick_hash_ignores_what_follows(a: Seq<u8>, b: Seq<u8>)
    requires
        a.len() >= QUICK_HASH_BYTES,
        b.len() >= QUICK_HASH_BYTES,
        a.take(QUICK_HASH_BYTES as int) == b.take(QUICK_HASH_BYTES as int),
    ensures
        quick_hash_of(a) == quick_hash_of(b),
{
    assert(a.take(QUICK_HASH_BYTES as int).len() == QUICK_HASH_BYTES);
    if a.len() == QUICK_HASH_BYTES {
        assert(a.take(QUICK_HASH_BYTES as int) =~= a);
    }
    if b.len() == QUICK_HASH_BYTES {
        assert(b.take(QUICK_HASH_BYTES as int) =~= b);
    }
}

// ----- exclusions ----------------------------------------------------------

/// The patterns of `get_default_exclusions`.
pub open spec fn default_exclusions() -> Seq<Seq<char>> {
    seq![
        ".git"@,
        ".svn"@,
        ".hg"@,
        "node_modules"@,
        "bower_components"@,
        ".npm"@,
        ".yarn"@,
        "target"@,
        "dist"@,
        "build"@,
        ".next"@,
        ".nuxt"@,
        ".vscode"@,
        ".idea"@,
        ".cache"@,
        "__pycache__"@,
        ".pytest_cache"@,
        ".DS_Store"@,
        "Thumbs.db"@,
        "desktop.ini"@,
        ".dupscanner"@,
    ]
}

/// Default exclusion patterns for directories that almost never contain
/// duplicates a user wants to act on. Directory patterns are matched against
/// the directory name so the walker can prune whole subtrees.
pub fn get_default_exclusions() -> (r: Vec<String>)
    ensures
        views(r@) == default_exclusions(),
{
    let mut r: Vec<String> = Vec::new();
    // Version control
    r.push(".git".to_owned());
    r.push(".svn".to_owned());
    r.push(".hg".to_owned());
    // Package managers and dependencies
    r.push("node_modules".to_owned());
    r.push("bower_components".to_owned());
    r.push(".npm".to_owned());
    r.push(".yarn".to_owned());
    // Build artifacts
    r.push("target".to_owned());
    r.push("dist".to_owned());
    r.push("build".to_owned());
    r.push(".next".to_owned());
    r.push(".nuxt".to_owned());
    // IDE and editor files
    r.push(".vscode".to_owned());
    r.push(".idea".to_owned());
    // Cache directories
    r.push(".cache".to_owned());
    r.push("__pycache__".to_owned());
    r.push(".pytest_cache".to_owned());
    // OS metadata files
    r.push(".DS_Store".to_owned());
    r.push("Thumbs.db".to_owned());
    r.push("desktop.ini".to_owned());
    // Data left behind by older versions of the program
    r.push(".dupscanner".to_owned());
    r
}

/// A pattern of the form `*/name/*` or `*/name` as the bare `name`.
pub open spec fn bare_name(t: Seq<char>) -> Seq<char> {
    let s = if has_prefix(t, "*/"@) {
        t.skip(2)
    } else {
        t
    };
    if has_suffix(s, "/*"@) {
        s.take(s.len() - 2)
    } else {
        s
    }
}

/// The pattern itself where it is well formed, nothing otherwise.
pub open spec fn if_accepted(pattern: Seq<char>) -> Seq<Seq<char>> {
    if glob_accepts(pattern) {
        seq![pattern]
    } else {
        seq![]
    }
}

/// What one line of the configuration is compiled to: the pattern without
/// the space around it, and its bare name where that is something else.
pub open spec fn forms_of(raw: Seq<char>) -> Seq<Seq<char>> {
    let t = trim(raw);
    let b = bare_name(t);
    if t.len() == 0 {
        seq![]
    } else if b != t && b.len() > 0 {
        if_accepted(t) + if_accepted(b)
    } else {
        if_accepted(t)
    }
}

pub open spec fn all_forms(raws: Seq<Seq<char>>) -> Seq<Seq<char>>
    decreases raws.len(),
{
    if raws.len() == 0 {
        seq![]
    } else {
        all_forms(raws.drop_last()) + forms_of(raws.last())
    }
}

/// A pattern matches a path if it matches the whole path or the name at its
/// end.
pub open spec fn form_matches(form: Seq<char>, path: Seq<char>) -> bool {
    glob_match(form, path) || match file_name_of(path) {
        Some(n) => glob_match(form, n),
        None => false,
    }
}

pub open spec fn excluded_by(forms: Seq<Seq<char>>, path: Seq<char>) -> bool {
    exists|i: int| 0 <= i < forms.len() && #[trigger] form_matches(forms[i], path)
}

/// Does a pattern without a backslash match the path?
pub open spec fn surely_excluded(forms: Seq<Seq<char>>, path: Seq<char>) -> bool {
    exists|i: int|
        0 <= i < forms.len() && no_backslash(forms[i]) && #[trigger] form_matches(forms[i], path)
}

/// Does a pattern match the path, or hold a backslash?
pub open spec fn possibly_excluded(forms: Seq<Seq<char>>, path: Seq<char>) -> bool {
    exists|i: int| 0 <= i < forms.len() && #[trigger] may_match(forms[i], path)
}

pub open spec fn may_match(form: Seq<char>, path: Seq<char>) -> bool {
    !no_backslash(form) || form_matches(form, path)
}

pub open spec fn all_plain(texts: Seq<Seq<char>>) -> bool {
    forall|i: int| 0 <= i < texts.len() ==> no_backslash(#[trigger] texts[i])
}

/// Can this compiled pattern stem from this line of the configuration? What
/// becomes of a line that holds a backslash depends on the platform, but it
/// is compiled to nothing else than its own two forms.
pub open spec fn stems_from(form: Seq<char>, raw: Seq<char>) -> bool {
    if no_backslash(raw) {
        forms_of(raw).contains(form)
    } else {
        form.len() > 0 && (form == trim(raw) || form == bare_name(trim(raw)))
    }
}

/// Are these the compiled patterns of a configuration? Every line without a
/// backslash is among them with all its forms, and every one of them stems
/// from a line.
pub open spec fn compiled_from(forms: Seq<Seq<char>>, raws: Seq<Seq<char>>) -> bool {
    &&& forall|k: int, f: Seq<char>|
        0 <= k < raws.len() && no_backslash(#[trigger] raws[k]) && #[trigger] forms_of(raws[k]).contains(f)
            ==> forms.contains(f)
    &&& forall|f: Seq<char>| #[trigger]
        forms.contains(f) ==> exists|k: int| 0 <= k < raws.len() && #[trigger] stems_from(f, raws[k])
}

/// Compiled exclusion patterns.
#[derive(Debug, Clone)]
pub struct ExclusionMatcher {
    patterns: Vec<glob::Pattern>,
}

proof fn lemma_trim_keeps(s: Seq<char>, c: char)
    ensures
        trim_end(s).contains(c) ==> s.contains(c),
        trim_start(s).contains(c) ==> s.contains(c),
    decreases s.len(),
{
    if s.len() > 0 {
        lemma_trim_keeps(s.drop_last(), c);
        lemma_trim_keeps(s.drop_first(), c);
        if s.drop_last().contains(c) {
            let i = choose|i: int| 0 <= i < s.len() - 1 && s.drop_last()[i] == c;
            assert(s[i] == c);
        }
        if s.drop_first().contains(c) {
            let i = choose|i: int| 0 <= i < s.len() - 1 && s.drop_first()[i] == c;
            assert(s[i + 1] == c);
        }
    }
}

proof fn lemma_part_keeps(s: Seq<char>, lo: int, hi: int, c: char)
    requires
        0 <= lo <= hi <= s.len(),
        s.subrange(lo, hi).contains(c),
    ensures
        s.contains(c),
{
    let i = choose|i: int| 0 <= i < hi - lo && s.subrange(lo, hi)[i] == c;
    assert(s[lo + i] == c);
}

proof fn lemma_plain_bare(t: Seq<char>)
    requires
        no_backslash(t),
    ensures
        no_backslash(bare_name(t)),
{
    reveal_strlit("*/");
    reveal_strlit("/*");
    let s = if has_prefix(t, "*/"@) {
        t.skip(2)
    } else {
        t
    };
    let b = bare_name(t);
    let lo = if has_prefix(t, "*/"@) {
        2int
    } else {
        0int
    };
    assert(s =~= t.subrange(lo, t.len() as int));
    assert(b =~= t.subrange(lo, lo + b.len()));
    if b.contains('\\') {
        lemma_part_keeps(t, lo, lo + b.len(), '\\');
    }
}

proof fn lemma_plain_name(path: Seq<char>)
    requires
        no_backslash(path),
        file_name_of(path) is Some,
    ensures
        no_backslash(file_name_of(path)->0),
{
    let t = crate::paths::trim_tail(path);
    lemma_trim_tail_prefix(path);
    crate::text::lemma_last_of(t, '/');
    let n = file_name_of(path)->0;
    let lo = crate::text::last_of(t, '/') + 1;
    assert(n =~= path.subrange(lo, t.len() as int));
    if n.contains('\\') {
        lemma_part_keeps(path, lo, t.len() as int, '\\');
    }
}

proof fn lemma_trim_tail_prefix(path: Seq<char>)
    ensures
        crate::paths::trim_tail(path).len() <= path.len(),
        crate::paths::trim_tail(path) == path.take(crate::paths::trim_tail(path).len() as int),
    decreases path.len(),
{
    let t = crate::paths::trim_tail(path);
    if path.len() > 1 && (path.last() == '/' || (path.last() == '.' && path[path.len() - 2] == '/')) {
        lemma_trim_tail_prefix(path.drop_last());
        assert(path.drop_last().take(t.len() as int) =~= path.take(t.len() as int));
    } else {
        assert(path.take(t.len() as int) =~= path);
    }
}

proof fn lemma_compiled_step(
    before: Seq<Seq<char>>,
    extra: Seq<Seq<char>>,
    raws: Seq<Seq<char>>,
    raw: Seq<char>,
)
    requires
        compiled_from(before, raws),
        no_backslash(raw) ==> extra == forms_of(raw),
        forall|f: Seq<char>| #[trigger] extra.contains(f) ==> stems_from(f, raw),
    ensures
        compiled_from(before + extra, raws.push(raw)),
{
    let forms = before + extra;
    let all = raws.push(raw);
    assert forall|f: Seq<char>| #[trigger] forms.contains(f) <==> before.contains(f) || extra.contains(f) by {
        if forms.contains(f) {
            let i = choose|i: int| 0 <= i < forms.len() && forms[i] == f;
            if i < before.len() {
                assert(before[i] == f);
            } else {
                assert(extra[i - before.len()] == f);
            }
        }
        if before.contains(f) {
            let i = choose|i: int| 0 <= i < before.len() && before[i] == f;
            assert(forms[i] == f);
        }
        if extra.contains(f) {
            let i = choose|i: int| 0 <= i < extra.len() && extra[i] == f;
            assert(forms[before.len() + i] == f);
        }
    }
    assert forall|k: int, f: Seq<char>|
        0 <= k < all.len() && no_backslash(#[trigger] all[k]) && #[trigger] forms_of(all[k]).contains(
            f,
        ) implies forms.contains(f) by {
        if k < raws.len() {
            assert(raws[k] == all[k]);
            assert(before.contains(f));
        }
    }
    assert forall|f: Seq<char>| #[trigger] forms.contains(f) implies exists|k: int|
        0 <= k < all.len() && #[trigger] stems_from(f, all[k]) by {
        if before.contains(f) {
            let k = choose|k: int| 0 <= k < raws.len() && #[trigger] stems_from(f, raws[k]);
            assert(stems_from(f, all[k]));
        } else {
            assert(stems_from(f, all[raws.len() as int]));
        }
    }
}

impl ExclusionMatcher {
    /// The texts of the compiled patterns, in order.
    pub closed spec fn forms(&self) -> Seq<Seq<char>> {
        Seq::new(self.patterns@.len(), |i: int| pattern_text(self.patterns@[i]))
    }

    /// Compiles the patterns; one that is not well formed is left out. What
    /// becomes of a pattern that holds a backslash depends on the platform.
    pub fn new(patterns: &Vec<String>) -> (r: ExclusionMatcher)
        ensures
            compiled_from(r.forms(), views(patterns@)),
            all_plain(views(patterns@)) ==> r.forms() == all_forms(views(patterns@)) && all_plain(
                r.forms(),
            ),
    {
        let mut m = ExclusionMatcher { patterns: Vec::new() };
        let n = patterns.len();
        let ghost all = views(patterns@);
        assert(m.forms() =~= all_forms(all.take(0)));
        for i in 0..n
            invariant
                n == patterns@.len(),
                all == views(patterns@),
                compiled_from(m.forms(), all.take(i as int)),
                all_plain(all) ==> m.forms() == all_forms(all.take(i as int)) && all_plain(m.forms()),
        {
            let ghost raw = all[i as int];
            let ghost before = m.forms();
            assert(all.take(i + 1).drop_last() =~= all.take(i as int));
            assert(all.take(i + 1).last() == raw);
            let chars = trim_chars(&chars_of(patterns[i].as_str()));
            let ghost t = trim(raw);
            proof {
                if no_backslash(raw) {
                    lemma_trim_keeps(raw, '\\');
                    lemma_trim_keeps(trim_end(raw), '\\');
                    assert(no_backslash(t));
                    lemma_plain_bare(t);
                }
            }
            if chars.len() > 0 {
                m.add(&text_of(&chars));
                let bare = bare_chars(&chars);
                if bare.len() > 0 && !same_chars(&bare, &chars) {
                    m.add(&text_of(&bare));
                    assert(m.forms() =~= before + (if_accepted(t) + if_accepted(bare@))
                        || !no_backslash(raw));
                }
            } else {
                assert(before + forms_of(raw) =~= before);
            }
            proof {
                let extra = m.forms().skip(before.len() as int);
                assert(m.forms() =~= before + extra);
                if no_backslash(raw) {
                    assert(m.forms() == before + forms_of(raw));
                    assert(extra =~= forms_of(raw));
                }
                assert forall|f: Seq<char>| #[trigger] extra.contains(f) implies stems_from(f, raw) by {
                    let k = choose|k: int| 0 <= k < extra.len() && extra[k] == f;
                    assert(m.forms()[before.len() + k] == f);
                }
                lemma_compiled_step(before, extra, all.take(i as int), raw);
                assert(all.take(i + 1) =~= all.take(i as int).push(raw));
            }
        }
        assert(all.take(n as int) =~= all);
        m
    }

    fn add(&mut self, pattern: &String)
        ensures
            final(self).forms() == old(self).forms() || final(self).forms() == old(self).forms().push(
                pattern@,
            ),
            no_backslash(pattern@) ==> final(self).forms() == old(self).forms() + if_accepted(pattern@)
                && (all_plain(old(self).forms()) ==> all_plain(final(self).forms())),
    {
        match compile_pattern(pattern.as_str()) {
            Ok(p) => {
                self.patterns.push(p);
                assert(self.forms() =~= old(self).forms().push(pattern@));
                assert(old(self).forms() + seq![pattern@] =~= old(self).forms().push(pattern@));
            },
            Err(_) => {
                assert(old(self).forms() + if_accepted(pattern@) =~= old(self).forms() || !no_backslash(
                    pattern@,
                ));
            },
        }
    }

    pub fn is_empty(&self) -> (r: bool)
        ensures
            r == (self.forms().len() == 0),
    {
        self.patterns.len() == 0
    }

    /// Is the path left out of the scan? With no patterns none is. Where a
    /// pattern or the path holds a backslash, the answer depends on the
    /// platform.
    pub fn matches(&self, path: &str) -> (r: bool)
        ensures
            self.forms().len() == 0 ==> !r,
            all_plain(self.forms()) && no_backslash(path@) ==> r == excluded_by(self.forms(), path@),
            no_backslash(path@) && surely_excluded(self.forms(), path@) ==> r,
            no_backslash(path@) && r ==> possibly_excluded(self.forms(), path@),
    {
        let name = file_name(path);
        proof {
            if no_backslash(path@) && file_name_of(path@) is Some {
                lemma_plain_name(path@);
            }
        }
        let n = self.patterns.len();
        for i in 0..n
            invariant
                n == self.patterns@.len(),
                name is Some <==> file_name_of(path@) is Some,
                name is Some ==> Some(name->0@) == file_name_of(path@),
                no_backslash(path@) && name is Some ==> no_backslash(name->0@),
                no_backslash(path@) ==> forall|j: int|
                    0 <= j < i && no_backslash(self.forms()[j]) ==> !#[trigger] form_matches(
                        self.forms()[j],
                        path@,
                    ),
        {
            let p = &self.patterns[i];
            assert(self.forms()[i as int] == pattern_text(*p));
            let whole = pattern_matches(p, path);
            let by_name = match &name {
                Some(s) => pattern_matches(p, s.as_str()),
                None => false,
            };
            if whole || by_name {
                assert(no_backslash(path@) && no_backslash(self.forms()[i as int]) ==> form_matches(
                    self.forms()[i as int],
                    path@,
                ));
                assert(no_backslash(path@) ==> may_match(self.forms()[i as int], path@));
                return true;
            }
        }
        false
    }
}

fn bare_chars(t: &Vec<char>) -> (r: Vec<char>)
    ensures
        r@ == bare_name(t@),
{
    proof {
        reveal_strlit("*/");
        reveal_strlit("/*");
    }
    let s = if starts_with(t, "*/") {
        assert(t@.subrange(2, t@.len() as int) =~= t@.skip(2));
        slice_of(t, 2, t.len())
    } else {
        assert(t@.subrange(0, t@.len() as int) =~= t@);
        slice_of(t, 0, t.len())
    };
    if ends_with(&s, "/*") {
        assert(s@.subrange(0, s@.len() - 2) =~= s@.take(s@.len() - 2));
        slice_of(&s, 0, s.len() - 2)
    } else {
        s
    }
}

// ----- the walk ------------------------------------------------------------

#[derive(Debug, Clone, Copy, PartialEq, Eq, Structural)]
pub struct ScanProgress {
    pub scanned_count: usize,
    pub total_size: u64,
    /// Entries that could not be read (permissions, vanished files, ...).
    pub skipped: usize,
}

impl Default for ScanProgress {
    fn default() -> (r: ScanProgress)
        ensures
            r == (ScanProgress { scanned_count: 0, total_size: 0, skipped: 0 }),
    {
        ScanProgress { scanned_count: 0, total_size: 0, skipped: 0 }
    }
}

/// What the settings of a scan say.
pub struct ConfigView {
    pub root_path: Seq<char>,
    pub min_size: u64,
    pub max_size: Option<u64>,
    pub exclude_patterns: Seq<Seq<char>>,
    pub batch_size: usize,
}

impl View for ScanConfig {
    type V = ConfigView;

    open spec fn view(&self) -> ConfigView {
        ConfigView {
            root_path: self.root_path@,
            min_size: self.min_size,
            max_size: self.max_size,
            exclude_patterns: views(self.exclude_patterns@),
            batch_size: self.batch_size,
        }
    }
}

impl Clone for ScanConfig {
    fn clone(&self) -> (r: ScanConfig)
        ensures
            r@ == self@,
    {
        ScanConfig {
            root_path: self.root_path.clone(),
            min_size: self.min_size,
            max_size: self.max_size,
            exclude_patterns: copy_texts(&self.exclude_patterns),
            batch_size: self.batch_size,
        }
    }
}

pub struct Scanner {
    config: ScanConfig,
}

/// Is a file of this size looked at?
pub open spec fn size_wanted(config: ConfigView, size: u64) -> bool {
    config.min_size <= size && match config.max_size {
        Some(m) => size <= m,
        None => true,
    }
}

/// What a batch of files becomes when one more file is found: the batch to
/// hand on, if it is full now, and the batch that is left.
pub open spec fn batched(
    batch: Seq<FileView>,
    file: FileView,
    batch_size: usize,
) -> (Option<Seq<FileView>>, Seq<FileView>) {
    let grown = batch.push(file);
    if grown.len() >= batch_size {
        (Some(grown), seq![])
    } else {
        (None, grown)
    }
}

/// The walk over a directory tree. Whoever walks asks `enters` for every
/// entry, reports what cannot be read with `entry_failed` and offers every
/// regular file; full batches come back to be handed on.
pub struct ScanWalk {
    pub config: ScanConfig,
    pub matcher: ExclusionMatcher,
    pub progress: ScanProgress,
    pub batch: Vec<FileInfo>,
}

impl Scanner {
    pub closed spec fn settings(&self) -> ScanConfig {
        self.config
    }

    pub fn new(config: ScanConfig) -> (r: Scanner)
        ensures
            r.settings() == config,
    {
        Scanner { config }
    }

    pub fn config(&self) -> (r: &ScanConfig)
        ensures
            *r == self.settings(),
    {
        &self.config
    }

    /// The walk over the configured tree, before its first entry.
    pub fn scan_streaming(&self) -> (r: ScanWalk)
        ensures
            r.config@ == self.settings()@,
            r.progress == (ScanProgress { scanned_count: 0, total_size: 0, skipped: 0 }),
            r.batch@ == Seq::<FileInfo>::empty(),
            compiled_from(r.matcher.forms(), r.config@.exclude_patterns),
            all_plain(r.config@.exclude_patterns) ==> all_plain(r.matcher.forms())
                && r.matcher.forms() == all_forms(r.config@.exclude_patterns),
    {
        ScanWalk {
            config: self.config.clone(),
            matcher: ExclusionMatcher::new(&self.config.exclude_patterns),
            progress: ScanProgress::default(),
            batch: Vec::new(),
        }
    }
}

/// What a walk has found so far.
pub struct WalkView {
    pub progress: ScanProgress,
    /// The files that were not handed on yet.
    pub batch: Seq<FileView>,
}

impl View for ScanWalk {
    type V = WalkView;

    open spec fn view(&self) -> WalkView {
        WalkView { progress: self.progress, batch: file_views(self.batch@) }
    }
}

impl WalkView {
    /// The walk once a regular file was met, and the batch to hand on, if it
    /// is full now. A file outside the size limits changes nothing.
    pub open spec fn meet(self, config: ConfigView, f: FileView) -> (WalkView, Option<Seq<FileView>>) {
        if size_wanted(config, f.size) {
            let step = batched(self.batch, f, config.batch_size);
            (
                WalkView {
                    progress: ScanProgress {
                        scanned_count: capped_count(self.progress.scanned_count + 1),
                        total_size: capped(self.progress.total_size + f.size),
                        skipped: self.progress.skipped,
                    },
                    batch: step.1,
                },
                step.0,
            )
        } else {
            (self, None)
        }
    }
}

impl ScanWalk {
    /// Is the entry looked at, and, for a directory, entered? The root is
    /// never left out, even if its name matches.
    pub fn enters(&self, path: &str, depth: usize) -> (r: bool)
        ensures
            depth == 0 ==> r,
            self.matcher.forms().len() == 0 ==> r,
            depth > 0 && all_plain(self.matcher.forms()) && no_backslash(path@) ==> r == !excluded_by(
                self.matcher.forms(),
                path@,
            ),
            depth > 0 && no_backslash(path@) && surely_excluded(self.matcher.forms(), path@) ==> !r,
            no_backslash(path@) && !possibly_excluded(self.matcher.forms(), path@) ==> r,
    {
        if depth == 0 {
            return true;
        }
        !self.matcher.matches(path)
    }

    /// Notes an entry that could not be read.
    pub fn entry_failed(&mut self)
        ensures
            *final(self) == (ScanWalk {
                progress: ScanProgress {
                    skipped: capped_count(old(self).progress.skipped + 1),
                    ..old(self).progress
                },
                ..*old(self)
            }),
    {
        self.progress.skipped = count_capped(self.progress.skipped, 1);
    }

    /// Takes in a regular file. A file outside the size limits changes
    /// nothing. A full batch comes back with the progress so far.
    pub fn offer(&mut self, file: FileInfo) -> (r: Option<(ScanProgress, Vec<FileInfo>)>)
        ensures
            final(self).config == old(self).config,
            final(self).matcher == old(self).matcher,
            final(self)@ == old(self)@.meet(old(self).config@, file@).0,
            match old(self)@.meet(old(self).config@, file@).1 {
                Some(full) => r matches Some(p) && p.0 == final(self).progress && file_views(p.1@) == full,
                None => r is None,
            },
    {
        if file.size < self.config.min_size {
            return None;
        }
        if let Some(m) = self.config.max_size {
            if file.size > m {
                return None;
            }
        }
        self.progress.scanned_count = count_capped(self.progress.scanned_count, 1);
        self.progress.total_size = add_capped(self.progress.total_size, file.size);
        let ghost before = self.batch@;
        let ghost fv = file@;
        self.batch.push(file);
        assert(file_views(self.batch@) =~= file_views(before).push(fv));
        if self.batch.len() >= self.config.batch_size {
            let mut full: Vec<FileInfo> = Vec::new();
            core::mem::swap(&mut full, &mut self.batch);
            assert(file_views(self.batch@) =~= seq![]);
            return Some((self.progress, full));
        }
        None
    }

    /// Ends the walk: the last progress, and what is left of the files.
    pub fn finish(self) -> (r: (ScanProgress, Option<Vec<FileInfo>>))
        ensures
            r.0 == self.progress,
            r.1 is Some <==> self.batch@.len() > 0,
            r.1 is Some ==> r.1->0@ == self.batch@,
    {
        if self.batch.len() == 0 {
            (self.progress, None)
        } else {
            (self.progress, Some(self.batch))
        }
    }
}

/// All batches handed on, one after the other, with the batch that is left
/// when `files` were offered in turn.
pub open spec fn delivered(files: Seq<FileView>, batch_size: usize) -> (Seq<Seq<FileView>>, Seq<FileView>)
    decreases files.len(),
{
    if files.len() == 0 {
        (seq![], seq![])
    } else {
        let (done, batch) = delivered(files.drop_last(), batch_size);
        let step = batched(batch, files.last(), batch_size);
        match step.0 {
            Some(full) => (done.push(full), step.1),
            None => (done, step.1),
        }
    }
}

/// The files within the size limits.
pub open spec fn admitted(config: ConfigView, files: Seq<FileView>) -> Seq<FileView>
    decreases files.len(),
{
    if files.len() == 0 {
        seq![]
    } else if size_wanted(config, files.last().size) {
        admitted(config, files.drop_last()).push(files.last())
    } else {
        admitted(config, files.drop_last())
    }
}

/// A walk that met these files, one after the other, and the batches that it
/// handed on.
pub open spec fn walked(config: ConfigView, files: Seq<FileView>) -> (WalkView, Seq<Seq<FileView>>)
    decreases files.len(),
{
    if files.len() == 0 {
        (
            WalkView {
                progress: ScanProgress { scanned_count: 0, total_size: 0, skipped: 0 },
                batch: seq![],
            },
            seq![],
        )
    } else {
        let (before, done) = walked(config, files.drop_last());
        let (after, full) = before.meet(config, files.last());
        match full {
            Some(batch) => (after, done.push(batch)),
            None => (after, done),
        }
    }
}

/// A walk reports exactly the files within the size limits, each once and in
/// the order in which it met them, and counts them and their sizes.
pub proof fn walks_report_what_is_admitted(config: ConfigView, files: Seq<FileView>)
    ensures
        (walked(config, files).1, walked(config, files).0.batch) == delivered(
            admitted(config, files),
            config.batch_size,
        ),
        walked(config, files).1.flatten() + walked(config, files).0.batch == admitted(config, files),
        walked(config, files).0.progress.scanned_count == capped_count(admitted(config, files).len() as int),
        walked(config, files).0.progress.total_size == capped(size_sum(admitted(config, files))),
        walked(config, files).0.progress.skipped == 0,
        size_sum(admitted(config, files)) >= 0,
    decreases files.len(),
{
    batches_hold_every_file(admitted(config, files), config.batch_size);
    if files.len() > 0 {
        walks_report_what_is_admitted(config, files.drop_last());
        let head = admitted(config, files.drop_last());
        if size_wanted(config, files.last().size) {
            assert(head.push(files.last()).drop_last() =~= head);
        }
    }
}

/// Batching loses no file, adds none and keeps their order; every batch but
/// the last is full, and none is larger.
pub proof fn batches_hold_every_file(files: Seq<FileView>, batch_size: usize)
    ensures
        delivered(files, batch_size).0.flatten() + delivered(files, batch_size).1 == files,
        forall|i: int|
            0 <= i < delivered(files, batch_size).0.len() ==> (#[trigger] delivered(
                files,
                batch_size,
            ).0[i]).len() == if batch_size == 0 {
                1
            } else {
                batch_size as int
            },
        delivered(files, batch_size).1.len() == 0 || delivered(files, batch_size).1.len() < batch_size,
    decreases files.len(),
{
    if files.len() == 0 {
        assert(Seq::<Seq<FileView>>::empty().flatten() =~= Seq::<FileView>::empty());
    } else {
        batches_hold_every_file(files.drop_last(), batch_size);
        let (done, batch) = delivered(files.drop_last(), batch_size);
        let step = batched(batch, files.last(), batch_size);
        assert(files =~= files.drop_last().push(files.last()));
        match step.0 {
            Some(full) => {
                done.lemma_flatten_push(full);
                assert(done.push(full).flatten() + step.1 =~= files);
            },
            None => {
                assert(done.flatten() + step.1 =~= files);
            },
        }
    }
}

/// A time stands before another where fewer nanoseconds have passed.
pub proof fn times_go_by_nanoseconds(a: Timestamp, b: Timestamp)
    requires
        a.nanos < 1_000_000_000,
        b.nanos < 1_000_000_000,
    ensures
        a.before(b) <==> a.secs * 1_000_000_000 + a.nanos < b.secs * 1_000_000_000 + b.nanos,
{
}

/// What does not fit is written as the largest number there is.
pub proof fn sums_stop_at_the_largest_number(n: int)
    ensures
        0 <= n <= 18446744073709551615 ==> capped(n) == n,
        n > 18446744073709551615 ==> capped(n) == 18446744073709551615u64,
        0 <= n <= usize::MAX ==> capped_count(n) == n,
        n > usize::MAX ==> capped_count(n) == usize::MAX,
{
}

/// The hash of a file is the SHA-256 of all its bytes; the quick hash that
/// of the first 65536 bytes, or of all where there are fewer.
pub proof fn hashes_cover_what_they_should(content: Seq<u8>)
    ensures
        full_hash_of(content) == sha256_hex(content),
        content.len() <= 65536 ==> quick_hash_of(content) == sha256_hex(content),
        content.len() > 65536 ==> quick_hash_of(content) == sha256_hex(content.take(65536)),
{
}

/// Reading up to 65536 bytes settles both hashes of a file that has no
/// more, and only the one that was asked for of a larger one; a failed read
/// changes nothing.
pub proof fn small_files_are_read_once(f: FileView, h: Seq<char>, e: Seq<char>)
    ensures
        f.quick_hashed(Ok(h)).quick_hash == Some(h),
        f.quick_hashed(Ok(h)).hash == if f.size <= 65536 {
            Some(h)
        } else {
            f.hash
        },
        f.quick_hashed(Err(e)) == f,
        f.size > 65536 || f.quick_hash is None ==> f.hashed(Ok(h)).hash == Some(h) && f.hashed(Err(e)) == f,
        f.size > 65536 ==> f.hashed(Ok(h)).quick_hash == f.quick_hash,
        f.size <= 65536 && f.quick_hash is None ==> f.hashed(Ok(h)).quick_hash == Some(h),
        f.size <= 65536 && f.quick_hash is Some ==> f.hashed(Ok(h)).hash == f.quick_hash && f.hashed(
            Ok(h),
        ).quick_hash == f.quick_hash && f.hashed(Err(e)) == f.hashed(Ok(h)),
        f.hashed(Ok(h)).path == f.path && f.hashed(Ok(h)).size == f.size && f.hashed(Ok(h)).modified
            == f.modified && f.hashed(Ok(h)).depth == f.depth,
        f.quick_hashed(Ok(h)).path == f.path && f.quick_hashed(Ok(h)).size == f.size && f.quick_hashed(
            Ok(h),
        ).modified == f.modified && f.quick_hashed(Ok(h)).depth == f.depth,
        f.quick_is_full() <==> f.size <= 65536 && f.quick_hash is Some,
{
}

/// The limits on sizes belong to what is wanted, and a walk admits exactly
/// the files within them, in the order in which it met them.
pub proof fn walks_admit_sizes_within_the_limits(config: ConfigView, files: Seq<FileView>)
    ensures
        admitted(config, files) == files.filter(
            |f: FileView|
                f.size >= config.min_size && (config.max_size is None || f.size <= config.max_size->0),
        ),
    decreases files.len(),
{
    reveal(Seq::filter);
    if files.len() > 0 {
        walks_admit_sizes_within_the_limits(config, files.drop_last());
    }
}

/// What is left out where nothing else was asked for: the folders of version
/// control, of package managers, of builds, of editors and of caches, and
/// the files that systems leave behind.
pub proof fn the_usual_clutter_is_left_out(name: Seq<char>)
    ensures
        default_exclusions().contains(name) <==> name == ".git"@ || name == ".svn"@ || name == ".hg"@ || name
            == "node_modules"@ || name == "bower_components"@ || name == ".npm"@ || name == ".yarn"@ || name
            == "target"@ || name == "dist"@ || name == "build"@ || name == ".next"@ || name == ".nuxt"@ || name
            == ".vscode"@ || name == ".idea"@ || name == ".cache"@ || name == "__pycache__"@ || name
            == ".pytest_cache"@ || name == ".DS_Store"@ || name == "Thumbs.db"@ || name == "desktop.ini"@ || name
            == ".dupscanner"@,
{
    let d = default_exclusions();
    assert(d[0] == ".git"@ && d[1] == ".svn"@ && d[2] == ".hg"@ && d[3] == "node_modules"@);
    assert(d[4] == "bower_components"@ && d[5] == ".npm"@ && d[6] == ".yarn"@ && d[7] == "target"@);
    assert(d[8] == "dist"@ && d[9] == "build"@ && d[10] == ".next"@ && d[11] == ".nuxt"@);
    assert(d[12] == ".vscode"@ && d[13] == ".idea"@ && d[14] == ".cache"@ && d[15] == "__pycache__"@);
    assert(d[16] == ".pytest_cache"@ && d[17] == ".DS_Store"@ && d[18] == "Thumbs.db"@);
    assert(d[19] == "desktop.ini"@ && d[20] == ".dupscanner"@);
    if d.contains(name) {
        let i = choose|i: int| 0 <= i < d.len() && d[i] == name;
        assert(0 <= i < 21);
    }
}

/// A pattern for a folder anywhere and for what lies in it also stands for
/// the bare name.
pub proof fn bare_names_lose_the_wildcards(name: Seq<char>)
    requires
        name.len() > 0,
        !name.contains('*'),
    ensures
        bare_name("*/"@ + name + "/*"@) == name,
        bare_name("*/"@ + name) == name,
        bare_name(name + "/*"@) == name,
        bare_name(name) == name,
{
    reveal_strlit("*/");
    reveal_strlit("/*");
    let lead = "*/"@;
    let tail = "/*"@;
    assert(lead[0] == '*' && tail[1] == '*');
    assert(name[0] != '*' && name.last() != '*') by {
        assert(name.contains(name[0]) && name.contains(name.last()));
    }
    assert((name + tail).take(2)[0] == name[0]);
    assert(name.len() >= 2 ==> name.take(2)[0] == name[0] && name.skip(name.len() - 2)[1] == name.last());
    assert((lead + name + tail).take(2) == lead);
    assert((lead + name).take(2) == lead);
    assert((lead + name + tail).skip(2) == name + tail);
    assert((lead + name).skip(2) == name);
    assert((name + tail).skip((name + tail).len() - 2) == tail);
    assert((name + tail).take((name + tail).len() - 2) == name);
}

/// A pattern stands for itself and for its bare name, where the matcher
/// takes them, and blanks around it do not count; blanks alone stand for
/// nothing.
pub proof fn patterns_stand_for_their_forms(raw: Seq<char>, form: Seq<char>)
    ensures
        forms_of(raw).contains(form) <==> glob_accepts(form) && form.len() > 0 && trim(raw).len() > 0 && (form
            == trim(raw) || form == bare_name(trim(raw))),
        trim(raw).len() == 0 ==> forms_of(raw).len() == 0,
{
    let t = trim(raw);
    let b = bare_name(t);
    let none = Seq::<Seq<char>>::empty();
    assert(seq![t][0] == t && seq![b][0] == b);
    assert(if_accepted(t).contains(form) <==> glob_accepts(t) && form == t);
    assert(if_accepted(b).contains(form) <==> glob_accepts(b) && form == b);
    let both = if_accepted(t) + if_accepted(b);
    assert(both.contains(form) <==> if_accepted(t).contains(form) || if_accepted(b).contains(form)) by {
        if if_accepted(t).contains(form) {
            assert(both[0] == form);
        }
        if if_accepted(b).contains(form) {
            assert(both[if_accepted(t).len() as int] == form);
        }
    }
}

/// A path is excluded where a form matches it whole or matches its name.
pub proof fn exclusions_look_at_the_path_and_the_name(forms: Seq<Seq<char>>, dir: Seq<char>, name: Seq<char>)
    requires
        is_plain_name(name),
    ensures
        excluded_by(forms, join_of(dir, name)) <==> exists|i: int|
            0 <= i < forms.len() && (#[trigger] glob_match(forms[i], join_of(dir, name)) || glob_match(
                forms[i],
                name,
            )),
{
    a_name_lies_in_its_folder(dir, name);
    let path = join_of(dir, name);
    if excluded_by(forms, path) {
        let i = choose|i: int| 0 <= i < forms.len() && #[trigger] form_matches(forms[i], path);
        assert(glob_match(forms[i], path) || glob_match(forms[i], name));
    }
    if exists|i: int|
        0 <= i < forms.len() && (#[trigger] glob_match(forms[i], path) || glob_match(forms[i], name)) {
        let i = choose|i: int|
            0 <= i < forms.len() && (#[trigger] glob_match(forms[i], path) || glob_match(forms[i], name));
        assert(form_matches(forms[i], path));
    }
}

/// The patterns are taken one after the other, each with its forms.
pub proof fn forms_are_listed_pattern_by_pattern(raws: Seq<Seq<char>>, raw: Seq<char>)
    ensures
        all_forms(Seq::<Seq<char>>::empty()).len() == 0,
        all_forms(raws.push(raw)) == all_forms(raws) + forms_of(raw),
{
    assert(raws.push(raw).drop_last() == raws);
}

/// What is said of patterns with a backslash lies between what is sure and
/// what is possible; without backslashes both are what is excluded.
pub proof fn exclusions_are_sure_without_backslashes(forms: Seq<Seq<char>>, path: Seq<char>)
    ensures
        surely_excluded(forms, path) ==> excluded_by(forms, path),
        excluded_by(forms, path) ==> possibly_excluded(forms, path),
        (forall|i: int| 0 <= i < forms.len() ==> !(#[trigger] forms[i]).contains('\\')) ==> all_plain(forms),
        all_plain(forms) && excluded_by(forms, path) ==> surely_excluded(forms, path),
        all_plain(forms) && possibly_excluded(forms, path) ==> excluded_by(forms, path),
{
    if excluded_by(forms, path) {
        let i = choose|i: int| 0 <= i < forms.len() && #[trigger] form_matches(forms[i], path);
        assert(may_match(forms[i], path));
        assert(all_plain(forms) ==> no_backslash(forms[i]));
    }
    if all_plain(forms) && possibly_excluded(forms, path) {
        let i = choose|i: int| 0 <= i < forms.len() && #[trigger] may_match(forms[i], path);
        assert(no_backslash(forms[i]));
        assert(form_matches(forms[i], path));
    }
}

/// What a matcher compiled stems from its patterns, and holds every form of
/// those without a backslash.
pub proof fn matchers_hold_the_forms_of_their_patterns(forms: Seq<Seq<char>>, raws: Seq<Seq<char>>, form: Seq<char>, k: int)
    requires
        compiled_from(forms, raws),
    ensures
        0 <= k < raws.len() && !raws[k].contains('\\') && glob_accepts(form) && form.len() > 0 && (form == trim(
            raws[k],
        ) || form == bare_name(trim(raws[k]))) && trim(raws[k]).len() > 0 ==> forms.contains(form),
        forms.contains(form) ==> form.len() > 0 && exists|j: int|
            0 <= j < raws.len() && (form == trim(#[trigger] raws[j]) || form == bare_name(trim(raws[j]))),
{
    if 0 <= k < raws.len() {
        patterns_stand_for_their_forms(raws[k], form);
        assert(no_backslash(raws[k]) <==> !raws[k].contains('\\'));
    }
    if forms.contains(form) {
        let j = choose|j: int| 0 <= j < raws.len() && #[trigger] stems_from(form, raws[j]);
        patterns_stand_for_their_forms(raws[j], form);
        assert(form == trim(raws[j]) || form == bare_name(trim(raws[j])));
    }
}

} // verus!
