//! Heuristics for deciding which copy in a duplicate group to keep.
//!
//! Every file gets a *deletion score*: positive signals (temp directory,
//! "copy" in the name, ...) make it a better candidate for removal, and a
//! preferred location lowers the score. The keeper is the file with the
//! lowest score; ties go to the shallower path, then the older file, then
//! the shorter path, so the choice is deterministic.

use vstd::prelude::*;
use crate::naming::{
    counts_stems, count_in, has_copy_marker, literal_bases, marked_in, stem_count, NameCounts,
};
use crate::order::{is_order, larger_keys_come_first, lemma_every_position, lemma_small, order_desc};
use crate::outside::{to_lowercase, unicode_lower};
use crate::paths::{
    byte_len, byte_len_of, char_views, components, components_chars, file_name, file_name_of,
    file_name_or_empty, is_path_before, name_or_empty, path_before, path_order_is_total,
};
use crate::scanner::{file_views, FileInfo, FileView};
use crate::text::{
    all_digits, chars_of, contains, contains_text, ends_with, has_prefix, has_suffix, is_digit, is_text, join,
    joined, last_of, lemma_last_of, lower_text, only_digits, rfind_char, slice_of, starts_with, text_of,
    texts_are_found_where_they_stand, views,
};

verus! {

#[derive(Debug, Clone, Copy, PartialEq, Eq, Structural)]
pub enum SuggestionReason {
    InTempDirectory,
    HasCopyInName,
    InDownloadsDirectory,
    InBackupDirectory,
    DeeperPath,
    LongerFilename,
    /// Negative weight: the file lives somewhere people keep originals.
    PreferredLocation,
}

impl SuggestionReason {
    pub open spec fn text(self) -> Seq<char> {
        match self {
            SuggestionReason::InTempDirectory => "in a temp directory"@,
            SuggestionReason::HasCopyInName => "name looks like a copy"@,
            SuggestionReason::InDownloadsDirectory => "in Downloads"@,
            SuggestionReason::InBackupDirectory => "in a backup folder"@,
            SuggestionReason::DeeperPath => "deeper in the tree"@,
            SuggestionReason::LongerFilename => "longer filename"@,
            SuggestionReason::PreferredLocation => "in a preferred location"@,
        }
    }

    pub open spec fn worth(self) -> int {
        match self {
            SuggestionReason::InTempDirectory => 100,
            SuggestionReason::HasCopyInName => 80,
            SuggestionReason::InDownloadsDirectory => 60,
            SuggestionReason::InBackupDirectory => 50,
            SuggestionReason::DeeperPath => 20,
            SuggestionReason::LongerFilename => 10,
            SuggestionReason::PreferredLocation => -40,
        }
    }

    pub fn description(&self) -> (r: &'static str)
        ensures
            r@ == self.text(),
    {
        match self {
            SuggestionReason::InTempDirectory => "in a temp directory",
            SuggestionReason::HasCopyInName => "name looks like a copy",
            SuggestionReason::InDownloadsDirectory => "in Downloads",
            SuggestionReason::InBackupDirectory => "in a backup folder",
            SuggestionReason::DeeperPath => "deeper in the tree",
            SuggestionReason::LongerFilename => "longer filename",
            SuggestionReason::PreferredLocation => "in a preferred location",
        }
    }

    pub fn weight(&self) -> (r: i32)
        ensures
            r == self.worth(),
            *self is InTempDirectory ==> r == 100,
            *self is HasCopyInName ==> r == 80,
            *self is InDownloadsDirectory ==> r == 60,
            *self is InBackupDirectory ==> r == 50,
            *self is DeeperPath ==> r == 20,
            *self is LongerFilename ==> r == 10,
            *self is PreferredLocation ==> r == -40,
    {
        match self {
            SuggestionReason::InTempDirectory => 100,
            SuggestionReason::HasCopyInName => 80,
            SuggestionReason::InDownloadsDirectory => 60,
            SuggestionReason::InBackupDirectory => 50,
            SuggestionReason::DeeperPath => 20,
            SuggestionReason::LongerFilename => 10,
            SuggestionReason::PreferredLocation => -40,
        }
    }
}

/// The weights of the reasons added up.
pub open spec fn weight_sum(reasons: Seq<SuggestionReason>) -> int
    decreases reasons.len(),
{
    if reasons.len() == 0 {
        0
    } else {
        weight_sum(reasons.drop_last()) + reasons.last().worth()
    }
}

pub open spec fn reason_texts(reasons: Seq<SuggestionReason>) -> Seq<Seq<char>> {
    Seq::new(reasons.len(), |i: int| reasons[i].text())
}

#[derive(Debug)]
pub struct FileSuggestion {
    pub file_index: usize,
    pub reasons: Vec<SuggestionReason>,
    pub score: i32,
}

pub struct SuggestionView {
    pub file_index: usize,
    pub reasons: Seq<SuggestionReason>,
    pub score: i32,
}

impl View for FileSuggestion {
    type V = SuggestionView;

    open spec fn view(&self) -> SuggestionView {
        SuggestionView { file_index: self.file_index, reasons: self.reasons@, score: self.score }
    }
}

pub open spec fn suggestion_views(v: Seq<FileSuggestion>) -> Seq<SuggestionView> {
    Seq::new(v.len(), |i: int| v[i]@)
}

/// A copy of a list of reasons.
pub fn copy_reasons(v: &Vec<SuggestionReason>) -> (r: Vec<SuggestionReason>)
    ensures
        r@ == v@,
{
    let mut out: Vec<SuggestionReason> = Vec::new();
    let n = v.len();
    for i in 0..n
        invariant
            n == v@.len(),
            out@ == v@.take(i as int),
    {
        out.push(v[i]);
        assert(v@.take(i + 1) =~= v@.take(i as int).push(v@[i as int]));
    }
    assert(v@.take(n as int) =~= v@);
    out
}

impl Clone for FileSuggestion {
    fn clone(&self) -> (r: FileSuggestion)
        ensures
            r@ == self@,
    {
        FileSuggestion {
            file_index: self.file_index,
            reasons: copy_reasons(&self.reasons),
            score: self.score,
        }
    }
}

impl FileSuggestion {
    /// The score is the sum of the weights, which has to fit its type.
    pub fn new(file_index: usize, reasons: Vec<SuggestionReason>) -> (r: FileSuggestion)
        requires
            forall|n: int|
                0 <= n <= reasons@.len() ==> i32::MIN <= weight_sum(#[trigger] reasons@.take(n)) <= i32::MAX,
        ensures
            r@ == (SuggestionView {
                file_index,
                reasons: reasons@,
                score: weight_sum(reasons@) as i32,
            }),
            r.score == weight_sum(reasons@),
    {
        let mut score: i32 = 0;
        let n = reasons.len();
        for i in 0..n
            invariant
                n == reasons@.len(),
                score == weight_sum(reasons@.take(i as int)),
                forall|n: int|
                    0 <= n <= reasons@.len() ==> i32::MIN <= weight_sum(#[trigger] reasons@.take(n))
                        <= i32::MAX,
        {
            assert(reasons@.take(i + 1).drop_last() =~= reasons@.take(i as int));
            score = score + reasons[i].weight();
        }
        assert(reasons@.take(n as int) =~= reasons@);
        FileSuggestion { file_index, reasons, score }
    }

    pub fn explain(&self) -> (r: String)
        ensures
            r@ == joined(reason_texts(self.reasons@), ", "@),
    {
        let mut parts: Vec<String> = Vec::new();
        let n = self.reasons.len();
        for i in 0..n
            invariant
                n == self.reasons@.len(),
                views(parts@) == reason_texts(self.reasons@).take(i as int),
        {
            let ghost before = views(parts@);
            parts.push(self.reasons[i].description().to_owned());
            assert(views(parts@) =~= before.push(self.reasons@[i as int].text()));
            assert(reason_texts(self.reasons@).take(i + 1) =~= reason_texts(self.reasons@).take(
                i as int,
            ).push(self.reasons@[i as int].text()));
        }
        assert(reason_texts(self.reasons@).take(n as int) =~= reason_texts(self.reasons@));
        join(&parts, ", ")
    }
}

/// Complete analysis of one duplicate group.
#[derive(Debug, Clone)]
pub struct GroupAnalysis {
    /// Index of the file to keep.
    pub keeper: Option<usize>,
    /// One entry per file, in file order.
    pub files: Vec<FileSuggestion>,
}

pub struct AnalysisView {
    pub keeper: Option<usize>,
    pub files: Seq<SuggestionView>,
}

impl View for GroupAnalysis {
    type V = AnalysisView;

    open spec fn view(&self) -> AnalysisView {
        AnalysisView { keeper: self.keeper, files: suggestion_views(self.files@) }
    }
}

impl AnalysisView {
    /// Is the file at `i` worth deleting: a positive score, and not the
    /// keeper?
    pub open spec fn suggested(self, i: int) -> bool {
        Some(self.files[i].file_index) != self.keeper && self.files[i].score > 0
    }

    pub open spec fn other(self, i: int) -> bool {
        Some(self.files[i].file_index) != self.keeper
    }

    /// The suggestions among the first `n`: those worth deleting, or, with
    /// `all`, every one but the keeper's.
    pub open spec fn chosen(self, n: nat, all: bool) -> Seq<SuggestionView>
        decreases n,
    {
        if n == 0 {
            seq![]
        } else {
            let head = self.chosen((n - 1) as nat, all);
            if if all {
                self.other(n - 1)
            } else {
                self.suggested(n - 1)
            } {
                head.push(self.files[n - 1])
            } else {
                head
            }
        }
    }

    /// The highest score among the first `n` files worth deleting; 0 where
    /// there are none.
    pub open spec fn top_score(self, n: nat) -> int
        decreases n,
    {
        if n == 0 {
            0
        } else {
            let head = self.top_score((n - 1) as nat);
            if self.suggested(n - 1) && self.files[n - 1].score > head {
                self.files[n - 1].score as int
            } else {
                head
            }
        }
    }
}

/// How sure a suggestion is, by its highest score.
pub open spec fn confidence_text(top: int) -> Seq<char> {
    if top >= 100 {
        "high confidence"@
    } else if top >= 80 {
        "good confidence"@
    } else if top >= 50 {
        "medium confidence"@
    } else {
        "low confidence, review carefully"@
    }
}

impl GroupAnalysis {
    fn choose_files(&self, everything: bool) -> (r: Vec<FileSuggestion>)
        ensures
            suggestion_views(r@) == self@.chosen(self@.files.len(), everything),
    {
        let mut out: Vec<FileSuggestion> = Vec::new();
        let n = self.files.len();
        assert(suggestion_views(out@) =~= self@.chosen(0, everything));
        for i in 0..n
            invariant
                n == self.files@.len(),
                suggestion_views(out@) == self@.chosen(i as nat, everything),
        {
            let s = &self.files[i];
            assert(self@.files[i as int] == s@);
            let is_keeper = match self.keeper {
                Some(k) => k == s.file_index,
                None => false,
            };
            let ghost before = suggestion_views(out@);
            if !is_keeper && (everything || s.score > 0) {
                out.push(s.clone());
                assert(suggestion_views(out@) =~= before.push(s@));
            }
        }
        out
    }

    /// Files worth deleting: positive score and not the keeper.
    pub fn suggested_deletions(&self) -> (r: Vec<FileSuggestion>)
        ensures
            suggestion_views(r@) == self@.chosen(self@.files.len(), false),
    {
        self.choose_files(false)
    }

    /// Every file except the keeper.
    pub fn all_but_keeper(&self) -> (r: Vec<FileSuggestion>)
        ensures
            suggestion_views(r@) == self@.chosen(self@.files.len(), true),
    {
        self.choose_files(true)
    }

    pub fn confidence(&self) -> (r: &'static str)
        ensures
            r@ == confidence_text(self@.top_score(self@.files.len())),
    {
        let mut top: i32 = 0;
        let n = self.files.len();
        for i in 0..n
            invariant
                n == self.files@.len(),
                top == self@.top_score(i as nat),
        {
            let s = &self.files[i];
            assert(self@.files[i as int] == s@);
            let is_keeper = match self.keeper {
                Some(k) => k == s.file_index,
                None => false,
            };
            if !is_keeper && s.score > 0 && s.score > top {
                top = s.score;
            }
        }
        if top >= 100 {
            "high confidence"
        } else if top >= 80 {
            "good confidence"
        } else if top >= 50 {
            "medium confidence"
        } else {
            "low confidence, review carefully"
        }
    }
}

// ----- where a file lies ---------------------------------------------------

pub open spec fn temp_name(c: Seq<char>) -> bool {
    c == "tmp"@ || c == "temp"@ || c == ".tmp"@ || c == "cache"@ || c == ".cache"@
}

pub open spec fn downloads_name(c: Seq<char>) -> bool {
    c == "downloads"@ || c == "download"@
}

pub open spec fn backup_name(c: Seq<char>) -> bool {
    ||| c == "backup"@
    ||| c == "backups"@
    ||| c == "old"@
    ||| c == "archive"@
    ||| has_prefix(c, "backup "@)
    ||| has_suffix(c, " backup"@)
    ||| has_suffix(c, "_backup"@)
    ||| has_suffix(c, "-backup"@)
}

pub open spec fn preferred_name(c: Seq<char>) -> bool {
    ||| c == "documents"@
    ||| c == "pictures"@
    ||| c == "photos"@
    ||| c == "music"@
    ||| c == "videos"@
    ||| c == "movies"@
    ||| c == "projects"@
    ||| c == "src"@
    ||| c == "desktop"@
}

/// Is this, in lower case, the name of a temp or cache directory?
pub fn is_temp_name(c: &str) -> (r: bool)
    ensures
        r == temp_name(c@),
{
    let v = chars_of(c);
    is_text(&v, "tmp") || is_text(&v, "temp") || is_text(&v, ".tmp") || is_text(&v, "cache") || is_text(
        &v,
        ".cache",
    )
}

/// Is this, in lower case, the name of a downloads directory?
pub fn is_downloads_name(c: &str) -> (r: bool)
    ensures
        r == downloads_name(c@),
{
    let v = chars_of(c);
    is_text(&v, "downloads") || is_text(&v, "download")
}

/// Is this, in lower case, the name of a backup, old or archive folder?
pub fn is_backup_name(c: &str) -> (r: bool)
    ensures
        r == backup_name(c@),
{
    let v = chars_of(c);
    is_text(&v, "backup") || is_text(&v, "backups") || is_text(&v, "old") || is_text(&v, "archive")
        || starts_with(&v, "backup ") || ends_with(&v, " backup") || ends_with(&v, "_backup")
        || ends_with(&v, "-backup")
}

/// Is this, in lower case, the name of a folder where people keep originals?
pub fn is_preferred_name(c: &str) -> (r: bool)
    ensures
        r == preferred_name(c@),
{
    let v = chars_of(c);
    is_text(&v, "documents") || is_text(&v, "pictures") || is_text(&v, "photos") || is_text(&v, "music")
        || is_text(&v, "videos") || is_text(&v, "movies") || is_text(&v, "projects") || is_text(
        &v,
        "src",
    ) || is_text(&v, "desktop")
}

/// The directories a path leads through, in lower case: all its components
/// but the last.
pub open spec fn folders(path: Seq<char>) -> Seq<Seq<char>> {
    let c = components(path);
    if c.len() == 0 {
        seq![]
    } else {
        Seq::new((c.len() - 1) as nat, |i: int| unicode_lower(c[i]))
    }
}

pub open spec fn in_temp(path: Seq<char>) -> bool {
    exists|i: int| 0 <= i < folders(path).len() && temp_name(#[trigger] folders(path)[i])
}

pub open spec fn in_downloads(path: Seq<char>) -> bool {
    exists|i: int| 0 <= i < folders(path).len() && downloads_name(#[trigger] folders(path)[i])
}

pub open spec fn in_backup(path: Seq<char>) -> bool {
    exists|i: int| 0 <= i < folders(path).len() && backup_name(#[trigger] folders(path)[i])
}

pub open spec fn in_preferred(path: Seq<char>) -> bool {
    exists|i: int| 0 <= i < folders(path).len() && preferred_name(#[trigger] folders(path)[i])
}

/// The directories a path leads through, in lower case.
fn dir_components_lower(path: &str) -> (r: Vec<String>)
    ensures
        views(r@) == folders(path@),
{
    let parts = components_chars(path);
    let mut out: Vec<String> = Vec::new();
    let n = parts.len();
    assert(components(path@).len() == n);
    if n == 0 {
        assert(views(out@) =~= folders(path@));
        return out;
    }
    for i in 0..n - 1
        invariant
            n == parts@.len(),
            n > 0,
            char_views(parts@) == components(path@),
            views(out@) == folders(path@).take(i as int),
    {
        let ghost before = views(out@);
        assert(components(path@)[i as int] == parts@[i as int]@);
        let c = to_lowercase(text_of(&parts[i]).as_str());
        let ghost cv = c@;
        out.push(c);
        assert(views(out@) =~= before.push(cv));
        assert(folders(path@).take(i + 1) =~= folders(path@).take(i as int).push(cv));
    }
    assert(folders(path@).take(n - 1) =~= folders(path@));
    out
}

/// Where a file lies, as far as it matters.
struct Places {
    temp: bool,
    downloads: bool,
    backup: bool,
    preferred: bool,
}

fn places(path: &str) -> (r: Places)
    ensures
        r.temp == in_temp(path@),
        r.downloads == in_downloads(path@),
        r.backup == in_backup(path@),
        r.preferred == in_preferred(path@),
{
    let dirs = dir_components_lower(path);
    let ghost all = folders(path@);
    let mut r = Places { temp: false, downloads: false, backup: false, preferred: false };
    let n = dirs.len();
    assert(all.len() == n);
    for i in 0..n
        invariant
            n == dirs@.len(),
            all == views(dirs@),
            r.temp <==> exists|k: int| 0 <= k < i && temp_name(#[trigger] all[k]),
            r.downloads <==> exists|k: int| 0 <= k < i && downloads_name(#[trigger] all[k]),
            r.backup <==> exists|k: int| 0 <= k < i && backup_name(#[trigger] all[k]),
            r.preferred <==> exists|k: int| 0 <= k < i && preferred_name(#[trigger] all[k]),
    {
        let d = dirs[i].as_str();
        assert(all[i as int] == d@);
        if is_temp_name(d) {
            r.temp = true;
        }
        if is_downloads_name(d) {
            r.downloads = true;
        }
        if is_backup_name(d) {
            r.backup = true;
        }
        if is_preferred_name(d) {
            r.preferred = true;
        }
    }
    r
}

/// Is the file inside a temp or cache directory?
pub fn is_in_temp_directory(path: &str) -> (r: bool)
    ensures
        r == in_temp(path@),
{
    places(path).temp
}

/// Is the file inside Downloads?
pub fn is_in_downloads_directory(path: &str) -> (r: bool)
    ensures
        r == in_downloads(path@),
{
    places(path).downloads
}

/// Is the file inside a backup, old or archive folder?
pub fn is_in_backup_directory(path: &str) -> (r: bool)
    ensures
        r == in_backup(path@),
{
    places(path).backup
}

/// Is the file inside a folder where people keep originals?
pub fn is_in_preferred_location(path: &str) -> (r: bool)
    ensures
        r == in_preferred(path@),
{
    places(path).preferred
}

// ----- names that look like copies -----------------------------------------

/// The name up to its last dot, unless that dot begins it.
pub open spec fn plain_stem(name: Seq<char>) -> Seq<char> {
    let dot = last_of(name, '.');
    if dot > 0 {
        name.take(dot)
    } else {
        name
    }
}

/// The text without the closing parentheses at its end.
pub open spec fn drop_closing(s: Seq<char>) -> Seq<char>
    decreases s.len(),
{
    if s.len() > 0 && s.last() == ')' {
        drop_closing(s.drop_last())
    } else {
        s
    }
}

/// Does the stem end in `(n)`?
pub open spec fn numbered(stem: Seq<char>) -> bool {
    let open = last_of(stem, '(');
    let inner = drop_closing(stem.skip(open + 1));
    open >= 0 && inner.len() > 0 && all_digits(inner) && stem.last() == ')'
}

/// Does the stem, in lower case, say that it is a copy?
pub open spec fn says_copy(stem: Seq<char>) -> bool {
    ||| has_prefix(stem, "copy of "@)
    ||| has_prefix(stem, "kopie von "@)
    ||| contains_text(stem, "copy"@)
    ||| contains_text(stem, "duplicate"@)
    ||| contains_text(stem, "backup"@)
    ||| numbered(stem)
}

/// Does the stem end in a single digit 2-9 after a separator? Not
/// `chapter 12`, `img_2024`, or `part 1`.
pub open spec fn ends_in_digit(stem: Seq<char>) -> bool {
    stem.len() >= 2 && '2' <= stem.last() <= '9' && (stem[stem.len() - 2] == ' ' || stem[stem.len() - 2]
        == '-' || stem[stem.len() - 2] == '_')
}

/// Does this name, in lower case, say that it is a copy?
pub fn name_says_copy(name: &str) -> (r: bool)
    ensures
        r == says_copy(plain_stem(name@)),
{
    let stem = stem_chars(name);
    if starts_with(&stem, "copy of ") || starts_with(&stem, "kopie von ") {
        return true;
    }
    if contains(&stem, "copy") || contains(&stem, "duplicate") || contains(&stem, "backup") {
        return true;
    }
    let n = stem.len();
    match rfind_char(&stem, '(') {
        Some(open) => {
            assert(open < n);
            let mut end = n;
            let ghost rest = stem@.skip(open + 1);
            assert(stem@.subrange(open + 1, end as int) =~= rest);
            while end > open + 1 && stem[end - 1] == ')'
                invariant
                    n == stem@.len(),
                    open < n,
                    open + 1 <= end <= n,
                    drop_closing(stem@.subrange(open + 1, end as int)) == drop_closing(rest),
                decreases end,
            {
                assert(stem@.subrange(open + 1, end as int).drop_last() =~= stem@.subrange(open + 1, end - 1));
                assert(stem@.subrange(open + 1, end as int).last() == stem@[end - 1]);
                end = end - 1;
            }
            let inner = slice_of(&stem, open + 1, end);
            proof {
                if end > open + 1 {
                    assert(inner@.last() == stem@[end - 1]);
                }
                assert(inner@ == drop_closing(rest));
            }
            inner.len() > 0 && only_digits(&inner) && stem[n - 1] == ')'
        },
        None => false,
    }
}

/// Does this name, in lower case, end in a single digit 2-9 after a
/// separator?
pub fn name_ends_in_digit(name: &str) -> (r: bool)
    ensures
        r == ends_in_digit(plain_stem(name@)),
{
    let stem = stem_chars(name);
    let n = stem.len();
    n >= 2 && '2' <= stem[n - 1] && stem[n - 1] <= '9' && (stem[n - 2] == ' ' || stem[n - 2] == '-'
        || stem[n - 2] == '_')
}

fn stem_chars(name: &str) -> (r: Vec<char>)
    ensures
        r@ == plain_stem(name@),
{
    let v = chars_of(name);
    match rfind_char(&v, '.') {
        Some(pos) => if pos > 0 {
            assert(v@.subrange(0, pos as int) =~= v@.take(pos as int));
            slice_of(&v, 0, pos)
        } else {
            v
        },
        None => v,
    }
}

/// The stem of the file's name, in lower case.
pub open spec fn lower_stem(path: Seq<char>) -> Seq<char> {
    match file_name_of(path) {
        Some(n) => plain_stem(unicode_lower(n)),
        None => seq![],
    }
}

/// Does the file's name look like that of a copy?
pub open spec fn copy_like(path: Seq<char>) -> bool {
    file_name_of(path) is Some && (says_copy(lower_stem(path)) || ends_in_digit(lower_stem(path)))
}

/// Does the file's name look like that of a copy? Only the file name is
/// inspected. Directory names are covered by the backup-directory rule so a
/// folder called "Copy Editing" does not taint every file under it.
pub fn filename_looks_like_copy(path: &str) -> (r: bool)
    ensures
        r == copy_like(path@),
{
    match file_name(path) {
        Some(n) => {
            let name = to_lowercase(n.as_str());
            name_says_copy(name.as_str()) || name_ends_in_digit(name.as_str())
        },
        None => false,
    }
}

/// Does the file count as a copy in its group? A trailing digit alone counts
/// only where the name without it is in the group as well.
pub open spec fn copy_in_group(files: Seq<FileView>, i: int) -> bool {
    let path = files[i].path;
    file_name_of(path) is Some && (says_copy(lower_stem(path)) || (ends_in_digit(lower_stem(path))
        && marked_among(files, file_name_of(path)->0)))
}

/// Only the name counts: of two files with the same name, in whatever
/// folders, both look like copies or neither does.
pub proof fn folders_make_no_copies(files: Seq<FileView>, i: int, j: int)
    requires
        0 <= i < files.len(),
        0 <= j < files.len(),
        file_name_of(files[i].path) == file_name_of(files[j].path),
    ensures
        copy_like(files[i].path) == copy_like(files[j].path),
        copy_in_group(files, i) == copy_in_group(files, j),
{
}

/// Does the name carry a marker, given the stems of these files?
pub open spec fn marked_among(files: Seq<FileView>, name: Seq<char>) -> bool {
    let stem = crate::naming::stem_of(name);
    crate::naming::is_marked(stem) && (crate::naming::is_unambiguous(stem) || stem_count(
        files,
        files.len(),
        crate::text::lower_text(crate::naming::base_of(stem)),
    ) > 0)
}

fn is_copy_in_group(path: &str, bases: &NameCounts, Ghost(files): Ghost<Seq<FileView>>, Ghost(i): Ghost<int>) -> (r: bool)
    requires
        0 <= i < files.len(),
        files[i].path == path@,
        counts_stems(bases@, files, files.len()),
    ensures
        r == copy_in_group(files, i),
{
    match file_name(path) {
        Some(n) => {
            let name = to_lowercase(n.as_str());
            proof {
                let stem = crate::naming::stem_of(n@);
                let base = crate::text::lower_text(crate::naming::base_of(stem));
                assert(count_in(bases@, base) == stem_count(files, files.len(), base));
                assert(marked_in(n@, bases@) == marked_among(files, n@));
            }
            name_says_copy(name.as_str()) || (name_ends_in_digit(name.as_str()) && has_copy_marker(
                n.as_str(),
                bases,
            ))
        },
        None => false,
    }
}

// ----- the score -----------------------------------------------------------

/// The largest depth among the first `n` files.
pub open spec fn max_depth(files: Seq<FileView>, n: nat) -> int
    decreases n,
{
    if n == 0 {
        -1
    } else {
        let m = max_depth(files, (n - 1) as nat);
        if files[n - 1].depth > m {
            files[n - 1].depth as int
        } else {
            m
        }
    }
}

/// How long the name of a file is, in characters.
pub open spec fn name_len(f: FileView) -> int {
    name_or_empty(f.path).len() as int
}

/// The largest name length among the first `n` files.
pub open spec fn max_name(files: Seq<FileView>, n: nat) -> int
    decreases n,
{
    if n == 0 {
        -1
    } else {
        let m = max_name(files, (n - 1) as nat);
        if name_len(files[n - 1]) > m {
            name_len(files[n - 1])
        } else {
            m
        }
    }
}

/// Is the file deeper than some other, and none deeper than it?
pub open spec fn is_deepest(files: Seq<FileView>, i: int) -> bool {
    &&& files[i].depth == max_depth(files, files.len())
    &&& exists|j: int| 0 <= j < files.len() && (#[trigger] files[j]).depth < files[i].depth
}

/// Is the name more than five characters longer than some other, and none
/// longer than it?
pub open spec fn is_longest(files: Seq<FileView>, i: int) -> bool {
    &&& name_len(files[i]) == max_name(files, files.len())
    &&& exists|j: int| 0 <= j < files.len() && name_len(#[trigger] files[j]) + 5 < name_len(files[i])
}

pub open spec fn given(holds: bool, reason: SuggestionReason) -> Seq<SuggestionReason> {
    if holds {
        seq![reason]
    } else {
        seq![]
    }
}

/// The reasons that speak for or against deleting the file at `i`.
pub open spec fn reasons_of(files: Seq<FileView>, i: int) -> Seq<SuggestionReason> {
    let path = files[i].path;
    given(in_temp(path), SuggestionReason::InTempDirectory) + given(
        copy_in_group(files, i),
        SuggestionReason::HasCopyInName,
    ) + given(in_downloads(path), SuggestionReason::InDownloadsDirectory) + given(
        in_backup(path),
        SuggestionReason::InBackupDirectory,
    ) + given(is_deepest(files, i), SuggestionReason::DeeperPath) + given(
        is_longest(files, i),
        SuggestionReason::LongerFilename,
    ) + given(in_preferred(path), SuggestionReason::PreferredLocation)
}

pub open spec fn score_of(files: Seq<FileView>, i: int) -> int {
    weight_sum(reasons_of(files, i))
}

/// Is the file at `a` a better keeper than the file at `b`: a lower score,
/// then a shallower path, then older, then a shorter path, then the path that
/// comes first?
pub open spec fn better(files: Seq<FileView>, a: int, b: int) -> bool {
    let x = files[a];
    let y = files[b];
    if score_of(files, a) != score_of(files, b) {
        score_of(files, a) < score_of(files, b)
    } else if x.depth != y.depth {
        x.depth < y.depth
    } else if x.modified != y.modified {
        x.modified.before(y.modified)
    } else if byte_len_of(x.path) != byte_len_of(y.path) {
        byte_len_of(x.path) < byte_len_of(y.path)
    } else {
        path_before(x.path, y.path)
    }
}

/// The best keeper among the first `n` files; the first of them where
/// several are equally good.
pub open spec fn best(files: Seq<FileView>, n: nat) -> int
    decreases n,
{
    if n <= 1 {
        0
    } else {
        let b = best(files, (n - 1) as nat);
        if better(files, n - 1, b) {
            n - 1
        } else {
            b
        }
    }
}

/// What an analysis of these files says.
pub open spec fn analysis_of(files: Seq<FileView>) -> AnalysisView {
    AnalysisView {
        keeper: if files.len() == 0 {
            None
        } else {
            Some(best(files, files.len()) as usize)
        },
        files: Seq::new(
            files.len(),
            |i: int|
                SuggestionView {
                    file_index: i as usize,
                    reasons: reasons_of(files, i),
                    score: score_of(files, i) as i32,
                },
        ),
    }
}

proof fn lemma_better(files: Seq<FileView>, a: int, b: int, c: int)
    ensures
        better(files, a, b) && !better(files, c, b) ==> better(files, a, c),
        better(files, a, b) ==> !better(files, b, a),
        !better(files, a, a),
{
    path_order_is_total(files[a].path, files[b].path, files[c].path);
}

/// No file of the group is a better keeper than the one chosen, and of
/// several that are equally good it is the first.
pub proof fn keeper_is_best(files: Seq<FileView>, n: nat)
    requires
        0 < n <= files.len(),
    ensures
        0 <= best(files, n) < n,
        forall|i: int| 0 <= i < n ==> !#[trigger] better(files, i, best(files, n)),
        forall|i: int| 0 <= i < best(files, n) ==> #[trigger] better(files, best(files, n), i),
    decreases n,
{
    if n > 1 {
        keeper_is_best(files, (n - 1) as nat);
        let b = best(files, (n - 1) as nat);
        if better(files, n - 1, b) {
            assert forall|i: int| 0 <= i < n implies !#[trigger] better(files, i, n - 1) by {
                lemma_better(files, n - 1, b, i);
                lemma_better(files, n - 1, i, i);
                lemma_better(files, i, n - 1, b);
            }
            assert forall|i: int| 0 <= i < n - 1 implies #[trigger] better(files, n - 1, i) by {
                assert(!better(files, i, b));
                lemma_better(files, n - 1, b, i);
            }
        }
    } else {
        lemma_better(files, 0, 0, 0);
    }
}

/// Where no two files have the same path, the keeper is better than every
/// other file.
pub proof fn keeper_beats_all_others(files: Seq<FileView>, i: int)
    requires
        0 <= i < files.len(),
        i != best(files, files.len()),
        forall|a: int, b: int|
            0 <= a < b < files.len() ==> components((#[trigger] files[a]).path) != components(
                (#[trigger] files[b]).path,
            ),
    ensures
        better(files, best(files, files.len()), i),
{
    keeper_is_best(files, files.len());
    let k = best(files, files.len());
    assert(!better(files, i, k));
    path_order_is_total(files[i].path, files[k].path, files[i].path);
    if i < k {
        assert(components(files[i].path) != components(files[k].path));
    } else {
        assert(components(files[k].path) != components(files[i].path));
    }
}

proof fn lemma_max_depth(files: Seq<FileView>, n: nat)
    requires
        n <= files.len(),
    ensures
        forall|i: int| 0 <= i < n ==> (#[trigger] files[i]).depth <= max_depth(files, n),
        n > 0 ==> exists|i: int| 0 <= i < n && (#[trigger] files[i]).depth == max_depth(files, n),
    decreases n,
{
    if n > 0 {
        lemma_max_depth(files, (n - 1) as nat);
        assert(files[n - 1].depth <= max_depth(files, n));
        if files[n - 1].depth < max_depth(files, n) {
            let i = choose|i: int|
                0 <= i < n - 1 && (#[trigger] files[i]).depth == max_depth(files, (n - 1) as nat);
            assert(files[i].depth == max_depth(files, n));
        }
    }
}

proof fn lemma_max_name(files: Seq<FileView>, n: nat)
    requires
        n <= files.len(),
    ensures
        forall|i: int| 0 <= i < n ==> name_len(#[trigger] files[i]) <= max_name(files, n),
        n > 0 ==> exists|i: int| 0 <= i < n && name_len(#[trigger] files[i]) == max_name(files, n),
    decreases n,
{
    if n > 0 {
        lemma_max_name(files, (n - 1) as nat);
        assert(name_len(files[n - 1]) <= max_name(files, n));
        if name_len(files[n - 1]) < max_name(files, n) {
            let i = choose|i: int|
                0 <= i < n - 1 && name_len(#[trigger] files[i]) == max_name(files, (n - 1) as nat);
            assert(name_len(files[i]) == max_name(files, n));
        }
    }
}

/// Has the file this stem, in lower case?
spec fn has_stem(f: FileView, stem: Seq<char>) -> bool {
    match file_name_of(f.path) {
        Some(name) => crate::text::lower_text(crate::naming::stem_of(name)) == stem,
        None => false,
    }
}

proof fn lemma_stem_found(files: Seq<FileView>, n: nat, stem: Seq<char>)
    requires
        n <= files.len(),
    ensures
        stem_count(files, n, stem) > 0 <==> exists|i: int| 0 <= i < n && has_stem(#[trigger] files[i], stem),
    decreases n,
{
    if n > 0 {
        lemma_stem_found(files, (n - 1) as nat, stem);
        if has_stem(files[n - 1], stem) {
            assert(stem_count(files, n, stem) > 0);
        } else if stem_count(files, n, stem) > 0 {
            let i = choose|i: int| 0 <= i < n - 1 && has_stem(#[trigger] files[i], stem);
            assert(has_stem(files[i], stem));
        }
    }
}

/// What a list of files has, another list of the same files has as well.
proof fn lemma_found_again(p: Seq<FileView>, q: Seq<FileView>, i: int) -> (j: int)
    requires
        forall|f: FileView| #[trigger] p.contains(f) <==> q.contains(f),
        0 <= i < p.len(),
    ensures
        0 <= j < q.len(),
        q[j] == p[i],
{
    assert(p.contains(p[i]));
    choose|j: int| 0 <= j < q.len() && q[j] == p[i]
}

/// The reasons for a file depend on which files are in its group, and not on
/// their order.
pub proof fn reasons_do_not_depend_on_order(p: Seq<FileView>, q: Seq<FileView>, i: int, j: int)
    requires
        forall|f: FileView| #[trigger] p.contains(f) <==> q.contains(f),
        0 <= i < p.len(),
        0 <= j < q.len(),
        p[i] == q[j],
    ensures
        reasons_of(p, i) == reasons_of(q, j),
        score_of(p, i) == score_of(q, j),
{
    lemma_max_depth(p, p.len());
    lemma_max_depth(q, q.len());
    lemma_max_name(p, p.len());
    lemma_max_name(q, q.len());
    assert(max_depth(p, p.len()) == max_depth(q, q.len())) by {
        let a = choose|a: int| 0 <= a < p.len() && (#[trigger] p[a]).depth == max_depth(p, p.len());
        let b = choose|b: int| 0 <= b < q.len() && (#[trigger] q[b]).depth == max_depth(q, q.len());
        let c = lemma_found_again(p, q, a);
        let d = lemma_found_again(q, p, b);
        assert(q[c].depth <= max_depth(q, q.len()) && p[d].depth <= max_depth(p, p.len()));
    }
    assert(max_name(p, p.len()) == max_name(q, q.len())) by {
        let a = choose|a: int| 0 <= a < p.len() && name_len(#[trigger] p[a]) == max_name(p, p.len());
        let b = choose|b: int| 0 <= b < q.len() && name_len(#[trigger] q[b]) == max_name(q, q.len());
        let c = lemma_found_again(p, q, a);
        let d = lemma_found_again(q, p, b);
        assert(name_len(q[c]) <= max_name(q, q.len()) && name_len(p[d]) <= max_name(p, p.len()));
    }
    if is_deepest(p, i) {
        let a = choose|a: int| 0 <= a < p.len() && (#[trigger] p[a]).depth < p[i].depth;
        let c = lemma_found_again(p, q, a);
        assert(q[c].depth < q[j].depth);
    }
    if is_deepest(q, j) {
        let a = choose|a: int| 0 <= a < q.len() && (#[trigger] q[a]).depth < q[j].depth;
        let c = lemma_found_again(q, p, a);
        assert(p[c].depth < p[i].depth);
    }
    if is_longest(p, i) {
        let a = choose|a: int| 0 <= a < p.len() && name_len(#[trigger] p[a]) + 5 < name_len(p[i]);
        let c = lemma_found_again(p, q, a);
        assert(name_len(q[c]) + 5 < name_len(q[j]));
    }
    if is_longest(q, j) {
        let a = choose|a: int| 0 <= a < q.len() && name_len(#[trigger] q[a]) + 5 < name_len(q[j]);
        let c = lemma_found_again(q, p, a);
        assert(name_len(p[c]) + 5 < name_len(p[i]));
    }
    if let Some(name) = file_name_of(p[i].path) {
        let base = crate::text::lower_text(crate::naming::base_of(crate::naming::stem_of(name)));
        lemma_stem_found(p, p.len(), base);
        lemma_stem_found(q, q.len(), base);
        if stem_count(p, p.len(), base) > 0 {
            let a = choose|a: int| 0 <= a < p.len() && has_stem(#[trigger] p[a], base);
            let c = lemma_found_again(p, q, a);
            assert(has_stem(q[c], base));
        }
        if stem_count(q, q.len(), base) > 0 {
            let a = choose|a: int| 0 <= a < q.len() && has_stem(#[trigger] q[a], base);
            let c = lemma_found_again(q, p, a);
            assert(has_stem(p[c], base));
        }
        assert(marked_among(p, name) == marked_among(q, name));
    }
    assert(copy_in_group(p, i) == copy_in_group(q, j));
}

/// The choice of the keeper is never left to chance: where no two files have
/// the same path, it is the same file whatever order they are listed in.
pub proof fn keeper_does_not_depend_on_order(p: Seq<FileView>, q: Seq<FileView>)
    requires
        p.len() > 0,
        forall|a: int, b: int|
            0 <= a < b < p.len() ==> components((#[trigger] p[a]).path) != components((#[trigger] p[b]).path),
        q.to_multiset() == p.to_multiset(),
    ensures
        q.len() == p.len(),
        0 <= best(p, p.len()) < p.len(),
        0 <= best(q, q.len()) < q.len(),
        q[best(q, q.len())] == p[best(p, p.len())],
{
    broadcast use vstd::seq_lib::group_to_multiset_ensures;
    assert(q.len() == q.to_multiset().len() && p.len() == p.to_multiset().len());
    assert forall|f: FileView| #[trigger] p.contains(f) <==> q.contains(f) by {
        assert(p.contains(f) <==> p.to_multiset().count(f) > 0);
        assert(q.contains(f) <==> q.to_multiset().count(f) > 0);
    }
    assert(p.no_duplicates()) by {
        assert forall|a: int, b: int| 0 <= a < p.len() && 0 <= b < p.len() && a != b implies p[a] != p[b] by {
            if a < b {
                assert(components(p[a].path) != components(p[b].path));
            } else {
                assert(components(p[b].path) != components(p[a].path));
            }
        }
    }
    p.lemma_multiset_has_no_duplicates();
    q.lemma_multiset_has_no_duplicates_conv();
    assert forall|a: int, b: int| 0 <= a < b < q.len() implies components((#[trigger] q[a]).path) != components(
        (#[trigger] q[b]).path,
    ) by {
        let c = lemma_found_again(q, p, a);
        let d = lemma_found_again(q, p, b);
        assert(q[a] != q[b]);
        if c < d {
            assert(components(p[c].path) != components(p[d].path));
        } else {
            assert(components(p[d].path) != components(p[c].path));
        }
    }
    keeper_is_best(p, p.len());
    keeper_is_best(q, q.len());
    let k = best(p, p.len());
    let l = best(q, q.len());
    let j = lemma_found_again(p, q, k);
    let m = lemma_found_again(q, p, l);
    reasons_do_not_depend_on_order(p, q, k, j);
    reasons_do_not_depend_on_order(p, q, m, l);
    if m != k {
        keeper_beats_all_others(p, m);
        assert(better(p, k, m));
        assert(j != l);
        keeper_beats_all_others(q, j);
        assert(better(q, l, j));
        lemma_better(q, l, j, j);
        assert(better(q, j, l));
    }
}

pub struct SuggestionEngine;

fn reasons_for(files: &Vec<FileInfo>, i: usize, bases: &NameCounts, deepest: bool, longest: bool) -> (r: Vec<
    SuggestionReason,
>)
    requires
        i < files@.len(),
        counts_stems(bases@, file_views(files@), files@.len()),
        deepest == is_deepest(file_views(files@), i as int),
        longest == is_longest(file_views(files@), i as int),
    ensures
        r@ == reasons_of(file_views(files@), i as int),
{
    let ghost all = file_views(files@);
    let path = files[i].path.as_str();
    assert(all[i as int].path == path@);
    let at = places(path);
    let copy = is_copy_in_group(path, bases, Ghost(all), Ghost(i as int));
    let mut reasons: Vec<SuggestionReason> = Vec::new();
    add_reason(&mut reasons, at.temp, SuggestionReason::InTempDirectory);
    assert(reasons@ =~= given(at.temp, SuggestionReason::InTempDirectory));
    add_reason(&mut reasons, copy, SuggestionReason::HasCopyInName);
    add_reason(&mut reasons, at.downloads, SuggestionReason::InDownloadsDirectory);
    add_reason(&mut reasons, at.backup, SuggestionReason::InBackupDirectory);
    add_reason(&mut reasons, deepest, SuggestionReason::DeeperPath);
    add_reason(&mut reasons, longest, SuggestionReason::LongerFilename);
    add_reason(&mut reasons, at.preferred, SuggestionReason::PreferredLocation);
    reasons
}

fn add_reason(reasons: &mut Vec<SuggestionReason>, holds: bool, reason: SuggestionReason)
    ensures
        final(reasons)@ == old(reasons)@ + given(holds, reason),
{
    if holds {
        reasons.push(reason);
        assert(reasons@ =~= old(reasons)@ + seq![reason]);
    } else {
        assert(old(reasons)@ + Seq::<SuggestionReason>::empty() =~= old(reasons)@);
    }
}

/// No more than one reason of each kind, so every sum of weights is small.
proof fn lemma_score_bounds(files: Seq<FileView>, i: int)
    ensures
        forall|n: int|
            0 <= n <= reasons_of(files, i).len() ==> -700 <= weight_sum(
                #[trigger] reasons_of(files, i).take(n),
            ) <= 700,
{
    let r = reasons_of(files, i);
    assert forall|n: int| 0 <= n <= r.len() implies -700 <= weight_sum(#[trigger] r.take(n)) <= 700 by {
        lemma_weight_bound(r.take(n));
    }
}

proof fn lemma_weight_bound(r: Seq<SuggestionReason>)
    ensures
        -100 * r.len() <= weight_sum(r) <= 100 * r.len(),
    decreases r.len(),
{
    if r.len() > 0 {
        lemma_weight_bound(r.drop_last());
    }
}

struct Extent {
    min_depth: usize,
    max_depth: usize,
    min_name: usize,
    max_name: usize,
}

spec fn extent_ok(files: Seq<FileView>, n: nat, e: Extent) -> bool {
    &&& e.max_depth == max_depth(files, n)
    &&& e.max_name == max_name(files, n)
    &&& forall|j: int| 0 <= j < n ==> e.min_depth <= (#[trigger] files[j]).depth
    &&& exists|j: int| 0 <= j < n && (#[trigger] files[j]).depth == e.min_depth
    &&& forall|j: int| 0 <= j < n ==> e.min_name <= name_len(#[trigger] files[j])
    &&& exists|j: int| 0 <= j < n && name_len(#[trigger] files[j]) == e.min_name
}

fn name_chars(f: &FileInfo) -> (r: usize)
    ensures
        r == name_len(f@),
{
    chars_of(file_name_or_empty(f.path.as_str()).as_str()).len()
}

fn extent(files: &Vec<FileInfo>) -> (r: Extent)
    requires
        files@.len() > 0,
    ensures
        extent_ok(file_views(files@), files@.len(), r),
{
    let ghost all = file_views(files@);
    let d = files[0].depth;
    let l = name_chars(&files[0]);
    let mut e = Extent { min_depth: d, max_depth: d, min_name: l, max_name: l };
    let n = files.len();
    proof {
        reveal_with_fuel(max_depth, 2);
        reveal_with_fuel(max_name, 2);
        assert(all[0] == files@[0]@);
        assert(all[0].depth == e.min_depth);
        assert(name_len(all[0]) == e.min_name);
    }
    for i in 1..n
        invariant
            n == files@.len(),
            all == file_views(files@),
            extent_ok(all, i as nat, e),
    {
        let ghost before = e;
        assert(all[i as int] == files@[i as int]@);
        let d = files[i].depth;
        let l = name_chars(&files[i]);
        if d > e.max_depth {
            e.max_depth = d;
        }
        if d < e.min_depth {
            e.min_depth = d;
        }
        if l > e.max_name {
            e.max_name = l;
        }
        if l < e.min_name {
            e.min_name = l;
        }
        proof {
            let a = choose|j: int| 0 <= j < i && (#[trigger] all[j]).depth == before.min_depth;
            let b = choose|j: int| 0 <= j < i && name_len(#[trigger] all[j]) == before.min_name;
            let da = if d < before.min_depth {
                i as int
            } else {
                a
            };
            let lb = if l < before.min_name {
                i as int
            } else {
                b
            };
            assert(all[da].depth == e.min_depth);
            assert(name_len(all[lb]) == e.min_name);
        }
    }
    e
}

/// Is file `a` a better keeper than file `b`, given their scores?
fn is_better(files: &Vec<FileInfo>, scored: &Vec<FileSuggestion>, a: usize, b: usize) -> (r: bool)
    requires
        a < files@.len(),
        b < files@.len(),
        scored@.len() == files@.len(),
        scored@[a as int].score == score_of(file_views(files@), a as int),
        scored@[b as int].score == score_of(file_views(files@), b as int),
    ensures
        r == better(file_views(files@), a as int, b as int),
{
    let ghost all = file_views(files@);
    assert(all[a as int] == files@[a as int]@);
    assert(all[b as int] == files@[b as int]@);
    let x = &files[a];
    let y = &files[b];
    if scored[a].score != scored[b].score {
        return scored[a].score < scored[b].score;
    }
    if x.depth != y.depth {
        return x.depth < y.depth;
    }
    if x.modified != y.modified {
        return x.modified.is_before(&y.modified);
    }
    let m = byte_len(x.path.as_str());
    let n = byte_len(y.path.as_str());
    if m != n {
        return m < n;
    }
    is_path_before(x.path.as_str(), y.path.as_str())
}

impl SuggestionEngine {
    /// Scores each file of a group and picks the keeper.
    pub fn analyze(files: &Vec<FileInfo>) -> (r: GroupAnalysis)
        ensures
            r@ == analysis_of(file_views(files@)),
            r@.keeper is Some <==> files@.len() > 0,
            r@.keeper is Some ==> r@.keeper->0 == best(file_views(files@), files@.len()) && r@.keeper->0
                < files@.len(),
            forall|i: int|
                0 <= i < files@.len() ==> (#[trigger] r@.files[i]).score == score_of(file_views(files@), i),
    {
        let n = files.len();
        let ghost all = file_views(files@);
        let mut scored: Vec<FileSuggestion> = Vec::new();
        if n == 0 {
            let r = GroupAnalysis { keeper: None, files: scored };
            assert(r@.files =~= analysis_of(all).files);
            return r;
        }
        let bases = literal_bases(files);
        let e = extent(files);
        for i in 0..n
            invariant
                n == files@.len(),
                n > 0,
                all == file_views(files@),
                counts_stems(bases@, all, n as nat),
                extent_ok(all, n as nat, e),
                scored@.len() == i,
                suggestion_views(scored@) == analysis_of(all).files.take(i as int),
                forall|k: int| 0 <= k < i ==> (#[trigger] scored@[k]).score == score_of(all, k),
        {
            assert(all[i as int] == files@[i as int]@);
            let deepest = e.max_depth > e.min_depth && files[i].depth == e.max_depth;
            let len = name_chars(&files[i]);
            let longest = e.max_name > e.min_name && e.max_name - e.min_name > 5 && len == e.max_name;
            proof {
                let a = choose|j: int| 0 <= j < n && (#[trigger] all[j]).depth == e.min_depth;
                let b = choose|j: int| 0 <= j < n && name_len(#[trigger] all[j]) == e.min_name;
                if deepest {
                    assert(all[a].depth < all[i as int].depth);
                }
                if longest {
                    assert(name_len(all[b]) + 5 < name_len(all[i as int]));
                }
                assert(deepest == is_deepest(all, i as int));
                assert(longest == is_longest(all, i as int));
                lemma_score_bounds(all, i as int);
            }
            let reasons = reasons_for(files, i, &bases, deepest, longest);
            assert(reasons@.take(reasons@.len() as int) =~= reasons@);
            let s = FileSuggestion::new(i, reasons);
            let ghost sv = s@;
            let ghost before = suggestion_views(scored@);
            scored.push(s);
            proof {
                assert(suggestion_views(scored@) =~= before.push(sv));
                assert(analysis_of(all).files.take(i + 1) =~= analysis_of(all).files.take(i as int).push(sv));
            }
        }
        assert(analysis_of(all).files.take(n as int) =~= analysis_of(all).files);
        let mut keeper: usize = 0;
        for i in 1..n
            invariant
                n == files@.len(),
                all == file_views(files@),
                scored@.len() == n,
                forall|k: int| 0 <= k < n ==> (#[trigger] scored@[k]).score == score_of(all, k),
                keeper < i,
                keeper == best(all, i as nat),
        {
            if is_better(files, &scored, i, keeper) {
                keeper = i;
            }
        }
        GroupAnalysis { keeper: Some(keeper), files: scored }
    }

    /// Files suggested for deletion, highest score first, and in the order of
    /// the files where scores are equal.
    pub fn suggest_deletions(files: &Vec<FileInfo>) -> (r: Vec<FileSuggestion>)
        ensures
            by_score(
                analysis_of(file_views(files@)).chosen(files@.len(), false),
                suggestion_views(r@),
            ),
    {
        let analysis = SuggestionEngine::analyze(files);
        let chosen = analysis.suggested_deletions();
        let ghost all = suggestion_views(chosen@);
        proof {
            lemma_chosen_positive(analysis@, analysis@.files.len());
        }
        let mut keys: Vec<u64> = Vec::new();
        let n = chosen.len();
        for i in 0..n
            invariant
                n == chosen@.len(),
                all == suggestion_views(chosen@),
                forall|k: int| 0 <= k < all.len() ==> (#[trigger] all[k]).score > 0,
                keys@ == score_keys(all).take(i as int),
        {
            assert(all[i as int] == chosen@[i as int]@);
            keys.push(chosen[i].score as u64);
            assert(score_keys(all).take(i + 1) =~= score_keys(all).take(i as int).push(
                all[i as int].score as u64,
            ));
        }
        assert(score_keys(all).take(n as int) =~= score_keys(all));
        let p = order_desc(&keys);
        let mut out: Vec<FileSuggestion> = Vec::new();
        let m = p.len();
        let ghost goal = Seq::new(p@.len(), |i: int| all[p@[i] as int]);
        for i in 0..m
            invariant
                n == chosen@.len(),
                m == p@.len(),
                all == suggestion_views(chosen@),
                is_order(score_keys(all), p@),
                goal == Seq::new(p@.len(), |i: int| all[p@[i] as int]),
                suggestion_views(out@) == goal.take(i as int),
        {
            let ghost before = suggestion_views(out@);
            assert(0 <= p@[i as int] < n);
            out.push(chosen[p[i]].clone());
            assert(suggestion_views(out@) =~= before.push(goal[i as int]));
            assert(goal.take(i + 1) =~= goal.take(i as int).push(goal[i as int]));
        }
        assert(goal.take(m as int) =~= goal);
        out
    }

    pub fn get_best_keeper(files: &Vec<FileInfo>) -> (r: Option<usize>)
        ensures
            r == analysis_of(file_views(files@)).keeper,
            r is Some <==> files@.len() > 0,
            r is Some ==> r->0 == best(file_views(files@), files@.len()) && r->0 < files@.len(),
    {
        SuggestionEngine::analyze(files).keeper
    }
}

pub open spec fn score_keys(chosen: Seq<SuggestionView>) -> Seq<u64> {
    Seq::new(chosen.len(), |i: int| chosen[i].score as u64)
}

/// The suggestions with the highest score first, and in the same order where
/// scores are equal.
pub open spec fn by_score(chosen: Seq<SuggestionView>, sorted: Seq<SuggestionView>) -> bool {
    exists|p: Seq<usize>| #[trigger]
        is_order(score_keys(chosen), p) && sorted == Seq::new(p.len(), |i: int| chosen[p[i] as int])
}

proof fn lemma_chosen_positive(a: AnalysisView, n: nat)
    ensures
        forall|k: int| 0 <= k < a.chosen(n, false).len() ==> (#[trigger] a.chosen(n, false)[k]).score > 0,
    decreases n,
{
    if n > 0 {
        lemma_chosen_positive(a, (n - 1) as nat);
        let head = a.chosen((n - 1) as nat, false);
        let c = a.chosen(n, false);
        assert(c == if a.suggested(n - 1) {
            head.push(a.files[n - 1])
        } else {
            head
        });
        assert forall|k: int| 0 <= k < c.len() implies (#[trigger] c[k]).score > 0 by {
            if k < head.len() {
                assert(c[k] == head[k]);
            }
        }
    }
}

// ----- what the signals are worth ------------------------------------------

/// Every signal raises the score of a file but the preferred location, which
/// lowers it.
pub proof fn reasons_weigh_what_they_should(r: SuggestionReason)
    ensures
        r is InTempDirectory ==> r.worth() == 100,
        r is HasCopyInName ==> r.worth() == 80,
        r is InDownloadsDirectory ==> r.worth() == 60,
        r is InBackupDirectory ==> r.worth() == 50,
        r is DeeperPath ==> r.worth() == 20,
        r is LongerFilename ==> r.worth() == 10,
        r is PreferredLocation ==> r.worth() == -40,
        r.worth() < 0 <==> r is PreferredLocation,
{
}

proof fn lemma_weights_join(a: Seq<SuggestionReason>, b: Seq<SuggestionReason>)
    ensures
        weight_sum(a + b) == weight_sum(a) + weight_sum(b),
    decreases b.len(),
{
    if b.len() == 0 {
        assert(a + b =~= a);
    } else {
        lemma_weights_join(a, b.drop_last());
        assert((a + b).drop_last() =~= a + b.drop_last());
        assert((a + b).last() == b.last());
    }
}

proof fn lemma_weight_given(holds: bool, reason: SuggestionReason)
    ensures
        weight_sum(given(holds, reason)) == if holds {
            reason.worth()
        } else {
            0
        },
{
    if holds {
        let one = seq![reason];
        assert(one.drop_last() =~= seq![]);
        assert(weight_sum(one.drop_last()) == 0);
    }
}

/// The score of a file is what its signals are worth together, each counted
/// once.
pub proof fn scores_add_up(files: Seq<FileView>, i: int)
    requires
        0 <= i < files.len(),
    ensures
        analysis_of(files).files[i].file_index == i as usize,
        score_of(files, i) == (if in_temp(files[i].path) {
            100int
        } else {
            0
        }) + (if copy_in_group(files, i) {
            80int
        } else {
            0
        }) + (if in_downloads(files[i].path) {
            60int
        } else {
            0
        }) + (if in_backup(files[i].path) {
            50int
        } else {
            0
        }) + (if is_deepest(files, i) {
            20int
        } else {
            0
        }) + (if is_longest(files, i) {
            10int
        } else {
            0
        }) - (if in_preferred(files[i].path) {
            40int
        } else {
            0
        }),
        analysis_of(files).files[i].score == score_of(files, i),
{
    let path = files[i].path;
    let a = given(in_temp(path), SuggestionReason::InTempDirectory);
    let b = given(copy_in_group(files, i), SuggestionReason::HasCopyInName);
    let c = given(in_downloads(path), SuggestionReason::InDownloadsDirectory);
    let d = given(in_backup(path), SuggestionReason::InBackupDirectory);
    let e = given(is_deepest(files, i), SuggestionReason::DeeperPath);
    let f = given(is_longest(files, i), SuggestionReason::LongerFilename);
    let g = given(in_preferred(path), SuggestionReason::PreferredLocation);
    lemma_weights_join(a, b);
    lemma_weights_join(a + b, c);
    lemma_weights_join(a + b + c, d);
    lemma_weights_join(a + b + c + d, e);
    lemma_weights_join(a + b + c + d + e, f);
    lemma_weights_join(a + b + c + d + e + f, g);
    lemma_weight_given(in_temp(path), SuggestionReason::InTempDirectory);
    lemma_weight_given(copy_in_group(files, i), SuggestionReason::HasCopyInName);
    lemma_weight_given(in_downloads(path), SuggestionReason::InDownloadsDirectory);
    lemma_weight_given(in_backup(path), SuggestionReason::InBackupDirectory);
    lemma_weight_given(is_deepest(files, i), SuggestionReason::DeeperPath);
    lemma_weight_given(is_longest(files, i), SuggestionReason::LongerFilename);
    lemma_weight_given(in_preferred(path), SuggestionReason::PreferredLocation);
}

/// Each reason that is given for a file holds of it, and each that holds is
/// given once.
pub proof fn reasons_are_those_that_hold(files: Seq<FileView>, i: int)
    requires
        0 <= i < files.len(),
    ensures
        analysis_of(files).files[i].reasons.no_duplicates(),
        analysis_of(files).files[i].reasons.contains(SuggestionReason::InTempDirectory) <==> in_temp(files[i].path),
        analysis_of(files).files[i].reasons.contains(SuggestionReason::HasCopyInName) <==> copy_in_group(files, i),
        analysis_of(files).files[i].reasons.contains(SuggestionReason::InDownloadsDirectory) <==> in_downloads(
            files[i].path,
        ),
        analysis_of(files).files[i].reasons.contains(SuggestionReason::InBackupDirectory) <==> in_backup(
            files[i].path,
        ),
        analysis_of(files).files[i].reasons.contains(SuggestionReason::DeeperPath) <==> is_deepest(files, i),
        analysis_of(files).files[i].reasons.contains(SuggestionReason::LongerFilename) <==> is_longest(files, i),
        analysis_of(files).files[i].reasons.contains(SuggestionReason::PreferredLocation) <==> in_preferred(
            files[i].path,
        ),
{
    let path = files[i].path;
    let a = given(in_temp(path), SuggestionReason::InTempDirectory);
    let b = given(copy_in_group(files, i), SuggestionReason::HasCopyInName);
    let c = given(in_downloads(path), SuggestionReason::InDownloadsDirectory);
    let d = given(in_backup(path), SuggestionReason::InBackupDirectory);
    let e = given(is_deepest(files, i), SuggestionReason::DeeperPath);
    let f = given(is_longest(files, i), SuggestionReason::LongerFilename);
    let g = given(in_preferred(path), SuggestionReason::PreferredLocation);
    lemma_joins(a, b);
    lemma_joins(a + b, c);
    lemma_joins(a + b + c, d);
    lemma_joins(a + b + c + d, e);
    lemma_joins(a + b + c + d + e, f);
    lemma_joins(a + b + c + d + e + f, g);
    lemma_given(in_temp(path), SuggestionReason::InTempDirectory);
    lemma_given(copy_in_group(files, i), SuggestionReason::HasCopyInName);
    lemma_given(in_downloads(path), SuggestionReason::InDownloadsDirectory);
    lemma_given(in_backup(path), SuggestionReason::InBackupDirectory);
    lemma_given(is_deepest(files, i), SuggestionReason::DeeperPath);
    lemma_given(is_longest(files, i), SuggestionReason::LongerFilename);
    lemma_given(in_preferred(path), SuggestionReason::PreferredLocation);
}

proof fn lemma_given(holds: bool, reason: SuggestionReason)
    ensures
        given(holds, reason).no_duplicates(),
        forall|x: SuggestionReason| #[trigger] given(holds, reason).contains(x) <==> holds && x == reason,
{
    if holds {
        assert(given(holds, reason)[0] == reason);
    }
}

proof fn lemma_joins(a: Seq<SuggestionReason>, b: Seq<SuggestionReason>)
    ensures
        forall|x: SuggestionReason| #[trigger] (a + b).contains(x) <==> a.contains(x) || b.contains(x),
        a.no_duplicates() && b.no_duplicates() && (forall|x: SuggestionReason|
            !(#[trigger] a.contains(x) && b.contains(x))) ==> (a + b).no_duplicates(),
{
    let all = a + b;
    assert forall|x: SuggestionReason| #[trigger] all.contains(x) <==> a.contains(x) || b.contains(x) by {
        if a.contains(x) {
            let k = choose|k: int| 0 <= k < a.len() && a[k] == x;
            assert(all[k] == x);
        }
        if b.contains(x) {
            let k = choose|k: int| 0 <= k < b.len() && b[k] == x;
            assert(all[a.len() + k] == x);
        }
        if all.contains(x) {
            let k = choose|k: int| 0 <= k < all.len() && all[k] == x;
            if k < a.len() {
                assert(a[k] == x);
            } else {
                assert(b[k - a.len()] == x);
            }
        }
    }
    if a.no_duplicates() && b.no_duplicates() && (forall|x: SuggestionReason|
        !(#[trigger] a.contains(x) && b.contains(x))) {
        assert forall|i: int, j: int| 0 <= i < all.len() && 0 <= j < all.len() && i != j implies all[i] != all[j] by {
            if i < a.len() && j >= a.len() {
                assert(a.contains(a[i]) && b.contains(b[j - a.len()]));
            } else if j < a.len() && i >= a.len() {
                assert(a.contains(a[j]) && b.contains(b[i - a.len()]));
            }
        }
    }
}

/// Of two files that differ only in that one lies in a backup, old or archive
/// folder, that one has the score higher by 50 and is not the keeper.
pub proof fn backup_copies_go_first(files: Seq<FileView>, a: int, b: int)
    requires
        0 <= a < files.len() <= usize::MAX,
        0 <= b < files.len(),
        in_backup(files[a].path),
        !in_backup(files[b].path),
        in_temp(files[a].path) == in_temp(files[b].path),
        in_downloads(files[a].path) == in_downloads(files[b].path),
        in_preferred(files[a].path) == in_preferred(files[b].path),
        copy_in_group(files, a) == copy_in_group(files, b),
        is_deepest(files, a) == is_deepest(files, b),
        is_longest(files, a) == is_longest(files, b),
    ensures
        analysis_of(files).files[a].score == analysis_of(files).files[b].score + 50,
        analysis_of(files).keeper != Some(a as usize),
{
    scores_add_up(files, a);
    scores_add_up(files, b);
    keeper_has_the_lowest_score(files, b);
}

/// A file that no sign speaks against is kept before one that any sign but
/// its place speaks against; and a preferred place speaks for a file.
pub proof fn signs_decide(files: Seq<FileView>, a: int, b: int)
    requires
        0 <= a < files.len() <= usize::MAX,
        0 <= b < files.len(),
        !in_preferred(files[a].path),
        in_temp(files[b].path) ==> in_temp(files[a].path),
        copy_in_group(files, b) ==> copy_in_group(files, a),
        in_downloads(files[b].path) ==> in_downloads(files[a].path),
        in_backup(files[b].path) ==> in_backup(files[a].path),
        is_deepest(files, b) ==> is_deepest(files, a),
        is_longest(files, b) ==> is_longest(files, a),
    ensures
        analysis_of(files).files[a].score >= analysis_of(files).files[b].score,
        in_temp(files[a].path) && !in_temp(files[b].path) ==> analysis_of(files).files[a].score
            >= analysis_of(files).files[b].score + 100,
        copy_in_group(files, a) && !copy_in_group(files, b) ==> analysis_of(files).files[a].score
            >= analysis_of(files).files[b].score + 80,
        in_downloads(files[a].path) && !in_downloads(files[b].path) ==> analysis_of(files).files[a].score
            >= analysis_of(files).files[b].score + 60,
        in_backup(files[a].path) && !in_backup(files[b].path) ==> analysis_of(files).files[a].score
            >= analysis_of(files).files[b].score + 50,
        is_deepest(files, a) && !is_deepest(files, b) ==> analysis_of(files).files[a].score
            >= analysis_of(files).files[b].score + 20,
        is_longest(files, a) && !is_longest(files, b) ==> analysis_of(files).files[a].score
            >= analysis_of(files).files[b].score + 10,
        in_preferred(files[b].path) ==> analysis_of(files).files[a].score >= analysis_of(files).files[b].score + 40,
        analysis_of(files).files[a].score > analysis_of(files).files[b].score ==> analysis_of(files).keeper != Some(
            a as usize,
        ),
{
    scores_add_up(files, a);
    scores_add_up(files, b);
    keeper_has_the_lowest_score(files, b);
}

/// No file has a lower score than the keeper. Of those with the same score
/// none lies less deep; of those none is older; and of those none has a
/// shorter path.
pub proof fn keeper_has_the_lowest_score(files: Seq<FileView>, i: int)
    requires
        0 <= i < files.len() <= usize::MAX,
    ensures
        analysis_of(files).keeper is Some,
        analysis_of(files).keeper->0 < files.len(),
        ({
            let k = analysis_of(files).keeper->0 as int;
            let keeper = files[k];
            let f = files[i];
            let low = analysis_of(files).files[k].score;
            let score = analysis_of(files).files[i].score;
            &&& low <= score
            &&& score == low ==> keeper.depth <= f.depth
            &&& score == low && keeper.depth == f.depth ==> keeper.modified.secs <= f.modified.secs
            &&& score == low && keeper.depth == f.depth && keeper.modified.secs == f.modified.secs
                ==> keeper.modified.nanos <= f.modified.nanos
            &&& score == low && keeper.depth == f.depth && keeper.modified == f.modified
                ==> vstd::utf8::encode_utf8(keeper.path).len() <= vstd::utf8::encode_utf8(f.path).len()
        }),
{
    keeper_is_best(files, files.len());
    let k = best(files, files.len());
    assert(!better(files, i, k));
    scores_add_up(files, i);
    scores_add_up(files, k);
}

/// A file counts as the deepest where none lies deeper and some lies less
/// deep, and its name as the longest where none is longer and some is shorter
/// by more than five characters.
pub proof fn extremes_are_extreme(files: Seq<FileView>, i: int)
    requires
        0 <= i < files.len(),
    ensures
        is_deepest(files, i) <==> (forall|j: int|
            0 <= j < files.len() ==> (#[trigger] files[j]).depth <= files[i].depth) && (exists|j: int|
            0 <= j < files.len() && (#[trigger] files[j]).depth < files[i].depth),
        is_longest(files, i) <==> (forall|j: int|
            0 <= j < files.len() ==> name_or_empty((#[trigger] files[j]).path).len() <= name_or_empty(
                files[i].path,
            ).len()) && (exists|j: int|
            0 <= j < files.len() && name_or_empty((#[trigger] files[j]).path).len() + 5 < name_or_empty(
                files[i].path,
            ).len()),
{
    lemma_max_depth(files, files.len());
    lemma_max_name(files, files.len());
    let d = max_depth(files, files.len());
    let m = max_name(files, files.len());
    if forall|j: int| 0 <= j < files.len() ==> (#[trigger] files[j]).depth <= files[i].depth {
        let x = choose|x: int| 0 <= x < files.len() && (#[trigger] files[x]).depth == d;
        assert(files[x].depth <= files[i].depth);
    }
    if forall|j: int|
        0 <= j < files.len() ==> name_or_empty((#[trigger] files[j]).path).len() <= name_or_empty(
            files[i].path,
        ).len() {
        let x = choose|x: int| 0 <= x < files.len() && name_len(#[trigger] files[x]) == m;
        assert(name_or_empty(files[x].path).len() <= name_or_empty(files[i].path).len());
    }
    if is_longest(files, i) {
        let x = choose|x: int| 0 <= x < files.len() && name_len(#[trigger] files[x]) + 5 < name_len(files[i]);
        assert(name_or_empty(files[x].path).len() + 5 < name_or_empty(files[i].path).len());
        assert forall|j: int| 0 <= j < files.len() implies name_or_empty((#[trigger] files[j]).path).len()
            <= name_or_empty(files[i].path).len() by {
            assert(name_len(files[j]) <= m);
        }
    }
    if exists|j: int|
        0 <= j < files.len() && name_or_empty((#[trigger] files[j]).path).len() + 5 < name_or_empty(
            files[i].path,
        ).len() {
        let x = choose|j: int|
            0 <= j < files.len() && name_or_empty((#[trigger] files[j]).path).len() + 5 < name_or_empty(
                files[i].path,
            ).len();
        assert(name_len(files[x]) + 5 < name_len(files[i]));
    }
}

/// A place counts by the name of a directory the file lies in, at whatever
/// depth and in whatever case; the name of the file itself does not count.
pub proof fn places_go_by_folder_names(path: Seq<char>, i: int)
    requires
        0 <= i < components(path).len() - 1,
    ensures
        ({
            let c = unicode_lower(components(path)[i]);
            &&& c == "tmp"@ || c == "temp"@ || c == ".tmp"@ || c == "cache"@ || c == ".cache"@ ==> in_temp(path)
            &&& c == "downloads"@ || c == "download"@ ==> in_downloads(path)
            &&& c == "backup"@ || c == "backups"@ || c == "old"@ || c == "archive"@ ==> in_backup(path)
            &&& "backup "@.is_prefix_of(c) || " backup"@.is_suffix_of(c) || "_backup"@.is_suffix_of(c)
                || "-backup"@.is_suffix_of(c) ==> in_backup(path)
            &&& c == "documents"@ || c == "pictures"@ || c == "photos"@ || c == "music"@ || c == "videos"@
                || c == "movies"@ || c == "projects"@ || c == "src"@ || c == "desktop"@ ==> in_preferred(path)
        }),
{
    let c = folders(path)[i];
    assert(c == unicode_lower(components(path)[i]));
    if "backup "@.is_prefix_of(c) {
        assert(c.subrange(0, "backup "@.len() as int) =~= c.take("backup "@.len() as int));
    }
    assert(" backup"@.is_suffix_of(c) ==> has_suffix(c, " backup"@));
    assert("_backup"@.is_suffix_of(c) ==> has_suffix(c, "_backup"@));
    assert("-backup"@.is_suffix_of(c) ==> has_suffix(c, "-backup"@));
    assert(backup_name(c) ==> in_backup(path));
    assert(temp_name(c) ==> in_temp(path));
    assert(downloads_name(c) ==> in_downloads(path));
    assert(preferred_name(c) ==> in_preferred(path));
}

/// A place counts only where a directory the file lies in has such a name.
pub proof fn other_places_do_not_count(path: Seq<char>)
    requires
        forall|i: int|
            0 <= i < components(path).len() - 1 ==> {
                let c = unicode_lower(#[trigger] components(path)[i]);
                &&& c != "tmp"@ && c != "temp"@ && c != ".tmp"@ && c != "cache"@ && c != ".cache"@
                &&& c != "downloads"@ && c != "download"@
                &&& c != "backup"@ && c != "backups"@ && c != "old"@ && c != "archive"@
                &&& !"backup "@.is_prefix_of(c) && !" backup"@.is_suffix_of(c) && !"_backup"@.is_suffix_of(c)
                    && !"-backup"@.is_suffix_of(c)
                &&& c != "documents"@ && c != "pictures"@ && c != "photos"@ && c != "music"@ && c != "videos"@
                    && c != "movies"@ && c != "projects"@ && c != "src"@ && c != "desktop"@
            },
    ensures
        !in_temp(path),
        !in_downloads(path),
        !in_backup(path),
        !in_preferred(path),
{
    assert forall|i: int| 0 <= i < folders(path).len() implies !temp_name(#[trigger] folders(path)[i])
        && !downloads_name(folders(path)[i]) && !backup_name(folders(path)[i]) && !preferred_name(
        folders(path)[i],
    ) by {
        let c = folders(path)[i];
        assert(c == unicode_lower(components(path)[i]));
        if has_prefix(c, "backup "@) {
            assert(c.take("backup "@.len() as int) =~= c.subrange(0, "backup "@.len() as int));
            assert("backup "@.is_prefix_of(c));
        }
        assert(has_suffix(c, " backup"@) ==> " backup"@.is_suffix_of(c));
        assert(has_suffix(c, "_backup"@) ==> "_backup"@.is_suffix_of(c));
        assert(has_suffix(c, "-backup"@) ==> "-backup"@.is_suffix_of(c));
    }
}

/// What is said of each reason.
pub proof fn reasons_read_as_follows()
    ensures
        SuggestionReason::InTempDirectory.text() == "in a temp directory"@,
        SuggestionReason::HasCopyInName.text() == "name looks like a copy"@,
        SuggestionReason::InDownloadsDirectory.text() == "in Downloads"@,
        SuggestionReason::InBackupDirectory.text() == "in a backup folder"@,
        SuggestionReason::DeeperPath.text() == "deeper in the tree"@,
        SuggestionReason::LongerFilename.text() == "longer filename"@,
        SuggestionReason::PreferredLocation.text() == "in a preferred location"@,
{
}

/// Every file but the keeper is offered, and suggested where its score is
/// above zero, in the order of the group.
pub proof fn suggestions_leave_the_keeper(a: AnalysisView)
    ensures
        a.chosen(a.files.len(), true) == a.files.filter(
            |f: SuggestionView| a.keeper is None || f.file_index != a.keeper->0,
        ),
        a.chosen(a.files.len(), false) == a.files.filter(
            |f: SuggestionView| (a.keeper is None || f.file_index != a.keeper->0) && f.score > 0,
        ),
{
    lemma_chosen(a, a.files.len(), true);
    lemma_chosen(a, a.files.len(), false);
    assert(a.files.take(a.files.len() as int) == a.files);
}

proof fn lemma_chosen(a: AnalysisView, n: nat, all: bool)
    requires
        n <= a.files.len(),
    ensures
        all ==> a.chosen(n, true) == a.files.take(n as int).filter(
            |f: SuggestionView| a.keeper is None || f.file_index != a.keeper->0,
        ),
        !all ==> a.chosen(n, false) == a.files.take(n as int).filter(
            |f: SuggestionView| (a.keeper is None || f.file_index != a.keeper->0) && f.score > 0,
        ),
    decreases n,
{
    reveal(Seq::filter);
    if n > 0 {
        lemma_chosen(a, (n - 1) as nat, all);
        assert(a.files.take(n as int).drop_last() == a.files.take(n - 1));
    }
}

/// The confidence goes by the highest score among the suggested files: 100,
/// 80 and 50 are the least for high, good and medium.
pub proof fn confidence_goes_by_the_highest_score(a: AnalysisView)
    ensures
        ({
            let said = confidence_text(a.top_score(a.files.len()));
            let reaches = |least: int|
                exists|i: int|
                    0 <= i < a.files.len() && (a.keeper is None || a.files[i].file_index != a.keeper->0) && (
                    #[trigger] a.files[i]).score >= least;
            &&& reaches(100) ==> said == "high confidence"@
            &&& reaches(80) && !reaches(100) ==> said == "good confidence"@
            &&& reaches(50) && !reaches(80) ==> said == "medium confidence"@
            &&& !reaches(50) ==> said == "low confidence, review carefully"@
        }),
{
    lemma_top_score(a, a.files.len());
}

proof fn lemma_top_score(a: AnalysisView, n: nat)
    requires
        n <= a.files.len(),
    ensures
        a.top_score(n) >= 0,
        forall|i: int| 0 <= i < n && a.suggested(i) ==> (#[trigger] a.files[i]).score <= a.top_score(n),
        a.top_score(n) > 0 ==> exists|i: int|
            0 <= i < n && a.suggested(i) && (#[trigger] a.files[i]).score == a.top_score(n),
    decreases n,
{
    if n > 0 {
        lemma_top_score(a, (n - 1) as nat);
        assert(a.suggested(n - 1) ==> a.files[n - 1].score <= a.top_score(n));
        if a.top_score(n) > 0 {
            if a.suggested(n - 1) && a.files[n - 1].score > a.top_score((n - 1) as nat) {
                assert(a.files[n - 1].score == a.top_score(n));
            } else {
                let i = choose|i: int|
                    0 <= i < n - 1 && a.suggested(i) && (#[trigger] a.files[i]).score == a.top_score(
                        (n - 1) as nat,
                    );
                assert(a.files[i].score == a.top_score(n));
            }
        }
    }
}

/// Sorted suggestions are the chosen ones, the highest score first.
pub proof fn the_surest_suggestions_come_first(chosen: Seq<SuggestionView>, sorted: Seq<SuggestionView>)
    requires
        by_score(chosen, sorted),
        forall|i: int| 0 <= i < chosen.len() ==> (#[trigger] chosen[i]).score > 0,
    ensures
        sorted.len() == chosen.len(),
        forall|i: int, j: int|
            0 <= i < j < sorted.len() ==> (#[trigger] sorted[i]).score >= (#[trigger] sorted[j]).score,
        forall|s: SuggestionView| #[trigger] sorted.contains(s) <==> chosen.contains(s),
{
    let keys = score_keys(chosen);
    let p = choose|p: Seq<usize>| #[trigger]
        is_order(score_keys(chosen), p) && sorted == Seq::new(p.len(), |i: int| chosen[p[i] as int]);
    assert forall|i: int, j: int| 0 <= i < j < sorted.len() implies (#[trigger] sorted[i]).score >= (
    #[trigger] sorted[j]).score by {
        larger_keys_come_first(keys, p, i, j);
        assert(keys[p[i] as int] == chosen[p[i] as int].score as u64);
        assert(keys[p[j] as int] == chosen[p[j] as int].score as u64);
    }
    lemma_every_position(keys, p);
    lemma_small(keys, p);
    assert forall|s: SuggestionView| #[trigger] sorted.contains(s) <==> chosen.contains(s) by {
        if sorted.contains(s) {
            let i = choose|i: int| 0 <= i < sorted.len() && sorted[i] == s;
            assert(chosen[p[i] as int] == s);
        }
        if chosen.contains(s) {
            let k = choose|k: int| 0 <= k < chosen.len() && chosen[k] == s;
            assert(p.contains(k as usize));
            let i = choose|i: int| 0 <= i < p.len() && p[i] == k as usize;
            assert(sorted[i] == s);
        }
    }
}

/// The stem of a name is what stands before its last dot, where anything
/// does.
pub proof fn stems_end_at_the_last_dot(stem: Seq<char>, ext: Seq<char>)
    requires
        !ext.contains('.'),
    ensures
        stem.len() > 0 ==> plain_stem(stem + "."@ + ext) == stem,
        plain_stem(ext) == ext,
        plain_stem("."@ + ext) == "."@ + ext,
{
    reveal_strlit(".");
    let name = stem + "."@ + ext;
    let hidden = "."@ + ext;
    lemma_last_of(name, '.');
    lemma_last_of(hidden, '.');
    lemma_last_of(ext, '.');
    assert(name[stem.len() as int] == '.');
    assert forall|i: int| stem.len() < i < name.len() implies name[i] != '.' by {
        assert(name[i] == ext[i - stem.len() - 1]);
        assert(ext.contains(ext[i - stem.len() - 1]));
    }
    assert forall|i: int| 0 < i < hidden.len() implies hidden[i] != '.' by {
        assert(hidden[i] == ext[i - 1]);
        assert(ext.contains(ext[i - 1]));
    }
    assert(hidden[0] == '.');
    assert(name.take(stem.len() as int) == stem);
    if last_of(ext, '.') >= 0 {
        assert(ext.contains(ext[last_of(ext, '.')]));
    }
}

/// A name says that it is a copy by one of four words or by a number in
/// brackets at its end.
pub proof fn copies_say_so(head: Seq<char>, digits: Seq<char>, tail: Seq<char>, stem: Seq<char>)
    requires
        digits.len() > 0,
        forall|i: int| 0 <= i < digits.len() ==> '0' <= #[trigger] digits[i] <= '9',
    ensures
        says_copy(head + "copy"@ + tail),
        says_copy(head + "duplicate"@ + tail),
        says_copy(head + "backup"@ + tail),
        says_copy("kopie von "@ + tail),
        says_copy(head + "("@ + digits + ")"@),
        says_copy(stem) && !contains_text(stem, "copy"@) && !contains_text(stem, "duplicate"@) && !contains_text(
            stem,
            "backup"@,
        ) && !"kopie von "@.is_prefix_of(stem) ==> stem.len() >= 3 && stem.last() == ')' && exists|i: int|
            #![trigger stem[i]]
            0 <= i < stem.len() - 2 && stem[i] == '(' && '0' <= stem[i + 1] <= '9' && forall|j: int|
                i < j < stem.len() ==> '0' <= #[trigger] stem[j] <= '9' || stem[j] == ')',
{
    texts_are_found_where_they_stand(stem, "copy"@, head, tail);
    texts_are_found_where_they_stand(stem, "duplicate"@, head, tail);
    texts_are_found_where_they_stand(stem, "backup"@, head, tail);
    let k = "kopie von "@;
    assert((k + tail).take(k.len() as int) == k);
    texts_are_found_where_they_stand(stem, k, head, tail);
    reveal_strlit("(");
    reveal_strlit(")");
    let s = head + "("@ + digits + ")"@;
    lemma_last_of(s, '(');
    assert(s[head.len() as int] == '(');
    assert forall|i: int| head.len() < i < s.len() implies s[i] != '(' by {
        if i < s.len() - 1 {
            assert(s[i] == digits[i - head.len() - 1]);
        }
    }
    let rest = s.skip(head.len() as int + 1);
    assert(rest.drop_last() == digits);
    assert(rest.last() == ')');
    assert(digits.last() == digits[digits.len() - 1]);
    reveal_with_fuel(drop_closing, 2);
    assert(drop_closing(rest) == digits);
    assert(numbered(s));
    if has_prefix(stem, "copy of "@) {
        reveal_strlit("copy of ");
        reveal_strlit("copy");
        assert(stem.subrange(0, 0int + "copy"@.len()) == "copy"@) by {
            assert forall|i: int| 0 <= i < 4 implies stem[i] == "copy of "@[i] by {
                assert(stem.take(8)[i] == "copy of "@[i]);
            }
        }
        assert(contains_text(stem, "copy"@));
    }
    if numbered(stem) {
        let open = last_of(stem, '(');
        lemma_last_of(stem, '(');
        let inner = stem.skip(open + 1);
        lemma_drop_closing(inner);
        let d = drop_closing(inner);
        assert(d[0] == stem[open + 1]);
        assert(is_digit(d[0]));
        assert(stem[stem.len() - 1] == ')');
        assert forall|j: int| open < j < stem.len() implies '0' <= #[trigger] stem[j] <= '9' || stem[j] == ')' by {
            assert(inner[j - open - 1] == stem[j]);
            if j - open - 1 < d.len() {
                assert(is_digit(d[j - open - 1]));
            }
        }
        assert(stem[open] == '(');
    }
}

proof fn lemma_drop_closing(s: Seq<char>)
    ensures
        drop_closing(s).len() <= s.len(),
        forall|i: int| 0 <= i < drop_closing(s).len() ==> #[trigger] drop_closing(s)[i] == s[i],
        forall|i: int| drop_closing(s).len() <= i < s.len() ==> #[trigger] s[i] == ')',
    decreases s.len(),
{
    if s.len() > 0 && s.last() == ')' {
        lemma_drop_closing(s.drop_last());
        assert forall|i: int| drop_closing(s).len() <= i < s.len() implies #[trigger] s[i] == ')' by {
            if i < s.len() - 1 {
                assert(s.drop_last()[i] == s[i]);
            }
        }
    }
}

/// A name ends in a counter where its last character is one of `2` to `9`
/// and a blank, a hyphen or an underscore stands before it.
pub proof fn counters_are_single_digits(stem: Seq<char>)
    ensures
        ends_in_digit(stem) <==> exists|head: Seq<char>, sep: char, d: char|
            stem == #[trigger] head.push(sep).push(d) && (sep == ' ' || sep == '-' || sep == '_') && (d == '2'
                || d == '3' || d == '4' || d == '5' || d == '6' || d == '7' || d == '8' || d == '9'),
{
    if ends_in_digit(stem) {
        let head = stem.take(stem.len() - 2);
        assert(stem == head.push(stem[stem.len() - 2]).push(stem.last()));
        let d = stem.last();
        assert(d as u32 == 50 || d as u32 == 51 || d as u32 == 52 || d as u32 == 53 || d as u32 == 54 || d as u32
            == 55 || d as u32 == 56 || d as u32 == 57);
    }
    if exists|head: Seq<char>, sep: char, d: char|
        stem == #[trigger] head.push(sep).push(d) && (sep == ' ' || sep == '-' || sep == '_') && (d == '2'
            || d == '3' || d == '4' || d == '5' || d == '6' || d == '7' || d == '8' || d == '9') {
        let (head, sep, d) = choose|head: Seq<char>, sep: char, d: char|
            stem == #[trigger] head.push(sep).push(d) && (sep == ' ' || sep == '-' || sep == '_') && (d == '2'
                || d == '3' || d == '4' || d == '5' || d == '6' || d == '7' || d == '8' || d == '9');
        assert(stem.last() == d);
        assert(stem[stem.len() - 2] == sep);
    }
}

/// In a group a name that says so is a copy, and one that ends in a counter
/// is one where stripping the marker is certain or leaves the stem of a name
/// in the group, whatever the case; no other name is.
pub proof fn counters_need_a_namesake(files: Seq<FileView>, i: int)
    requires
        0 <= i < files.len(),
        file_name_of(files[i].path) is Some,
    ensures
        ({
            let name = file_name_of(files[i].path)->0;
            let low = plain_stem(unicode_lower(name));
            let stem = crate::naming::stem_of(name);
            let base = crate::naming::base_of(stem);
            let namesake = exists|j: int|
                0 <= j < files.len() && file_name_of((#[trigger] files[j]).path) is Some && lower_text(
                    crate::naming::stem_of(file_name_of(files[j].path)->0),
                ) == lower_text(base);
            copy_in_group(files, i) <==> says_copy(low) || (ends_in_digit(low) && crate::naming::is_marked(stem)
                && (crate::naming::is_unambiguous(stem) || namesake))
        }),
{
    let name = file_name_of(files[i].path)->0;
    let stem = crate::naming::stem_of(name);
    lemma_stem_count(files, files.len(), lower_text(crate::naming::base_of(stem)));
}

proof fn lemma_stem_count(files: Seq<FileView>, n: nat, stem: Seq<char>)
    requires
        n <= files.len(),
    ensures
        stem_count(files, n, stem) > 0 <==> exists|j: int|
            0 <= j < n && file_name_of((#[trigger] files[j]).path) is Some && lower_text(
                crate::naming::stem_of(file_name_of(files[j].path)->0),
            ) == stem,
    decreases n,
{
    if n > 0 {
        lemma_stem_count(files, (n - 1) as nat, stem);
        let last = files[n - 1];
        if stem_count(files, n, stem) > 0 && stem_count(files, (n - 1) as nat, stem) > 0 {
            let j = choose|j: int|
                0 <= j < n - 1 && file_name_of((#[trigger] files[j]).path) is Some && lower_text(
                    crate::naming::stem_of(file_name_of(files[j].path)->0),
                ) == stem;
            assert(0 <= j < n && file_name_of(files[j].path) is Some);
        }
    }
}

/// A path looks like a copy where its name, in small letters and without its
/// extension, says so or ends in a counter; a path without a name does not.
pub proof fn names_look_like_copies(dir: Seq<char>, name: Seq<char>, path: Seq<char>)
    requires
        crate::paths::is_plain_name(name),
    ensures
        copy_like(crate::paths::join_of(dir, name)) <==> says_copy(plain_stem(unicode_lower(name)))
            || ends_in_digit(plain_stem(unicode_lower(name))),
        file_name_of(path) is None ==> !copy_like(path),
{
    crate::paths::a_name_lies_in_its_folder(dir, name);
}

} // verus!
