//! Group filters shared by all front ends, so they classify sizes and file
//! types identically.

use vstd::prelude::*;
use crate::duplicates::{group_views, DuplicateGroup, GroupView};
use crate::outside::{to_lowercase, unicode_lower};
use crate::paths::{extension_chars, extension_of, extensions_follow_the_last_dot, is_plain_name, join_of};
use crate::text::{
    chars_of, contains, contains_text, is_text, join, joined, lower_chars, lower_text, trim, trim_chars,
    trimmed, views,
};

verus! {

#[derive(Debug, Clone, Copy, PartialEq, Eq, Structural)]
pub enum SizeBucket {
    All,
    /// under 10 KiB
    Tiny,
    /// 10 KiB to 1 MiB
    Small,
    /// 1 MiB to 100 MiB
    Medium,
    /// 100 MiB and up
    Large,
}

impl Default for SizeBucket {
    fn default() -> (r: SizeBucket)
        ensures
            r == SizeBucket::All,
    {
        SizeBucket::All
    }
}

impl SizeBucket {
    pub const ALL: [SizeBucket; 5] = [
        SizeBucket::All,
        SizeBucket::Tiny,
        SizeBucket::Small,
        SizeBucket::Medium,
        SizeBucket::Large,
    ];

    /// The bucket that a text in lower case names.
    pub open spec fn named(s: Seq<char>) -> Option<SizeBucket> {
        if s == ""@ || s == "all"@ {
            Some(SizeBucket::All)
        } else if s == "tiny"@ {
            Some(SizeBucket::Tiny)
        } else if s == "small"@ {
            Some(SizeBucket::Small)
        } else if s == "medium"@ {
            Some(SizeBucket::Medium)
        } else if s == "large"@ {
            Some(SizeBucket::Large)
        } else {
            None
        }
    }

    pub open spec fn label_text(self) -> Seq<char> {
        match self {
            SizeBucket::All => "all sizes"@,
            SizeBucket::Tiny => "tiny (under 10 KiB)"@,
            SizeBucket::Small => "small (10 KiB to 1 MiB)"@,
            SizeBucket::Medium => "medium (1 MiB to 100 MiB)"@,
            SizeBucket::Large => "large (100 MiB and up)"@,
        }
    }

    pub open spec fn successor(self) -> SizeBucket {
        match self {
            SizeBucket::All => SizeBucket::Tiny,
            SizeBucket::Tiny => SizeBucket::Small,
            SizeBucket::Small => SizeBucket::Medium,
            SizeBucket::Medium => SizeBucket::Large,
            SizeBucket::Large => SizeBucket::All,
        }
    }

    pub open spec fn holding(size: u64) -> SizeBucket {
        if size < 10 * 1024 {
            SizeBucket::Tiny
        } else if size < 1024 * 1024 {
            SizeBucket::Small
        } else if size < 100 * 1024 * 1024 {
            SizeBucket::Medium
        } else {
            SizeBucket::Large
        }
    }

    pub open spec fn admits(self, size: u64) -> bool {
        self == SizeBucket::All || SizeBucket::holding(size) == self
    }

    pub fn parse(s: &str) -> (r: Option<SizeBucket>)
        ensures
            r == SizeBucket::named(lower_text(trim(s@))),
    {
        let t = lower_chars(&trim_chars(&chars_of(s)));
        if is_text(&t, "") || is_text(&t, "all") {
            Some(SizeBucket::All)
        } else if is_text(&t, "tiny") {
            Some(SizeBucket::Tiny)
        } else if is_text(&t, "small") {
            Some(SizeBucket::Small)
        } else if is_text(&t, "medium") {
            Some(SizeBucket::Medium)
        } else if is_text(&t, "large") {
            Some(SizeBucket::Large)
        } else {
            None
        }
    }

    pub fn label(&self) -> (r: &'static str)
        ensures
            r@ == self.label_text(),
    {
        match self {
            SizeBucket::All => "all sizes",
            SizeBucket::Tiny => "tiny (under 10 KiB)",
            SizeBucket::Small => "small (10 KiB to 1 MiB)",
            SizeBucket::Medium => "medium (1 MiB to 100 MiB)",
            SizeBucket::Large => "large (100 MiB and up)",
        }
    }

    pub fn next(&self) -> (r: SizeBucket)
        ensures
            r == self.successor(),
    {
        match self {
            SizeBucket::All => SizeBucket::Tiny,
            SizeBucket::Tiny => SizeBucket::Small,
            SizeBucket::Small => SizeBucket::Medium,
            SizeBucket::Medium => SizeBucket::Large,
            SizeBucket::Large => SizeBucket::All,
        }
    }

    /// The bucket a file size falls into (never `All`).
    pub fn of(size: u64) -> (r: SizeBucket)
        ensures
            r == SizeBucket::holding(size),
            r != SizeBucket::All,
    {
        if size < 10 * 1024 {
            SizeBucket::Tiny
        } else if size < 1024 * 1024 {
            SizeBucket::Small
        } else if size < 100 * 1024 * 1024 {
            SizeBucket::Medium
        } else {
            SizeBucket::Large
        }
    }

    pub fn matches(&self, size: u64) -> (r: bool)
        ensures
            r == self.admits(size),
    {
        *self == SizeBucket::All || SizeBucket::of(size) == *self
    }
}

/// Going on from bucket to bucket visits all five and comes back.
pub proof fn buckets_cycle(b: SizeBucket)
    ensures
        b.successor().successor().successor().successor().successor() == b,
        b.successor() != b,
        b.successor().successor() != b,
        b.successor().successor().successor() != b,
        b.successor().successor().successor().successor() != b,
{
}

/// Every size is admitted by exactly one of the four proper buckets.
pub proof fn buckets_partition_sizes(size: u64, a: SizeBucket, b: SizeBucket)
    requires
        a.admits(size),
        b.admits(size),
        a != SizeBucket::All,
        b != SizeBucket::All,
    ensures
        a == b,
{
}

#[derive(Debug, Clone, Copy, PartialEq, Eq, Structural)]
pub enum FileKind {
    All,
    Image,
    Video,
    Audio,
    Document,
    Archive,
    Code,
    Other,
}

impl Default for FileKind {
    fn default() -> (r: FileKind)
        ensures
            r == FileKind::All,
    {
        FileKind::All
    }
}

/// Is this, in lower case, the extension of an image?
pub open spec fn image_ext(e: Seq<char>) -> bool {
    ||| e == "jpg"@
    ||| e == "jpeg"@
    ||| e == "png"@
    ||| e == "gif"@
    ||| e == "bmp"@
    ||| e == "webp"@
    ||| e == "heic"@
    ||| e == "heif"@
    ||| e == "tif"@
    ||| e == "tiff"@
    ||| e == "svg"@
    ||| e == "ico"@
    ||| e == "avif"@
    ||| e == "raw"@
    ||| e == "cr2"@
    ||| e == "nef"@
    ||| e == "arw"@
    ||| e == "dng"@
    ||| e == "psd"@
}

fn is_image_ext(e: &Vec<char>) -> (r: bool)
    ensures
        r == image_ext(e@),
{
    is_text(e, "jpg")
        || is_text(e, "jpeg")
        || is_text(e, "png")
        || is_text(e, "gif")
        || is_text(e, "bmp")
        || is_text(e, "webp")
        || is_text(e, "heic")
        || is_text(e, "heif")
        || is_text(e, "tif")
        || is_text(e, "tiff")
        || is_text(e, "svg")
        || is_text(e, "ico")
        || is_text(e, "avif")
        || is_text(e, "raw")
        || is_text(e, "cr2")
        || is_text(e, "nef")
        || is_text(e, "arw")
        || is_text(e, "dng")
        || is_text(e, "psd")
}

/// Is this, in lower case, the extension of a video?
pub open spec fn video_ext(e: Seq<char>) -> bool {
    ||| e == "mp4"@
    ||| e == "mov"@
    ||| e == "avi"@
    ||| e == "mkv"@
    ||| e == "webm"@
    ||| e == "wmv"@
    ||| e == "flv"@
    ||| e == "m4v"@
    ||| e == "mpg"@
    ||| e == "mpeg"@
    ||| e == "3gp"@
    ||| e == "ts"@
}

fn is_video_ext(e: &Vec<char>) -> (r: bool)
    ensures
        r == video_ext(e@),
{
    is_text(e, "mp4")
        || is_text(e, "mov")
        || is_text(e, "avi")
        || is_text(e, "mkv")
        || is_text(e, "webm")
        || is_text(e, "wmv")
        || is_text(e, "flv")
        || is_text(e, "m4v")
        || is_text(e, "mpg")
        || is_text(e, "mpeg")
        || is_text(e, "3gp")
        || is_text(e, "ts")
}

/// Is this, in lower case, the extension of a sound?
pub open spec fn audio_ext(e: Seq<char>) -> bool {
    ||| e == "mp3"@
    ||| e == "wav"@
    ||| e == "flac"@
    ||| e == "ogg"@
    ||| e == "oga"@
    ||| e == "m4a"@
    ||| e == "aac"@
    ||| e == "aiff"@
    ||| e == "aif"@
    ||| e == "wma"@
    ||| e == "opus"@
    ||| e == "mid"@
    ||| e == "midi"@
}

fn is_audio_ext(e: &Vec<char>) -> (r: bool)
    ensures
        r == audio_ext(e@),
{
    is_text(e, "mp3")
        || is_text(e, "wav")
        || is_text(e, "flac")
        || is_text(e, "ogg")
        || is_text(e, "oga")
        || is_text(e, "m4a")
        || is_text(e, "aac")
        || is_text(e, "aiff")
        || is_text(e, "aif")
        || is_text(e, "wma")
        || is_text(e, "opus")
        || is_text(e, "mid")
        || is_text(e, "midi")
}

/// Is this, in lower case, the extension of a document?
pub open spec fn document_ext(e: Seq<char>) -> bool {
    ||| e == "pdf"@
    ||| e == "doc"@
    ||| e == "docx"@
    ||| e == "txt"@
    ||| e == "md"@
    ||| e == "rtf"@
    ||| e == "odt"@
    ||| e == "xls"@
    ||| e == "xlsx"@
    ||| e == "ods"@
    ||| e == "ppt"@
    ||| e == "pptx"@
    ||| e == "odp"@
    ||| e == "csv"@
    ||| e == "pages"@
    ||| e == "numbers"@
    ||| e == "key"@
    ||| e == "epub"@
    ||| e == "mobi"@
}

fn is_document_ext(e: &Vec<char>) -> (r: bool)
    ensures
        r == document_ext(e@),
{
    is_text(e, "pdf")
        || is_text(e, "doc")
        || is_text(e, "docx")
        || is_text(e, "txt")
        || is_text(e, "md")
        || is_text(e, "rtf")
        || is_text(e, "odt")
        || is_text(e, "xls")
        || is_text(e, "xlsx")
        || is_text(e, "ods")
        || is_text(e, "ppt")
        || is_text(e, "pptx")
        || is_text(e, "odp")
        || is_text(e, "csv")
        || is_text(e, "pages")
        || is_text(e, "numbers")
        || is_text(e, "key")
        || is_text(e, "epub")
        || is_text(e, "mobi")
}

/// Is this, in lower case, the extension of an archive?
pub open spec fn archive_ext(e: Seq<char>) -> bool {
    ||| e == "zip"@
    ||| e == "tar"@
    ||| e == "gz"@
    ||| e == "tgz"@
    ||| e == "bz2"@
    ||| e == "xz"@
    ||| e == "zst"@
    ||| e == "7z"@
    ||| e == "rar"@
    ||| e == "dmg"@
    ||| e == "iso"@
    ||| e == "jar"@
    ||| e == "war"@
}

fn is_archive_ext(e: &Vec<char>) -> (r: bool)
    ensures
        r == archive_ext(e@),
{
    is_text(e, "zip")
        || is_text(e, "tar")
        || is_text(e, "gz")
        || is_text(e, "tgz")
        || is_text(e, "bz2")
        || is_text(e, "xz")
        || is_text(e, "zst")
        || is_text(e, "7z")
        || is_text(e, "rar")
        || is_text(e, "dmg")
        || is_text(e, "iso")
        || is_text(e, "jar")
        || is_text(e, "war")
}

/// Is this, in lower case, the extension of source code or data for programs?
pub open spec fn code_ext(e: Seq<char>) -> bool {
    ||| e == "rs"@
    ||| e == "js"@
    ||| e == "mjs"@
    ||| e == "cjs"@
    ||| e == "jsx"@
    ||| e == "tsx"@
    ||| e == "py"@
    ||| e == "rb"@
    ||| e == "go"@
    ||| e == "java"@
    ||| e == "c"@
    ||| e == "h"@
    ||| e == "cpp"@
    ||| e == "hpp"@
    ||| e == "cc"@
    ||| e == "cs"@
    ||| e == "swift"@
    ||| e == "kt"@
    ||| e == "kts"@
    ||| e == "php"@
    ||| e == "html"@
    ||| e == "htm"@
    ||| e == "css"@
    ||| e == "scss"@
    ||| e == "less"@
    ||| e == "json"@
    ||| e == "yaml"@
    ||| e == "yml"@
    ||| e == "toml"@
    ||| e == "xml"@
    ||| e == "sh"@
    ||| e == "bash"@
    ||| e == "zsh"@
    ||| e == "sql"@
    ||| e == "lua"@
    ||| e == "pl"@
    ||| e == "r"@
    ||| e == "m"@
    ||| e == "vue"@
    ||| e == "svelte"@
    ||| e == "ipynb"@
    ||| e == "lock"@
}

fn is_code_ext(e: &Vec<char>) -> (r: bool)
    ensures
        r == code_ext(e@),
{
    is_text(e, "rs")
        || is_text(e, "js")
        || is_text(e, "mjs")
        || is_text(e, "cjs")
        || is_text(e, "jsx")
        || is_text(e, "tsx")
        || is_text(e, "py")
        || is_text(e, "rb")
        || is_text(e, "go")
        || is_text(e, "java")
        || is_text(e, "c")
        || is_text(e, "h")
        || is_text(e, "cpp")
        || is_text(e, "hpp")
        || is_text(e, "cc")
        || is_text(e, "cs")
        || is_text(e, "swift")
        || is_text(e, "kt")
        || is_text(e, "kts")
        || is_text(e, "php")
        || is_text(e, "html")
        || is_text(e, "htm")
        || is_text(e, "css")
        || is_text(e, "scss")
        || is_text(e, "less")
        || is_text(e, "json")
        || is_text(e, "yaml")
        || is_text(e, "yml")
        || is_text(e, "toml")
        || is_text(e, "xml")
        || is_text(e, "sh")
        || is_text(e, "bash")
        || is_text(e, "zsh")
        || is_text(e, "sql")
        || is_text(e, "lua")
        || is_text(e, "pl")
        || is_text(e, "r")
        || is_text(e, "m")
        || is_text(e, "vue")
        || is_text(e, "svelte")
        || is_text(e, "ipynb")
        || is_text(e, "lock")
}

impl FileKind {
    pub const ALL: [FileKind; 8] = [
        FileKind::All,
        FileKind::Image,
        FileKind::Video,
        FileKind::Audio,
        FileKind::Document,
        FileKind::Archive,
        FileKind::Code,
        FileKind::Other,
    ];

    /// The kind that a text in lower case names.
    pub open spec fn named(s: Seq<char>) -> Option<FileKind> {
        if s == ""@ || s == "all"@ {
            Some(FileKind::All)
        } else if s == "image"@ || s == "images"@ {
            Some(FileKind::Image)
        } else if s == "video"@ {
            Some(FileKind::Video)
        } else if s == "audio"@ {
            Some(FileKind::Audio)
        } else if s == "document"@ || s == "documents"@ {
            Some(FileKind::Document)
        } else if s == "archive"@ || s == "archives"@ {
            Some(FileKind::Archive)
        } else if s == "code"@ {
            Some(FileKind::Code)
        } else if s == "other"@ {
            Some(FileKind::Other)
        } else {
            None
        }
    }

    pub open spec fn label_text(self) -> Seq<char> {
        match self {
            FileKind::All => "all types"@,
            FileKind::Image => "images"@,
            FileKind::Video => "video"@,
            FileKind::Audio => "audio"@,
            FileKind::Document => "documents"@,
            FileKind::Archive => "archives"@,
            FileKind::Code => "code"@,
            FileKind::Other => "other"@,
        }
    }

    pub open spec fn successor(self) -> FileKind {
        match self {
            FileKind::All => FileKind::Image,
            FileKind::Image => FileKind::Video,
            FileKind::Video => FileKind::Audio,
            FileKind::Audio => FileKind::Document,
            FileKind::Document => FileKind::Archive,
            FileKind::Archive => FileKind::Code,
            FileKind::Code => FileKind::Other,
            FileKind::Other => FileKind::All,
        }
    }

    /// The kind of files with this extension, in lower case.
    pub open spec fn with_extension(e: Seq<char>) -> FileKind {
        if image_ext(e) {
            FileKind::Image
        } else if video_ext(e) {
            FileKind::Video
        } else if audio_ext(e) {
            FileKind::Audio
        } else if document_ext(e) {
            FileKind::Document
        } else if archive_ext(e) {
            FileKind::Archive
        } else if code_ext(e) {
            FileKind::Code
        } else {
            FileKind::Other
        }
    }

    pub open spec fn holding(path: Seq<char>) -> FileKind {
        match extension_of(path) {
            Some(e) => FileKind::with_extension(lower_text(e)),
            None => FileKind::Other,
        }
    }

    pub open spec fn admits(self, path: Seq<char>) -> bool {
        self == FileKind::All || FileKind::holding(path) == self
    }

    pub fn parse(s: &str) -> (r: Option<FileKind>)
        ensures
            r == FileKind::named(lower_text(trim(s@))),
    {
        let t = lower_chars(&trim_chars(&chars_of(s)));
        if is_text(&t, "") || is_text(&t, "all") {
            Some(FileKind::All)
        } else if is_text(&t, "image") || is_text(&t, "images") {
            Some(FileKind::Image)
        } else if is_text(&t, "video") {
            Some(FileKind::Video)
        } else if is_text(&t, "audio") {
            Some(FileKind::Audio)
        } else if is_text(&t, "document") || is_text(&t, "documents") {
            Some(FileKind::Document)
        } else if is_text(&t, "archive") || is_text(&t, "archives") {
            Some(FileKind::Archive)
        } else if is_text(&t, "code") {
            Some(FileKind::Code)
        } else if is_text(&t, "other") {
            Some(FileKind::Other)
        } else {
            None
        }
    }

    pub fn label(&self) -> (r: &'static str)
        ensures
            r@ == self.label_text(),
    {
        match self {
            FileKind::All => "all types",
            FileKind::Image => "images",
            FileKind::Video => "video",
            FileKind::Audio => "audio",
            FileKind::Document => "documents",
            FileKind::Archive => "archives",
            FileKind::Code => "code",
            FileKind::Other => "other",
        }
    }

    pub fn next(&self) -> (r: FileKind)
        ensures
            r == self.successor(),
    {
        match self {
            FileKind::All => FileKind::Image,
            FileKind::Image => FileKind::Video,
            FileKind::Video => FileKind::Audio,
            FileKind::Audio => FileKind::Document,
            FileKind::Document => FileKind::Archive,
            FileKind::Archive => FileKind::Code,
            FileKind::Code => FileKind::Other,
            FileKind::Other => FileKind::All,
        }
    }

    /// Classify a file by extension (never `All`).
    pub fn of(path: &str) -> (r: FileKind)
        ensures
            r == FileKind::holding(path@),
            r != FileKind::All,
    {
        match extension_chars(path) {
            Some(ext) => {
                let e = lower_chars(&ext);
                if is_image_ext(&e) {
                    FileKind::Image
                } else if is_video_ext(&e) {
                    FileKind::Video
                } else if is_audio_ext(&e) {
                    FileKind::Audio
                } else if is_document_ext(&e) {
                    FileKind::Document
                } else if is_archive_ext(&e) {
                    FileKind::Archive
                } else if is_code_ext(&e) {
                    FileKind::Code
                } else {
                    FileKind::Other
                }
            },
            None => FileKind::Other,
        }
    }

    pub fn matches(&self, path: &str) -> (r: bool)
        ensures
            r == self.admits(path@),
    {
        *self == FileKind::All || FileKind::of(path) == *self
    }
}

/// Going on from kind to kind comes back after eight steps, and not before.
pub proof fn kinds_cycle(k: FileKind)
    ensures
        k.successor().successor().successor().successor().successor().successor().successor().successor() == k,
        k.successor() != k,
        k.successor().successor() != k,
        k.successor().successor().successor().successor() != k,
{
}

/// The filter all front ends apply to the list of groups.
#[derive(Debug, PartialEq, Eq)]
pub struct GroupFilter {
    /// Case-insensitive substring of any file path in the group.
    pub path: String,
    pub size: SizeBucket,
    pub kind: FileKind,
}

impl Clone for GroupFilter {
    fn clone(&self) -> (r: GroupFilter)
        ensures
            r == *self,
    {
        GroupFilter { path: self.path.clone(), size: self.size, kind: self.kind }
    }
}

impl Default for GroupFilter {
    fn default() -> (r: GroupFilter)
        ensures
            r.path@ == ""@,
            r.size == SizeBucket::All,
            r.kind == FileKind::All,
    {
        GroupFilter { path: "".to_owned(), size: SizeBucket::All, kind: FileKind::All }
    }
}

/// Does one file pass, where `needle` and `lowered` are the text looked for
/// and the file's path in lower case?
pub open spec fn file_passes(kind: FileKind, needle: Seq<char>, lowered: Seq<char>, path: Seq<char>) -> bool {
    (needle.len() == 0 || contains_text(lowered, needle)) && kind.admits(path)
}

/// What a `GroupFilter` says.
pub struct FilterView {
    pub path: Seq<char>,
    pub size: SizeBucket,
    pub kind: FileKind,
}

impl View for GroupFilter {
    type V = FilterView;

    open spec fn view(&self) -> FilterView {
        FilterView { path: self.path@, size: self.size, kind: self.kind }
    }
}

impl FilterView {
    pub open spec fn active(self) -> bool {
        trim(self.path).len() > 0 || self.size != SizeBucket::All || self.kind != FileKind::All
    }

    /// A group passes when its size is in the bucket and at least one of its
    /// files matches both the path substring and the type.
    pub open spec fn passes(self, g: GroupView) -> bool {
        self.size.admits(g.file_size()) && exists|i: int|
            0 <= i < g.files.len() && file_passes(
                self.kind,
                unicode_lower(trim(self.path)),
                unicode_lower(g.files[i].path),
                (#[trigger] g.files[i]).path,
            )
    }

    /// The groups among the first `n` that pass.
    pub open spec fn passing(self, groups: Seq<GroupView>, n: nat) -> Seq<usize>
        decreases n,
    {
        if n == 0 {
            seq![]
        } else {
            let head = self.passing(groups, (n - 1) as nat);
            if self.active() ==> self.passes(groups[n - 1]) {
                head.push((n - 1) as usize)
            } else {
                head
            }
        }
    }

    /// The parts of the filter that say anything, in words.
    pub open spec fn parts(self) -> Seq<Seq<char>> {
        let p = if trim(self.path).len() > 0 {
            seq!["path contains \""@ + trim(self.path) + "\""@]
        } else {
            seq![]
        };
        let s = if self.size != SizeBucket::All {
            seq![self.size.label_text()]
        } else {
            seq![]
        };
        let k = if self.kind != FileKind::All {
            seq![self.kind.label_text()]
        } else {
            seq![]
        };
        p + s + k
    }

    pub open spec fn description(self) -> Seq<char> {
        if self.parts().len() == 0 {
            "no filter"@
        } else {
            joined(self.parts(), ", "@)
        }
    }
}

impl GroupFilter {
    pub fn is_active(&self) -> (r: bool)
        ensures
            r == self@.active(),
    {
        trim_chars(&chars_of(self.path.as_str())).len() > 0 || self.size != SizeBucket::All || self.kind
            != FileKind::All
    }

    /// Does the group pass, where `needle` is the text looked for and
    /// `lowered` are the paths of its files, all in lower case?
    pub fn matches_lowered(&self, group: &DuplicateGroup, needle: &str, lowered: &Vec<String>) -> (r: bool)
        requires
            lowered@.len() == group@.files.len(),
        ensures
            r == (self.size.admits(group@.file_size()) && exists|i: int|
                0 <= i < group@.files.len() && file_passes(
                    self.kind,
                    needle@,
                    lowered@[i]@,
                    (#[trigger] group@.files[i]).path,
                )),
    {
        if !self.size.matches(group.file_size()) {
            return false;
        }
        let empty = chars_of(needle).len() == 0;
        let n = group.files.len();
        for i in 0..n
            invariant
                n == group.files@.len(),
                n == lowered@.len(),
                empty == (needle@.len() == 0),
                self.size.admits(group@.file_size()),
                forall|k: int|
                    0 <= k < i ==> !file_passes(
                        self.kind,
                        needle@,
                        lowered@[k]@,
                        (#[trigger] group@.files[k]).path,
                    ),
        {
            assert(group@.files[i as int] == group.files@[i as int]@);
            let path_ok = empty || contains(&chars_of(lowered[i].as_str()), needle);
            if path_ok && self.kind.matches(group.files[i].path.as_str()) {
                return true;
            }
        }
        false
    }

    /// A group matches when its size is in the bucket and at least one of
    /// its files matches both the path substring and the type.
    pub fn matches(&self, group: &DuplicateGroup) -> (r: bool)
        ensures
            r == self@.passes(group@),
    {
        let needle = to_lowercase(trimmed(self.path.as_str()).as_str());
        let mut lowered: Vec<String> = Vec::new();
        let n = group.files.len();
        for i in 0..n
            invariant
                n == group.files@.len(),
                lowered@.len() == i,
                forall|k: int| 0 <= k < i ==> (#[trigger] lowered@[k])@ == unicode_lower(group@.files[k].path),
        {
            assert(group@.files[i as int] == group.files@[i as int]@);
            lowered.push(to_lowercase(group.files[i].path.as_str()));
        }
        let r = self.matches_lowered(group, needle.as_str(), &lowered);
        proof {
            let g = group@;
            if r {
                let i = choose|i: int|
                    0 <= i < g.files.len() && file_passes(
                        self.kind,
                        needle@,
                        lowered@[i]@,
                        (#[trigger] g.files[i]).path,
                    );
                assert(lowered@[i]@ == unicode_lower(g.files[i].path));
            }
            if self@.passes(g) {
                let i = choose|i: int|
                    0 <= i < g.files.len() && file_passes(
                        self.kind,
                        unicode_lower(trim(self.path@)),
                        unicode_lower(g.files[i].path),
                        (#[trigger] g.files[i]).path,
                    );
                assert(lowered@[i]@ == unicode_lower(g.files[i].path));
            }
        }
        r
    }

    /// Indices of the groups that pass the filter, in the original order.
    pub fn apply(&self, groups: &Vec<DuplicateGroup>) -> (r: Vec<usize>)
        ensures
            r@ == self@.passing(group_views(groups@), groups@.len()),
    {
        let active = self.is_active();
        let mut out: Vec<usize> = Vec::new();
        let n = groups.len();
        for i in 0..n
            invariant
                n == groups@.len(),
                active == self@.active(),
                out@ == self@.passing(group_views(groups@), i as nat),
        {
            assert(group_views(groups@)[i as int] == groups@[i as int]@);
            if !active || self.matches(&groups[i]) {
                out.push(i);
            }
        }
        out
    }

    pub fn describe(&self) -> (r: String)
        ensures
            r@ == self@.description(),
    {
        let mut parts: Vec<String> = Vec::new();
        let text = trimmed(self.path.as_str());
        if chars_of(text.as_str()).len() > 0 {
            let mut p = String::new();
            p.append("path contains \"");
            p.append(text.as_str());
            p.append("\"");
            assert(p@ =~= "path contains \""@ + text@ + "\""@);
            parts.push(p);
        }
        if self.size != SizeBucket::All {
            parts.push(self.size.label().to_owned());
        }
        if self.kind != FileKind::All {
            parts.push(self.kind.label().to_owned());
        }
        assert(views(parts@) =~= self@.parts());
        if parts.len() == 0 {
            "no filter".to_owned()
        } else {
            join(&parts, ", ")
        }
    }
}

/// The filter picks exactly the groups that pass, in their order, each once,
/// and with no filter every group.
pub proof fn filtering_keeps_order(f: FilterView, groups: Seq<GroupView>, n: nat)
    requires
        n <= groups.len() <= usize::MAX,
    ensures
        f.passing(groups, n).len() <= n,
        !f.active() ==> f.passing(groups, n).len() == n,
        forall|i: int|
            0 <= i < n ==> (#[trigger] f.passing(groups, n).contains(i as usize) <==> (f.active() ==> f.passes(
                groups[i],
            ))),
        forall|k: int| 0 <= k < f.passing(groups, n).len() ==> (#[trigger] f.passing(groups, n)[k]) < n,
        forall|j: int, k: int|
            0 <= j < k < f.passing(groups, n).len() ==> (#[trigger] f.passing(groups, n)[j]) < (
            #[trigger] f.passing(groups, n)[k]),
    decreases n,
{
    if n > 0 {
        filtering_keeps_order(f, groups, (n - 1) as nat);
        let head = f.passing(groups, (n - 1) as nat);
        let all = f.passing(groups, n);
        assert forall|i: int| 0 <= i < n implies (#[trigger] all.contains(i as usize) <==> (f.active()
            ==> f.passes(groups[i]))) by {
            if i < n - 1 {
                if head.contains(i as usize) {
                    let k = choose|k: int| 0 <= k < head.len() && head[k] == i as usize;
                    assert(all[k] == i as usize);
                }
                if all.contains(i as usize) {
                    let k = choose|k: int| 0 <= k < all.len() && all[k] == i as usize;
                    assert(k < head.len());
                    assert(head[k] == i as usize);
                }
            } else {
                if f.active() ==> f.passes(groups[i]) {
                    assert(all[all.len() - 1] == i as usize);
                } else if all.contains(i as usize) {
                    let k = choose|k: int| 0 <= k < all.len() && all[k] == i as usize;
                    assert(head[k] < n - 1);
                }
            }
        }
    }
}

/// The extensions of each kind, in small letters; whatever is not among
/// them is of another kind.
pub proof fn kinds_go_by_extension(e: Seq<char>)
    ensures
        FileKind::with_extension(e) == if e == "jpg"@ || e == "jpeg"@ || e == "png"@ || e == "gif"@ || e == "bmp"@ || e == "webp"@ ||
            e == "heic"@ || e == "heif"@ || e == "tif"@ || e == "tiff"@ || e == "svg"@ || e == "ico"@ ||
            e == "avif"@ || e == "raw"@ || e == "cr2"@ || e == "nef"@ || e == "arw"@ || e == "dng"@ ||
            e == "psd"@ {
            FileKind::Image
        } else if e == "mp4"@ || e == "mov"@ || e == "avi"@ || e == "mkv"@ || e == "webm"@ || e == "wmv"@ ||
            e == "flv"@ || e == "m4v"@ || e == "mpg"@ || e == "mpeg"@ || e == "3gp"@ || e == "ts"@ {
            FileKind::Video
        } else if e == "mp3"@ || e == "wav"@ || e == "flac"@ || e == "ogg"@ || e == "oga"@ || e == "m4a"@ ||
            e == "aac"@ || e == "aiff"@ || e == "aif"@ || e == "wma"@ || e == "opus"@ || e == "mid"@ ||
            e == "midi"@ {
            FileKind::Audio
        } else if e == "pdf"@ || e == "doc"@ || e == "docx"@ || e == "txt"@ || e == "md"@ || e == "rtf"@ ||
            e == "odt"@ || e == "xls"@ || e == "xlsx"@ || e == "ods"@ || e == "ppt"@ || e == "pptx"@ ||
            e == "odp"@ || e == "csv"@ || e == "pages"@ || e == "numbers"@ || e == "key"@ ||
            e == "epub"@ || e == "mobi"@ {
            FileKind::Document
        } else if e == "zip"@ || e == "tar"@ || e == "gz"@ || e == "tgz"@ || e == "bz2"@ || e == "xz"@ ||
            e == "zst"@ || e == "7z"@ || e == "rar"@ || e == "dmg"@ || e == "iso"@ || e == "jar"@ ||
            e == "war"@ {
            FileKind::Archive
        } else if e == "rs"@ || e == "js"@ || e == "mjs"@ || e == "cjs"@ || e == "jsx"@ || e == "tsx"@ ||
            e == "py"@ || e == "rb"@ || e == "go"@ || e == "java"@ || e == "c"@ || e == "h"@ ||
            e == "cpp"@ || e == "hpp"@ || e == "cc"@ || e == "cs"@ || e == "swift"@ || e == "kt"@ ||
            e == "kts"@ || e == "php"@ || e == "html"@ || e == "htm"@ || e == "css"@ || e == "scss"@ ||
            e == "less"@ || e == "json"@ || e == "yaml"@ || e == "yml"@ || e == "toml"@ || e == "xml"@ ||
            e == "sh"@ || e == "bash"@ || e == "zsh"@ || e == "sql"@ || e == "lua"@ || e == "pl"@ ||
            e == "r"@ || e == "m"@ || e == "vue"@ || e == "svelte"@ || e == "ipynb"@ || e == "lock"@ {
            FileKind::Code
        } else {
            FileKind::Other
        },
{
}

/// A file is of the kind of its extension, whatever the case of the ASCII
/// letters, and one without an extension is of another kind.
pub proof fn files_are_of_their_extensions_kind(dir: Seq<char>, stem: Seq<char>, ext: Seq<char>)
    requires
        is_plain_name(stem + "."@ + ext),
        !ext.contains('.'),
        stem.len() > 0,
    ensures
        FileKind::holding(join_of(dir, stem + "."@ + ext)) == FileKind::with_extension(lower_text(ext)),
        is_plain_name(ext) ==> FileKind::holding(join_of(dir, ext)) == FileKind::Other,
        FileKind::All.admits(join_of(dir, stem + "."@ + ext)),
        forall|k: FileKind|
            k != FileKind::All ==> (#[trigger] k.admits(join_of(dir, stem + "."@ + ext)) <==> k
                == FileKind::with_extension(lower_text(ext))),
{
    extensions_follow_the_last_dot(dir, stem, ext);
}

/// The buckets meet at 10 KiB, 1 MiB and 100 MiB, each limit belonging to
/// the larger one.
pub proof fn buckets_have_their_limits(size: u64)
    ensures
        SizeBucket::All.admits(size),
        SizeBucket::Tiny.admits(size) <==> size < 10240,
        SizeBucket::Small.admits(size) <==> 10240 <= size < 1048576,
        SizeBucket::Medium.admits(size) <==> 1048576 <= size < 104857600,
        SizeBucket::Large.admits(size) <==> 104857600 <= size,
        SizeBucket::holding(size).admits(size),
        SizeBucket::holding(size) != SizeBucket::All,
{
}

/// Going on from a bucket leads to larger sizes, until all are shown again.
pub proof fn the_next_bucket_is_larger(b: SizeBucket, s: u64, t: u64)
    requires
        b != SizeBucket::All,
        b != SizeBucket::Large,
        b.admits(s),
        b.successor().admits(t),
    ensures
        s < t,
        SizeBucket::Large.successor() == SizeBucket::All,
        SizeBucket::All.successor() == SizeBucket::Tiny,
{
}

/// The kinds follow one another as they are listed.
pub proof fn kinds_follow_their_list()
    ensures
        FileKind::All.successor() == FileKind::Image,
        FileKind::Image.successor() == FileKind::Video,
        FileKind::Video.successor() == FileKind::Audio,
        FileKind::Audio.successor() == FileKind::Document,
        FileKind::Document.successor() == FileKind::Archive,
        FileKind::Archive.successor() == FileKind::Code,
        FileKind::Code.successor() == FileKind::Other,
        FileKind::Other.successor() == FileKind::All,
{
}

/// The words that name a bucket; an empty text names all of them, and any
/// other word none.
pub proof fn buckets_are_named(s: Seq<char>)
    ensures
        SizeBucket::named(s) == Some(SizeBucket::All) <==> s.len() == 0 || s == "all"@,
        SizeBucket::named(s) == Some(SizeBucket::Tiny) <==> s == "tiny"@,
        SizeBucket::named(s) == Some(SizeBucket::Small) <==> s == "small"@,
        SizeBucket::named(s) == Some(SizeBucket::Medium) <==> s == "medium"@,
        SizeBucket::named(s) == Some(SizeBucket::Large) <==> s == "large"@,
        SizeBucket::All.label_text() == "all sizes"@,
        SizeBucket::Tiny.label_text() == "tiny (under 10 KiB)"@,
        SizeBucket::Small.label_text() == "small (10 KiB to 1 MiB)"@,
        SizeBucket::Medium.label_text() == "medium (1 MiB to 100 MiB)"@,
        SizeBucket::Large.label_text() == "large (100 MiB and up)"@,
{
    reveal_strlit("");
    reveal_strlit("all");
    reveal_strlit("tiny");
    reveal_strlit("small");
    reveal_strlit("medium");
    reveal_strlit("large");
    assert(s.len() == 0 ==> s == ""@);
    assert("small"@[0] == 's' && "large"@[0] == 'l');
}

/// The words that name a kind; an empty text names all of them, and any
/// other word none.
pub proof fn kinds_are_named(s: Seq<char>)
    ensures
        FileKind::named(s) == Some(FileKind::All) <==> s.len() == 0 || s == "all"@,
        FileKind::named(s) == Some(FileKind::Image) <==> s == "image"@ || s == "images"@,
        FileKind::named(s) == Some(FileKind::Video) <==> s == "video"@,
        FileKind::named(s) == Some(FileKind::Audio) <==> s == "audio"@,
        FileKind::named(s) == Some(FileKind::Document) <==> s == "document"@ || s == "documents"@,
        FileKind::named(s) == Some(FileKind::Archive) <==> s == "archive"@ || s == "archives"@,
        FileKind::named(s) == Some(FileKind::Code) <==> s == "code"@,
        FileKind::named(s) == Some(FileKind::Other) <==> s == "other"@,
        FileKind::All.label_text() == "all types"@,
        FileKind::Image.label_text() == "images"@,
        FileKind::Video.label_text() == "video"@,
        FileKind::Audio.label_text() == "audio"@,
        FileKind::Document.label_text() == "documents"@,
        FileKind::Archive.label_text() == "archives"@,
        FileKind::Code.label_text() == "code"@,
        FileKind::Other.label_text() == "other"@,
{
    reveal_strlit("");
    reveal_strlit("all");
    reveal_strlit("image");
    reveal_strlit("images");
    reveal_strlit("video");
    reveal_strlit("audio");
    reveal_strlit("document");
    reveal_strlit("documents");
    reveal_strlit("archive");
    reveal_strlit("archives");
    reveal_strlit("code");
    reveal_strlit("other");
    assert(s.len() == 0 ==> s == ""@);
    assert("image"@[0] == 'i' && "images"@[0] == 'i' && "video"@[0] == 'v' && "audio"@[0] == 'a');
    assert("document"@[0] == 'd' && "documents"@[0] == 'd' && "archive"@[0] == 'a' && "archives"@[0] == 'a');
    assert("code"@[0] == 'c' && "other"@[0] == 'o');
}

/// A group passes where its file size is in the bucket and one of its files
/// has both the text in its path and the kind; a filter that asks for
/// nothing is not active.
pub proof fn one_file_lets_its_group_pass(f: FilterView, g: GroupView)
    ensures
        f.passes(g) <==> (f.size == SizeBucket::All || f.size == SizeBucket::holding(
            (if g.files.len() == 0 {
                0u64
            } else {
                g.files[0].size
            }),
        )) && exists|i: int|
            0 <= i < g.files.len() && (unicode_lower(trim(f.path)).len() == 0 || contains_text(
                unicode_lower(g.files[i].path),
                unicode_lower(trim(f.path)),
            )) && (f.kind == FileKind::All || f.kind == FileKind::holding((#[trigger] g.files[i]).path)),
        !f.active() <==> trim(f.path).len() == 0 && f.size == SizeBucket::All && f.kind == FileKind::All,
{
    if f.passes(g) {
        let i = choose|i: int|
            0 <= i < g.files.len() && file_passes(
                f.kind,
                unicode_lower(trim(f.path)),
                unicode_lower(g.files[i].path),
                (#[trigger] g.files[i]).path,
            );
        assert(0 <= i < g.files.len());
        assert(f.kind.admits(g.files[i].path));
    }
}

/// Asking for less lets more through.
pub proof fn wider_filters_pass_more(f: FilterView, g: GroupView)
    requires
        f.passes(g),
    ensures
        (FilterView { size: SizeBucket::All, ..f }).passes(g),
        (FilterView { kind: FileKind::All, ..f }).passes(g),
{
    let i = choose|i: int|
        0 <= i < g.files.len() && file_passes(
            f.kind,
            unicode_lower(trim(f.path)),
            unicode_lower(g.files[i].path),
            (#[trigger] g.files[i]).path,
        );
    let any = FilterView { kind: FileKind::All, ..f };
    assert(file_passes(
        any.kind,
        unicode_lower(trim(any.path)),
        unicode_lower(g.files[i].path),
        g.files[i].path,
    ));
    assert((FilterView { size: SizeBucket::All, ..f }).passes(g));
}

/// What a filter asks for is told in the order path, size, type, and a
/// filter that asks for nothing is told as such.
pub proof fn descriptions_name_what_is_asked(f: FilterView)
    ensures
        !f.active() ==> f.description() == "no filter"@,
        trim(f.path).len() > 0 && f.size == SizeBucket::All && f.kind == FileKind::All ==> f.description()
            == "path contains \""@ + trim(f.path) + "\""@,
        trim(f.path).len() == 0 && f.size != SizeBucket::All && f.kind == FileKind::All ==> f.description()
            == f.size.label_text(),
        trim(f.path).len() == 0 && f.size == SizeBucket::All && f.kind != FileKind::All ==> f.description()
            == f.kind.label_text(),
        trim(f.path).len() == 0 && f.size != SizeBucket::All && f.kind != FileKind::All ==> f.description()
            == f.size.label_text() + ", "@ + f.kind.label_text(),
        trim(f.path).len() > 0 && f.size != SizeBucket::All && f.kind != FileKind::All ==> f.description()
            == "path contains \""@ + trim(f.path) + "\", "@ + f.size.label_text() + ", "@ + f.kind.label_text(),
{
    reveal_strlit("\"");
    reveal_strlit("\", ");
    reveal_strlit(", ");
    reveal_with_fuel(joined, 4);
    let none = Seq::<Seq<char>>::empty();
    let p = "path contains \""@ + trim(f.path) + "\""@;
    let s = f.size.label_text();
    let k = f.kind.label_text();
    let ps = if trim(f.path).len() > 0 {
        seq![p]
    } else {
        none
    };
    let ss = if f.size != SizeBucket::All {
        seq![s]
    } else {
        none
    };
    let ks = if f.kind != FileKind::All {
        seq![k]
    } else {
        none
    };
    assert(f.parts() == ps + ss + ks);
    assert(none + none + none == none);
    assert(seq![p] + none + none == seq![p]);
    assert(none + seq![s] + none == seq![s]);
    assert(none + none + seq![k] == seq![k]);
    assert(none + seq![s] + seq![k] == seq![s, k]);
    assert(seq![s, k].drop_last() == seq![s]);
    assert(seq![p] + seq![s] + seq![k] == seq![p, s, k]);
    assert(seq![p, s, k].drop_last() == seq![p, s]);
    assert(seq![p, s].drop_last() == seq![p]);
    assert("\""@ + ", "@ == "\", "@);
    assert("path contains \""@ + trim(f.path) + "\""@ + ", "@ + s + ", "@ + k == "path contains \""@ + trim(
        f.path,
    ) + "\", "@ + s + ", "@ + k);
}

} // verus!
