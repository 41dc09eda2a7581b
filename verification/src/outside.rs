//! What the crate takes from other crates and from the standard library on
//! trust: each item below states what its outside function does, and nothing
//! here is proved.

use vstd::prelude::*;
use sha2::Digest;

verus! {

// ----- SHA-256 (sha2) ------------------------------------------------------

/// A running SHA-256 computation: `sha2::Sha256`, which takes data in pieces
/// and keeps no more than its internal state.
#[verifier::external_body]
pub struct Sha256Stream {
    inner: sha2::Sha256,
}

/// The data a running computation has taken in so far, in order.
pub uninterp spec fn absorbed(d: Sha256Stream) -> Seq<u8>;

/// The SHA-256 digest of `data`, as 64 lower-case hexadecimal digits.
pub uninterp spec fn sha256_hex(data: Seq<u8>) -> Seq<char>;

impl Sha256Stream {
    /// `sha2::Sha256::new`: a computation that has taken in nothing.
    #[verifier::external_body]
    pub(crate) fn start() -> (r: Sha256Stream)
        ensures
            absorbed(r) == Seq::<u8>::empty(),
    {
        Sha256Stream { inner: sha2::Sha256::new() }
    }

    /// `sha2::Digest::update`: takes in `data` after what came before it.
    #[verifier::external_body]
    pub(crate) fn absorb(&mut self, data: &[u8])
        ensures
            absorbed(*final(self)) == absorbed(*old(self)) + data@,
    {
        self.inner.update(data)
    }

    /// `sha2::Digest::finalize`, written out with `{:x}`: the digest of all
    /// that was taken in, two digits for each of its 32 bytes.
    #[verifier::external_body]
    pub(crate) fn hex(self) -> (r: String)
        ensures
            r@ == sha256_hex(absorbed(self)),
            r@.len() == 64,
    {
        format!("{:x}", self.inner.finalize())
    }
}

// ----- MD5 (md5) -----------------------------------------------------------

/// The MD5 digest of `data`, in lower-case hexadecimal.
pub uninterp spec fn md5_hex_of(data: Seq<u8>) -> Seq<char>;

/// `md5::compute`, written out with `{:x}`.
#[verifier::external_body]
pub(crate) fn md5_hex(data: &[u8]) -> (r: String)
    ensures
        r@ == md5_hex_of(data@),
{
    format!("{:x}", md5::compute(data))
}

// ----- glob patterns (glob) ------------------------------------------------

#[verifier::external_type_specification]
#[verifier::external_body]
pub struct ExPattern(glob::Pattern);

#[verifier::external_type_specification]
#[verifier::external_body]
pub struct ExPatternError(glob::PatternError);

/// The text a pattern was compiled from; `glob::Pattern::as_str` gives it.
pub uninterp spec fn pattern_text(p: glob::Pattern) -> Seq<char>;

/// Is this text a well-formed pattern?
pub uninterp spec fn glob_accepts(pattern: Seq<char>) -> bool;

/// Does the whole text match the pattern, under the default options (case
/// counts, and wildcards cross slashes and leading dots)?
pub uninterp spec fn glob_match(pattern: Seq<char>, text: Seq<char>) -> bool;

/// A text in which no platform sees another separator than `/`.
pub open spec fn no_backslash(s: Seq<char>) -> bool {
    !s.contains('\\')
}

/// `glob::Pattern::new` compiles a pattern, or tells what is wrong with it.
/// Which patterns are well formed depends on what counts as a separator next
/// to `**`, so nothing is said of a pattern that holds a backslash.
#[verifier::external_body]
pub(crate) fn compile_pattern(pattern: &str) -> (r: Result<glob::Pattern, glob::PatternError>)
    ensures
        no_backslash(pattern@) ==> (r is Ok <==> glob_accepts(pattern@)),
        r is Ok ==> pattern_text(r->Ok_0) == pattern@,
{
    glob::Pattern::new(pattern)
}

/// `glob::Pattern::matches`. As above, nothing is said where the pattern or
/// the text holds a backslash.
#[verifier::external_body]
pub(crate) fn pattern_matches(p: &glob::Pattern, text: &str) -> (r: bool)
    ensures
        no_backslash(pattern_text(*p)) && no_backslash(text@) ==> r == glob_match(
            pattern_text(*p),
            text@,
        ),
{
    p.matches(text)
}

// ----- sizes for people (humansize) ----------------------------------------

/// A number of bytes for people to read, in binary units.
pub uninterp spec fn human_size_of(bytes: u64) -> Seq<char>;

/// `humansize::format_size` with the `BINARY` options.
#[verifier::external_body]
pub(crate) fn human_size(bytes: u64) -> (r: String)
    ensures
        r@ == human_size_of(bytes),
{
    humansize::format_size(bytes, humansize::BINARY)
}

// ----- dates (chrono) ------------------------------------------------------

/// A point in time, in UTC, written by a date format; nothing where the time
/// is out of the calendar's range.
pub uninterp spec fn utc_text_of(secs: i64, nanos: u32, format: Seq<char>) -> Option<Seq<char>>;

/// `chrono::DateTime::format` on the UTC date and time that lies `secs`
/// seconds and `nanos` nanoseconds after the epoch. The format is one that it
/// accepts: it panics on others. The text begins with the year, which is
/// written with a digit or a sign first.
#[verifier::external_body]
pub(crate) fn utc_text(secs: i64, nanos: u32, format: &str) -> (r: Option<String>)
    requires
        format@ == "%Y%m%d_%H%M%S"@ || format@ == "%Y-%m-%d %H:%M:%S"@,
    ensures
        r is Some <==> utc_text_of(secs, nanos, format@) is Some,
        r is Some ==> Some(r->0@) == utc_text_of(secs, nanos, format@),
        r is Some ==> r->0@.len() > 0 && r->0@[0] != '/',
{
    match chrono::DateTime::<chrono::Utc>::from_timestamp(secs, nanos) {
        Some(t) => Some(t.format(format).to_string()),
        None => None,
    }
}

// ----- lower case (std) ----------------------------------------------------

/// The text in lower case, by the rules of Unicode.
pub uninterp spec fn unicode_lower(s: Seq<char>) -> Seq<char>;

/// `str::to_lowercase`. On ASCII text it does what `to_ascii_lowercase` does.
#[verifier::external_body]
pub(crate) fn to_lowercase(s: &str) -> (r: String)
    ensures
        r@ == unicode_lower(s@),
        (forall|i: int| 0 <= i < s@.len() ==> (#[trigger] s@[i] as u32) < 128) ==> r@
            == crate::text::lower_text(s@),
{
    s.to_lowercase()
}

// ----- images (image) ------------------------------------------------------

/// A decoded image.
#[verifier::external_type_specification]
#[verifier::external_body]
pub struct ExDynamicImage(image::DynamicImage);

/// How wide an image is, in pixels.
pub uninterp spec fn image_width_of(img: image::DynamicImage) -> u32;

/// How high an image is, in pixels.
pub uninterp spec fn image_height_of(img: image::DynamicImage) -> u32;

/// An image scaled down, its proportions kept, to fit a width and a height.
pub uninterp spec fn thumbnail_of(img: image::DynamicImage, width: u32, height: u32) -> image::DynamicImage;

/// `image::DynamicImage::width`.
#[verifier::external_body]
pub(crate) fn image_width(img: &image::DynamicImage) -> (r: u32)
    ensures
        r == image_width_of(*img),
{
    img.width()
}

/// `image::DynamicImage::height`.
#[verifier::external_body]
pub(crate) fn image_height(img: &image::DynamicImage) -> (r: u32)
    ensures
        r == image_height_of(*img),
{
    img.height()
}

/// `image::DynamicImage::thumbnail`. The result lies within the bounds, which
/// are small enough for it to be allocated. It averages blocks of pixels: an
/// image that is more than 128 times as large as the bounds is left out, for
/// the sum over such a block could overflow.
#[verifier::external_body]
pub(crate) fn thumbnail(img: &image::DynamicImage, width: u32, height: u32) -> (r: image::DynamicImage)
    requires
        1 <= width <= 4096,
        1 <= height <= 4096,
        image_width_of(*img) <= 128 * width,
        image_height_of(*img) <= 128 * height,
    ensures
        r == thumbnail_of(*img, width, height),
        image_width_of(r) <= width,
        image_height_of(r) <= height,
{
    img.thumbnail(width, height)
}

} // verus!
