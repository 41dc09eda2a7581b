//! Copy-name patterns and the "canonical" name of a duplicate group.
//!
//! Operating systems and browsers decorate copies in predictable ways:
//! `report (1).pdf`, `report copy.pdf`, `report - Copy (2).pdf`,
//! `Copy of report.pdf`, `report_2.pdf`. Stripping those markers from every
//! member of a group yields a base name; the most common base plus the
//! most common extension is the group's canonical name. It is used to
//! recognise copies, to prefer the file that already carries the clean
//! name as the keeper, and to offer a rename when no surviving copy does.
//!
//! Names never decide what is a duplicate. Size and SHA-256 do that; names
//! only decide which copy to keep and what to call it.

use vstd::prelude::*;
use vstd::hash_map::StringHashMap;
use crate::duplicates::{DuplicateGroup, GroupView};
use crate::paths::{
    byte_len, byte_len_of, chars_before, file_name, file_name_of, file_name_or_empty, join, join_of,
    name_or_empty, parent, parent_of, text_before,
};
use crate::scanner::{file_views, FileInfo, FileView};
use crate::text::{
    all_digits, chars_of, contains_text, ends_with, has_prefix, has_suffix, is_digit, is_space,
    last_found, last_of, lemma_last_found, lemma_last_of, lower_chars, lower_text, only_digits,
    rfind, rfind_char, same_chars, slice_of, starts_with, text_of, to_ascii_lowercase, trim,
    trim_chars, trim_end, trim_start, trimmed_end,
};

verus! {

// ----- splitting -----------------------------------------------------------

/// The length of an extension that is really two parts, at the end of a name
/// in lower case that has something before it; nothing otherwise.
pub open spec fn compound_len(lower: Seq<char>) -> nat {
    if ends_longer(lower, ".tar.gz"@) {
        ".tar.gz"@.len()
    } else if ends_longer(lower, ".tar.bz2"@) {
        ".tar.bz2"@.len()
    } else if ends_longer(lower, ".tar.xz"@) {
        ".tar.xz"@.len()
    } else if ends_longer(lower, ".tar.zst"@) {
        ".tar.zst"@.len()
    } else if ends_longer(lower, ".user.js"@) {
        ".user.js"@.len()
    } else if ends_longer(lower, ".d.ts"@) {
        ".d.ts"@.len()
    } else {
        0
    }
}

/// Does `s` end with `p` and hold something before it?
pub open spec fn ends_longer(s: Seq<char>, p: Seq<char>) -> bool {
    has_suffix(s, p) && s.len() > p.len()
}

/// Where the extension of a name begins; its length where it has none.
pub open spec fn split_at(name: Seq<char>) -> int {
    let n = compound_len(lower_text(name)) as int;
    let dot = last_of(name, '.');
    if n > 0 {
        name.len() - n
    } else if 0 < dot < name.len() - 1 {
        dot
    } else {
        name.len() as int
    }
}

pub open spec fn stem_of(name: Seq<char>) -> Seq<char> {
    name.take(split_at(name))
}

pub open spec fn ext_of(name: Seq<char>) -> Seq<char> {
    name.skip(split_at(name))
}

fn ends_with_longer(v: &Vec<char>, p: &str) -> (r: bool)
    ensures
        r == ends_longer(v@, p@),
        r ==> p@.len() <= v@.len(),
{
    ends_with(v, p) && v.len() > chars_of(p).len()
}

fn compound(lower: &Vec<char>) -> (r: usize)
    ensures
        r == compound_len(lower@),
        r <= lower@.len(),
{
    proof {
        reveal_strlit(".tar.gz");
        reveal_strlit(".tar.bz2");
        reveal_strlit(".tar.xz");
        reveal_strlit(".tar.zst");
        reveal_strlit(".user.js");
        reveal_strlit(".d.ts");
    }
    if ends_with_longer(lower, ".tar.gz") {
        7
    } else if ends_with_longer(lower, ".tar.bz2") {
        8
    } else if ends_with_longer(lower, ".tar.xz") {
        7
    } else if ends_with_longer(lower, ".tar.zst") {
        8
    } else if ends_with_longer(lower, ".user.js") {
        8
    } else if ends_with_longer(lower, ".d.ts") {
        5
    } else {
        0
    }
}

fn split_point(v: &Vec<char>) -> (r: usize)
    ensures
        r == split_at(v@),
        r <= v@.len(),
{
    let n = compound(&lower_chars(v));
    if n > 0 {
        return v.len() - n;
    }
    let m = v.len();
    match rfind_char(v, '.') {
        Some(pos) => if pos > 0 && pos < m - 1 {
            pos
        } else {
            m
        },
        None => m,
    }
}

/// Split `report (1).tar.gz` into (`report (1)`, `.tar.gz`). Dotfiles like
/// `.bashrc` have no extension.
pub fn split_name(name: &str) -> (r: (&str, &str))
    ensures
        r.0@ == stem_of(name@),
        r.1@ == ext_of(name@),
{
    let v = chars_of(name);
    let at = split_point(&v);
    let n = v.len();
    assert(name@.subrange(0, at as int) =~= stem_of(name@));
    assert(name@.subrange(at as int, n as int) =~= ext_of(name@));
    (name.substring_char(0, at), name.substring_char(at, n))
}

/// Splitting takes nothing away: stem and extension together are the name,
/// and a name that is not empty keeps a stem.
pub proof fn splitting_keeps_the_name(name: Seq<char>)
    ensures
        stem_of(name) + ext_of(name) == name,
        name.len() > 0 ==> stem_of(name).len() > 0,
{
    reveal_strlit(".tar.gz");
    reveal_strlit(".tar.bz2");
    reveal_strlit(".tar.xz");
    reveal_strlit(".tar.zst");
    reveal_strlit(".user.js");
    reveal_strlit(".d.ts");
    lemma_last_of(name, '.');
    assert(stem_of(name) + ext_of(name) =~= name);
}

// ----- markers -------------------------------------------------------------

/// A space, a dash or an underscore.
pub open spec fn is_separator(c: char) -> bool {
    c == ' ' || c == '-' || c == '_'
}

/// The text without the separators at its end.
pub open spec fn drop_separators(s: Seq<char>) -> Seq<char>
    decreases s.len(),
{
    if s.len() > 0 && is_separator(s.last()) {
        drop_separators(s.drop_last())
    } else {
        s
    }
}

/// Does `s` start with `p` and hold something after it?
pub open spec fn starts_longer(s: Seq<char>, p: Seq<char>) -> bool {
    has_prefix(s, p) && s.len() > p.len()
}

/// How long the copy prefix of a stem is.
pub open spec fn prefix_len(s: Seq<char>) -> nat {
    let lower = lower_text(s);
    if starts_longer(lower, "copy of "@) {
        "copy of "@.len()
    } else if starts_longer(lower, "kopie von "@) {
        "kopie von "@.len()
    } else if starts_longer(lower, "copie de "@) {
        "copie de "@.len()
    } else {
        0
    }
}

/// Where `(n)` at the end of `t` begins.
pub open spec fn paren_cut(t: Seq<char>) -> Option<int> {
    let open = last_of(t, '(');
    if t.len() > 0 && t.last() == ')' && open >= 0 && open + 1 < t.len() - 1 && all_digits(
        t.subrange(open + 1, t.len() - 1),
    ) {
        Some(open)
    } else {
        None
    }
}

/// Nothing, or a space and a number of no more than three digits.
pub open spec fn tail_ok(tail: Seq<char>) -> bool {
    tail.len() == 0 || (tail[0] == ' ' && all_digits(trim(tail)) && trim(tail).len() <= 3)
}

/// Where this marker, at the end of `t` or before a number there, begins.
pub open spec fn marker_cut(t: Seq<char>, marker: Seq<char>) -> Option<int> {
    let pos = last_found(t, marker);
    if pos > 0 && tail_ok(t.skip(pos + marker.len())) {
        Some(pos)
    } else {
        None
    }
}

/// Where a separator and a digit from 2 to 9 at the end of `t` begin.
pub open spec fn digit_cut(t: Seq<char>) -> Option<int> {
    if t.len() >= 3 && '2' <= t.last() <= '9' && is_separator(t[t.len() - 2]) {
        Some(t.len() - 2)
    } else {
        None
    }
}

/// The first of the two that says anything.
pub open spec fn or_else(a: Option<int>, b: Option<int>) -> Option<int> {
    if a is Some {
        a
    } else {
        b
    }
}

/// Where a number in brackets or a word that marks a copy begins at the end of
/// `t`, `t` in lower case and without space at its end.
#[verifier::opaque]
pub open spec fn word_cut(t: Seq<char>) -> Option<int> {
    or_else(
        paren_cut(t),
        or_else(
            marker_cut(t, " - copy"@),
            or_else(
                marker_cut(t, " copy"@),
                or_else(
                    marker_cut(t, "-copy"@),
                    or_else(
                        marker_cut(t, "_copy"@),
                        or_else(
                            marker_cut(t, " duplicate"@),
                            or_else(marker_cut(t, "_duplicate"@), marker_cut(t, "-duplicate"@)),
                        ),
                    ),
                ),
            ),
        ),
    )
}

/// Where the marker at the end of `t` begins.
#[verifier::opaque]
pub open spec fn cut_of(t: Seq<char>) -> Option<int> {
    or_else(word_cut(t), digit_cut(t))
}

/// The stem without one prefix and one marker at its end, where it has them.
pub open spec fn strip_once(s: Seq<char>) -> Seq<char> {
    let p = s.skip(prefix_len(s) as int);
    match cut_of(trim_end(lower_text(p))) {
        Some(c) => drop_separators(p.take(c)),
        None => p,
    }
}

/// The stem without any marker: stripped until nothing is left to strip.
pub open spec fn strip_all(s: Seq<char>) -> Seq<char>
    decreases s.len(),
    via strip_all_shrinks
{
    let n = strip_once(s);
    if n.len() == s.len() || n.len() == 0 {
        n
    } else {
        strip_all(n)
    }
}

#[via_fn]
proof fn strip_all_shrinks(s: Seq<char>) {
    lemma_strip_once(s);
}

/// Does one stripping take more than a bare digit from the stem: a prefix, a
/// word or a number in brackets?
pub open spec fn strips_a_word(s: Seq<char>) -> bool {
    prefix_len(s) > 0 || word_cut(trim_end(lower_text(s.skip(prefix_len(s) as int)))) is Some
}

/// Does any of the strippings take more than a bare digit?
pub open spec fn strips_words(s: Seq<char>) -> bool
    decreases s.len(),
    via strips_words_shrinks
{
    let n = strip_once(s);
    strips_a_word(s) || (n.len() != s.len() && n.len() != 0 && strips_words(n))
}

#[via_fn]
proof fn strips_words_shrinks(s: Seq<char>) {
    lemma_strip_once(s);
}

/// The base of a stem. A stem that is nothing but markers is its own base.
pub open spec fn base_of(stem: Seq<char>) -> Seq<char> {
    let b = strip_all(trim(stem));
    if b.len() == 0 {
        stem
    } else {
        b
    }
}

/// Does the stem carry a marker?
pub open spec fn is_marked(stem: Seq<char>) -> bool {
    let b = strip_all(trim(stem));
    b.len() > 0 && b.len() != trim(stem).len()
}

proof fn lemma_trim_end(s: Seq<char>)
    ensures
        trim_end(s).len() <= s.len(),
        trim_end(s) == s.take(trim_end(s).len() as int),
        trim_end(s).len() > 0 ==> !is_space(trim_end(s).last()),
    decreases s.len(),
{
    if s.len() > 0 && is_space(s.last()) {
        lemma_trim_end(s.drop_last());
        let n = trim_end(s).len() as int;
        assert(s.drop_last().take(n) =~= s.take(n));
    } else {
        assert(s.take(s.len() as int) =~= s);
    }
}

proof fn lemma_trim_start(s: Seq<char>)
    ensures
        trim_start(s).len() <= s.len(),
        trim_start(s) == s.skip(s.len() - trim_start(s).len()),
    decreases s.len(),
{
    if s.len() > 0 && is_space(s[0]) {
        lemma_trim_start(s.drop_first());
        let n = s.len() - trim_start(s).len();
        assert(s.drop_first().skip(n - 1) =~= s.skip(n));
    } else {
        assert(s.skip(0) =~= s);
    }
}

proof fn lemma_drop_separators(s: Seq<char>)
    ensures
        drop_separators(s).len() <= s.len(),
        drop_separators(s) == s.take(drop_separators(s).len() as int),
    decreases s.len(),
{
    if s.len() > 0 && is_separator(s.last()) {
        lemma_drop_separators(s.drop_last());
        let n = drop_separators(s).len() as int;
        assert(s.drop_last().take(n) =~= s.take(n));
    } else {
        assert(s.take(s.len() as int) =~= s);
    }
}

proof fn lemma_prefix_len(s: Seq<char>)
    ensures
        prefix_len(s) <= s.len(),
{
}

proof fn lemma_marker_cut(t: Seq<char>, marker: Seq<char>)
    requires
        marker.len() > 0,
    ensures
        marker_cut(t, marker) is Some ==> 0 < marker_cut(t, marker)->0 < t.len(),
{
    lemma_last_found(t, marker);
}

/// A cut lies inside the text.
proof fn lemma_cut(t: Seq<char>)
    ensures
        cut_of(t) is Some ==> 0 <= cut_of(t)->0 < t.len(),
{
    reveal(cut_of);
    reveal(word_cut);
    reveal_strlit(" - copy");
    reveal_strlit(" copy");
    reveal_strlit("-copy");
    reveal_strlit("_copy");
    reveal_strlit(" duplicate");
    reveal_strlit("_duplicate");
    reveal_strlit("-duplicate");
    lemma_last_of(t, '(');
    lemma_marker_cut(t, " - copy"@);
    lemma_marker_cut(t, " copy"@);
    lemma_marker_cut(t, "-copy"@);
    lemma_marker_cut(t, "_copy"@);
    lemma_marker_cut(t, " duplicate"@);
    lemma_marker_cut(t, "_duplicate"@);
    lemma_marker_cut(t, "-duplicate"@);
}

/// One stripping leaves a part of the text; it leaves all of it only where
/// there is no prefix and no marker.
proof fn lemma_strip_once(s: Seq<char>)
    ensures
        prefix_len(s) + strip_once(s).len() <= s.len(),
        strip_once(s) == s.subrange(prefix_len(s) as int, (prefix_len(s) + strip_once(s).len()) as int),
        strip_once(s).len() == s.len() ==> prefix_len(s) == 0 && strip_once(s) == s && cut_of(
            trim_end(lower_text(s)),
        ) is None,
{
    lemma_prefix_len(s);
    let k = prefix_len(s) as int;
    let p = s.skip(k);
    let t = trim_end(lower_text(p));
    lemma_trim_end(lower_text(p));
    lemma_cut(t);
    match cut_of(t) {
        Some(c) => {
            lemma_drop_separators(p.take(c));
            let n = strip_once(s).len() as int;
            assert(p.take(c).take(n) =~= s.subrange(k, k + n));
        },
        None => {
            assert(p =~= s.subrange(k, s.len() as int));
        },
    }
    if strip_once(s).len() == s.len() {
        assert(s.skip(0) =~= s);
    }
}

/// Stripping leaves a part of the text, letter for letter.
proof fn lemma_strip_all(s: Seq<char>)
    ensures
        exists|lo: int, hi: int|
            0 <= lo <= hi <= s.len() && strip_all(s) == #[trigger] s.subrange(lo, hi),
        strip_all(s).len() > 0 ==> strip_once(strip_all(s)) == strip_all(s),
    decreases s.len(),
{
    lemma_strip_once(s);
    let n = strip_once(s);
    let k = prefix_len(s) as int;
    if n.len() == s.len() || n.len() == 0 {
        assert(strip_all(s) == s.subrange(k, k + n.len()));
    } else {
        lemma_strip_all(n);
        let (lo, hi) = choose|lo: int, hi: int|
            0 <= lo <= hi <= n.len() && strip_all(n) == #[trigger] n.subrange(lo, hi);
        assert(n.subrange(lo, hi) =~= s.subrange(k + lo, k + hi));
    }
}

/// The base is part of the stem, with its casing, and nothing more can be
/// stripped from it.
pub proof fn base_is_clean_part_of_stem(stem: Seq<char>)
    ensures
        exists|lo: int, hi: int|
            0 <= lo <= hi <= stem.len() && base_of(stem) == #[trigger] stem.subrange(lo, hi),
        is_marked(stem) ==> strip_once(base_of(stem)) == base_of(stem),
        !is_marked(stem) ==> base_of(stem) == trim(stem) || base_of(stem) == stem,
{
    let e = trim_end(stem);
    let t = trim(stem);
    lemma_trim_end(stem);
    lemma_trim_start(e);
    let cut = e.len() - t.len();
    lemma_strip_all(t);
    let b = strip_all(t);
    if b.len() == 0 {
        assert(stem =~= stem.subrange(0, stem.len() as int));
    } else {
        let (lo, hi) = choose|lo: int, hi: int|
            0 <= lo <= hi <= t.len() && b == #[trigger] t.subrange(lo, hi);
        assert(t.subrange(lo, hi) =~= stem.subrange(cut + lo, cut + hi));
        if b.len() == t.len() {
            assert(t.subrange(lo, hi) =~= t);
        }
    }
}

// ----- code for markers ----------------------------------------------------

fn separator_char(c: char) -> (r: bool)
    ensures
        r == is_separator(c),
{
    c == ' ' || c == '-' || c == '_'
}

fn drop_separators_len(v: &Vec<char>, upto: usize) -> (r: usize)
    requires
        upto <= v@.len(),
    ensures
        r <= upto,
        v@.take(r as int) == drop_separators(v@.take(upto as int)),
{
    let mut n = upto;
    while n > 0 && separator_char(v[n - 1])
        invariant
            n <= upto,
            upto <= v@.len(),
            drop_separators(v@.take(n as int)) == drop_separators(v@.take(upto as int)),
        decreases n,
    {
        assert(v@.take(n as int).drop_last() =~= v@.take(n - 1));
        n = n - 1;
    }
    n
}

fn starts_with_longer(v: &Vec<char>, p: &str) -> (r: bool)
    ensures
        r == starts_longer(v@, p@),
{
    starts_with(v, p) && v.len() > chars_of(p).len()
}

fn prefix_length(v: &Vec<char>) -> (r: usize)
    ensures
        r == prefix_len(v@),
        r <= v@.len(),
{
    proof {
        reveal_strlit("copy of ");
        reveal_strlit("kopie von ");
        reveal_strlit("copie de ");
    }
    let lower = lower_chars(v);
    if starts_with_longer(&lower, "copy of ") {
        8
    } else if starts_with_longer(&lower, "kopie von ") {
        10
    } else if starts_with_longer(&lower, "copie de ") {
        9
    } else {
        0
    }
}

spec fn as_int(c: Option<usize>) -> Option<int> {
    match c {
        Some(x) => Some(x as int),
        None => None,
    }
}

fn find_paren(t: &Vec<char>) -> (r: Option<usize>)
    ensures
        as_int(r) == paren_cut(t@),
{
    let n = t.len();
    if n == 0 || t[n - 1] != ')' {
        return None;
    }
    match rfind_char(t, '(') {
        Some(open) => {
            if open < n - 1 && open + 1 < n - 1 && only_digits(&slice_of(t, open + 1, n - 1)) {
                Some(open)
            } else {
                None
            }
        },
        None => None,
    }
}

fn tail_allowed(t: &Vec<char>, from: usize) -> (r: bool)
    requires
        from <= t@.len(),
    ensures
        r == tail_ok(t@.skip(from as int)),
{
    assert(t@.subrange(from as int, t@.len() as int) =~= t@.skip(from as int));
    let tail = slice_of(t, from, t.len());
    if tail.len() == 0 {
        return true;
    }
    let inner = trim_chars(&tail);
    tail[0] == ' ' && only_digits(&inner) && inner.len() <= 3
}

fn find_marker(t: &Vec<char>, marker: &str) -> (r: Option<usize>)
    ensures
        as_int(r) == marker_cut(t@, marker@),
{
    match rfind(t, marker) {
        Some(pos) => {
            let m = chars_of(marker);
            let n = t.len();
            assert(pos + m@.len() <= n);
            if pos > 0 && tail_allowed(t, pos + m.len()) {
                Some(pos)
            } else {
                None
            }
        },
        None => None,
    }
}

fn find_digit(t: &Vec<char>) -> (r: Option<usize>)
    ensures
        as_int(r) == digit_cut(t@),
{
    let n = t.len();
    if n >= 3 && '2' <= t[n - 1] && t[n - 1] <= '9' && separator_char(t[n - 2]) {
        Some(n - 2)
    } else {
        None
    }
}

fn find_word(t: &Vec<char>) -> (r: Option<usize>)
    ensures
        as_int(r) == word_cut(t@),
{
    proof {
        reveal(word_cut);
    }
    if let Some(c) = find_paren(t) {
        return Some(c);
    }
    if let Some(c) = find_marker(t, " - copy") {
        return Some(c);
    }
    if let Some(c) = find_marker(t, " copy") {
        return Some(c);
    }
    if let Some(c) = find_marker(t, "-copy") {
        return Some(c);
    }
    if let Some(c) = find_marker(t, "_copy") {
        return Some(c);
    }
    if let Some(c) = find_marker(t, " duplicate") {
        return Some(c);
    }
    if let Some(c) = find_marker(t, "_duplicate") {
        return Some(c);
    }
    find_marker(t, "-duplicate")
}

/// One stripping, and whether it took more than a bare digit.
fn strip_once_chars(s: &Vec<char>) -> (r: (Vec<char>, bool))
    ensures
        r.0@ == strip_once(s@),
        r.1 == strips_a_word(s@),
{
    let k = prefix_length(s);
    assert(s@.subrange(k as int, s@.len() as int) =~= s@.skip(k as int));
    let p = slice_of(s, k, s.len());
    let lower = lower_chars(&p);
    let n = trimmed_end(&lower);
    assert(lower@.subrange(0, n as int) =~= lower@.take(n as int));
    let t = slice_of(&lower, 0, n);
    proof {
        lemma_cut(t@);
        reveal(cut_of);
    }
    let word = find_word(&t);
    let named = k > 0 || word.is_some();
    let cut = match word {
        Some(c) => Some(c),
        None => find_digit(&t),
    };
    match cut {
        Some(c) => {
            let m = drop_separators_len(&p, c);
            assert(p@.subrange(0, m as int) =~= p@.take(m as int));
            (slice_of(&p, 0, m), named)
        },
        None => (p, named),
    }
}

/// Strip copy markers from a stem. Returns the base and whether anything
/// was stripped. Original casing of the base is preserved.
///
/// Recognised, repeatedly and in any order at the end of the stem:
/// ` (n)`, `(n)`, ` copy`, ` - copy`, `-copy`, `_copy`, ` copy n`,
/// ` duplicate`, `_duplicate`, ` n` / `-n` / `_n` (a single digit 2..9);
/// and at the start: `copy of `, `kopie von `, `copie de `.
pub fn strip_copy_markers(stem: &str) -> (r: (String, bool))
    ensures
        r.0@ == base_of(stem@),
        r.1 == is_marked(stem@),
{
    let (base, stripped, _) = strip_markers(stem);
    (base, stripped)
}

/// The base, whether anything was stripped, and whether more than bare digits
/// were.
fn strip_markers(stem: &str) -> (r: (String, bool, bool))
    ensures
        r.0@ == base_of(stem@),
        r.1 == is_marked(stem@),
        r.1 ==> r.2 == is_unambiguous(stem@),
{
    let start = trim_chars(&chars_of(stem));
    let mut s = slice_of(&start, 0, start.len());
    let mut named = false;
    assert(s@ =~= start@);
    loop
        invariant
            start@ == trim(stem@),
            strip_all(s@) == strip_all(start@),
            strips_words(start@) == (named || strips_words(s@)),
            s@.len() <= start@.len(),
        decreases s@.len(),
    {
        proof {
            lemma_strip_once(s@);
        }
        let (n, here) = strip_once_chars(&s);
        named = named || here;
        if n.len() == 0 {
            return (stem.to_owned(), false, named);
        }
        if n.len() == s.len() {
            let stripped = n.len() != start.len();
            return (text_of(&n), stripped, named);
        }
        s = n;
    }
}

// ----- markers in a group --------------------------------------------------

/// How often each name occurs.
pub struct NameCounts {
    counts: StringHashMap<usize>,
}

impl View for NameCounts {
    type V = Map<Seq<char>, usize>;

    closed spec fn view(&self) -> Map<Seq<char>, usize> {
        self.counts@
    }
}

/// How often a name was counted.
pub open spec fn count_in(counts: Map<Seq<char>, usize>, name: Seq<char>) -> usize {
    if counts.contains_key(name) {
        counts[name]
    } else {
        0
    }
}

impl NameCounts {
    pub fn new() -> (r: NameCounts)
        ensures
            r@ == Map::<Seq<char>, usize>::empty(),
    {
        NameCounts { counts: StringHashMap::new() }
    }

    pub fn get(&self, name: &str) -> (r: usize)
        ensures
            r == count_in(self@, name@),
    {
        match self.counts.get(name) {
            Some(n) => *n,
            None => 0,
        }
    }

    /// Counts the name once more.
    pub fn count(&mut self, name: String)
        requires
            count_in(old(self)@, name@) < usize::MAX,
        ensures
            final(self)@ == old(self)@.insert(name@, (count_in(old(self)@, name@) + 1) as usize),
    {
        let n = self.get(name.as_str());
        self.counts.insert(name, n + 1);
    }
}

/// Does the stem hold a marker that cannot be anything else: a prefix, a word
/// or a number in brackets, rather than bare digits alone?
pub open spec fn is_unambiguous(stem: Seq<char>) -> bool {
    strips_words(trim(stem))
}

/// Does this name carry a copy marker, where `counts` tells how often each
/// stem stands in its group?
pub open spec fn marked_in(name: Seq<char>, counts: Map<Seq<char>, usize>) -> bool {
    let stem = stem_of(name);
    is_marked(stem) && (is_unambiguous(stem) || count_in(counts, lower_text(base_of(stem))) > 0)
}

/// Does this file name carry a copy marker, given the other stems in its
/// group? Unambiguous markers always count; a bare trailing digit only
/// counts when the base is also present in the group as an actual name.
pub fn has_copy_marker(name: &str, group_bases: &NameCounts) -> (r: bool)
    ensures
        r == marked_in(name@, group_bases@),
{
    let (stem, _) = split_name(name);
    let (base, stripped, named) = strip_markers(stem);
    if !stripped {
        return false;
    }
    if named {
        return true;
    }
    group_bases.get(to_ascii_lowercase(base.as_str()).as_str()) > 0
}

/// How many of the first `n` files have this stem, in lower case.
pub open spec fn stem_count(files: Seq<FileView>, n: nat, stem: Seq<char>) -> nat
    decreases n,
{
    if n == 0 {
        0
    } else {
        let here: nat = match file_name_of(files[n - 1].path) {
            Some(name) => if lower_text(stem_of(name)) == stem {
                1
            } else {
                0
            },
            None => 0,
        };
        stem_count(files, (n - 1) as nat, stem) + here
    }
}

proof fn lemma_stem_count(files: Seq<FileView>, n: nat, stem: Seq<char>)
    ensures
        stem_count(files, n, stem) <= n,
    decreases n,
{
    if n > 0 {
        lemma_stem_count(files, (n - 1) as nat, stem);
    }
}

/// The counts of all stems of the files, in lower case.
pub open spec fn counts_stems(counts: Map<Seq<char>, usize>, files: Seq<FileView>, n: nat) -> bool {
    forall|stem: Seq<char>| #[trigger] count_in(counts, stem) == stem_count(files, n, stem)
}

/// Lower-cased stems of the file names that appear literally in the group
/// (used by `has_copy_marker` to confirm "name 2" style copies).
pub fn literal_bases(group_files: &Vec<FileInfo>) -> (r: NameCounts)
    ensures
        counts_stems(r@, file_views(group_files@), group_files@.len()),
{
    let mut m = NameCounts::new();
    let n = group_files.len();
    let ghost all = file_views(group_files@);
    for i in 0..n
        invariant
            n == group_files@.len(),
            all == file_views(group_files@),
            counts_stems(m@, all, i as nat),
    {
        let ghost before = m@;
        assert(all[i as int] == group_files@[i as int]@);
        if let Some(name) = file_name(group_files[i].path.as_str()) {
            let (stem, _) = split_name(name.as_str());
            let key = to_ascii_lowercase(stem);
            let ghost k = key@;
            proof {
                lemma_stem_count(all, i as nat, k);
                assert(count_in(before, k) == stem_count(all, i as nat, k));
            }
            m.count(key);
            assert forall|stem: Seq<char>| #[trigger] count_in(m@, stem) == stem_count(all, (i + 1) as nat, stem) by {
                assert(count_in(before, stem) == stem_count(all, i as nat, stem));
            }
        } else {
            assert forall|stem: Seq<char>| #[trigger] count_in(m@, stem) == stem_count(all, (i + 1) as nat, stem) by {
                assert(count_in(before, stem) == stem_count(all, i as nat, stem));
            }
        }
    }
    m
}

// ----- the canonical name --------------------------------------------------

/// A spelling, the key it is counted under, and how many names chose it.
pub struct Vote {
    pub key: Seq<char>,
    pub count: nat,
    pub display: Seq<char>,
}

/// One more name for `key`. A new key shows as `display`; a known one is
/// shown as `display` from now on where `fix` says so.
pub open spec fn cast(votes: Seq<Vote>, key: Seq<char>, display: Seq<char>, fix: bool) -> Seq<Vote>
    decreases votes.len(),
{
    if votes.len() == 0 {
        seq![Vote { key, count: 1, display }]
    } else if votes[0].key == key {
        seq![
            Vote {
                key,
                count: votes[0].count + 1,
                display: if fix {
                    display
                } else {
                    votes[0].display
                },
            },
        ] + votes.drop_first()
    } else {
        seq![votes[0]] + cast(votes.drop_first(), key, display, fix)
    }
}

/// The votes of the first `n` names for a base. The spelling of a name that
/// carries no marker is preferred for display.
pub open spec fn base_votes(names: Seq<Seq<char>>, n: nat) -> Seq<Vote>
    decreases n,
{
    if n == 0 {
        seq![]
    } else {
        let stem = stem_of(names[n - 1]);
        let base = base_of(stem);
        cast(base_votes(names, (n - 1) as nat), lower_text(base), base, !is_marked(stem))
    }
}

/// The votes of the first `n` names for an extension.
pub open spec fn ext_votes(names: Seq<Seq<char>>, n: nat) -> Seq<Vote>
    decreases n,
{
    if n == 0 {
        seq![]
    } else {
        let ext = ext_of(names[n - 1]);
        cast(ext_votes(names, (n - 1) as nat), lower_text(ext), ext, false)
    }
}

/// Does vote `a` win over vote `b`: more names, then, where `short` says so,
/// the shorter spelling, then the one that comes first in the dictionary?
pub open spec fn wins(a: Vote, b: Vote, short: bool) -> bool {
    if a.count != b.count {
        a.count > b.count
    } else if short && byte_len_of(a.display) != byte_len_of(b.display) {
        byte_len_of(a.display) < byte_len_of(b.display)
    } else {
        text_before(a.display, b.display)
    }
}

/// Which of the first `n` votes wins.
pub open spec fn winner(votes: Seq<Vote>, n: nat, short: bool) -> int
    decreases n,
{
    if n <= 1 {
        0
    } else {
        let w = winner(votes, (n - 1) as nat, short);
        if wins(votes[n - 1], votes[w], short) {
            n - 1
        } else {
            w
        }
    }
}

/// No vote wins over the winner.
pub proof fn winner_is_not_beaten(votes: Seq<Vote>, n: nat, short: bool)
    requires
        0 < n <= votes.len(),
    ensures
        0 <= winner(votes, n, short) < n,
        forall|i: int| 0 <= i < n ==> !wins(#[trigger] votes[i], votes[winner(votes, n, short)], short),
    decreases n,
{
    if n > 1 {
        winner_is_not_beaten(votes, (n - 1) as nat, short);
        let w = winner(votes, (n - 1) as nat, short);
        let last = votes[n - 1];
        assert forall|i: int| 0 <= i < n implies !wins(#[trigger] votes[i], votes[winner(votes, n, short)], short) by {
            crate::paths::lemma_text_order(votes[i].display, last.display, votes[w].display);
            crate::paths::lemma_text_order(last.display, votes[i].display, votes[w].display);
            crate::paths::lemma_text_order(last.display, votes[w].display, votes[i].display);
            crate::paths::lemma_text_order(votes[w].display, last.display, votes[i].display);
        }
    } else {
        crate::paths::lemma_text_order(votes[0].display, votes[0].display, votes[0].display);
    }
}

/// The names of the files.
pub open spec fn names_of(files: Seq<FileView>) -> Seq<Seq<char>> {
    Seq::new(files.len(), |i: int| name_or_empty(files[i].path))
}

/// Does one of the names carry a marker?
pub open spec fn any_marked(names: Seq<Seq<char>>) -> bool {
    exists|i: int| 0 <= i < names.len() && is_marked(stem_of(#[trigger] names[i]))
}

/// The winning base with the winning extension.
pub open spec fn canonical_text(names: Seq<Seq<char>>) -> Seq<char> {
    let b = base_votes(names, names.len());
    let e = ext_votes(names, names.len());
    b[winner(b, b.len(), true)].display + e[winner(e, e.len(), false)].display
}

#[derive(Debug, Clone, PartialEq, Eq)]
pub struct CanonicalName {
    /// `base + extension`, e.g. `report.pdf`.
    pub name: String,
    /// Index of a file that already has exactly this name, if any.
    pub existing: Option<usize>,
}

/// The first of the names that is `name`, but for the case of its letters.
pub open spec fn is_first_like(names: Seq<Seq<char>>, name: Seq<char>, at: Option<usize>) -> bool {
    match at {
        Some(k) => k < names.len() && lower_text(names[k as int]) == lower_text(name) && forall|i: int|
            0 <= i < k ==> lower_text(#[trigger] names[i]) != lower_text(name),
        None => forall|i: int| 0 <= i < names.len() ==> lower_text(#[trigger] names[i]) != lower_text(name),
    }
}

struct Ballot {
    key: Vec<char>,
    count: usize,
    display: Vec<char>,
}

spec fn ballots(v: Seq<Ballot>) -> Seq<Vote> {
    Seq::new(v.len(), |i: int| Vote { key: v[i].key@, count: v[i].count as nat, display: v[i].display@ })
}

spec fn vote_total(votes: Seq<Vote>) -> int
    decreases votes.len(),
{
    if votes.len() == 0 {
        0
    } else {
        votes[0].count + vote_total(votes.drop_first())
    }
}

proof fn lemma_total(votes: Seq<Vote>, i: int)
    requires
        0 <= i < votes.len(),
    ensures
        votes[i].count <= vote_total(votes),
    decreases votes.len(),
{
    lemma_total_nonneg(votes.drop_first());
    if i > 0 {
        lemma_total(votes.drop_first(), i - 1);
    }
}

proof fn lemma_total_nonneg(votes: Seq<Vote>)
    ensures
        vote_total(votes) >= 0,
    decreases votes.len(),
{
    if votes.len() > 0 {
        lemma_total_nonneg(votes.drop_first());
    }
}

proof fn lemma_cast_total(votes: Seq<Vote>, key: Seq<char>, display: Seq<char>, fix: bool)
    ensures
        vote_total(cast(votes, key, display, fix)) == vote_total(votes) + 1,
        cast(votes, key, display, fix).len() > 0,
    decreases votes.len(),
{
    let r = cast(votes, key, display, fix);
    if votes.len() == 0 {
        assert(r.drop_first() =~= seq![]);
        assert(vote_total(r.drop_first()) == 0);
    } else if votes[0].key == key {
        assert(r.drop_first() =~= votes.drop_first());
    } else {
        lemma_cast_total(votes.drop_first(), key, display, fix);
        assert(r.drop_first() =~= cast(votes.drop_first(), key, display, fix));
    }
}

/// Where the key stands decides what a vote changes.
proof fn lemma_cast_at(votes: Seq<Vote>, at: int, key: Seq<char>, display: Seq<char>, fix: bool)
    requires
        0 <= at <= votes.len(),
        forall|i: int| 0 <= i < at ==> (#[trigger] votes[i]).key != key,
        at < votes.len() ==> votes[at].key == key,
    ensures
        cast(votes, key, display, fix) == if at < votes.len() {
            votes.update(
                at,
                Vote {
                    key,
                    count: votes[at].count + 1,
                    display: if fix {
                        display
                    } else {
                        votes[at].display
                    },
                },
            )
        } else {
            votes.push(Vote { key, count: 1, display })
        },
    decreases votes.len(),
{
    let r = cast(votes, key, display, fix);
    if votes.len() == 0 {
        assert(r =~= votes.push(Vote { key, count: 1, display }));
    } else if at == 0 {
        assert(r =~= votes.update(
            0,
            Vote {
                key,
                count: votes[0].count + 1,
                display: if fix {
                    display
                } else {
                    votes[0].display
                },
            },
        ));
    } else {
        let rest = votes.drop_first();
        assert forall|i: int| 0 <= i < at - 1 implies (#[trigger] rest[i]).key != key by {
            assert(rest[i] == votes[i + 1]);
        }
        lemma_cast_at(rest, at - 1, key, display, fix);
        if at < votes.len() {
            assert(r =~= votes.update(
                at,
                Vote {
                    key,
                    count: votes[at].count + 1,
                    display: if fix {
                        display
                    } else {
                        votes[at].display
                    },
                },
            ));
        } else {
            assert(r =~= votes.push(Vote { key, count: 1, display }));
        }
    }
}

fn cast_vote(votes: &mut Vec<Ballot>, key: Vec<char>, display: Vec<char>, fix: bool)
    requires
        vote_total(ballots(old(votes)@)) < usize::MAX,
    ensures
        ballots(final(votes)@) == cast(ballots(old(votes)@), key@, display@, fix),
{
    let n = votes.len();
    let mut at: usize = 0;
    let ghost all = ballots(votes@);
    while at < n && !same_chars(&votes[at].key, &key)
        invariant
            n == votes@.len(),
            at <= n,
            all == ballots(votes@),
            forall|i: int| 0 <= i < at ==> (#[trigger] all[i]).key != key@,
        decreases n - at,
    {
        assert(all[at as int].key == votes@[at as int].key@);
        at = at + 1;
    }
    proof {
        if at < n {
            assert(all[at as int].key == votes@[at as int].key@);
            lemma_total(all, at as int);
        }
        lemma_cast_at(all, at as int, key@, display@, fix);
    }
    let ghost kv = key@;
    let ghost dv = display@;
    if at < n {
        assert(all[at as int].count == votes@[at as int].count);
        let count = votes[at].count + 1;
        let shown = if fix {
            display
        } else {
            let m = votes[at].display.len();
            let d = slice_of(&votes[at].display, 0, m);
            assert(d@ =~= votes@[at as int].display@);
            d
        };
        votes.set(at, Ballot { key, count, display: shown });
        assert(ballots(votes@) =~= cast(all, kv, dv, fix));
    } else {
        votes.push(Ballot { key, count: 1, display });
        assert(ballots(votes@) =~= cast(all, kv, dv, fix));
    }
}

fn ballot_wins(a: &Ballot, b: &Ballot, short: bool) -> (r: bool)
    ensures
        r == wins(
            Vote { key: a.key@, count: a.count as nat, display: a.display@ },
            Vote { key: b.key@, count: b.count as nat, display: b.display@ },
            short,
        ),
{
    if a.count != b.count {
        return a.count > b.count;
    }
    if short {
        let x = byte_len(text_of(&a.display).as_str());
        let y = byte_len(text_of(&b.display).as_str());
        if x != y {
            return x < y;
        }
    }
    chars_before(&a.display, &b.display)
}

fn winning(votes: &Vec<Ballot>, short: bool) -> (r: usize)
    requires
        votes@.len() > 0,
    ensures
        r == winner(ballots(votes@), votes@.len(), short),
        r < votes@.len(),
{
    let n = votes.len();
    let mut w: usize = 0;
    let ghost all = ballots(votes@);
    for i in 1..n
        invariant
            n == votes@.len(),
            all == ballots(votes@),
            w < i,
            w == winner(all, i as nat, short),
    {
        if ballot_wins(&votes[i], &votes[w], short) {
            w = i;
        }
    }
    w
}

proof fn lemma_vote_totals(names: Seq<Seq<char>>, n: nat)
    ensures
        vote_total(base_votes(names, n)) == n,
        vote_total(ext_votes(names, n)) == n,
        n > 0 ==> base_votes(names, n).len() > 0 && ext_votes(names, n).len() > 0,
    decreases n,
{
    if n > 0 {
        lemma_vote_totals(names, (n - 1) as nat);
        let stem = stem_of(names[n - 1]);
        let base = base_of(stem);
        let ext = ext_of(names[n - 1]);
        lemma_cast_total(base_votes(names, (n - 1) as nat), lower_text(base), base, !is_marked(stem));
        lemma_cast_total(ext_votes(names, (n - 1) as nat), lower_text(ext), ext, false);
    }
}

/// Work out the canonical name of a group from its members' names.
/// Returns `None` when no member carries a copy marker (nothing to say).
pub fn canonical_name(group: &DuplicateGroup) -> (r: Option<CanonicalName>)
    ensures
        r is Some <==> group@.files.len() >= 2 && any_marked(names_of(group@.files)),
        r is Some ==> (r->0).name@ == canonical_text(names_of(group@.files)) && is_first_like(
            names_of(group@.files),
            (r->0).name@,
            (r->0).existing,
        ),
{
    canonical_name_of(&group.files)
}

/// Same as `canonical_name`, for a list of files in whatever order the
/// caller uses; `existing` indexes into that list.
pub fn canonical_name_of(files: &Vec<FileInfo>) -> (r: Option<CanonicalName>)
    ensures
        r is Some <==> files@.len() >= 2 && any_marked(names_of(file_views(files@))),
        r is Some ==> (r->0).name@ == canonical_text(names_of(file_views(files@))) && is_first_like(
            names_of(file_views(files@)),
            (r->0).name@,
            (r->0).existing,
        ),
{
    let n = files.len();
    if n < 2 {
        return None;
    }
    let ghost names = names_of(file_views(files@));
    let mut any = false;
    let mut bases: Vec<Ballot> = Vec::new();
    let mut exts: Vec<Ballot> = Vec::new();
    assert(ballots(bases@) =~= seq![]);
    assert(ballots(exts@) =~= seq![]);
    for i in 0..n
        invariant
            n == files@.len(),
            names == names_of(file_views(files@)),
            ballots(bases@) == base_votes(names, i as nat),
            ballots(exts@) == ext_votes(names, i as nat),
            any <==> exists|k: int| 0 <= k < i && is_marked(stem_of(#[trigger] names[k])),
    {
        proof {
            lemma_vote_totals(names, i as nat);
        }
        let name = file_name_or_empty(files[i].path.as_str());
        assert(names[i as int] == name@);
        let (stem, ext) = split_name(name.as_str());
        let (base, stripped) = strip_copy_markers(stem);
        if stripped {
            assert(is_marked(stem_of(names[i as int])));
            any = true;
        }
        let b = chars_of(base.as_str());
        cast_vote(&mut bases, lower_chars(&b), b, !stripped);
        let x = chars_of(ext);
        cast_vote(&mut exts, lower_chars(&x), x, false);
    }
    if !any {
        return None;
    }
    proof {
        lemma_vote_totals(names, n as nat);
    }
    let wb = winning(&bases, true);
    let we = winning(&exts, false);
    let mut name = text_of(&bases[wb].display);
    let ext = text_of(&exts[we].display);
    name.append(ext.as_str());
    assert(ballots(bases@)[wb as int].display == bases@[wb as int].display@);
    assert(ballots(exts@)[we as int].display == exts@[we as int].display@);
    assert(name@ == canonical_text(names));
    let lower = to_ascii_lowercase(name.as_str());
    let mut existing: Option<usize> = None;
    let mut i: usize = 0;
    while i < n && existing.is_none()
        invariant
            n == files@.len(),
            i <= n,
            names == names_of(file_views(files@)),
            lower@ == lower_text(name@),
            existing is None ==> forall|k: int| 0 <= k < i ==> lower_text(#[trigger] names[k]) != lower_text(name@),
            existing is Some ==> is_first_like(names, name@, existing),
        decreases n - i,
    {
        let other = to_ascii_lowercase(file_name_or_empty(files[i].path.as_str()).as_str());
        assert(names[i as int] == name_or_empty(files@[i as int]@.path));
        if other == lower {
            existing = Some(i);
        }
        i = i + 1;
    }
    Some(CanonicalName { name, existing })
}

// ----- renaming ------------------------------------------------------------

/// Where the keeper would go under its canonical name; nothing where there
/// is no such name, or where the keeper or another copy carries it.
pub open spec fn rename_goal(group: GroupView, keeper: int) -> Option<(Seq<char>, Seq<char>)> {
    let names = names_of(group.files);
    let name = canonical_text(names);
    if group.files.len() >= 2 && any_marked(names) && 0 <= keeper < group.files.len() && file_name_of(
        group.files[keeper].path,
    ) is Some && is_first_like(names, name, None) {
        let folder = match parent_of(group.files[keeper].path) {
            Some(p) => p,
            None => seq![],
        };
        Some((join_of(folder, name), name))
    } else {
        None
    }
}

/// Where the keeper would go under its canonical name, and that name. The
/// path is to be tested before the rename is offered.
pub fn rename_target(group: &DuplicateGroup, keeper: usize) -> (r: Option<(String, String)>)
    ensures
        r is Some <==> rename_goal(group@, keeper as int) is Some,
        r is Some ==> Some(((r->0).0@, (r->0).1@)) == rename_goal(group@, keeper as int),
{
    let canonical = match canonical_name(group) {
        Some(c) => c,
        None => {
            return None;
        },
    };
    if keeper >= group.files.len() {
        return None;
    }
    let ghost names = names_of(group@.files);
    let path = group.files[keeper].path.as_str();
    assert(group@.files[keeper as int].path == path@);
    match file_name(path) {
        None => {
            return None;
        },
        Some(current) => {
            assert(names[keeper as int] == current@);
            // Another copy already has the clean name, or this one does.
            if canonical.existing.is_some() {
                assert(!is_first_like(names, canonical.name@, None)) by {
                    let k = canonical.existing->0;
                    assert(lower_text(names[k as int]) == lower_text(canonical.name@));
                }
                return None;
            }
        },
    }
    let target = match parent(path) {
        Some(p) => join(p.as_str(), canonical.name.as_str()),
        None => {
            let root = String::new();
            assert(root@ =~= seq![]);
            join(root.as_str(), canonical.name.as_str())
        },
    };
    Some((target, canonical.name))
}

/// If the keeper does not already carry the canonical name and that name is
/// free in the keeper's directory, propose renaming it. `target_exists` tells
/// whether something stands at the path that `rename_target` gives.
pub fn suggested_rename(group: &DuplicateGroup, keeper: usize, target_exists: bool) -> (r: Option<
    (String, String),
>)
    ensures
        r is Some <==> rename_goal(group@, keeper as int) is Some && !target_exists,
        r is Some ==> (r->0).0@ == group@.files[keeper as int].path && (r->0).1@ == (rename_goal(
            group@,
            keeper as int,
        )->0).1,
{
    if target_exists {
        return None;
    }
    match rename_target(group, keeper) {
        Some((_, name)) => {
            assert(group@.files[keeper as int].path == group.files@[keeper as int]@.path);
            Some((group.files[keeper].path.clone(), name))
        },
        None => None,
    }
}

// ----- the vote for a name -------------------------------------------------

/// How many of the names have this base, but for the case of its letters.
pub open spec fn bases_like(names: Seq<Seq<char>>, base: Seq<char>) -> nat
    decreases names.len(),
{
    if names.len() == 0 {
        0
    } else {
        bases_like(names.drop_last(), base) + if lower_text(base_of(stem_of(names.last()))) == lower_text(base) {
            1nat
        } else {
            0nat
        }
    }
}

/// How many of the names have this extension, but for the case of its letters.
pub open spec fn exts_like(names: Seq<Seq<char>>, ext: Seq<char>) -> nat
    decreases names.len(),
{
    if names.len() == 0 {
        0
    } else {
        exts_like(names.drop_last(), ext) + if lower_text(ext_of(names.last())) == lower_text(ext) {
            1nat
        } else {
            0nat
        }
    }
}

/// What the votes say once one more was cast.
proof fn lemma_cast(votes: Seq<Vote>, key: Seq<char>, display: Seq<char>, fix: bool)
    ensures
        ({
            let r = cast(votes, key, display, fix);
            &&& r.len() >= votes.len()
            &&& r.len() <= votes.len() + 1
            &&& forall|k: int|
                0 <= k < votes.len() ==> (#[trigger] r[k]).key == votes[k].key && r[k].count == votes[k].count + (
                if first_vote(votes, key, k) {
                    1nat
                } else {
                    0nat
                }) && r[k].display == if first_vote(votes, key, k) && fix {
                    display
                } else {
                    votes[k].display
                }
            &&& r.len() == votes.len() <==> exists|k: int| 0 <= k < votes.len() && (#[trigger] votes[k]).key == key
            &&& r.len() > votes.len() ==> r.last() == (Vote { key, count: 1, display })
        }),
    decreases votes.len(),
{
    let r = cast(votes, key, display, fix);
    if votes.len() == 0 {
    } else if votes[0].key == key {
        assert(first_vote(votes, key, 0));
        assert forall|k: int| 0 < k < votes.len() implies !first_vote(votes, key, k) by {
            assert(votes[0].key == key);
        }
    } else {
        let rest = votes.drop_first();
        let s = cast(rest, key, display, fix);
        lemma_cast(rest, key, display, fix);
        assert forall|k: int| 0 <= k < votes.len() implies (#[trigger] r[k]).key == votes[k].key && r[k].count
            == votes[k].count + (if first_vote(votes, key, k) {
            1nat
        } else {
            0nat
        }) && r[k].display == (if first_vote(votes, key, k) && fix {
            display
        } else {
            votes[k].display
        }) by {
            if k > 0 {
                assert(r[k] == s[k - 1]);
                assert(rest[k - 1] == votes[k]);
                if first_vote(rest, key, k - 1) {
                    assert forall|j: int| 0 <= j < k implies (#[trigger] votes[j]).key != key by {
                        if j > 0 {
                            assert(rest[j - 1] == votes[j]);
                        }
                    }
                }
                if first_vote(votes, key, k) {
                    assert forall|j: int| 0 <= j < k - 1 implies (#[trigger] rest[j]).key != key by {
                        assert(votes[j + 1] == rest[j]);
                    }
                }
            } else {
                assert(r[0] == votes[0]);
            }
        }
        if s.len() == rest.len() {
            let k = choose|k: int| 0 <= k < rest.len() && (#[trigger] rest[k]).key == key;
            assert(votes[k + 1].key == key);
        }
        if exists|k: int| 0 <= k < votes.len() && (#[trigger] votes[k]).key == key {
            let k = choose|k: int| 0 <= k < votes.len() && (#[trigger] votes[k]).key == key;
            assert(rest[k - 1].key == key);
        }
    }
}

/// Is the vote at `k` the first for this key?
spec fn first_vote(votes: Seq<Vote>, key: Seq<char>, k: int) -> bool {
    0 <= k < votes.len() && votes[k].key == key && forall|j: int| 0 <= j < k ==> (#[trigger] votes[j]).key != key
}

spec fn keys_differ(votes: Seq<Vote>) -> bool {
    forall|i: int, j: int| 0 <= i < j < votes.len() ==> (#[trigger] votes[i]).key != (#[trigger] votes[j]).key
}

/// A name as it goes into a vote.
struct Choice {
    key: Seq<char>,
    display: Seq<char>,
    fix: bool,
}

spec fn votes_of(items: Seq<Choice>) -> Seq<Vote>
    decreases items.len(),
{
    if items.len() == 0 {
        seq![]
    } else {
        cast(votes_of(items.drop_last()), items.last().key, items.last().display, items.last().fix)
    }
}

spec fn tally(items: Seq<Choice>, key: Seq<char>) -> nat
    decreases items.len(),
{
    if items.len() == 0 {
        0
    } else {
        tally(items.drop_last(), key) + if items.last().key == key {
            1nat
        } else {
            0nat
        }
    }
}

/// Does the vote show what the name at `i` chose: the last that fixes the
/// spelling, or the first where none does?
spec fn shows(items: Seq<Choice>, v: Vote, i: int) -> bool {
    &&& 0 <= i < items.len()
    &&& items[i].key == v.key
    &&& items[i].display == v.display
    &&& items[i].fix ==> forall|j: int| i < j < items.len() && (#[trigger] items[j]).key == v.key ==> !items[j].fix
    &&& !items[i].fix ==> forall|j: int|
        0 <= j < items.len() && (#[trigger] items[j]).key == v.key ==> !items[j].fix && i <= j
}

/// Is there a vote for the key?
spec fn has_vote(votes: Seq<Vote>, key: Seq<char>) -> bool {
    exists|k: int| 0 <= k < votes.len() && (#[trigger] votes[k]).key == key
}

/// Every key has one vote, which counts the names that chose it.
proof fn lemma_votes(items: Seq<Choice>)
    ensures
        keys_differ(votes_of(items)),
        forall|k: int|
            0 <= k < votes_of(items).len() ==> (#[trigger] votes_of(items)[k]).count == tally(
                items,
                votes_of(items)[k].key,
            ),
        forall|key: Seq<char>| #[trigger] has_vote(votes_of(items), key) <==> tally(items, key) > 0,
    decreases items.len(),
{
    if items.len() > 0 {
        let head = items.drop_last();
        let last = items.last();
        let u = votes_of(head);
        let v = votes_of(items);
        lemma_votes(head);
        lemma_cast(u, last.key, last.display, last.fix);
        assert forall|k: int| 0 <= k < u.len() && (#[trigger] u[k]).key == last.key implies first_vote(
            u,
            last.key,
            k,
        ) by {
        }
        assert forall|i: int, j: int| 0 <= i < j < v.len() implies (#[trigger] v[i]).key != (#[trigger] v[j]).key by {
            if j == u.len() {
                assert(u[i].key == v[i].key);
            } else {
                assert(u[i].key != u[j].key);
            }
        }
        assert forall|k: int| 0 <= k < v.len() implies (#[trigger] v[k]).count == tally(items, v[k].key) by {
            if k < u.len() {
                assert(u[k].count == tally(head, u[k].key));
            } else {
                assert(!has_vote(u, last.key));
            }
        }
        assert forall|key: Seq<char>| #[trigger] has_vote(v, key) <==> tally(items, key) > 0 by {
            assert(has_vote(u, key) <==> tally(head, key) > 0);
            if has_vote(u, key) {
                let k = choose|k: int| 0 <= k < u.len() && (#[trigger] u[k]).key == key;
                assert(v[k].key == key);
            }
            if has_vote(v, key) {
                let k = choose|k: int| 0 <= k < v.len() && (#[trigger] v[k]).key == key;
                if k < u.len() {
                    assert(u[k].key == key);
                }
            }
            if last.key == key && v.len() > u.len() {
                assert(v[u.len() as int].key == key);
            }
        }
    }
}

proof fn lemma_tallied(items: Seq<Choice>, i: int)
    requires
        0 <= i < items.len(),
    ensures
        tally(items, items[i].key) > 0,
    decreases items.len(),
{
    if i < items.len() - 1 {
        lemma_tallied(items.drop_last(), i);
    }
}

/// Every vote shows what one of the names chose.
proof fn lemma_shown(items: Seq<Choice>, k: int) -> (i: int)
    requires
        0 <= k < votes_of(items).len(),
    ensures
        shows(items, votes_of(items)[k], i),
    decreases items.len(),
{
    let head = items.drop_last();
    let last = items.last();
    let u = votes_of(head);
    let v = votes_of(items);
    lemma_cast(u, last.key, last.display, last.fix);
    lemma_votes(head);
    if k < u.len() && !(u[k].key == last.key && last.fix) {
        let i = lemma_shown(head, k);
        assert(items[i] == head[i]);
        assert forall|j: int| 0 <= j < items.len() && (#[trigger] items[j]).key == v[k].key implies (items[i].fix && i
            < j ==> !items[j].fix) && (!items[i].fix ==> !items[j].fix && i <= j) by {
            if j < head.len() {
                assert(head[j] == items[j]);
            }
        }
        i
    } else {
        let i = items.len() - 1;
        if k < u.len() {
            assert(first_vote(u, last.key, k)) by {
                assert forall|j: int| 0 <= j < k implies (#[trigger] u[j]).key != last.key by {
                    assert(u[j].key != u[k].key);
                }
            }
        } else {
            assert(!has_vote(u, last.key));
            assert forall|j: int| 0 <= j < head.len() implies (#[trigger] items[j]).key != last.key by {
                lemma_tallied(head, j);
                assert(head[j] == items[j]);
            }
        }
        i
    }
}

spec fn base_choices(names: Seq<Seq<char>>) -> Seq<Choice> {
    Seq::new(
        names.len(),
        |i: int|
            Choice {
                key: lower_text(base_of(stem_of(names[i]))),
                display: base_of(stem_of(names[i])),
                fix: !is_marked(stem_of(names[i])),
            },
    )
}

spec fn ext_choices(names: Seq<Seq<char>>) -> Seq<Choice> {
    Seq::new(
        names.len(),
        |i: int| Choice { key: lower_text(ext_of(names[i])), display: ext_of(names[i]), fix: false },
    )
}

proof fn lemma_choices(names: Seq<Seq<char>>, n: nat)
    requires
        n <= names.len(),
    ensures
        base_votes(names, n) == votes_of(base_choices(names).take(n as int)),
        ext_votes(names, n) == votes_of(ext_choices(names).take(n as int)),
    decreases n,
{
    let b = base_choices(names);
    let e = ext_choices(names);
    if n > 0 {
        lemma_choices(names, (n - 1) as nat);
        assert(b.take(n as int).drop_last() =~= b.take(n - 1));
        assert(e.take(n as int).drop_last() =~= e.take(n - 1));
        assert(b.take(n as int).last() == b[n - 1]);
        assert(e.take(n as int).last() == e[n - 1]);
    } else {
        assert(b.take(0) =~= seq![]);
        assert(e.take(0) =~= seq![]);
    }
}

proof fn lemma_tallies(names: Seq<Seq<char>>, base: Seq<char>, ext: Seq<char>)
    ensures
        tally(base_choices(names), lower_text(base)) == bases_like(names, base),
        tally(ext_choices(names), lower_text(ext)) == exts_like(names, ext),
    decreases names.len(),
{
    if names.len() > 0 {
        lemma_tallies(names.drop_last(), base, ext);
        assert(base_choices(names).drop_last() =~= base_choices(names.drop_last()));
        assert(ext_choices(names).drop_last() =~= ext_choices(names.drop_last()));
    }
}

proof fn lemma_vote_at(items: Seq<Choice>, m: int) -> (k: int)
    requires
        0 <= m < items.len(),
    ensures
        0 <= k < votes_of(items).len(),
        votes_of(items)[k].key == items[m].key,
        votes_of(items)[k].count == tally(items, items[m].key),
{
    lemma_votes(items);
    lemma_tallied(items, m);
    assert(has_vote(votes_of(items), items[m].key));
    choose|k: int| 0 <= k < votes_of(items).len() && (#[trigger] votes_of(items)[k]).key == items[m].key
}

/// The vote that wins has the most names; of those with as many, where short
/// ones are preferred, none is shorter; and of those none comes before it.
proof fn lemma_winning_choice(items: Seq<Choice>, short: bool) -> (r: (int, int))
    requires
        items.len() > 0,
    ensures
        ({
            let v = votes_of(items);
            &&& r.0 == winner(v, v.len(), short)
            &&& 0 <= r.0 < v.len()
            &&& shows(items, v[r.0], r.1)
            &&& forall|m: int|
                0 <= m < items.len() ==> tally(items, v[r.0].key) >= tally(items, (#[trigger] items[m]).key)
            &&& forall|k: int|
                0 <= k < v.len() && (#[trigger] v[k]).count == v[r.0].count ==> !wins(v[k], v[r.0], short)
        }),
{
    let v = votes_of(items);
    lemma_votes(items);
    lemma_tallied(items, 0);
    assert(has_vote(v, items[0].key));
    winner_is_not_beaten(v, v.len(), short);
    let w = winner(v, v.len(), short);
    let i = lemma_shown(items, w);
    assert forall|m: int| 0 <= m < items.len() implies tally(items, v[w].key) >= tally(
        items,
        (#[trigger] items[m]).key,
    ) by {
        lemma_tallied(items, m);
        assert(has_vote(v, items[m].key));
        let k = choose|k: int| 0 <= k < v.len() && (#[trigger] v[k]).key == items[m].key;
        assert(!wins(v[k], v[w], short));
        assert(v[k].count == tally(items, v[k].key));
        assert(v[w].count == tally(items, v[w].key));
    }
    (w, i)
}

proof fn lemma_bytes(s: Seq<char>, t: Seq<char>)
    requires
        lower_text(s) == lower_text(t),
    ensures
        vstd::utf8::encode_utf8(s).len() == vstd::utf8::encode_utf8(t).len(),
    decreases s.len(),
{
    assert(lower_text(s).len() == s.len() && lower_text(t).len() == t.len());
    if s.len() > 0 {
        let a = s[0];
        let b = t[0];
        assert(lower_text(s)[0] == lower_text(t)[0]);
        assert(lower_text(s)[0] == crate::text::lower(s[0]));
        assert(lower_text(t)[0] == crate::text::lower(t[0]));
        assert(crate::text::lower(a) == crate::text::lower(b));
        assert(lower_text(s.drop_first()) =~= lower_text(s).drop_first());
        assert(lower_text(t.drop_first()) =~= lower_text(t).drop_first());
        lemma_bytes(s.drop_first(), t.drop_first());
        assert(vstd::utf8::encode_scalar(a as u32).len() == vstd::utf8::encode_scalar(b as u32).len());
    }
}

/// The canonical name is made of the base and of the extension that most of
/// the names have: for every name of the group, as many have the base of the
/// canonical name as have the base of that name, and the extension likewise.
/// The base is spelt as in the last name without a marker that has it, and as
/// in the first name that has it where all carry one; the extension as in the
/// first name that has it. Of bases that as many names have, none is shorter,
/// and of such extensions none comes before it in the dictionary.
pub proof fn canonical_names_go_by_majority(names: Seq<Seq<char>>) -> (at: (int, int))
    requires
        names.len() > 0,
    ensures
        0 <= at.0 < names.len(),
        0 <= at.1 < names.len(),
        canonical_text(names) == base_of(stem_of(names[at.0])) + ext_of(names[at.1]),
        forall|m: int|
            0 <= m < names.len() ==> bases_like(names, base_of(stem_of(names[at.0]))) >= bases_like(
                names,
                base_of(stem_of(#[trigger] names[m])),
            ),
        forall|m: int|
            0 <= m < names.len() ==> exts_like(names, ext_of(names[at.1])) >= exts_like(
                names,
                ext_of(#[trigger] names[m]),
            ),
        forall|m: int|
            0 <= m < names.len() && lower_text(base_of(stem_of(#[trigger] names[m]))) == lower_text(
                base_of(stem_of(names[at.0])),
            ) ==> if is_marked(stem_of(names[at.0])) {
                is_marked(stem_of(names[m])) && at.0 <= m
            } else {
                is_marked(stem_of(names[m])) || m <= at.0
            },
        forall|m: int|
            0 <= m < names.len() && lower_text(ext_of(#[trigger] names[m])) == lower_text(ext_of(names[at.1]))
                ==> at.1 <= m,
        forall|m: int|
            0 <= m < names.len() && bases_like(names, base_of(stem_of(#[trigger] names[m]))) == bases_like(
                names,
                base_of(stem_of(names[at.0])),
            ) ==> vstd::utf8::encode_utf8(base_of(stem_of(names[at.0]))).len() <= vstd::utf8::encode_utf8(
                base_of(stem_of(names[m])),
            ).len(),
        forall|m: int|
            0 <= m < names.len() && exts_like(names, ext_of(#[trigger] names[m])) == exts_like(
                names,
                ext_of(names[at.1]),
            ) && (forall|j: int| 0 <= j < m ==> lower_text(ext_of(#[trigger] names[j])) != lower_text(ext_of(names[m])))
                ==> !text_before(ext_of(names[m]), ext_of(names[at.1])),
{
    let n = names.len();
    let b = base_choices(names);
    let e = ext_choices(names);
    lemma_choices(names, n);
    assert(b.take(n as int) =~= b);
    assert(e.take(n as int) =~= e);
    let (w, i) = lemma_winning_choice(b, true);
    let (x, j) = lemma_winning_choice(e, false);
    assert forall|m: int| 0 <= m < names.len() implies bases_like(names, base_of(stem_of(names[i]))) >= bases_like(
        names,
        base_of(stem_of(#[trigger] names[m])),
    ) by {
        lemma_tallies(names, base_of(stem_of(names[m])), seq![]);
        lemma_tallies(names, base_of(stem_of(names[i])), seq![]);
        assert(b[m].key == lower_text(base_of(stem_of(names[m]))));
    }
    assert forall|m: int| 0 <= m < names.len() implies exts_like(names, ext_of(names[j])) >= exts_like(
        names,
        ext_of(#[trigger] names[m]),
    ) by {
        lemma_tallies(names, seq![], ext_of(names[m]));
        lemma_tallies(names, seq![], ext_of(names[j]));
        assert(e[m].key == lower_text(ext_of(names[m])));
    }
    assert forall|m: int|
        0 <= m < names.len() && lower_text(base_of(stem_of(#[trigger] names[m]))) == lower_text(
            base_of(stem_of(names[i])),
        ) implies if is_marked(stem_of(names[i])) {
        is_marked(stem_of(names[m])) && i <= m
    } else {
        is_marked(stem_of(names[m])) || m <= i
    } by {
        assert(b[m].key == votes_of(b)[w].key);
    }
    assert forall|m: int|
        0 <= m < names.len() && lower_text(ext_of(#[trigger] names[m])) == lower_text(ext_of(names[j])) implies j
        <= m by {
        assert(e[m].key == votes_of(e)[x].key);
    }
    assert forall|m: int|
        0 <= m < names.len() && bases_like(names, base_of(stem_of(#[trigger] names[m]))) == bases_like(
            names,
            base_of(stem_of(names[i])),
        ) implies vstd::utf8::encode_utf8(base_of(stem_of(names[i]))).len() <= vstd::utf8::encode_utf8(
        base_of(stem_of(names[m])),
    ).len() by {
        lemma_tallies(names, base_of(stem_of(names[m])), seq![]);
        lemma_tallies(names, base_of(stem_of(names[i])), seq![]);
        let k = lemma_vote_at(b, m);
        let t = lemma_shown(b, k);
        lemma_votes(b);
        assert(votes_of(b)[k].count == votes_of(b)[w].count);
        assert(!wins(votes_of(b)[k], votes_of(b)[w], true));
        lemma_bytes(votes_of(b)[k].display, base_of(stem_of(names[m])));
    }
    assert forall|m: int|
        0 <= m < names.len() && exts_like(names, ext_of(#[trigger] names[m])) == exts_like(names, ext_of(names[j]))
            && (forall|h: int| 0 <= h < m ==> lower_text(ext_of(#[trigger] names[h])) != lower_text(ext_of(names[m])))
        implies !text_before(ext_of(names[m]), ext_of(names[j])) by {
        lemma_tallies(names, seq![], ext_of(names[m]));
        lemma_tallies(names, seq![], ext_of(names[j]));
        let k = lemma_vote_at(e, m);
        let t = lemma_shown(e, k);
        lemma_votes(e);
        assert(e[m].key == votes_of(e)[k].key);
        assert(t <= m);
        assert(lower_text(ext_of(names[t])) == lower_text(ext_of(names[m])));
        assert(t == m);
        assert(votes_of(e)[k].count == votes_of(e)[x].count);
        assert(!wins(votes_of(e)[k], votes_of(e)[x], false));
    }
    (i, j)
}

/// How many names have a base, and how many an extension, is counted over
/// the names one by one.
pub proof fn likes_are_counted_name_by_name(names: Seq<Seq<char>>, base: Seq<char>, ext: Seq<char>)
    ensures
        bases_like(names, base) == names.filter(
            |n: Seq<char>| lower_text(base_of(stem_of(n))) == lower_text(base),
        ).len(),
        exts_like(names, ext) == names.filter(|n: Seq<char>| lower_text(ext_of(n)) == lower_text(ext)).len(),
    decreases names.len(),
{
    reveal(Seq::filter);
    if names.len() > 0 {
        likes_are_counted_name_by_name(names.drop_last(), base, ext);
    }
}

/// Some extensions have two parts and stay whole, whatever the case.
pub proof fn double_extensions_stay_whole(stem: Seq<char>, ext: Seq<char>)
    requires
        stem.len() > 0,
        lower_text(ext) == ".tar.gz"@ || lower_text(ext) == ".tar.bz2"@ || lower_text(ext) == ".tar.xz"@
            || lower_text(ext) == ".tar.zst"@ || lower_text(ext) == ".user.js"@ || lower_text(ext) == ".d.ts"@,
    ensures
        stem_of(stem + ext) == stem,
        ext_of(stem + ext) == ext,
{
    reveal_strlit(".tar.gz");
    reveal_strlit(".tar.bz2");
    reveal_strlit(".tar.xz");
    reveal_strlit(".tar.zst");
    reveal_strlit(".user.js");
    reveal_strlit(".d.ts");
    let name = stem + ext;
    let low = lower_text(name);
    let e = lower_text(ext);
    assert(low == lower_text(stem) + e);
    assert(low.skip(low.len() - e.len()) == e);
    assert(ends_longer(low, e));
    let n = low.len() as int;
    assert(low.last() == e.last());
    assert(low[n - 2] == e[e.len() - 2]);
    assert(ends_longer(low, ".tar.gz"@) ==> low[n - 1] == 'z' && low[n - 2] == 'g') by {
        if ends_longer(low, ".tar.gz"@) {
            assert(low.skip(n - 7)[6] == ".tar.gz"@[6] && low.skip(n - 7)[5] == ".tar.gz"@[5]);
        }
    }
    assert(ends_longer(low, ".tar.bz2"@) ==> low[n - 1] == '2' && low[n - 2] == 'z') by {
        if ends_longer(low, ".tar.bz2"@) {
            assert(low.skip(n - 8)[7] == ".tar.bz2"@[7] && low.skip(n - 8)[6] == ".tar.bz2"@[6]);
        }
    }
    assert(ends_longer(low, ".tar.xz"@) ==> low[n - 1] == 'z' && low[n - 2] == 'x') by {
        if ends_longer(low, ".tar.xz"@) {
            assert(low.skip(n - 7)[6] == ".tar.xz"@[6] && low.skip(n - 7)[5] == ".tar.xz"@[5]);
        }
    }
    assert(ends_longer(low, ".tar.zst"@) ==> low[n - 1] == 't' && low[n - 2] == 's') by {
        if ends_longer(low, ".tar.zst"@) {
            assert(low.skip(n - 8)[7] == ".tar.zst"@[7] && low.skip(n - 8)[6] == ".tar.zst"@[6]);
        }
    }
    assert(ends_longer(low, ".user.js"@) ==> low[n - 1] == 's' && low[n - 2] == 'j') by {
        if ends_longer(low, ".user.js"@) {
            assert(low.skip(n - 8)[7] == ".user.js"@[7] && low.skip(n - 8)[6] == ".user.js"@[6]);
        }
    }
    assert(compound_len(low) == ext.len());
    assert(name.take(stem.len() as int) == stem);
    assert(name.skip(stem.len() as int) == ext);
}

/// Any other extension is the last dot and what follows it; a name without a
/// dot, or with one only at its beginning or its end, has none.
pub proof fn other_extensions_begin_at_the_last_dot(stem: Seq<char>, ext: Seq<char>)
    requires
        !ext.contains('.'),
        forall|p: Seq<char>|
            p == ".tar.gz"@ || p == ".tar.bz2"@ || p == ".tar.xz"@ || p == ".tar.zst"@ || p == ".user.js"@ || p
                == ".d.ts"@ ==> !(#[trigger] p.is_suffix_of(lower_text(stem + "."@ + ext))),
    ensures
        stem.len() > 0 && ext.len() > 0 ==> stem_of(stem + "."@ + ext) == stem && ext_of(stem + "."@ + ext)
            == "."@ + ext,
        ext.len() == 0 ==> stem_of(stem + "."@ + ext) == stem + "."@ && ext_of(stem + "."@ + ext).len() == 0,
        stem.len() == 0 ==> stem_of(stem + "."@ + ext) == "."@ + ext,
{
    reveal_strlit(".");
    let name = stem + "."@ + ext;
    let low = lower_text(name);
    lemma_no_suffix(low, ".tar.gz"@);
    lemma_no_suffix(low, ".tar.bz2"@);
    lemma_no_suffix(low, ".tar.xz"@);
    lemma_no_suffix(low, ".tar.zst"@);
    lemma_no_suffix(low, ".user.js"@);
    lemma_no_suffix(low, ".d.ts"@);
    assert(compound_len(low) == 0);
    lemma_last_of(name, '.');
    assert(name[stem.len() as int] == '.');
    assert forall|i: int| stem.len() < i < name.len() implies name[i] != '.' by {
        assert(name[i] == ext[i - stem.len() - 1]);
        assert(ext.contains(ext[i - stem.len() - 1]));
    }
    assert(last_of(name, '.') == stem.len());
    assert(name.take(stem.len() as int) == stem);
    assert(name.skip(stem.len() as int) == "."@ + ext);
    assert(name.take(name.len() as int) == name);
    assert(ext.len() == 0 ==> name == stem + "."@);
    assert(stem.len() == 0 ==> name == "."@ + ext);
}

proof fn lemma_no_suffix(s: Seq<char>, p: Seq<char>)
    ensures
        has_suffix(s, p) ==> p.is_suffix_of(s),
{
    if has_suffix(s, p) {
        assert(s.subrange(s.len() - p.len(), s.len() as int) == s.skip(s.len() - p.len()));
    }
}

/// Three openings of a name say that it is a copy, whatever the case, where
/// something follows them.
pub proof fn copies_have_three_openings(s: Seq<char>)
    ensures
        ({
            let low = lower_text(s);
            &&& "copy of "@.is_prefix_of(low) && s.len() > 8 ==> prefix_len(s) == 8
            &&& "kopie von "@.is_prefix_of(low) && s.len() > 10 ==> prefix_len(s) == 10
            &&& "copie de "@.is_prefix_of(low) && s.len() > 9 ==> prefix_len(s) == 9
            &&& !"copy of "@.is_prefix_of(low) && !"kopie von "@.is_prefix_of(low) && !"copie de "@.is_prefix_of(low)
                ==> prefix_len(s) == 0
            &&& s.len() <= 8 ==> prefix_len(s) == 0
        }),
        prefix_len(s) > 0 ==> strips_a_word(s),
{
    reveal_strlit("copy of ");
    reveal_strlit("kopie von ");
    reveal_strlit("copie de ");
    let low = lower_text(s);
    lemma_prefixes(low, "copy of "@);
    lemma_prefixes(low, "kopie von "@);
    lemma_prefixes(low, "copie de "@);
    assert("copy of "@.is_prefix_of(low) ==> low[0] == 'c' && low[3] == 'y') by {
        if "copy of "@.is_prefix_of(low) {
            assert(low.subrange(0, 8)[0] == "copy of "@[0] && low.subrange(0, 8)[3] == "copy of "@[3]);
        }
    }
    assert("kopie von "@.is_prefix_of(low) ==> low[0] == 'k') by {
        if "kopie von "@.is_prefix_of(low) {
            assert(low.subrange(0, 10)[0] == "kopie von "@[0]);
        }
    }
    assert("copie de "@.is_prefix_of(low) ==> low[0] == 'c' && low[3] == 'i') by {
        if "copie de "@.is_prefix_of(low) {
            assert(low.subrange(0, 9)[0] == "copie de "@[0] && low.subrange(0, 9)[3] == "copie de "@[3]);
        }
    }
}

proof fn lemma_prefixes(s: Seq<char>, p: Seq<char>)
    ensures
        has_prefix(s, p) <==> p.is_prefix_of(s),
{
    if p.len() <= s.len() {
        assert(s.subrange(0, p.len() as int) == s.take(p.len() as int));
    }
}

proof fn lemma_drops_all(base: Seq<char>, seps: Seq<char>)
    requires
        base.len() == 0 || !is_separator(base.last()),
        forall|i: int| 0 <= i < seps.len() ==> is_separator(#[trigger] seps[i]),
    ensures
        drop_separators(base + seps) == base,
    decreases seps.len(),
{
    if seps.len() == 0 {
        assert(base + seps == base);
    } else {
        let rest = seps.drop_last();
        assert forall|i: int| 0 <= i < rest.len() implies is_separator(#[trigger] rest[i]) by {
            assert(rest[i] == seps[i]);
        }
        assert(is_separator(seps[seps.len() - 1]));
        assert((base + seps).last() == seps.last());
        assert((base + seps).drop_last() == base + rest);
        lemma_drops_all(base, rest);
    }
}

/// The openings that `copies_have_three_openings` speaks of, none of which
/// the text has.
spec fn opens_plainly(s: Seq<char>) -> bool {
    let low = lower_text(s);
    !"copy of "@.is_prefix_of(low) && !"kopie von "@.is_prefix_of(low) && !"copie de "@.is_prefix_of(low)
}

/// A number in brackets at the end goes, with the blanks, hyphens and
/// underscores before it, and is a certain sign of a copy.
pub proof fn numbers_in_brackets_go(base: Seq<char>, seps: Seq<char>, digits: Seq<char>)
    requires
        base.len() > 0,
        base.last() != ' ' && base.last() != '-' && base.last() != '_',
        forall|i: int| 0 <= i < seps.len() ==> (#[trigger] seps[i]) == ' ' || seps[i] == '-' || seps[i] == '_',
        digits.len() > 0,
        forall|i: int| 0 <= i < digits.len() ==> '0' <= (#[trigger] digits[i]) <= '9',
        ({
            let low = lower_text(base + seps + "("@ + digits + ")"@);
            !"copy of "@.is_prefix_of(low) && !"kopie von "@.is_prefix_of(low) && !"copie de "@.is_prefix_of(low)
        }),
    ensures
        strip_once(base + seps + "("@ + digits + ")"@) == base,
        strips_a_word(base + seps + "("@ + digits + ")"@),
{
    reveal_strlit("(");
    reveal_strlit(")");
    let s = base + seps + "("@ + digits + ")"@;
    copies_have_three_openings(s);
    let low = lower_text(s);
    let at = (base.len() + seps.len()) as int;
    assert(low.last() == ')');
    assert(!is_space(')'));
    assert(trim_end(low) == low);
    assert(s.skip(0) == s);
    lemma_last_of(low, '(');
    assert(low[at] == '(');
    assert forall|i: int| at < i < low.len() implies low[i] != '(' by {
        if i < low.len() - 1 {
            assert(s[i] == digits[i - at - 1]);
        }
    }
    let inner = low.subrange(at + 1, low.len() - 1);
    assert forall|i: int| 0 <= i < inner.len() implies is_digit(#[trigger] inner[i]) by {
        assert(s[at + 1 + i] == digits[i]);
    }
    assert(paren_cut(low) == Some(at));
    reveal(word_cut);
    reveal(cut_of);
    assert(s.take(at) == base + seps);
    lemma_drops_all(base, seps);
}

proof fn lemma_trim_keeps(s: Seq<char>, i: int)
    requires
        0 <= i < s.len(),
        !is_space(s[i]),
    ensures
        exists|j: int| 0 <= j < trim(s).len() && #[trigger] trim(s)[j] == s[i],
{
    lemma_trim_end_keeps(s, i);
    let t = trim_end(s);
    lemma_trim_start_keeps(t, i);
    let j = choose|j: int| 0 <= j < trim_start(t).len() && #[trigger] trim_start(t)[j] == t[i];
    assert(trim(s)[j] == s[i]);
}

proof fn lemma_trim_end_keeps(s: Seq<char>, i: int)
    requires
        0 <= i < s.len(),
        !is_space(s[i]),
    ensures
        i < trim_end(s).len(),
        trim_end(s)[i] == s[i],
    decreases s.len(),
{
    if is_space(s.last()) {
        lemma_trim_end_keeps(s.drop_last(), i);
    }
}

proof fn lemma_trim_start_keeps(s: Seq<char>, i: int)
    requires
        0 <= i < s.len(),
        !is_space(s[i]),
    ensures
        exists|j: int| 0 <= j < trim_start(s).len() && #[trigger] trim_start(s)[j] == s[i],
    decreases s.len(),
{
    if is_space(s[0]) {
        let rest = s.drop_first();
        lemma_trim_start_keeps(rest, i - 1);
        let j = choose|j: int| 0 <= j < trim_start(rest).len() && #[trigger] trim_start(rest)[j] == rest[i - 1];
        assert(trim_start(s)[j] == s[i]);
    } else {
        assert(trim_start(s)[i] == s[i]);
    }
}

/// What may follow a copy word: nothing, or a blank and up to three digits.
spec fn is_count(tail: Seq<char>) -> bool {
    tail.len() == 0 || (2 <= tail.len() <= 4 && tail[0] == ' ' && forall|i: int|
        1 <= i < tail.len() ==> '0' <= #[trigger] tail[i] <= '9')
}

proof fn lemma_count_is_tail(tail: Seq<char>)
    requires
        is_count(tail),
    ensures
        tail_ok(tail),
{
    if tail.len() > 0 {
        let digits = tail.drop_first();
        let none = Seq::<char>::empty();
        assert(digits[0] == tail[1] && digits.last() == tail[tail.len() - 1]);
        assert(is_space(' '));
        assert(seq![' '] + digits + none == tail);
        crate::text::trimming_takes_the_outer_spaces(seq![' '], digits, none);
        assert forall|i: int| 0 <= i < digits.len() implies is_digit(#[trigger] digits[i]) by {
            assert(digits[i] == tail[i + 1]);
        }
    }
}

/// Is the text one of the copy words, in small letters, with the separator
/// before it?
spec fn is_copy_word(m: Seq<char>) -> bool {
    m == " - copy"@ || m == " copy"@ || m == "-copy"@ || m == "_copy"@ || m == " duplicate"@ || m == "_duplicate"@
        || m == "-duplicate"@
}

proof fn lemma_word(m: Seq<char>)
    requires
        is_copy_word(m),
    ensures
        m.len() >= 5,
        m.last() == 'y' || m.last() == 'e',
        m[0] == ' ' || m[0] == '-' || m[0] == '_',
        m == " - copy"@ ==> m.len() == 7 && m[1] == '-' && m[2] == ' ' && m[6] == 'y',
        m == " copy"@ ==> m.len() == 5 && m[0] == ' ' && m[4] == 'y',
        m == "-copy"@ ==> m.len() == 5 && m[0] == '-' && m[4] == 'y',
        m == "_copy"@ ==> m.len() == 5 && m[0] == '_' && m[4] == 'y',
        m == " duplicate"@ ==> m.len() == 10 && m[0] == ' ' && m[9] == 'e',
        m == "-duplicate"@ ==> m.len() == 10 && m[0] == '-' && m[9] == 'e',
        m == "_duplicate"@ ==> m.len() == 10 && m[0] == '_' && m[9] == 'e',
{
    reveal_strlit(" - copy");
    reveal_strlit(" copy");
    reveal_strlit("-copy");
    reveal_strlit("_copy");
    reveal_strlit(" duplicate");
    reveal_strlit("_duplicate");
    reveal_strlit("-duplicate");
    assert(m.last() == m[m.len() - 1]);
}

/// A copy word is only cut off where the rest is a count; so where a text
/// ends in one with a count, no other word is cut off than one that ends
/// there too.
proof fn lemma_other_words(head: Seq<char>, m: Seq<char>, tail: Seq<char>, other: Seq<char>)
    requires
        is_copy_word(m),
        is_copy_word(other),
        is_count(tail),
        !has_suffix(head + m, other),
    ensures
        marker_cut(head + m + tail, other) is None,
{
    let t = head + m + tail;
    lemma_word(m);
    lemma_word(other);
    lemma_last_found(t, other);
    let pos = last_found(t, other);
    let e = pos + other.len();
    let f = (head.len() + m.len()) as int;
    if marker_cut(t, other) is Some {
        let rest = t.skip(e);
        assert(t.subrange(pos, e) == other);
        assert(t[e - 1] == other.last()) by {
            assert(t.subrange(pos, e)[other.len() - 1] == other[other.len() - 1]);
        }
        assert(t[f - 1] == m.last());
        if e > f {
            assert(t[e - 1] == tail[e - 1 - f]);
            assert(false);
        } else if e < f {
            assert(rest[f - 1 - e] == m.last());
            assert(!is_space(m.last()));
            lemma_trim_keeps(rest, f - 1 - e);
            let j = choose|j: int| 0 <= j < trim(rest).len() && #[trigger] trim(rest)[j] == rest[f - 1 - e];
            assert(is_digit(trim(rest)[j]));
            assert(false);
        } else {
            let whole = head + m;
            assert(whole.skip(whole.len() - other.len()) == other) by {
                assert forall|i: int| 0 <= i < other.len() implies whole[pos + i] == other[i] by {
                    assert(t.subrange(pos, e)[i] == other[i]);
                    assert(t[pos + i] == whole[pos + i]);
                }
            }
            assert(false);
        }
    }
}

proof fn lemma_found_last(head: Seq<char>, m: Seq<char>, tail: Seq<char>)
    requires
        m.len() > 0,
        forall|i: int| 0 <= i < tail.len() ==> (#[trigger] tail[i]) != m.last(),
    ensures
        last_found(head + m + tail, m) == head.len(),
{
    let t = head + m + tail;
    let at = head.len() as int;
    let n = m.len() as int;
    assert(t.subrange(at, at + n) == m);
    crate::text::the_last_place_is_found(t, m, at);
    let pos = last_found(t, m);
    let there = t.subrange(pos, pos + n);
    if pos > at {
        assert(there[n - 1] == t[pos + n - 1]);
        assert(t[pos + n - 1] == tail[pos - at - 1]);
    }
}

proof fn lemma_this_word(head: Seq<char>, m: Seq<char>, tail: Seq<char>)
    requires
        head.len() > 0,
        m.len() > 0,
        m.last() == 'y' || m.last() == 'e',
        is_count(tail),
    ensures
        marker_cut(head + m + tail, m) == Some(head.len() as int),
{
    lemma_found_last(head, m, tail);
    lemma_count_is_tail(tail);
    assert((head + m + tail).skip((head.len() + m.len()) as int) == tail);
}

proof fn lemma_not_after(head: Seq<char>, m: Seq<char>, other: Seq<char>)
    requires
        head.len() > 0,
        head.last() != '-',
        is_copy_word(m),
        is_copy_word(other),
        m != other,
        m != " - copy"@,
    ensures
        !has_suffix(head + m, other),
{
    lemma_word(m);
    lemma_word(other);
    let whole = head + m;
    if has_suffix(whole, other) {
        let n = whole.len() as int;
        let k = other.len() as int;
        let end = whole.skip(n - k);
        assert(end == other);
        assert(end[k - 1] == whole[n - 1] && whole[n - 1] == m.last());
        assert(m.len() == k ==> end[0] == whole[n - k] && whole[n - k] == m[0]);
        if other == " - copy"@ {
            assert(m.len() == 5);
            assert(end[2] == whole[n - 5] && whole[n - 5] == m[0]);
            assert(end[1] == whole[n - 6] && whole[n - 6] == head.last());
        }
    }
}

/// The words `copy` and `duplicate` at the end of a name go, with the
/// separator before them and a count of up to three digits behind them, and
/// are a certain sign of a copy. The case does not matter.
pub proof fn copy_words_go(base: Seq<char>, word: Seq<char>, digits: Seq<char>)
    requires
        base.len() > 0,
        base.last() != ' ' && base.last() != '-' && base.last() != '_',
        lower_text(word) == " - copy"@ || lower_text(word) == " copy"@ || lower_text(word) == "-copy"@ || lower_text(
            word,
        ) == "_copy"@ || lower_text(word) == " duplicate"@ || lower_text(word) == "_duplicate"@ || lower_text(word)
            == "-duplicate"@,
        digits.len() <= 3,
        forall|i: int| 0 <= i < digits.len() ==> '0' <= (#[trigger] digits[i]) <= '9',
        ({
            let low = lower_text(base + word + " "@ + digits);
            !"copy of "@.is_prefix_of(low) && !"kopie von "@.is_prefix_of(low) && !"copie de "@.is_prefix_of(low)
        }),
    ensures
        digits.len() > 0 ==> strip_once(base + word + " "@ + digits) == base && strips_a_word(
            base + word + " "@ + digits,
        ),
        strip_once(base + word) == base && strips_a_word(base + word),
{
    reveal_strlit(" ");
    let numbered = base + word + " "@ + digits;
    let bare = base + word;
    let none = Seq::<char>::empty();
    assert(bare + none == bare);
    copies_have_three_openings(numbered);
    lemma_shorter_opens(bare, " "@ + digits);
    assert(bare + (" "@ + digits) == numbered);
    copies_have_three_openings(bare);
    let tail = " "@ + digits;
    if digits.len() > 0 {
        assert forall|i: int| 1 <= i < tail.len() implies '0' <= #[trigger] tail[i] <= '9' by {
            assert(tail[i] == digits[i - 1]);
        }
        lemma_word_goes(base, word, tail);
    }
    lemma_word_goes(base, word, none);
}

proof fn lemma_shorter_opens(s: Seq<char>, more: Seq<char>)
    requires
        opens_plainly(s + more),
    ensures
        opens_plainly(s),
{
    let low = lower_text(s);
    let long = lower_text(s + more);
    assert(long.subrange(0, low.len() as int) == low);
    lemma_prefix_of_longer("copy of "@, low, long);
    lemma_prefix_of_longer("kopie von "@, low, long);
    lemma_prefix_of_longer("copie de "@, low, long);
}

proof fn lemma_prefix_of_longer(p: Seq<char>, low: Seq<char>, long: Seq<char>)
    requires
        low.len() <= long.len(),
        long.subrange(0, low.len() as int) == low,
    ensures
        p.is_prefix_of(low) ==> p.is_prefix_of(long),
{
    if p.is_prefix_of(low) {
        assert(long.subrange(0, p.len() as int) == low.subrange(0, p.len() as int));
    }
}

proof fn lemma_word_goes(base: Seq<char>, word: Seq<char>, tail: Seq<char>)
    requires
        base.len() > 0,
        base.last() != ' ' && base.last() != '-' && base.last() != '_',
        is_copy_word(lower_text(word)),
        is_count(tail),
        opens_plainly(base + word + tail),
    ensures
        strip_once(base + word + tail) == base,
        strips_a_word(base + word + tail),
{
    let s = base + word + tail;
    copies_have_three_openings(s);
    let b = lower_text(base);
    let m = lower_text(word);
    let low = lower_text(s);
    assert(low == b + m + tail) by {
        assert forall|i: int| 0 <= i < tail.len() implies crate::text::lower(tail[i]) == tail[i] by {}
    }
    lemma_word(m);
    assert(b.last() == crate::text::lower(base.last()));
    assert(low.last() != ')' && !is_space(low.last())) by {
        if tail.len() > 0 {
            assert(low.last() == tail[tail.len() - 1]);
        } else {
            assert(low.last() == m.last());
        }
    }
    assert(trim_end(low) == low);
    assert(s.skip(0) == s);
    assert(paren_cut(low) is None);
    assert(b.last() != '-');
    let a1 = " - copy"@;
    let a2 = " copy"@;
    let a3 = "-copy"@;
    let a4 = "_copy"@;
    let a5 = " duplicate"@;
    let a6 = "_duplicate"@;
    let a7 = "-duplicate"@;
    lemma_this_word(b, m, tail);
    if m != a1 {
        lemma_earlier(b, m, tail, a1);
        if m != a2 {
            lemma_earlier(b, m, tail, a2);
            if m != a3 {
                lemma_earlier(b, m, tail, a3);
                if m != a4 {
                    lemma_earlier(b, m, tail, a4);
                    if m != a5 {
                        lemma_earlier(b, m, tail, a5);
                        if m != a6 {
                            lemma_earlier(b, m, tail, a6);
                            assert(m == a7);
                        }
                    }
                }
            }
        }
    }
    assert(word_cut(low) == Some(b.len() as int)) by {
        reveal(word_cut);
    }
    reveal(cut_of);
    assert(s.take(b.len() as int) == base);
    assert(base + Seq::<char>::empty() == base);
    lemma_drops_all(base, Seq::<char>::empty());
}

proof fn lemma_earlier(head: Seq<char>, m: Seq<char>, tail: Seq<char>, other: Seq<char>)
    requires
        head.len() > 0,
        head.last() != '-',
        is_copy_word(m),
        is_copy_word(other),
        m != other,
        m != " - copy"@,
        is_count(tail),
    ensures
        marker_cut(head + m + tail, other) is None,
{
    lemma_not_after(head, m, other);
    lemma_other_words(head, m, tail, other);
}

/// A single digit from 2 to 9 behind a blank, a hyphen or an underscore goes
/// too, but alone is no certain sign of a copy.
pub proof fn single_digits_go(base: Seq<char>, sep: char, digit: char)
    requires
        base.len() > 0,
        base.last() != ' ' && base.last() != '-' && base.last() != '_',
        sep == ' ' || sep == '-' || sep == '_',
        '2' <= digit <= '9',
        !contains_text(lower_text(base), "copy"@),
        !contains_text(lower_text(base), "duplicate"@),
        ({
            let low = lower_text(base.push(sep).push(digit));
            !"copy of "@.is_prefix_of(low) && !"kopie von "@.is_prefix_of(low) && !"copie de "@.is_prefix_of(low)
        }),
    ensures
        strip_once(base.push(sep).push(digit)) == base,
        !strips_a_word(base.push(sep).push(digit)),
{
    let s = base.push(sep).push(digit);
    copies_have_three_openings(s);
    let b = lower_text(base);
    let low = lower_text(s);
    assert(low == b.push(sep).push(digit));
    assert(low.last() == digit && low[low.len() - 2] == sep);
    assert(!is_space(digit));
    assert(trim_end(low) == low);
    assert(s.skip(0) == s);
    assert(paren_cut(low) is None);
    reveal_strlit("copy");
    reveal_strlit("duplicate");
    reveal_strlit(" - copy");
    reveal_strlit(" copy");
    reveal_strlit("-copy");
    reveal_strlit("_copy");
    reveal_strlit(" duplicate");
    reveal_strlit("_duplicate");
    reveal_strlit("-duplicate");
    assert(" - copy"@.skip(3) == "copy"@);
    assert(" copy"@.skip(1) == "copy"@);
    assert("-copy"@.skip(1) == "copy"@);
    assert("_copy"@.skip(1) == "copy"@);
    assert(" duplicate"@.skip(1) == "duplicate"@);
    assert("_duplicate"@.skip(1) == "duplicate"@);
    assert("-duplicate"@.skip(1) == "duplicate"@);
    lemma_word_not_found(b, sep, digit, " - copy"@, 3, "copy"@);
    lemma_word_not_found(b, sep, digit, " copy"@, 1, "copy"@);
    lemma_word_not_found(b, sep, digit, "-copy"@, 1, "copy"@);
    lemma_word_not_found(b, sep, digit, "_copy"@, 1, "copy"@);
    lemma_word_not_found(b, sep, digit, " duplicate"@, 1, "duplicate"@);
    lemma_word_not_found(b, sep, digit, "_duplicate"@, 1, "duplicate"@);
    lemma_word_not_found(b, sep, digit, "-duplicate"@, 1, "duplicate"@);
    assert(word_cut(low) is None) by {
        reveal(word_cut);
    }
    reveal(cut_of);
    assert(cut_of(low) == Some(low.len() - 2));
    assert(s.take(low.len() - 2) == base);
    assert(base + Seq::<char>::empty() == base);
    lemma_drops_all(base, Seq::<char>::empty());
}

proof fn lemma_word_not_found(b: Seq<char>, sep: char, digit: char, m: Seq<char>, k: int, word: Seq<char>)
    requires
        0 <= k < m.len(),
        m.skip(k) == word,
        word.len() >= 4,
        word.last() == 'y' || word.last() == 'e',
        sep == ' ' || sep == '-' || sep == '_',
        '2' <= digit <= '9',
        !contains_text(b, word),
    ensures
        marker_cut(b.push(sep).push(digit), m) is None,
{
    let t = b.push(sep).push(digit);
    lemma_last_found(t, m);
    let pos = last_found(t, m);
    if pos >= 0 {
        let e = pos + m.len();
        assert(t.subrange(pos, e) == m);
        assert(m.skip(k).last() == m.last());
        assert(t.subrange(pos, e)[m.len() - 1] == m.last());
        assert(t[e - 1] == m.last());
        assert(e - 1 < b.len());
        assert(b.subrange(pos + k, pos + k + word.len()) == word) by {
            assert forall|i: int| 0 <= i < word.len() implies b[pos + k + i] == word[i] by {
                assert(m.skip(k)[i] == m[k + i]);
                assert(t.subrange(pos, e)[k + i] == m[k + i]);
            }
        }
        assert(false);
    }
}

/// Markers are stripped one after another until none is left: what one
/// stripping leaves has the same base, and a name that loses a word at the
/// first stripping is a copy for certain.
pub proof fn markers_go_one_after_another(stem: Seq<char>)
    requires
        stem.len() > 0,
        !is_space(stem[0]) && !is_space(stem.last()),
        0 < strip_once(stem).len() < stem.len(),
        !is_space(strip_once(stem)[0]) && !is_space(strip_once(stem).last()),
    ensures
        strip_once(strip_once(stem)) == strip_once(stem) ==> base_of(stem) == strip_once(stem) && is_marked(stem),
        is_marked(strip_once(stem)) ==> base_of(stem) == base_of(strip_once(stem)) && is_marked(stem),
        strips_a_word(stem) ==> is_unambiguous(stem),
        !strips_a_word(stem) ==> (is_unambiguous(stem) <==> is_unambiguous(strip_once(stem))),
{
    let none = Seq::<char>::empty();
    let n = strip_once(stem);
    crate::text::trimming_takes_the_outer_spaces(none, stem, none);
    crate::text::trimming_takes_the_outer_spaces(none, n, none);
    assert(none + stem + none == stem);
    assert(none + n + none == n);
    assert(strip_all(stem) == strip_all(n));
    lemma_strip_all(n);
    let (lo, hi) = choose|lo: int, hi: int|
        0 <= lo <= hi <= n.len() && strip_all(n) == #[trigger] n.subrange(lo, hi);
    assert(strip_all(n).len() <= n.len());
}

/// A name without a marker is its own base, and its stem no copy.
pub proof fn clean_names_are_their_own_base(stem: Seq<char>)
    requires
        stem.len() > 0,
        !is_space(stem[0]) && !is_space(stem.last()),
        strip_once(stem) == stem,
    ensures
        base_of(stem) == stem,
        !is_marked(stem),
        !is_unambiguous(stem),
{
    let none = Seq::<char>::empty();
    crate::text::trimming_takes_the_outer_spaces(none, stem, none);
    assert(none + stem + none == stem);
    lemma_strip_once(stem);
    reveal(cut_of);
    assert(stem.skip(0) == stem);
}

/// The keeper gets the canonical name in its own folder, where a name of the
/// group carries a marker and none is the canonical one already, whatever
/// the case.
pub proof fn keepers_are_renamed_in_place(group: GroupView, keeper: int, dir: Seq<char>, name: Seq<char>)
    requires
        0 <= keeper < group.files.len(),
        crate::paths::is_plain_name(name),
        dir.len() > 0,
        dir.last() != '/',
        dir.len() > 1 && dir.last() == '.' ==> dir[dir.len() - 2] != '/',
        group.files[keeper].path == join_of(dir, name),
    ensures
        ({
            let names = names_of(group.files);
            let goal = rename_goal(group, keeper);
            &&& goal is Some <==> group.files.len() >= 2 && any_marked(names) && forall|i: int|
                0 <= i < names.len() ==> lower_text(#[trigger] names[i]) != lower_text(canonical_text(names))
            &&& goal is Some ==> (goal->0).1 == canonical_text(names) && (goal->0).0 == join_of(
                dir,
                canonical_text(names),
            )
        }),
{
    crate::paths::a_name_lies_in_its_folder(dir, name);
}

/// A name is taken for a copy where stripping its marker is certain, or
/// leaves the stem of a file of the group, whatever the case.
pub proof fn markers_count_with_their_namesakes(
    name: Seq<char>,
    counts: Map<Seq<char>, usize>,
    files: Seq<FileView>,
)
    requires
        counts_stems(counts, files, files.len()),
    ensures
        marked_in(name, counts) <==> is_marked(stem_of(name)) && (is_unambiguous(stem_of(name)) || exists|i: int|
            0 <= i < files.len() && file_name_of((#[trigger] files[i]).path) is Some && lower_text(
                stem_of(file_name_of(files[i].path)->0),
            ) == lower_text(base_of(stem_of(name)))),
{
    let stem = lower_text(base_of(stem_of(name)));
    assert(count_in(counts, stem) == stem_count(files, files.len(), stem));
    lemma_counted(files, files.len(), stem);
}

proof fn lemma_counted(files: Seq<FileView>, n: nat, stem: Seq<char>)
    requires
        n <= files.len(),
    ensures
        stem_count(files, n, stem) > 0 <==> exists|i: int|
            0 <= i < n && file_name_of((#[trigger] files[i]).path) is Some && lower_text(
                stem_of(file_name_of(files[i].path)->0),
            ) == stem,
    decreases n,
{
    if n > 0 {
        lemma_counted(files, (n - 1) as nat, stem);
        let last = files[n - 1];
        if stem_count(files, (n - 1) as nat, stem) > 0 {
            let i = choose|i: int|
                0 <= i < n - 1 && file_name_of((#[trigger] files[i]).path) is Some && lower_text(
                    stem_of(file_name_of(files[i].path)->0),
                ) == stem;
            assert(0 <= i < n && file_name_of(files[i].path) is Some);
        }
    }
}

/// A name that was never counted counts for nothing, and counting one adds
/// one to it alone.
pub proof fn counts_go_up_by_one(counts: Map<Seq<char>, usize>, a: Seq<char>, b: Seq<char>, n: usize)
    ensures
        !counts.contains_key(a) ==> count_in(counts, a) == 0,
        count_in(counts.insert(a, n), a) == n,
        a != b ==> count_in(counts.insert(a, n), b) == count_in(counts, b),
{
}

/// A group has a marked name where one of its names loses something to the
/// stripping, and `is_first_like` speaks of the first name like another.
pub proof fn the_first_namesake_is_named(names: Seq<Seq<char>>, name: Seq<char>, at: Option<usize>, i: int)
    requires
        is_first_like(names, name, at),
        0 <= i < names.len(),
    ensures
        at is None ==> lower_text(names[i]) != lower_text(name),
        at is Some ==> at->0 < names.len() && lower_text(names[at->0 as int]) == lower_text(name),
        at is Some && i < at->0 ==> lower_text(names[i]) != lower_text(name),
        is_marked(stem_of(names[i])) ==> any_marked(names),
{
}

/// Nothing else is stripped: a name that does not open like a copy, holds
/// neither of the two words, and ends neither in a bracket nor in a counter
/// from 2 to 9, stays as it is.
pub proof fn other_endings_stay(stem: Seq<char>)
    requires
        stem.len() > 0,
        !is_space(stem[0]) && !is_space(stem.last()),
        stem.last() != ')',
        !contains_text(lower_text(stem), "copy"@),
        !contains_text(lower_text(stem), "duplicate"@),
        ({
            let low = lower_text(stem);
            !"copy of "@.is_prefix_of(low) && !"kopie von "@.is_prefix_of(low) && !"copie de "@.is_prefix_of(low)
        }),
        stem.len() < 3 || !('2' <= stem.last() <= '9') || (stem[stem.len() - 2] != ' ' && stem[stem.len() - 2] != '-'
            && stem[stem.len() - 2] != '_'),
    ensures
        strip_once(stem) == stem,
        base_of(stem) == stem,
        !is_marked(stem),
        !is_unambiguous(stem),
{
    copies_have_three_openings(stem);
    let low = lower_text(stem);
    let n = stem.len() as int;
    assert(low[n - 1] == crate::text::lower(stem[n - 1]));
    assert(n >= 2 ==> low[n - 2] == crate::text::lower(stem[n - 2]));
    assert(low.last() != ')' && !is_space(low.last()));
    assert(trim_end(low) == low);
    assert(stem.skip(0) == stem);
    assert(paren_cut(low) is None);
    reveal_strlit("copy");
    reveal_strlit("duplicate");
    reveal_strlit(" - copy");
    reveal_strlit(" copy");
    reveal_strlit("-copy");
    reveal_strlit("_copy");
    reveal_strlit(" duplicate");
    reveal_strlit("_duplicate");
    reveal_strlit("-duplicate");
    assert(" - copy"@.skip(3) == "copy"@);
    assert(" copy"@.skip(1) == "copy"@);
    assert("-copy"@.skip(1) == "copy"@);
    assert("_copy"@.skip(1) == "copy"@);
    assert(" duplicate"@.skip(1) == "duplicate"@);
    assert("_duplicate"@.skip(1) == "duplicate"@);
    assert("-duplicate"@.skip(1) == "duplicate"@);
    lemma_absent(low, " - copy"@, 3, "copy"@);
    lemma_absent(low, " copy"@, 1, "copy"@);
    lemma_absent(low, "-copy"@, 1, "copy"@);
    lemma_absent(low, "_copy"@, 1, "copy"@);
    lemma_absent(low, " duplicate"@, 1, "duplicate"@);
    lemma_absent(low, "_duplicate"@, 1, "duplicate"@);
    lemma_absent(low, "-duplicate"@, 1, "duplicate"@);
    assert(word_cut(low) is None) by {
        reveal(word_cut);
    }
    assert(digit_cut(low) is None);
    assert(strip_once(stem) == stem) by {
        reveal(cut_of);
    }
    clean_names_are_their_own_base(stem);
}

proof fn lemma_absent(t: Seq<char>, m: Seq<char>, k: int, word: Seq<char>)
    requires
        0 <= k < m.len(),
        m.skip(k) == word,
        !contains_text(t, word),
    ensures
        marker_cut(t, m) is None,
{
    lemma_last_found(t, m);
    let pos = last_found(t, m);
    if pos >= 0 {
        let e = pos + m.len();
        assert(t.subrange(pos, e) == m);
        assert(t.subrange(pos + k, pos + k + word.len()) == word) by {
            assert forall|i: int| 0 <= i < word.len() implies t[pos + k + i] == word[i] by {
                assert(m.skip(k)[i] == m[k + i]);
                assert(t.subrange(pos, e)[k + i] == m[k + i]);
            }
        }
        assert(false);
    }
}

/// A copy word counts only at the end of a name, with at most a blank and
/// three digits behind it, and only where something stands before it; with
/// more digits it is part of the name.
pub proof fn counts_have_at_most_three_digits(t: Seq<char>, word: Seq<char>, tail: Seq<char>)
    requires
        tail.len() > 0,
    ensures
        tail_ok(tail) ==> tail[0] == ' ' && trim(tail).len() < 4 && forall|i: int|
            0 <= i < trim(tail).len() ==> '0' <= (#[trigger] trim(tail)[i]) <= '9',
        marker_cut(t, word) is Some ==> marker_cut(t, word)->0 > 0 && tail_ok(
            t.skip(marker_cut(t, word)->0 + word.len()),
        ) && t.subrange(marker_cut(t, word)->0, marker_cut(t, word)->0 + word.len()) == word,
{
    lemma_last_found(t, word);
    if tail_ok(tail) {
        assert forall|i: int| 0 <= i < trim(tail).len() implies '0' <= (#[trigger] trim(tail)[i]) <= '9' by {
            assert(is_digit(trim(tail)[i]));
        }
    }
}

/// A bracket at the end goes only where it holds digits and nothing else.
pub proof fn other_brackets_stay(t: Seq<char>)
    ensures
        paren_cut(t) is Some ==> t.last() == ')' && 0 <= paren_cut(t)->0 < t.len() - 2 && t[paren_cut(t)->0] == '('
            && forall|i: int| paren_cut(t)->0 < i < t.len() - 1 ==> '0' <= (#[trigger] t[i]) <= '9',
{
    lemma_last_of(t, '(');
    if paren_cut(t) is Some {
        let open = paren_cut(t)->0;
        let inner = t.subrange(open + 1, t.len() - 1);
        assert forall|i: int| open < i < t.len() - 1 implies '0' <= (#[trigger] t[i]) <= '9' by {
            assert(inner[i - open - 1] == t[i]);
            assert(is_digit(inner[i - open - 1]));
        }
    }
}

} // verus!
