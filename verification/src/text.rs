//! Text as a sequence of characters.
//!
//! Every function here works on whole characters, so no result ever splits
//! a code point. The contracts speak of `Seq<char>`, the view of `str`,
//! `String` and `Vec<char>` alike.

use vstd::prelude::*;

verus! {

/// `String::push` appends one character at the end of the text.
pub assume_specification[ String::push ](s: &mut String, c: char)
    ensures
        final(s)@ == old(s)@.push(c),
;

/// The white space of the Unicode property list.
pub open spec fn is_space(c: char) -> bool {
    let n = c as u32;
    ||| 9 <= n <= 13
    ||| n == 0x20
    ||| n == 0x85
    ||| n == 0xA0
    ||| n == 0x1680
    ||| 0x2000 <= n <= 0x200A
    ||| n == 0x2028
    ||| n == 0x2029
    ||| n == 0x202F
    ||| n == 0x205F
    ||| n == 0x3000
}

pub open spec fn is_digit(c: char) -> bool {
    '0' <= c <= '9'
}

/// An ASCII capital as its small letter; anything else unchanged.
pub open spec fn lower(c: char) -> char {
    if 'A' <= c <= 'Z' {
        (c as u8 + 32) as u8 as char
    } else {
        c
    }
}

/// `lower` on every character.
pub open spec fn lower_text(s: Seq<char>) -> Seq<char> {
    Seq::new(s.len(), |i: int| lower(s[i]))
}

pub open spec fn all_digits(s: Seq<char>) -> bool {
    forall|i: int| 0 <= i < s.len() ==> is_digit(#[trigger] s[i])
}

pub open spec fn trim_end(s: Seq<char>) -> Seq<char>
    decreases s.len(),
{
    if s.len() > 0 && is_space(s.last()) {
        trim_end(s.drop_last())
    } else {
        s
    }
}

pub open spec fn trim_start(s: Seq<char>) -> Seq<char>
    decreases s.len(),
{
    if s.len() > 0 && is_space(s[0]) {
        trim_start(s.drop_first())
    } else {
        s
    }
}

pub open spec fn trim(s: Seq<char>) -> Seq<char> {
    trim_start(trim_end(s))
}

pub open spec fn has_prefix(s: Seq<char>, p: Seq<char>) -> bool {
    p.len() <= s.len() && s.take(p.len() as int) == p
}

pub open spec fn has_suffix(s: Seq<char>, p: Seq<char>) -> bool {
    p.len() <= s.len() && s.skip(s.len() - p.len()) == p
}

/// Where `c` stands last in `s`; -1 where it does not occur.
pub open spec fn last_of(s: Seq<char>, c: char) -> int
    decreases s.len(),
{
    if s.len() == 0 {
        -1
    } else if s.last() == c {
        s.len() - 1
    } else {
        last_of(s.drop_last(), c)
    }
}

/// Where the last occurrence of `p` in `s` begins; -1 where there is none.
pub open spec fn last_found(s: Seq<char>, p: Seq<char>) -> int
    decreases s.len(),
{
    if has_suffix(s, p) {
        s.len() - p.len()
    } else if s.len() == 0 {
        -1
    } else {
        last_found(s.drop_last(), p)
    }
}

pub open spec fn contains_text(s: Seq<char>, p: Seq<char>) -> bool {
    exists|i: int| 0 <= i <= s.len() - p.len() && #[trigger] s.subrange(i, i + p.len()) == p
}

pub open spec fn digit_char(d: nat) -> char {
    (48 + d) as u8 as char
}

/// The decimal digits of `n`, without leading zeros.
pub open spec fn decimal(n: nat) -> Seq<char>
    decreases n,
{
    if n < 10 {
        seq![digit_char(n)]
    } else {
        decimal(n / 10).push(digit_char(n % 10))
    }
}

pub open spec fn joined(parts: Seq<Seq<char>>, sep: Seq<char>) -> Seq<char>
    decreases parts.len(),
{
    if parts.len() == 0 {
        seq![]
    } else if parts.len() == 1 {
        parts[0]
    } else {
        joined(parts.drop_last(), sep) + sep + parts.last()
    }
}

/// The characters of `s`.
pub fn chars_of(s: &str) -> (r: Vec<char>)
    ensures
        r@ == s@,
{
    let mut out: Vec<char> = Vec::new();
    for c in it: s.chars()
        invariant
            out@ == it.seq().take(it.index() as int),
            it.seq() == s@,
    {
        out.push(c);
    }
    out
}

/// The text made of `v`.
pub fn text_of(v: &Vec<char>) -> (r: String)
    ensures
        r@ == v@,
{
    let mut out = String::new();
    let n = v.len();
    for i in 0..n
        invariant
            n == v@.len(),
            out@ == v@.take(i as int),
    {
        out.push(v[i]);
        assert(v@.take(i + 1) =~= v@.take(i as int).push(v@[i as int]));
    }
    assert(v@.take(n as int) =~= v@);
    out
}

pub fn space_char(c: char) -> (r: bool)
    ensures
        r == is_space(c),
{
    let n = c as u32;
    (9 <= n && n <= 13) || n == 0x20 || n == 0x85 || n == 0xA0 || n == 0x1680 || (0x2000 <= n && n
        <= 0x200A) || n == 0x2028 || n == 0x2029 || n == 0x202F || n == 0x205F || n == 0x3000
}

pub fn lower_char(c: char) -> (r: char)
    ensures
        r == lower(c),
{
    if 'A' <= c && c <= 'Z' {
        (c as u8 + 32) as char
    } else {
        c
    }
}

pub fn digit(c: char) -> (r: bool)
    ensures
        r == is_digit(c),
{
    '0' <= c && c <= '9'
}

/// `v` with every ASCII capital made small.
pub fn lower_chars(v: &Vec<char>) -> (r: Vec<char>)
    ensures
        r@ == lower_text(v@),
{
    let mut out: Vec<char> = Vec::new();
    let n = v.len();
    for i in 0..n
        invariant
            n == v@.len(),
            out@ == lower_text(v@.take(i as int)),
    {
        out.push(lower_char(v[i]));
        assert(lower_text(v@.take(i + 1)) =~= lower_text(v@.take(i as int)).push(lower(v@[i as int])));
    }
    assert(v@.take(n as int) =~= v@);
    out
}

/// `s` with every ASCII capital made small.
pub fn to_ascii_lowercase(s: &str) -> (r: String)
    ensures
        r@ == lower_text(s@),
{
    text_of(&lower_chars(&chars_of(s)))
}

/// The characters of `v` from `lo` up to `hi`.
pub fn slice_of(v: &Vec<char>, lo: usize, hi: usize) -> (r: Vec<char>)
    requires
        lo <= hi <= v@.len(),
    ensures
        r@ == v@.subrange(lo as int, hi as int),
{
    let mut out: Vec<char> = Vec::new();
    for i in lo..hi
        invariant
            lo <= hi <= v@.len(),
            out@ == v@.subrange(lo as int, i as int),
    {
        out.push(v[i]);
        assert(v@.subrange(lo as int, i + 1) =~= v@.subrange(lo as int, i as int).push(v@[i as int]));
    }
    out
}

/// Does the text of `p` stand in `v` at `at`?
pub fn matches_at(v: &Vec<char>, at: usize, p: &Vec<char>) -> (r: bool)
    ensures
        r == (at + p@.len() <= v@.len() && v@.subrange(at as int, at + p@.len()) == p@),
{
    if at > v.len() || v.len() - at < p.len() {
        return false;
    }
    let n = p.len();
    let m = v.len();
    for i in 0..n
        invariant
            n == p@.len(),
            m == v@.len(),
            at + n <= m,
            forall|j: int| 0 <= j < i ==> v@[at + j] == #[trigger] p@[j],
    {
        if v[at + i] != p[i] {
            assert(v@.subrange(at as int, at + p@.len())[i as int] != p@[i as int]);
            return false;
        }
    }
    assert(v@.subrange(at as int, at + p@.len()) =~= p@);
    true
}

pub fn starts_with(v: &Vec<char>, p: &str) -> (r: bool)
    ensures
        r == has_prefix(v@, p@),
{
    let pc = chars_of(p);
    proof {
        if p@.len() <= v@.len() {
            assert(v@.subrange(0, pc@.len() as int) =~= v@.take(p@.len() as int));
        }
    }
    matches_at(v, 0, &pc)
}

pub fn ends_with(v: &Vec<char>, p: &str) -> (r: bool)
    ensures
        r == has_suffix(v@, p@),
{
    let pc = chars_of(p);
    if v.len() < pc.len() {
        return false;
    }
    let at = v.len() - pc.len();
    assert(v@.subrange(at as int, at + pc@.len()) =~= v@.skip(at as int));
    matches_at(v, at, &pc)
}

/// Are the two texts the same?
pub fn is_text(v: &Vec<char>, p: &str) -> (r: bool)
    ensures
        r == (v@ == p@),
{
    let pc = chars_of(p);
    if v.len() != pc.len() {
        return false;
    }
    assert(v@.subrange(0, pc@.len() as int) =~= v@);
    matches_at(v, 0, &pc)
}

/// Are the two texts the same?
pub fn same_text(a: &str, b: &str) -> (r: bool)
    ensures
        r == (a@ == b@),
{
    is_text(&chars_of(a), b)
}

pub proof fn lemma_last_of(s: Seq<char>, c: char)
    ensures
        -1 <= last_of(s, c) < s.len(),
        last_of(s, c) >= 0 ==> s[last_of(s, c)] == c,
        forall|i: int| last_of(s, c) < i < s.len() ==> s[i] != c,
    decreases s.len(),
{
    if s.len() > 0 && s.last() != c {
        lemma_last_of(s.drop_last(), c);
        assert forall|i: int| last_of(s, c) < i < s.len() implies s[i] != c by {
            if i < s.len() - 1 {
                assert(s.drop_last()[i] == s[i]);
            }
        }
    }
}

/// Where `c` stands last in `v`.
pub fn rfind_char(v: &Vec<char>, c: char) -> (r: Option<usize>)
    ensures
        r is Some <==> last_of(v@, c) >= 0,
        r is Some ==> r->0 == last_of(v@, c) && r->0 < v@.len(),
{
    let mut i = v.len();
    assert(v@.take(i as int) =~= v@);
    while i > 0
        invariant
            i <= v@.len(),
            last_of(v@, c) == last_of(v@.take(i as int), c),
        decreases i,
    {
        if v[i - 1] == c {
            return Some(i - 1);
        }
        assert(v@.take(i as int).drop_last() =~= v@.take(i - 1));
        i = i - 1;
    }
    None
}

/// Where the last occurrence of `p` in `v` begins.
pub fn rfind(v: &Vec<char>, p: &str) -> (r: Option<usize>)
    ensures
        r is Some <==> last_found(v@, p@) >= 0,
        r is Some ==> r->0 == last_found(v@, p@) && r->0 + p@.len() <= v@.len(),
{
    let pc = chars_of(p);
    if v.len() < pc.len() {
        proof {
            lemma_last_found_short(v@, p@);
        }
        return None;
    }
    let mut i = v.len() - pc.len();
    assert(v@.take(i + pc@.len()) =~= v@);
    loop
        invariant
            pc@ == p@,
            i + pc@.len() <= v@.len(),
            last_found(v@, p@) == last_found(v@.take(i + pc@.len()), p@),
        decreases i,
    {
        let ghost head = v@.take(i + pc@.len());
        assert(head.skip(head.len() - p@.len()) =~= v@.subrange(i as int, i + pc@.len()));
        if matches_at(v, i, &pc) {
            return Some(i);
        }
        proof {
            if head.len() > 0 {
                assert(head.drop_last() =~= v@.take(i + pc@.len() - 1));
            }
        }
        if i == 0 {
            proof {
                if head.len() > 0 {
                    lemma_last_found_short(head.drop_last(), p@);
                }
            }
            return None;
        }
        i = i - 1;
    }
}

pub proof fn lemma_last_found_short(s: Seq<char>, p: Seq<char>)
    requires
        s.len() < p.len(),
    ensures
        last_found(s, p) == -1,
    decreases s.len(),
{
    if s.len() > 0 {
        lemma_last_found_short(s.drop_last(), p);
    }
}

pub proof fn lemma_last_found(s: Seq<char>, p: Seq<char>)
    ensures
        -1 <= last_found(s, p) <= s.len() - p.len() || last_found(s, p) == -1,
        last_found(s, p) >= 0 ==> s.subrange(last_found(s, p), last_found(s, p) + p.len()) == p,
    decreases s.len(),
{
    if has_suffix(s, p) {
        assert(s.subrange(s.len() - p.len(), s.len() as int) =~= s.skip(s.len() - p.len()));
    } else if s.len() > 0 {
        lemma_last_found(s.drop_last(), p);
        let at = last_found(s, p);
        if at >= 0 {
            assert(s.subrange(at, at + p.len()) =~= s.drop_last().subrange(at, at + p.len()));
        }
    }
}

pub fn contains(v: &Vec<char>, p: &str) -> (r: bool)
    ensures
        r == contains_text(v@, p@),
{
    let pc = chars_of(p);
    if v.len() < pc.len() {
        return false;
    }
    let last = v.len() - pc.len();
    let mut i: usize = 0;
    while i <= last
        invariant
            pc@ == p@,
            last == v@.len() - pc@.len(),
            i <= last + 1,
            forall|j: int| 0 <= j < i ==> #[trigger] v@.subrange(j, j + p@.len()) != p@,
        decreases last + 1 - i,
    {
        if matches_at(v, i, &pc) {
            assert(v@.subrange(i as int, i + p@.len()) == p@);
            return true;
        }
        if i == last {
            return false;
        }
        i = i + 1;
    }
    false
}

/// How many characters are left when the white space at the end is cut.
pub fn trimmed_end(v: &Vec<char>) -> (r: usize)
    ensures
        r <= v@.len(),
        v@.take(r as int) == trim_end(v@),
        r > 0 ==> !is_space(v@[r - 1]),
{
    let mut n = v.len();
    assert(v@.take(n as int) =~= v@);
    while n > 0 && space_char(v[n - 1])
        invariant
            n <= v@.len(),
            trim_end(v@.take(n as int)) == trim_end(v@),
        decreases n,
    {
        assert(v@.take(n as int).drop_last() =~= v@.take(n - 1));
        n = n - 1;
    }
    n
}

/// `v` without the white space at its end.
pub fn trim_end_chars(v: &Vec<char>) -> (r: Vec<char>)
    ensures
        r@ == trim_end(v@),
{
    let n = trimmed_end(v);
    assert(v@.subrange(0, n as int) =~= v@.take(n as int));
    slice_of(v, 0, n)
}

/// `v` without the white space at its ends.
pub fn trim_chars(v: &Vec<char>) -> (r: Vec<char>)
    ensures
        r@ == trim(v@),
{
    let w = trim_end_chars(v);
    let mut i: usize = 0;
    assert(w@.skip(0) =~= w@);
    while i < w.len() && space_char(w[i])
        invariant
            i <= w@.len(),
            trim_start(w@.skip(i as int)) == trim_start(w@),
        decreases w@.len() - i,
    {
        assert(w@.skip(i as int).drop_first() =~= w@.skip(i + 1));
        i = i + 1;
    }
    assert(w@.subrange(i as int, w@.len() as int) =~= w@.skip(i as int));
    slice_of(&w, i, w.len())
}

pub fn only_digits(v: &Vec<char>) -> (r: bool)
    ensures
        r == all_digits(v@),
{
    let n = v.len();
    for i in 0..n
        invariant
            n == v@.len(),
            forall|j: int| 0 <= j < i ==> is_digit(#[trigger] v@[j]),
    {
        if !digit(v[i]) {
            return false;
        }
    }
    true
}

/// `n` in decimal.
pub fn decimal_text(n: u64) -> (r: String)
    ensures
        r@ == decimal(n as nat),
    decreases n,
{
    let mut out = String::new();
    if n >= 10 {
        out = decimal_text(n / 10);
    }
    out.push((48 + (n % 10) as u8) as char);
    assert(out@ =~= decimal(n as nat));
    out
}

/// The views of a list of texts.
pub open spec fn views(v: Seq<String>) -> Seq<Seq<char>> {
    Seq::new(v.len(), |i: int| v[i]@)
}

/// A copy of a list of texts.
pub fn copy_texts(v: &Vec<String>) -> (r: Vec<String>)
    ensures
        r@ == v@,
{
    let mut out: Vec<String> = Vec::new();
    let n = v.len();
    for i in 0..n
        invariant
            n == v@.len(),
            out@ == v@.take(i as int),
    {
        out.push(v[i].clone());
        assert(v@.take(i + 1) =~= v@.take(i as int).push(v@[i as int]));
    }
    assert(v@.take(n as int) =~= v@);
    out
}

/// Are the two texts the same?
pub fn same_chars(a: &Vec<char>, b: &Vec<char>) -> (r: bool)
    ensures
        r == (a@ == b@),
{
    if a.len() != b.len() {
        return false;
    }
    assert(a@.subrange(0, b@.len() as int) =~= a@);
    matches_at(a, 0, b)
}

/// The texts with `sep` between each two.
pub fn join(parts: &Vec<String>, sep: &str) -> (r: String)
    ensures
        r@ == joined(views(parts@), sep@),
{
    let mut out = String::new();
    let n = parts.len();
    for i in 0..n
        invariant
            n == parts@.len(),
            out@ == joined(views(parts@).take(i as int), sep@),
    {
        let ghost all = views(parts@);
        if i > 0 {
            out.append(sep);
        }
        out.append(parts[i].as_str());
        assert(all.take(i + 1).drop_last() =~= all.take(i as int));
        assert(all.take(i + 1).last() == parts@[i as int]@);
        assert(out@ =~= joined(all.take(i + 1), sep@));
    }
    assert(views(parts@).take(n as int) =~= views(parts@));
    out
}

/// `s` without the white space at its ends.
pub fn trimmed(s: &str) -> (r: String)
    ensures
        r@ == trim(s@),
{
    text_of(&trim_chars(&chars_of(s)))
}

/// Lowering moves an ASCII capital thirty-two places up and leaves every
/// other character alone; the digits are the ten from `0` to `9`.
pub proof fn letters_have_their_codes(c: char)
    ensures
        65 <= c as u32 <= 90 ==> lower(c) as u32 == c as u32 + 32,
        !(65 <= c as u32 <= 90) ==> lower(c) == c,
        is_digit(c) <==> 48 <= c as u32 <= 57,
{
}

/// Of the ASCII characters the blank, the tab, the line feed, the vertical
/// tab, the form feed and the carriage return count as space; the others
/// are the control U+0085, the no-break spaces and the wider blanks of
/// Unicode.
pub proof fn spaces_have_their_codes(c: char)
    ensures
        c as u32 <= 0x7F ==> (is_space(c) <==> c as u32 == 32 || c as u32 == 9 || c as u32 == 10 || c as u32
            == 11 || c as u32 == 12 || c as u32 == 13),
        c as u32 > 0x7F ==> (is_space(c) <==> c as u32 == 0x85 || c as u32 == 0xA0 || c as u32 == 0x1680
            || (0x2000 <= c as u32 && c as u32 <= 0x200A) || c as u32 == 0x2028 || c as u32 == 0x2029
            || c as u32 == 0x202F || c as u32 == 0x205F || c as u32 == 0x3000),
{
}

proof fn lemma_trim_end_spaces(s: Seq<char>, tail: Seq<char>)
    requires
        forall|i: int| 0 <= i < tail.len() ==> is_space(#[trigger] tail[i]),
    ensures
        trim_end(s + tail) == trim_end(s),
    decreases tail.len(),
{
    if tail.len() == 0 {
        assert(s + tail == s);
    } else {
        let rest = tail.drop_last();
        assert forall|i: int| 0 <= i < rest.len() implies is_space(#[trigger] rest[i]) by {
            assert(rest[i] == tail[i]);
        }
        assert(is_space(tail[tail.len() - 1]));
        assert((s + tail).drop_last() == s + rest);
        lemma_trim_end_spaces(s, rest);
    }
}

proof fn lemma_trim_start_spaces(head: Seq<char>, s: Seq<char>)
    requires
        forall|i: int| 0 <= i < head.len() ==> is_space(#[trigger] head[i]),
    ensures
        trim_start(head + s) == trim_start(s),
    decreases head.len(),
{
    if head.len() == 0 {
        assert(head + s == s);
    } else {
        let rest = head.drop_first();
        assert forall|i: int| 0 <= i < rest.len() implies is_space(#[trigger] rest[i]) by {
            assert(rest[i] == head[i + 1]);
        }
        assert(is_space(head[0]));
        assert((head + s).drop_first() == rest + s);
        lemma_trim_start_spaces(rest, s);
    }
}

/// Trimming takes the spaces before and after a text and nothing else: what
/// neither begins nor ends with a space comes back whole.
pub proof fn trimming_takes_the_outer_spaces(head: Seq<char>, core: Seq<char>, tail: Seq<char>)
    requires
        forall|i: int| 0 <= i < head.len() ==> is_space(#[trigger] head[i]),
        forall|i: int| 0 <= i < tail.len() ==> is_space(#[trigger] tail[i]),
        core.len() > 0 ==> !is_space(core[0]) && !is_space(core.last()),
    ensures
        trim(head + core + tail) == core,
        trim_end(core + tail) == core,
{
    lemma_trim_end_spaces(head + core, tail);
    lemma_trim_end_spaces(core, tail);
    if core.len() == 0 {
        assert(head + core == Seq::<char>::empty() + head);
        lemma_trim_end_spaces(Seq::<char>::empty(), head);
    } else {
        assert(!is_space((head + core).last()));
        lemma_trim_start_spaces(head, core);
    }
}

/// A text begins with its prefixes, ends with its suffixes, and contains
/// exactly the texts that it can be cut around.
pub proof fn texts_are_found_where_they_stand(s: Seq<char>, p: Seq<char>, head: Seq<char>, tail: Seq<char>)
    ensures
        has_prefix(s, p) <==> p.is_prefix_of(s),
        has_suffix(s, p) <==> p.is_suffix_of(s),
        contains_text(head + p + tail, p),
        contains_text(s, p) ==> exists|a: Seq<char>, b: Seq<char>| s == #[trigger] (a + p + b),
{
    assert(has_prefix(s, p) ==> s.subrange(0, p.len() as int) == s.take(p.len() as int));
    assert(has_suffix(s, p) ==> s.subrange(s.len() - p.len(), s.len() as int) == s.skip(s.len() - p.len()));
    assert(p.is_suffix_of(s) ==> s.subrange(s.len() - p.len(), s.len() as int) == s.skip(s.len() - p.len()));
    let whole = head + p + tail;
    assert(whole.subrange(head.len() as int, (head.len() + p.len()) as int) == p);
    if contains_text(s, p) {
        let i = choose|i: int| 0 <= i <= s.len() - p.len() && #[trigger] s.subrange(i, i + p.len()) == p;
        assert(s == s.take(i) + s.subrange(i, i + p.len()) + s.skip(i + p.len()));
    }
}

/// The last place where a text is found is one where it stands, and no later
/// place is; a text that stands somewhere is found.
pub proof fn the_last_place_is_found(s: Seq<char>, p: Seq<char>, i: int)
    requires
        0 <= i <= s.len() - p.len(),
        s.subrange(i, i + p.len()) == p,
    ensures
        i <= last_found(s, p) <= s.len() - p.len(),
        s.subrange(last_found(s, p), last_found(s, p) + p.len()) == p,
    decreases s.len(),
{
    lemma_last_found(s, p);
    if has_suffix(s, p) {
    } else if i == s.len() - p.len() {
        assert(s.subrange(i, i + p.len()) == s.skip(i));
        assert(false);
    } else {
        assert(s.drop_last().subrange(i, i + p.len()) == s.subrange(i, i + p.len()));
        the_last_place_is_found(s.drop_last(), p, i);
        let at = last_found(s, p);
        assert(s.drop_last().subrange(at, at + p.len()) == s.subrange(at, at + p.len()));
    }
}

/// A number is written digit by digit: one digit alone is its own numeral,
/// and to write one more digit is to multiply by ten and add it.
pub proof fn numerals_are_positional(n: nat, d: nat) -> (digit: char)
    requires
        d < 10,
    ensures
        digit as u32 == 48 + d,
        decimal(d) == seq![digit],
        n > 0 ==> decimal(10 * n + d) == decimal(n).push(digit),
{
    assert((10 * n + d) / 10 == n && (10 * n + d) % 10 == d);
    digit_char(d)
}

/// Joined texts are the texts in their order with the separator between
/// neighbours, and none before the first or after the last.
pub proof fn separators_stand_between(parts: Seq<Seq<char>>, last: Seq<char>, sep: Seq<char>)
    ensures
        joined(Seq::<Seq<char>>::empty(), sep) == Seq::<char>::empty(),
        joined(seq![last], sep) == last,
        parts.len() > 0 ==> joined(parts.push(last), sep) == joined(parts, sep) + sep + last,
{
    assert(parts.push(last).drop_last() == parts);
}

} // verus!
