//! Paths as text.
//!
//! Paths are read by Unix rules on every platform. A path is held as its
//! text, with `/` between its pieces, and shown as it was written; a backslash
//! is a character like any other. Two texts are the same path where they have the same
//! components; they have the same key then, by which paths are compared and
//! looked up.

use vstd::prelude::*;
use crate::text::{chars_of, last_of, lemma_last_of, rfind_char, same_chars, same_text, slice_of, text_of};

verus! {

/// The pieces of a path between its slashes.
pub open spec fn pieces(s: Seq<char>) -> Seq<Seq<char>>
    decreases s.len(),
{
    if s.len() == 0 {
        seq![Seq::<char>::empty()]
    } else {
        let head = pieces(s.drop_last());
        if s.last() == '/' {
            head.push(Seq::<char>::empty())
        } else {
            head.drop_last().push(head.last().push(s.last()))
        }
    }
}

/// What one piece of a path contributes to its components. An empty first
/// piece of a path that is not empty is its root; `.` counts only at the
/// start; other empty pieces count for nothing.
pub open spec fn piece_component(piece: Seq<char>, first: bool, nonempty: bool) -> Option<Seq<char>> {
    if piece.len() == 0 {
        if first && nonempty {
            Some(seq!['/'])
        } else {
            None
        }
    } else if piece == seq!['.'] {
        if first {
            Some(piece)
        } else {
            None
        }
    } else {
        Some(piece)
    }
}

pub open spec fn components_of(parts: Seq<Seq<char>>, nonempty: bool) -> Seq<Seq<char>>
    decreases parts.len(),
{
    if parts.len() == 0 {
        seq![]
    } else {
        let head = components_of(parts.drop_last(), nonempty);
        match piece_component(parts.last(), parts.len() == 1, nonempty) {
            Some(c) => head.push(c),
            None => head,
        }
    }
}

/// The components of a path: `/` for the root, `.` for a leading current
/// directory, `..`, and names.
pub open spec fn components(path: Seq<char>) -> Seq<Seq<char>> {
    components_of(pieces(path), path.len() > 0)
}

/// The path without the slashes and `.` pieces that end it.
pub open spec fn trim_tail(s: Seq<char>) -> Seq<char>
    decreases s.len(),
{
    if s.len() > 1 && (s.last() == '/' || (s.last() == '.' && s[s.len() - 2] == '/')) {
        trim_tail(s.drop_last())
    } else {
        s
    }
}

/// The last piece of `trim_tail(path)`.
pub open spec fn last_piece(path: Seq<char>) -> Seq<char> {
    let t = trim_tail(path);
    t.skip(last_of(t, '/') + 1)
}

/// The name of the file a path leads to. A path that ends in `..`, or that
/// is empty, the root or `.`, has none.
pub open spec fn file_name_of(path: Seq<char>) -> Option<Seq<char>> {
    let n = last_piece(path);
    if n.len() == 0 || n == seq!['.'] || n == seq!['.', '.'] {
        None
    } else {
        Some(n)
    }
}

/// The file name, or nothing where there is none.
pub open spec fn name_or_empty(path: Seq<char>) -> Seq<char> {
    match file_name_of(path) {
        Some(n) => n,
        None => seq![],
    }
}

/// The path without its last component; the root and the empty path have no
/// parent.
pub open spec fn parent_of(path: Seq<char>) -> Option<Seq<char>> {
    let t = trim_tail(path);
    if t.len() == 0 || t == seq!['/'] {
        None
    } else {
        Some(trim_tail(t.take(last_of(t, '/') + 1)))
    }
}

/// `name` inside `base`; a `name` that starts at the root stands alone.
pub open spec fn join_of(base: Seq<char>, name: Seq<char>) -> Seq<char> {
    if name.len() > 0 && name[0] == '/' {
        name
    } else if base.len() == 0 || base.last() == '/' {
        base + name
    } else {
        base.push('/') + name
    }
}

/// What follows the last dot of a file name, unless that dot begins it.
pub open spec fn extension_of(path: Seq<char>) -> Option<Seq<char>> {
    match file_name_of(path) {
        Some(n) => if last_of(n, '.') > 0 {
            Some(n.skip(last_of(n, '.') + 1))
        } else {
            None
        },
        None => None,
    }
}

pub open spec fn text_of_components(parts: Seq<Seq<char>>) -> Seq<char>
    decreases parts.len(),
{
    if parts.len() == 0 {
        seq![]
    } else {
        join_of(text_of_components(parts.drop_last()), parts.last())
    }
}

/// The text that all paths with the same components share.
pub open spec fn normal_form_of(path: Seq<char>) -> Seq<char> {
    text_of_components(components(path))
}

/// What two texts share exactly where they are the same path.
#[verifier::opaque]
pub open spec fn path_key(path: Seq<char>) -> Seq<char> {
    normal_form_of(path)
}

/// The keys of some paths.
pub open spec fn path_keys(paths: Seq<Seq<char>>) -> Seq<Seq<char>> {
    Seq::new(paths.len(), |i: int| path_key(paths[i]))
}

// ----- order ---------------------------------------------------------------

/// Dictionary order by character.
pub open spec fn text_before(a: Seq<char>, b: Seq<char>) -> bool
    decreases a.len(),
{
    if b.len() == 0 {
        false
    } else if a.len() == 0 {
        true
    } else if a[0] != b[0] {
        a[0] < b[0]
    } else {
        text_before(a.drop_first(), b.drop_first())
    }
}

pub open spec fn component_rank(c: Seq<char>) -> int {
    if c == seq!['/'] {
        0
    } else if c == seq!['.'] {
        1
    } else if c == seq!['.', '.'] {
        2
    } else {
        3
    }
}

/// The root comes first, then `.`, then `..`, then names in dictionary order.
pub open spec fn component_before(a: Seq<char>, b: Seq<char>) -> bool {
    if component_rank(a) != component_rank(b) {
        component_rank(a) < component_rank(b)
    } else {
        component_rank(a) == 3 && text_before(a, b)
    }
}

pub open spec fn components_before(a: Seq<Seq<char>>, b: Seq<Seq<char>>) -> bool
    decreases a.len(),
{
    if b.len() == 0 {
        false
    } else if a.len() == 0 {
        true
    } else if a[0] != b[0] {
        component_before(a[0], b[0])
    } else {
        components_before(a.drop_first(), b.drop_first())
    }
}

/// The order of paths: by their components.
pub open spec fn path_before(a: Seq<char>, b: Seq<char>) -> bool {
    components_before(components(a), components(b))
}

pub proof fn lemma_text_order(a: Seq<char>, b: Seq<char>, c: Seq<char>)
    ensures
        text_before(a, b) && !text_before(c, b) ==> text_before(a, c),
        !text_before(a, a),
        text_before(a, b) ==> !text_before(b, a),
        a != b ==> text_before(a, b) || text_before(b, a),
    decreases a.len() + b.len() + c.len(),
{
    if a.len() > 0 && b.len() > 0 && c.len() > 0 {
        lemma_text_order(a.drop_first(), b.drop_first(), c.drop_first());
    } else if a.len() > 0 && b.len() > 0 {
        lemma_text_order(a.drop_first(), b.drop_first(), c);
    } else if a.len() > 0 {
        lemma_text_order(a.drop_first(), b, c);
    }
    if a != b && a.len() > 0 && b.len() > 0 && a[0] == b[0] {
        assert(a.drop_first() != b.drop_first()) by {
            if a.drop_first() == b.drop_first() {
                assert forall|i: int| 0 <= i < a.len() implies a[i] == b[i] by {
                    if i > 0 {
                        assert(a.drop_first()[i - 1] == b.drop_first()[i - 1]);
                    }
                }
                assert(a.drop_first().len() == b.drop_first().len());
                assert(a =~= b);
            }
        }
    }
    if a != b && a.len() == 0 && b.len() == 0 {
        assert(a =~= b);
    }
}

proof fn lemma_component_order(a: Seq<char>, b: Seq<char>, c: Seq<char>)
    ensures
        component_before(a, b) && !component_before(c, b) ==> component_before(a, c),
        !component_before(a, a),
        component_before(a, b) ==> !component_before(b, a),
        a != b ==> component_before(a, b) || component_before(b, a),
{
    lemma_text_order(a, b, c);
}

proof fn lemma_components_order(a: Seq<Seq<char>>, b: Seq<Seq<char>>, c: Seq<Seq<char>>)
    ensures
        components_before(a, b) && !components_before(c, b) ==> components_before(a, c),
        !components_before(a, a),
        components_before(a, b) ==> !components_before(b, a),
        a != b ==> components_before(a, b) || components_before(b, a),
    decreases a.len() + b.len() + c.len(),
{
    if a.len() > 0 && b.len() > 0 && c.len() > 0 {
        lemma_components_order(a.drop_first(), b.drop_first(), c.drop_first());
        lemma_component_order(a[0], b[0], c[0]);
        lemma_component_order(a[0], c[0], b[0]);
        lemma_component_order(b[0], a[0], c[0]);
        lemma_component_order(b[0], c[0], a[0]);
        lemma_component_order(c[0], a[0], b[0]);
        lemma_component_order(c[0], b[0], a[0]);
    } else if a.len() > 0 && b.len() > 0 {
        lemma_components_order(a.drop_first(), b.drop_first(), c);
        lemma_component_order(a[0], b[0], a[0]);
    } else if a.len() > 0 {
        lemma_components_order(a.drop_first(), b, c);
    }
    if a != b && a.len() > 0 && b.len() > 0 && a[0] == b[0] {
        assert(a.drop_first() != b.drop_first()) by {
            if a.drop_first() == b.drop_first() {
                assert forall|i: int| 0 <= i < a.len() implies a[i] == b[i] by {
                    if i > 0 {
                        assert(a.drop_first()[i - 1] == b.drop_first()[i - 1]);
                    }
                }
                assert(a.drop_first().len() == b.drop_first().len());
                assert(a =~= b);
            }
        }
    }
    if a != b && a.len() == 0 && b.len() == 0 {
        assert(a =~= b);
    }
}

/// The order of paths is strict and total on components: no path stands
/// before itself, no two stand before each other, what does not stand before
/// `b` stands after whatever does,
/// and of two paths with different components one stands before the other.
pub proof fn path_order_is_total(a: Seq<char>, b: Seq<char>, c: Seq<char>)
    ensures
        path_before(a, b) && !path_before(c, b) ==> path_before(a, c),
        !path_before(a, a),
        path_before(a, b) ==> !path_before(b, a),
        components(a) != components(b) ==> path_before(a, b) || path_before(b, a),
{
    lemma_components_order(components(a), components(b), components(c));
}

// ----- the normal form -----------------------------------------------------

/// Components as a path can have them: none is empty, the root and a leading
/// `.` come first, and no other holds a slash.
spec fn in_form(parts: Seq<Seq<char>>) -> bool {
    forall|k: int|
        0 <= k < parts.len() ==> (#[trigger] parts[k]).len() > 0 && if k == 0 {
            parts[k] == seq!['/'] || !parts[k].contains('/')
        } else {
            parts[k] != seq!['.'] && !parts[k].contains('/')
        }
}

proof fn lemma_pieces(s: Seq<char>)
    ensures
        pieces(s).len() >= 1,
        forall|k: int| 0 <= k < pieces(s).len() ==> !(#[trigger] pieces(s)[k]).contains('/'),
        s.len() > 0 && s.last() == '/' ==> pieces(s).len() >= 2 && pieces(s).last().len() == 0,
    decreases s.len(),
{
    if s.len() > 0 {
        let head = pieces(s.drop_last());
        lemma_pieces(s.drop_last());
        let all = pieces(s);
        assert forall|k: int| 0 <= k < all.len() implies !(#[trigger] all[k]).contains('/') by {
            if k < head.len() - 1 {
                assert(all[k] == head[k]);
            } else if s.last() == '/' && k == head.len() - 1 {
                assert(all[k] == head[k]);
            } else if s.last() != '/' {
                let longer = head.last().push(s.last());
                assert(!head[head.len() - 1].contains('/'));
                if longer.contains('/') {
                    let j = choose|j: int| 0 <= j < longer.len() && longer[j] == '/';
                    assert(head.last()[j] == '/');
                }
            }
        }
    }
}

proof fn lemma_components_in_form(parts: Seq<Seq<char>>, nonempty: bool)
    requires
        forall|k: int| 0 <= k < parts.len() ==> !(#[trigger] parts[k]).contains('/'),
    ensures
        in_form(components_of(parts, nonempty)),
        parts.len() == 0 ==> components_of(parts, nonempty).len() == 0,
    decreases parts.len(),
{
    if parts.len() > 0 {
        let rest = parts.drop_last();
        assert forall|k: int| 0 <= k < rest.len() implies !(#[trigger] rest[k]).contains('/') by {
            assert(parts[k] == rest[k]);
        }
        lemma_components_in_form(rest, nonempty);
        let head = components_of(rest, nonempty);
        let all = components_of(parts, nonempty);
        let last = parts[parts.len() - 1];
        assert(!last.contains('/'));
        match piece_component(last, parts.len() == 1, nonempty) {
            Some(c) => {
                assert forall|k: int| 0 <= k < all.len() implies (#[trigger] all[k]).len() > 0 && if k == 0 {
                    all[k] == seq!['/'] || !all[k].contains('/')
                } else {
                    all[k] != seq!['.'] && !all[k].contains('/')
                } by {
                    if k < head.len() {
                        assert(all[k] == head[k]);
                    } else {
                        assert(all[k] == c);
                    }
                }
            },
            None => {},
        }
    }
}

proof fn lemma_pieces_extend(s: Seq<char>, c: Seq<char>)
    requires
        !c.contains('/'),
    ensures
        pieces(s + c) == pieces(s).drop_last().push(pieces(s).last() + c),
    decreases c.len(),
{
    lemma_pieces(s);
    let p = pieces(s);
    if c.len() == 0 {
        assert(s + c =~= s);
        assert(p.last() + c =~= p.last());
        assert(p.drop_last().push(p.last()) =~= p);
    } else {
        let head = c.drop_last();
        assert(!head.contains('/')) by {
            if head.contains('/') {
                let j = choose|j: int| 0 <= j < head.len() && head[j] == '/';
                assert(c[j] == '/');
            }
        }
        lemma_pieces_extend(s, head);
        assert((s + c).drop_last() =~= s + head);
        assert((s + c).last() == c.last());
        assert(c[c.len() - 1] != '/');
        let q = pieces(s + head);
        assert(q.drop_last() =~= p.drop_last());
        assert(q.last() == p.last() + head);
        assert((p.last() + head).push(c.last()) =~= p.last() + c);
    }
}

proof fn lemma_text_of_components(parts: Seq<Seq<char>>)
    requires
        in_form(parts),
    ensures
        components(text_of_components(parts)) == parts,
        parts.len() > 0 ==> text_of_components(parts).len() > 0,
    decreases parts.len(),
{
    let text = text_of_components(parts);
    let none = Seq::<char>::empty();
    if parts.len() == 0 {
        assert(pieces(text) =~= seq![none]);
        assert(pieces(text).drop_last() =~= seq![]);
        assert(components_of(pieces(text).drop_last(), false) =~= seq![]);
        assert(components(text) =~= parts);
        return;
    }
    let rest = parts.drop_last();
    let c = parts[parts.len() - 1];
    assert forall|k: int| 0 <= k < rest.len() implies (#[trigger] rest[k]).len() > 0 && if k == 0 {
        rest[k] == seq!['/'] || !rest[k].contains('/')
    } else {
        rest[k] != seq!['.'] && !rest[k].contains('/')
    } by {
        assert(parts[k] == rest[k]);
    }
    lemma_text_of_components(rest);
    let t = text_of_components(rest);
    let p = pieces(t);
    lemma_pieces(t);
    if parts.len() == 1 {
        assert(t.len() == 0);
        assert(p =~= seq![none]);
        if c == seq!['/'] {
            assert(text =~= seq!['/']);
            assert(text.drop_last() =~= none);
            let two = pieces(text);
            assert(two =~= seq![none, none]);
            assert(two.drop_last() =~= seq![none]);
            assert(two.drop_last().drop_last() =~= seq![]);
            assert(components_of(two.drop_last().drop_last(), true) =~= seq![]);
            assert(components_of(two.drop_last(), true) =~= seq![seq!['/']]);
            assert(components(text) =~= parts);
        } else {
            assert(c[0] != '/') by {
                if c[0] == '/' {
                    assert(c.contains('/'));
                }
            }
            assert(text =~= t + c);
            lemma_pieces_extend(t, c);
            assert(pieces(text) =~= seq![c]);
            assert(pieces(text).drop_last() =~= seq![]);
            assert(components_of(pieces(text).drop_last(), true) =~= seq![]);
            assert(components(text) =~= parts);
        }
    } else {
        assert(c[0] != '/') by {
            if c[0] == '/' {
                assert(c.contains('/'));
            }
        }
        assert(t.len() > 0);
        if t.last() == '/' {
            assert(text =~= t + c);
            lemma_pieces_extend(t, c);
            assert(p.last() + c =~= c);
            let all = pieces(text);
            assert(all == p.drop_last().push(c));
            assert(all.drop_last() =~= p.drop_last());
            assert(components_of(p, true) == components_of(p.drop_last(), true));
        } else {
            let longer = t.push('/');
            assert(text =~= longer + c);
            lemma_pieces_extend(longer, c);
            assert(longer.drop_last() =~= t);
            assert(pieces(longer) == p.push(none));
            assert(none + c =~= c);
            assert(p.push(none).drop_last() =~= p);
            let all = pieces(text);
            assert(all == p.push(c));
            assert(all.drop_last() =~= p);
        }
        assert(components(text) == rest.push(c));
        assert(rest.push(c) =~= parts);
    }
}

/// The normal form of a path has the path's components, and two paths have
/// the same normal form exactly where they have the same components: to
/// compare the texts of normal forms is to compare paths.
pub proof fn normal_forms_stand_for_components(a: Seq<char>, b: Seq<char>)
    ensures
        components(normal_form_of(a)) == components(a),
        normal_form_of(a) == normal_form_of(b) <==> components(a) == components(b),
        normal_form_of(normal_form_of(a)) == normal_form_of(a),
{
    lemma_pieces(a);
    lemma_components_in_form(pieces(a), a.len() > 0);
    lemma_text_of_components(components(a));
    lemma_pieces(b);
    lemma_components_in_form(pieces(b), b.len() > 0);
    lemma_text_of_components(components(b));
}

/// Two texts have the same key exactly where they have the same components.
pub proof fn keys_stand_for_components(a: Seq<char>, b: Seq<char>)
    ensures
        path_key(a) == path_key(b) <==> components(a) == components(b),
        path_key(path_key(a)) == path_key(a),
{
    reveal(path_key);
    normal_forms_stand_for_components(a, b);
}

// ----- code ----------------------------------------------------------------

fn trim_tail_len(v: &Vec<char>) -> (r: usize)
    ensures
        r <= v@.len(),
        v@.take(r as int) == trim_tail(v@),
{
    let mut n = v.len();
    assert(v@.take(n as int) =~= v@);
    while n > 1 && (v[n - 1] == '/' || (v[n - 1] == '.' && v[n - 2] == '/'))
        invariant
            n <= v@.len(),
            trim_tail(v@.take(n as int)) == trim_tail(v@),
        decreases n,
    {
        assert(v@.take(n as int).drop_last() =~= v@.take(n - 1));
        n = n - 1;
    }
    n
}

fn trim_tail_chars(v: &Vec<char>) -> (r: Vec<char>)
    ensures
        r@ == trim_tail(v@),
{
    let n = trim_tail_len(v);
    assert(v@.subrange(0, n as int) =~= v@.take(n as int));
    slice_of(v, 0, n)
}

/// The characters of the file name.
pub fn file_name_chars(path: &str) -> (r: Option<Vec<char>>)
    ensures
        r is Some <==> file_name_of(path@) is Some,
        r is Some ==> Some(r->0@) == file_name_of(path@),
{
    let t = trim_tail_chars(&chars_of(path));
    let m = t.len();
    let start = match rfind_char(&t, '/') {
        Some(k) => {
            assert(k < m);
            k + 1
        },
        None => 0,
    };
    proof {
        lemma_last_of(t@, '/');
    }
    let name = slice_of(&t, start, t.len());
    assert(name@ =~= last_piece(path@));
    if name.len() == 0 {
        return None;
    }
    if name.len() == 1 && name[0] == '.' {
        assert(name@ =~= seq!['.']);
        return None;
    }
    if name.len() == 2 && name[0] == '.' && name[1] == '.' {
        assert(name@ =~= seq!['.', '.']);
        return None;
    }
    Some(name)
}

pub fn file_name(path: &str) -> (r: Option<String>)
    ensures
        r is Some <==> file_name_of(path@) is Some,
        r is Some ==> Some(r->0@) == file_name_of(path@),
{
    match file_name_chars(path) {
        Some(v) => Some(text_of(&v)),
        None => None,
    }
}

/// The file name, or an empty text where there is none.
pub fn file_name_or_empty(path: &str) -> (r: String)
    ensures
        r@ == name_or_empty(path@),
{
    match file_name(path) {
        Some(n) => n,
        None => {
            let e = String::new();
            assert(e@ =~= seq![]);
            e
        },
    }
}

pub fn parent(path: &str) -> (r: Option<String>)
    ensures
        r is Some <==> parent_of(path@) is Some,
        r is Some ==> Some(r->0@) == parent_of(path@),
{
    let t = trim_tail_chars(&chars_of(path));
    if t.len() == 0 || (t.len() == 1 && t[0] == '/') {
        proof {
            if t@.len() == 1 {
                assert(t@ =~= seq!['/']);
            }
        }
        return None;
    }
    let end = match rfind_char(&t, '/') {
        Some(k) => k + 1,
        None => 0,
    };
    proof {
        lemma_last_of(t@, '/');
        assert(t@.subrange(0, end as int) =~= t@.take(end as int));
    }
    Some(text_of(&trim_tail_chars(&slice_of(&t, 0, end))))
}

pub fn join(base: &str, name: &str) -> (r: String)
    ensures
        r@ == join_of(base@, name@),
{
    let n = chars_of(name);
    let b = chars_of(base);
    let mut out = String::new();
    if n.len() > 0 && n[0] == '/' {
        out.append(name);
        assert(out@ =~= name@);
        return out;
    }
    out.append(base);
    assert(out@ =~= base@);
    if b.len() > 0 && b[b.len() - 1] != '/' {
        out.push('/');
    }
    out.append(name);
    out
}

pub fn extension_chars(path: &str) -> (r: Option<Vec<char>>)
    ensures
        r is Some <==> extension_of(path@) is Some,
        r is Some ==> Some(r->0@) == extension_of(path@),
{
    match file_name_chars(path) {
        Some(n) => match rfind_char(&n, '.') {
            Some(k) => if k > 0 {
                let m = n.len();
                assert(k < m);
                assert(n@.subrange(k + 1, n@.len() as int) =~= n@.skip(k + 1));
                Some(slice_of(&n, k + 1, n.len()))
            } else {
                None
            },
            None => None,
        },
        None => None,
    }
}

pub open spec fn char_views(v: Seq<Vec<char>>) -> Seq<Seq<char>> {
    Seq::new(v.len(), |i: int| v[i]@)
}

fn pieces_chars(v: &Vec<char>) -> (r: Vec<Vec<char>>)
    ensures
        char_views(r@) == pieces(v@),
{
    let mut done: Vec<Vec<char>> = Vec::new();
    let mut current: Vec<char> = Vec::new();
    let n = v.len();
    assert(v@.take(0) =~= Seq::<char>::empty());
    assert(char_views(done@).push(current@) =~= pieces(v@.take(0)));
    for i in 0..n
        invariant
            n == v@.len(),
            char_views(done@).push(current@) == pieces(v@.take(i as int)),
    {
        let ghost before = char_views(done@).push(current@);
        assert(v@.take(i + 1).drop_last() =~= v@.take(i as int));
        let c = v[i];
        if c == '/' {
            let ghost done0 = done@;
            done.push(current);
            current = Vec::new();
            assert(char_views(done@) =~= before);
            assert(char_views(done@).push(current@) =~= before.push(Seq::<char>::empty()));
        } else {
            current.push(c);
            assert(before.drop_last() =~= char_views(done@));
        }
    }
    assert(v@.take(n as int) =~= v@);
    let ghost before = char_views(done@).push(current@);
    done.push(current);
    assert(char_views(done@) =~= before);
    done
}

/// The components of a path.
pub fn components_chars(path: &str) -> (r: Vec<Vec<char>>)
    ensures
        char_views(r@) == components(path@),
{
    let v = chars_of(path);
    let parts = pieces_chars(&v);
    let mut out: Vec<Vec<char>> = Vec::new();
    let n = parts.len();
    let nonempty = v.len() > 0;
    assert(char_views(parts@).take(0) =~= seq![]);
    assert(char_views(out@) =~= seq![]);
    for i in 0..n
        invariant
            n == parts@.len(),
            char_views(out@) == components_of(char_views(parts@).take(i as int), nonempty),
    {
        let ghost all = char_views(parts@);
        let ghost before = char_views(out@);
        assert(all.take(i + 1).drop_last() =~= all.take(i as int));
        assert(all.take(i + 1).last() == parts@[i as int]@);
        let piece = &parts[i];
        let m = piece.len();
        if m == 0 {
            if i == 0 && nonempty {
                let mut root: Vec<char> = Vec::new();
                root.push('/');
                assert(root@ =~= seq!['/']);
                out.push(root);
                assert(char_views(out@) =~= before.push(seq!['/']));
            }
        } else if m == 1 && piece[0] == '.' {
            assert(piece@ =~= seq!['.']);
            if i == 0 {
                let copy = slice_of(piece, 0, m);
                assert(copy@ =~= piece@);
                out.push(copy);
                assert(char_views(out@) =~= before.push(piece@));
            }
        } else {
            let copy = slice_of(piece, 0, m);
            assert(copy@ =~= piece@);
            out.push(copy);
            assert(char_views(out@) =~= before.push(piece@));
        }
    }
    assert(char_views(parts@).take(n as int) =~= char_views(parts@));
    out
}

/// How many components a path has.
pub fn depth(path: &str) -> (r: usize)
    ensures
        r == components(path@).len(),
{
    let c = components_chars(path);
    assert(char_views(c@).len() == c@.len());
    c.len()
}

/// The one text for all paths with these components.
pub fn normal_form(path: &str) -> (r: String)
    ensures
        r@ == normal_form_of(path@),
{
    let c = components_chars(path);
    let mut out = String::new();
    let n = c.len();
    assert(out@ =~= text_of_components(char_views(c@).take(0)));
    for i in 0..n
        invariant
            n == c@.len(),
            out@ == text_of_components(char_views(c@).take(i as int)),
    {
        let ghost all = char_views(c@);
        assert(all.take(i + 1).drop_last() =~= all.take(i as int));
        assert(all.take(i + 1).last() == c@[i as int]@);
        let piece = text_of(&c[i]);
        out = join(out.as_str(), piece.as_str());
    }
    assert(char_views(c@).take(n as int) =~= char_views(c@));
    out
}

/// The key by which a path is compared and looked up.
pub fn key_of(path: &str) -> (r: String)
    ensures
        r@ == path_key(path@),
{
    proof {
        reveal(path_key);
    }
    normal_form(path)
}

/// Are the two texts the same path?
pub fn same_path(a: &str, b: &str) -> (r: bool)
    ensures
        r == (path_key(a@) == path_key(b@)),
{
    same_text(key_of(a).as_str(), key_of(b).as_str())
}

/// Does `a` stand before `b` in dictionary order?
pub fn chars_before(a: &Vec<char>, b: &Vec<char>) -> (r: bool)
    ensures
        r == text_before(a@, b@),
{
    let mut i: usize = 0;
    assert(a@.skip(0) =~= a@);
    assert(b@.skip(0) =~= b@);
    while i < a.len() && i < b.len()
        invariant
            i <= a@.len(),
            i <= b@.len(),
            text_before(a@, b@) == text_before(a@.skip(i as int), b@.skip(i as int)),
        decreases a@.len() - i,
    {
        if a[i] != b[i] {
            return a[i] < b[i];
        }
        assert(a@.skip(i as int).drop_first() =~= a@.skip(i + 1));
        assert(b@.skip(i as int).drop_first() =~= b@.skip(i + 1));
        i = i + 1;
    }
    i < b.len()
}

fn rank_of(c: &Vec<char>) -> (r: u8)
    ensures
        r == component_rank(c@),
{
    if c.len() == 1 && c[0] == '/' {
        assert(c@ =~= seq!['/']);
        0
    } else if c.len() == 1 && c[0] == '.' {
        assert(c@ =~= seq!['.']);
        1
    } else if c.len() == 2 && c[0] == '.' && c[1] == '.' {
        assert(c@ =~= seq!['.', '.']);
        2
    } else {
        3
    }
}

fn component_chars_before(a: &Vec<char>, b: &Vec<char>) -> (r: bool)
    ensures
        r == component_before(a@, b@),
{
    let ra = rank_of(a);
    let rb = rank_of(b);
    if ra != rb {
        ra < rb
    } else {
        ra == 3 && chars_before(a, b)
    }
}

/// Does path `a` stand before path `b`?
pub fn is_path_before(a: &str, b: &str) -> (r: bool)
    ensures
        r == path_before(a@, b@),
{
    let ca = components_chars(a);
    let cb = components_chars(b);
    let ghost va = char_views(ca@);
    let ghost vb = char_views(cb@);
    let mut i: usize = 0;
    assert(va.skip(0) =~= va);
    assert(vb.skip(0) =~= vb);
    while i < ca.len() && i < cb.len()
        invariant
            va == char_views(ca@),
            vb == char_views(cb@),
            va == components(a@),
            vb == components(b@),
            i <= ca@.len(),
            i <= cb@.len(),
            components_before(va, vb) == components_before(va.skip(i as int), vb.skip(i as int)),
        decreases ca@.len() - i,
    {
        assert(va.skip(i as int)[0] == ca@[i as int]@);
        assert(vb.skip(i as int)[0] == cb@[i as int]@);
        if !same_chars(&ca[i], &cb[i]) {
            return component_chars_before(&ca[i], &cb[i]);
        }
        assert(va.skip(i as int).drop_first() =~= va.skip(i + 1));
        assert(vb.skip(i as int).drop_first() =~= vb.skip(i + 1));
        i = i + 1;
    }
    i < cb.len()
}

/// How long the path is, in bytes of UTF-8.
pub open spec fn byte_len_of(path: Seq<char>) -> nat {
    vstd::utf8::encode_utf8(path).len()
}

pub fn byte_len(path: &str) -> (r: usize)
    ensures
        r == byte_len_of(path@),
{
    path.as_bytes().len()
}

/// The directory that holds the program's own data, given the user's local
/// data directory.
pub fn data_dir(local_data_dir: &str) -> (r: String)
    ensures
        r@ == join_of(local_data_dir@, "dupscanner"@),
{
    join(local_data_dir, "dupscanner")
}

/// The single scan database shared by every mode.
pub fn default_db_path(local_data_dir: &str) -> (r: String)
    ensures
        r@ == join_of(join_of(local_data_dir@, "dupscanner"@), "scans.db"@),
{
    join(data_dir(local_data_dir).as_str(), "scans.db")
}

/// What can stand as a name inside a folder: not empty, without a slash, and
/// neither `.` nor `..`.
pub open spec fn is_plain_name(name: Seq<char>) -> bool {
    &&& name.len() > 0
    &&& !name.contains('/')
    &&& name != seq!['.']
    &&& name != seq!['.', '.']
}

proof fn lemma_joined_name(dir: Seq<char>, name: Seq<char>)
    requires
        is_plain_name(name),
    ensures
        join_of(dir, name) == if dir.len() == 0 || dir.last() == '/' {
            dir + name
        } else {
            dir + seq!['/'] + name
        },
        trim_tail(join_of(dir, name)) == join_of(dir, name),
        last_of(join_of(dir, name), '/') == join_of(dir, name).len() - name.len() - 1,
{
    let j = join_of(dir, name);
    assert(name[0] != '/' && name.last() != '/') by {
        assert(name.contains(name[0]) && name.contains(name.last()));
    }
    assert(dir.push('/') == dir + seq!['/']);
    assert(j.last() == name.last());
    if name.len() > 1 {
        assert(j[j.len() - 2] == name[name.len() - 2]);
        assert(name.contains(name[name.len() - 2]));
    } else if j.len() > 1 && j.last() == '.' {
        assert(name == seq!['.']);
    }
    lemma_last_of(j, '/');
    let at = j.len() - name.len() - 1;
    assert(at >= 0 ==> j[at] == '/');
    assert forall|i: int| at < i < j.len() implies j[i] != '/' by {
        assert(j[i] == name[i - at - 1]);
        assert(name.contains(name[i - at - 1]));
    }
}

/// A name joined to a folder is the last component of the path: it is the
/// path's file name, the folder's components are those before it, and the
/// folder, without trailing slashes, is its parent.
pub proof fn a_name_lies_in_its_folder(dir: Seq<char>, name: Seq<char>)
    requires
        is_plain_name(name),
    ensures
        file_name_of(join_of(dir, name)) == Some(name),
        name_or_empty(join_of(dir, name)) == name,
        components(join_of(dir, name)) == components(dir).push(name),
        parent_of(join_of(dir, name)) is Some,
        components(parent_of(join_of(dir, name))->0) == components(dir),
        dir.len() > 0 && dir.last() != '/' && (dir.len() > 1 && dir.last() == '.' ==> dir[dir.len() - 2]
            != '/') ==> parent_of(join_of(dir, name)) == Some(dir) && join_of(dir, name) == dir + "/"@ + name,
{
    reveal_strlit("/");
    assert("/"@ =~= seq!['/']);
    let j = join_of(dir, name);
    lemma_joined_name(dir, name);
    assert(j.skip(last_of(j, '/') + 1) == name);
    lemma_pieces(dir);
    let base = if dir.len() == 0 || dir.last() == '/' {
        dir
    } else {
        dir.push('/')
    };
    assert(j == base + name);
    lemma_pieces(base);
    assert(base.len() > 0 && base != dir ==> base.drop_last() == dir);
    lemma_pieces_extend(base, name);
    let parts = pieces(base).drop_last();
    assert(pieces(base).last().len() == 0);
    assert(pieces(base).last() + name == name);
    assert(pieces(j) == parts.push(name));
    assert(parts.push(name).drop_last() == parts);
    if dir.len() == 0 {
        assert(pieces(dir).drop_last() == Seq::<Seq<char>>::empty());
        reveal_with_fuel(components_of, 2);
        assert(components(dir) == Seq::<Seq<char>>::empty());
    } else {
        assert(pieces(base).drop_last().push(pieces(base).last()) == pieces(base));
        if base == dir {
            assert(components(dir) == components_of(parts, true));
        } else {
            assert(parts == pieces(dir));
        }
    }
    assert(components(j) == components_of(parts, true).push(name));
    assert(j.take(last_of(j, '/') + 1) == base);
    assert(j != seq!['/']) by {
        assert(name.contains(name.last()));
        assert(j.last() == name.last());
    }
    lemma_trim_tail(base);
    lemma_trim_tail(dir);
    if base != dir {
        lemma_slash_adds_nothing(dir);
        assert(trim_tail(base) == trim_tail(dir) || dir.len() == 0);
    }
}

/// A slash at the end of a path, or one followed by a dot, adds no
/// component.
proof fn lemma_slash_adds_nothing(path: Seq<char>)
    requires
        path.len() > 0,
    ensures
        components(path.push('/')) == components(path),
        components(path.push('/').push('.')) == components(path),
{
    lemma_pieces(path);
    let a = path.push('/');
    assert(a.drop_last() == path);
    let empty = Seq::<char>::empty();
    assert(pieces(a) == pieces(path).push(empty));
    assert(pieces(path).push(empty).drop_last() == pieces(path));
    let b = a.push('.');
    assert(b.drop_last() == a);
    assert(pieces(b) == pieces(a).drop_last().push(empty.push('.')));
    assert(pieces(a).drop_last() == pieces(path));
    assert(empty.push('.') == seq!['.']);
    assert(pieces(path).push(seq!['.']).drop_last() == pieces(path));
}

proof fn lemma_trim_tail(path: Seq<char>)
    ensures
        components(trim_tail(path)) == components(path),
    decreases path.len(),
{
    if path.len() > 1 && (path.last() == '/' || (path.last() == '.' && path[path.len() - 2] == '/')) {
        let rest = path.drop_last();
        lemma_trim_tail(rest);
        if path.last() == '/' {
            assert(rest.push('/') == path);
            lemma_slash_adds_nothing(rest);
        } else {
            let stem = rest.drop_last();
            assert(rest == stem.push('/'));
            assert(path == stem.push('/').push('.'));
            if stem.len() > 0 {
                lemma_slash_adds_nothing(stem);
            } else {
                reveal_with_fuel(pieces, 3);
                reveal_with_fuel(components_of, 3);
                assert(rest == seq!['/'] && path == seq!['/', '.']);
                assert(seq!['/'].drop_last() == Seq::<char>::empty());
                assert(seq!['/', '.'].drop_last() == seq!['/']);
                let empty = Seq::<char>::empty();
                assert(pieces(empty) == seq![empty]);
                assert(pieces(rest) == seq![empty, empty]);
                assert(pieces(path) == seq![empty, seq!['.']]) by {
                    assert(pieces(rest).drop_last() == seq![empty]);
                    assert(empty.push('.') == seq!['.']);
                    assert(seq![empty].push(seq!['.']) == seq![empty, seq!['.']]);
                }
                assert(seq![empty, empty].drop_last() == seq![empty]);
                assert(seq![empty, seq!['.']].drop_last() == seq![empty]);
            }
        }
    }
}

/// Writing a path with a slash, or a slash and a dot, at its end changes
/// neither its components nor its key; the root has itself as its only
/// component and the empty path none.
pub proof fn trailing_slashes_do_not_count(path: Seq<char>)
    requires
        path.len() > 0,
    ensures
        components(path + "/"@) == components(path),
        components(path + "/."@) == components(path),
        path_key(path + "/"@) == path_key(path),
        components("/"@) == seq!["/"@],
        components(""@) == Seq::<Seq<char>>::empty(),
{
    reveal_strlit("/");
    reveal_strlit("/.");
    reveal_strlit("");
    assert(path + "/"@ == path.push('/'));
    assert(path + "/."@ == path.push('/').push('.'));
    lemma_slash_adds_nothing(path);
    keys_stand_for_components(path + "/"@, path);
    let empty = Seq::<char>::empty();
    assert(""@ =~= empty);
    assert("/"@ =~= seq!['/']);
    reveal_with_fuel(pieces, 2);
    reveal_with_fuel(components_of, 3);
    assert(seq!['/'].drop_last() == empty);
    assert(pieces(seq!['/']) == seq![empty, empty]);
    assert(seq![empty, empty].drop_last() == seq![empty]);
    assert(seq![empty].drop_last() == Seq::<Seq<char>>::empty());
    assert(components(seq!['/']) == seq![seq!['/']]);
}

/// The extension is what follows the last dot of the name, where something
/// stands before that dot.
pub proof fn extensions_follow_the_last_dot(dir: Seq<char>, stem: Seq<char>, ext: Seq<char>)
    requires
        is_plain_name(stem + "."@ + ext),
        !ext.contains('.'),
    ensures
        extension_of(join_of(dir, stem + "."@ + ext)) == if stem.len() > 0 {
            Some(ext)
        } else {
            None::<Seq<char>>
        },
        is_plain_name(ext) ==> extension_of(join_of(dir, ext)) is None,
{
    reveal_strlit(".");
    let name = stem + "."@ + ext;
    a_name_lies_in_its_folder(dir, name);
    lemma_last_of(name, '.');
    assert(name[stem.len() as int] == '.');
    assert forall|i: int| stem.len() < i < name.len() implies name[i] != '.' by {
        assert(name[i] == ext[i - stem.len() - 1]);
        assert(ext.contains(ext[i - stem.len() - 1]));
    }
    assert(last_of(name, '.') == stem.len());
    assert(name.skip(stem.len() as int + 1) == ext);
    if is_plain_name(ext) {
        a_name_lies_in_its_folder(dir, ext);
        lemma_last_of(ext, '.');
        if last_of(ext, '.') >= 0 {
            assert(ext.contains(ext[last_of(ext, '.')]));
        }
    }
}

/// Texts are ordered by the first character in which they differ, the
/// smaller code first, and a text stands before its extensions.
pub proof fn texts_go_by_their_first_difference(common: Seq<char>, a: Seq<char>, b: Seq<char>)
    ensures
        text_before(common + a, common + b) <==> text_before(a, b),
        a.len() > 0 && b.len() > 0 && a[0] < b[0] ==> text_before(a, b),
        a.len() == 0 && b.len() > 0 ==> text_before(a, b),
    decreases common.len(),
{
    if common.len() == 0 {
        assert(common + a == a && common + b == b);
    } else {
        let rest = common.drop_first();
        assert((common + a).drop_first() == rest + a);
        assert((common + b).drop_first() == rest + b);
        texts_go_by_their_first_difference(rest, a, b);
    }
}

proof fn lemma_common_components(common: Seq<Seq<char>>, a: Seq<Seq<char>>, b: Seq<Seq<char>>)
    ensures
        components_before(common + a, common + b) <==> components_before(a, b),
    decreases common.len(),
{
    if common.len() == 0 {
        assert(common + a == a && common + b == b);
    } else {
        let rest = common.drop_first();
        assert((common + a).drop_first() == rest + a);
        assert((common + b).drop_first() == rest + b);
        lemma_common_components(rest, a, b);
    }
}

/// Inside one folder paths go by their names, and a folder stands before
/// what lies in it.
pub proof fn folders_go_before_their_files(dir: Seq<char>, a: Seq<char>, b: Seq<char>)
    requires
        is_plain_name(a),
        is_plain_name(b),
    ensures
        path_before(join_of(dir, a), join_of(dir, b)) <==> text_before(a, b),
        path_before(dir, join_of(dir, a)),
        !path_before(join_of(dir, a), dir),
{
    a_name_lies_in_its_folder(dir, a);
    a_name_lies_in_its_folder(dir, b);
    let d = components(dir);
    let none = Seq::<Seq<char>>::empty();
    assert(d.push(a) == d + seq![a]);
    assert(d.push(b) == d + seq![b]);
    assert(d == d + none);
    lemma_common_components(d, seq![a], seq![b]);
    lemma_common_components(d, none, seq![a]);
    lemma_common_components(d, seq![a], none);
    lemma_text_order(a, b, b);
    assert(a.contains(a[0]) && b.contains(b[0]));
    assert(seq![a].drop_first() == none && seq![b].drop_first() == none);
    assert(component_rank(a) == 3 && component_rank(b) == 3) by {
        assert(a != seq!['/'] && b != seq!['/']);
    }
    assert(components_before(none, none) == false);
    assert(components_before(seq![a], seq![b]) == if a != b {
        text_before(a, b)
    } else {
        false
    });
}

/// The root stands before `.`, `.` before `..`, and all three before any
/// name.
pub proof fn special_components_go_first(name: Seq<char>)
    requires
        is_plain_name(name),
    ensures
        component_before("/"@, "."@),
        component_before("."@, ".."@),
        component_before(".."@, name),
        component_before("."@, name),
        component_before("/"@, name),
{
    reveal_strlit("/");
    reveal_strlit(".");
    reveal_strlit("..");
    assert("/"@ =~= seq!['/']);
    assert("."@ =~= seq!['.']);
    assert(".."@ =~= seq!['.', '.']);
    assert(seq!['/'][0] != seq!['.'][0]);
    assert(seq!['/'].len() != seq!['.', '.'].len());
    assert(seq!['.'].len() != seq!['.', '.'].len());
    assert(name.contains(name[0]));
    assert(name != seq!['/']);
}

} // verus!
