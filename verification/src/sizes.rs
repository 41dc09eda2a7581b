//! Sizes as they are typed on the command line: a number and a unit.
//!
//! The number may have a fraction. It is read as a 64-bit IEEE 754 number by
//! the caller and comes in as its bits; what it is worth in a unit is worked
//! out here, exactly.

use vstd::prelude::*;
use vstd::arithmetic::power2::{lemma_pow2_pos, lemma_pow2_strictly_increases, lemma_pow2_unfold, pow2};
use crate::scanner::capped;
use crate::text::{chars_of, is_text, slice_of, text_of, trim, trim_chars};

verus! {

/// An ASCII small letter as its capital; anything else unchanged.
pub open spec fn upper(c: char) -> char {
    if 'a' <= c <= 'z' {
        (c as u8 - 32) as u8 as char
    } else {
        c
    }
}

pub open spec fn upper_text(s: Seq<char>) -> Seq<char> {
    Seq::new(s.len(), |i: int| upper(s[i]))
}

fn upper_chars(v: &Vec<char>) -> (r: Vec<char>)
    ensures
        r@ == upper_text(v@),
{
    let mut out: Vec<char> = Vec::new();
    let n = v.len();
    for i in 0..n
        invariant
            n == v@.len(),
            out@.len() == i,
            forall|j: int| 0 <= j < i ==> #[trigger] out@[j] == upper(v@[j]),
    {
        let c = v[i];
        if 'a' <= c && c <= 'z' {
            let small = c as u8;
            out.push((small - 32) as char);
        } else {
            out.push(c);
        }
    }
    assert(out@ =~= upper_text(v@));
    out
}

pub open spec fn is_letter(c: char) -> bool {
    'A' <= c <= 'Z' || 'a' <= c <= 'z'
}

/// Where the first ASCII letter stands; the length where there is none.
pub open spec fn first_letter(s: Seq<char>) -> nat
    decreases s.len(),
{
    if s.len() == 0 || is_letter(s[0]) {
        0
    } else {
        1 + first_letter(s.drop_first())
    }
}

/// What was typed, in capitals and without the space around it.
pub open spec fn typed(s: Seq<char>) -> Seq<char> {
    upper_text(trim(s))
}

/// The number: all that stands before the first letter.
pub open spec fn number_text(s: Seq<char>) -> Seq<char> {
    trim(typed(s).take(first_letter(typed(s)) as int))
}

/// The unit: all from the first letter on.
pub open spec fn unit_text(s: Seq<char>) -> Seq<char> {
    typed(s).skip(first_letter(typed(s)) as int)
}

/// A unit without the `B`s at its end.
pub open spec fn bare_unit(unit: Seq<char>) -> Seq<char>
    decreases unit.len(),
{
    if unit.len() > 0 && unit.last() == 'B' {
        bare_unit(unit.drop_last())
    } else {
        unit
    }
}

/// The power of two that a unit stands for.
pub open spec fn unit_power(unit: Seq<char>) -> Option<nat> {
    let u = bare_unit(unit);
    if u == ""@ {
        Some(0)
    } else if u == "K"@ || u == "KI"@ {
        Some(10)
    } else if u == "M"@ || u == "MI"@ {
        Some(20)
    } else if u == "G"@ || u == "GI"@ {
        Some(30)
    } else if u == "T"@ || u == "TI"@ {
        Some(40)
    } else {
        None
    }
}

/// `m` times two to the power `shift`, rounded down.
pub open spec fn scaled(m: nat, shift: int) -> nat {
    if shift >= 0 {
        m * pow2(shift as nat)
    } else {
        m / pow2((-shift) as nat)
    }
}

pub open spec fn exponent_bits(bits: u64) -> nat {
    (bits as nat / 0x10_0000_0000_0000) % 2048
}

pub open spec fn fraction_bits(bits: u64) -> nat {
    bits as nat % 0x10_0000_0000_0000
}

/// The number with these bits times two to the power `power`, as a size: what
/// is negative or not a number counts as zero, a fraction is dropped, and
/// what is too large is the largest size.
pub open spec fn size_of_bits(bits: u64, power: nat) -> u64 {
    let negative = bits >= 0x8000_0000_0000_0000;
    let exponent = exponent_bits(bits);
    let fraction = fraction_bits(bits);
    if negative {
        0
    } else if exponent == 2047 {
        if fraction == 0 {
            u64::MAX
        } else {
            0
        }
    } else if exponent == 0 {
        capped(scaled(fraction, power - 1074) as int)
    } else {
        capped(scaled(fraction + 0x10_0000_0000_0000, exponent + power - 1075) as int)
    }
}

fn power_of_two(n: u32) -> (r: u128)
    requires
        n <= 64,
    ensures
        r == pow2(n as nat),
        r <= 0x1_0000_0000_0000_0000,
{
    proof {
        vstd::arithmetic::power2::lemma2_to64();
    }
    let mut p: u128 = 1;
    for i in 0..n
        invariant
            n <= 64,
            p == pow2(i as nat),
            pow2(64) == 0x1_0000_0000_0000_0000,
    {
        proof {
            lemma_pow2_unfold((i + 1) as nat);
            if i + 1 < 64 {
                lemma_pow2_strictly_increases((i + 1) as nat, 64);
            }
        }
        p = p * 2;
    }
    proof {
        if n < 64 {
            lemma_pow2_strictly_increases(n as nat, 64);
        }
    }
    p
}

fn scale(m: u64, shift: i32) -> (r: u64)
    requires
        -2000 <= shift <= 2000,
    ensures
        r == capped(scaled(m as nat, shift as int) as int),
{
    proof {
        vstd::arithmetic::power2::lemma2_to64();
    }
    if shift < 0 {
        let down = (-shift) as u32;
        if down >= 64 {
            proof {
                if down > 64 {
                    lemma_pow2_strictly_increases(64, down as nat);
                }
                vstd::arithmetic::div_mod::lemma_basic_div(m as int, pow2(down as nat) as int);
            }
            return 0;
        }
        let p = power_of_two(down);
        proof {
            lemma_pow2_pos(down as nat);
            vstd::arithmetic::div_mod::lemma_div_is_ordered_by_denominator(m as int, 1, p as int);
            vstd::arithmetic::div_mod::lemma_div_basics(m as int);
        }
        return (m as u128 / p) as u64;
    }
    let up = shift as u32;
    if m == 0 {
        assert(0 * pow2(up as nat) == 0) by (nonlinear_arith);
        return 0;
    }
    if up >= 64 {
        proof {
            if up > 64 {
                lemma_pow2_strictly_increases(64, up as nat);
            }
            let p = pow2(up as nat);
            assert(m * p >= p) by (nonlinear_arith)
                requires
                    m >= 1,
                    p >= 0,
            ;
        }
        return u64::MAX;
    }
    let p = power_of_two(up);
    assert(m as nat * p as nat <= 0xffff_ffff_ffff_ffffu64 as nat * 0x1_0000_0000_0000_0000u128 as nat) by (nonlinear_arith)
        requires
            m <= 0xffff_ffff_ffff_ffffu64,
            p <= 0x1_0000_0000_0000_0000u128,
    ;
    let product = m as u128 * p;
    if product > u64::MAX as u128 {
        u64::MAX
    } else {
        product as u64
    }
}

/// What the number with these bits is worth in units of two to the power
/// `power`.
pub fn size_from_bits(bits: u64, power: u32) -> (r: u64)
    requires
        power <= 40,
    ensures
        r == size_of_bits(bits, power as nat),
{
    if bits >= 0x8000_0000_0000_0000 {
        return 0;
    }
    let exponent = (bits / 0x10_0000_0000_0000) % 2048;
    let fraction = bits % 0x10_0000_0000_0000;
    if exponent == 2047 {
        return if fraction == 0 {
            u64::MAX
        } else {
            0
        };
    }
    if exponent == 0 {
        scale(fraction, power as i32 - 1074)
    } else {
        scale(fraction + 0x10_0000_0000_0000, exponent as i32 + power as i32 - 1075)
    }
}

/// A size split into its parts.
#[derive(Debug)]
pub struct SizeParts {
    /// All that was typed, in capitals.
    pub typed: String,
    pub number: String,
    pub unit: String,
}

/// Splits what was typed. The number is yet to be read.
pub fn split_size(s: &str) -> (r: SizeParts)
    ensures
        r.typed@ == typed(s@),
        r.number@ == number_text(s@),
        r.unit@ == unit_text(s@),
{
    let v = upper_chars(&trim_chars(&chars_of(s)));
    let n = v.len();
    let mut at: usize = 0;
    assert(v@.skip(0) =~= v@);
    while at < n && !(('A' <= v[at] && v[at] <= 'Z') || ('a' <= v[at] && v[at] <= 'z'))
        invariant
            n == v@.len(),
            at <= n,
            first_letter(v@) == at + first_letter(v@.skip(at as int)),
        decreases n - at,
    {
        assert(v@.skip(at as int)[0] == v@[at as int]);
        assert(v@.skip(at as int).drop_first() =~= v@.skip(at + 1));
        at = at + 1;
    }
    proof {
        if at < n {
            assert(v@.skip(at as int)[0] == v@[at as int]);
        }
    }
    assert(v@.subrange(0, at as int) =~= v@.take(at as int));
    assert(v@.subrange(at as int, n as int) =~= v@.skip(at as int));
    SizeParts {
        typed: text_of(&v),
        number: text_of(&trim_chars(&slice_of(&v, 0, at))),
        unit: text_of(&slice_of(&v, at, n)),
    }
}

fn power_of_unit(unit: &str) -> (r: Option<u32>)
    ensures
        r is Some <==> unit_power(unit@) is Some,
        r matches Some(p) ==> unit_power(unit@) == Some(p as nat) && p <= 40,
{
    let v = chars_of(unit);
    let mut n = v.len();
    assert(v@.take(n as int) =~= v@);
    while n > 0 && v[n - 1] == 'B'
        invariant
            n <= v@.len(),
            bare_unit(v@) == bare_unit(v@.take(n as int)),
        decreases n,
    {
        assert(v@.take(n as int).drop_last() =~= v@.take(n - 1));
        n = n - 1;
    }
    proof {
        if n > 0 {
            assert(v@.take(n as int).last() == v@[n - 1]);
        }
    }
    assert(v@.subrange(0, n as int) =~= v@.take(n as int));
    let u = slice_of(&v, 0, n);
    if is_text(&u, "") {
        Some(0)
    } else if is_text(&u, "K") || is_text(&u, "KI") {
        Some(10)
    } else if is_text(&u, "M") || is_text(&u, "MI") {
        Some(20)
    } else if is_text(&u, "G") || is_text(&u, "GI") {
        Some(30)
    } else if is_text(&u, "T") || is_text(&u, "TI") {
        Some(40)
    } else {
        None
    }
}

/// The size that was typed, where `value` holds the bits of the number that
/// `split_size` gives, or nothing where it is no number.
pub fn parse_size(s: &str, value: Option<u64>) -> (r: Result<u64, String>)
    ensures
        match value {
            None => r matches Err(e) && e@ == "invalid size: "@ + typed(s@),
            Some(bits) => match unit_power(unit_text(s@)) {
                None => r matches Err(e) && e@ == "unknown size unit: "@ + unit_text(s@),
                Some(p) => r == Ok::<u64, String>(size_of_bits(bits, p)),
            },
        },
{
    let parts = split_size(s);
    match value {
        None => {
            let mut e = "invalid size: ".to_owned();
            e.append(parts.typed.as_str());
            Err(e)
        },
        Some(bits) => match power_of_unit(parts.unit.as_str()) {
            None => {
                let mut e = "unknown size unit: ".to_owned();
                e.append(parts.unit.as_str());
                Err(e)
            },
            Some(p) => Ok(size_from_bits(bits, p)),
        },
    }
}

/// A whole number of units, small enough, is worth exactly that many.
pub proof fn whole_sizes_are_exact(bits: u64, power: nat, n: nat)
    requires
        power <= 40,
        0 < n,
        bits < 0x8000_0000_0000_0000,
        0 < exponent_bits(bits) < 2047,
        fraction_bits(bits) + 0x10_0000_0000_0000 == scaled(n, 1075 - exponent_bits(bits)),
        exponent_bits(bits) <= 1075,
        n * pow2(power) <= u64::MAX,
    ensures
        size_of_bits(bits, power) == n * pow2(power),
{
    let down = (1075 - exponent_bits(bits)) as nat;
    let m = fraction_bits(bits) + 0x10_0000_0000_0000;
    assert(m == n * pow2(down));
    lemma_pow2_pos(down);
    if power >= down {
        let up = (power - down) as nat;
        vstd::arithmetic::power2::lemma_pow2_adds(down, up);
        assert((n * pow2(down)) * pow2(up) == n * (pow2(down) * pow2(up))) by (nonlinear_arith);
    } else {
        let rest = (down - power) as nat;
        vstd::arithmetic::power2::lemma_pow2_adds(power, rest);
        lemma_pow2_pos(rest);
        assert(n * (pow2(power) * pow2(rest)) == (n * pow2(power)) * pow2(rest)) by (nonlinear_arith);
        vstd::arithmetic::div_mod::lemma_div_by_multiple(
            (n * pow2(power)) as int,
            pow2(rest) as int,
        );
    }
}

/// A number and its unit are the text before the first letter and the text
/// from there on, in capitals; where there is no letter all is number.
pub proof fn sizes_split_at_the_first_letter(number: Seq<char>, unit: Seq<char>)
    requires
        forall|i: int| 0 <= i < number.len() ==> !is_letter(#[trigger] number[i]),
        unit.len() > 0 ==> is_letter(unit[0]),
        trim(number + unit) == number + unit,
    ensures
        number_text(number + unit) == trim(number),
        unit_text(number + unit) == upper_text(unit),
{
    let s = number + unit;
    assert forall|i: int| 0 <= i < number.len() implies !is_letter(#[trigger] typed(s)[i]) by {
        assert(typed(s)[i] == upper(number[i]));
    }
    if unit.len() > 0 {
        assert(typed(s)[number.len() as int] == upper(unit[0]));
    }
    lemma_first_letter(typed(s), number.len());
    assert(typed(s).take(number.len() as int) == number) by {
        assert forall|i: int| 0 <= i < number.len() implies typed(s)[i] == number[i] by {
            assert(typed(s)[i] == upper(number[i]));
        }
    }
    assert(typed(s).skip(number.len() as int) == upper_text(unit));
}

proof fn lemma_first_letter(s: Seq<char>, n: nat)
    requires
        n <= s.len(),
        forall|i: int| 0 <= i < n ==> !is_letter(#[trigger] s[i]),
        n < s.len() ==> is_letter(s[n as int]),
    ensures
        first_letter(s) == n,
    decreases s.len(),
{
    if n > 0 {
        assert(!is_letter(s[0]));
        let rest = s.drop_first();
        assert forall|i: int| 0 <= i < n - 1 implies !is_letter(#[trigger] rest[i]) by {
            assert(rest[i] == s[i + 1]);
        }
        lemma_first_letter(rest, (n - 1) as nat);
    }
}

/// Raising moves an ASCII small letter thirty-two places down and leaves
/// every other character alone.
pub proof fn capitals_have_their_codes(c: char)
    ensures
        97 <= c as u32 <= 122 ==> upper(c) as u32 == c as u32 - 32,
        !(97 <= c as u32 <= 122) ==> upper(c) == c,
        is_letter(c) <==> 65 <= c as u32 <= 90 || 97 <= c as u32 <= 122,
{
}

/// A unit is worth the power of 1024 that its letter names, with or without
/// an `I`; no letter means bytes, a `B` at the end never counts, and nothing
/// else is a unit.
pub proof fn units_are_powers_of_1024(unit: Seq<char>)
    ensures
        unit_power(unit + "B"@) == unit_power(unit),
        unit_power(""@) is Some && pow2(unit_power(""@)->0) == 1,
        unit_power("K"@) is Some && pow2(unit_power("K"@)->0) == 1024,
        unit_power("M"@) is Some && pow2(unit_power("M"@)->0) == 1024 * 1024,
        unit_power("G"@) is Some && pow2(unit_power("G"@)->0) == 1024 * 1024 * 1024,
        unit_power("T"@) is Some && pow2(unit_power("T"@)->0) == 1024 * 1024 * 1024 * 1024,
        unit_power("KI"@) == unit_power("K"@),
        unit_power("MI"@) == unit_power("M"@),
        unit_power("GI"@) == unit_power("G"@),
        unit_power("TI"@) == unit_power("T"@),
        unit.len() > 0 && unit.last() != 'B' ==> (unit_power(unit) is Some <==> unit == "K"@ || unit == "M"@
            || unit == "G"@ || unit == "T"@ || unit == "KI"@ || unit == "MI"@ || unit == "GI"@ || unit
            == "TI"@),
{
    reveal_strlit("");
    reveal_strlit("B");
    reveal_strlit("K");
    reveal_strlit("M");
    reveal_strlit("G");
    reveal_strlit("T");
    reveal_strlit("KI");
    reveal_strlit("MI");
    reveal_strlit("GI");
    reveal_strlit("TI");
    assert((unit + "B"@).drop_last() == unit);
    assert(bare_unit(""@) == ""@);
    assert("K"@[0] == 'K' && "M"@[0] == 'M' && "G"@[0] == 'G' && "T"@[0] == 'T');
    assert("KI"@[0] == 'K' && "MI"@[0] == 'M' && "GI"@[0] == 'G' && "TI"@[0] == 'T');
    assert(""@.len() == 0);
    assert(pow2(0) == 1 && pow2(10) == 1024 && pow2(20) == 1024 * 1024 && pow2(30) == 1024 * 1024 * 1024
        && pow2(40) == 1024 * 1024 * 1024 * 1024) by {
        vstd::arithmetic::power2::lemma2_to64();
        vstd::arithmetic::power2::lemma2_to64_rest();
    }
}

/// Infinity is worth the largest size and what is negative or no number
/// nothing, whatever the unit.
pub proof fn odd_sizes_have_fixed_worth(bits: u64, power: nat)
    ensures
        size_of_bits(0x7FF0_0000_0000_0000, power) == 18446744073709551615u64,
        0x7FF0_0000_0000_0000 < bits < 0x8000_0000_0000_0000 ==> size_of_bits(bits, power) == 0,
        bits >= 0x8000_0000_0000_0000 ==> size_of_bits(bits, power) == 0,
        size_of_bits(0, power) == 0,
{
    assert(0x7FF0_0000_0000_0000nat / 0x10_0000_0000_0000 == 2047);
    if 0x7FF0_0000_0000_0000 < bits < 0x8000_0000_0000_0000 {
        assert(bits as nat / 0x10_0000_0000_0000 == 2047);
        assert(fraction_bits(bits) == bits - 0x7FF0_0000_0000_0000);
    }
    let shift = power - 1074;
    assert(fraction_bits(0) == 0 && exponent_bits(0) == 0);
    if shift >= 0 {
        assert(0 * pow2(shift as nat) == 0);
    } else {
        vstd::arithmetic::power2::lemma_pow2_pos((-shift) as nat);
        assert(0nat / pow2((-shift) as nat) == 0) by (nonlinear_arith)
            requires
                pow2((-shift) as nat) > 0,
        ;
    }
}

/// A size that is no whole number of bytes is cut, not rounded: of the
/// number `m` times a power of two that the bits stand for, the whole part is
/// taken, and what is too large becomes the largest size.
pub proof fn sizes_are_cut_to_whole_bytes(bits: u64, power: nat)
    requires
        bits < 0x8000_0000_0000_0000,
        0 < exponent_bits(bits) < 2047,
    ensures
        ({
            let m = bits as nat % 0x10_0000_0000_0000 + 0x10_0000_0000_0000;
            let shift = (bits as nat / 0x10_0000_0000_0000) as int + power - 1075;
            let r = size_of_bits(bits, power);
            &&& shift < 0 ==> r * pow2((-shift) as nat) <= m < (r + 1) * pow2((-shift) as nat)
            &&& shift >= 0 && m * pow2(shift as nat) <= u64::MAX ==> r == m * pow2(shift as nat)
            &&& shift >= 0 && m * pow2(shift as nat) > u64::MAX ==> r == u64::MAX
        }),
{
    let m = bits as nat % 0x10_0000_0000_0000 + 0x10_0000_0000_0000;
    let e = bits as nat / 0x10_0000_0000_0000;
    assert(e < 2048);
    assert(exponent_bits(bits) == e);
    let shift = e as int + power - 1075;
    if shift < 0 {
        let d = pow2((-shift) as nat);
        lemma_pow2_pos((-shift) as nat);
        let q = m / d;
        assert(q * d <= m < (q + 1) * d && q <= m) by (nonlinear_arith)
            requires
                d > 0,
                q == m / d,
        ;
        assert(m < 0x20_0000_0000_0000);
        assert(size_of_bits(bits, power) == q);
    } else {
        assert(m * pow2(shift as nat) >= 0);
    }
}

} // verus!
