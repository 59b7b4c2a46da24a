//! Fixed-point numbers and their decimal notation.
//!
//! Every length, coordinate and ratio of the library is an integer count of
//! millionths of its unit: a length of `1_500_000` is 1.5 mm, a ratio of
//! `250_000` is 0.25. Arithmetic on these counts is exact; where a quotient
//! has to be rounded, the contract says how.

use vstd::prelude::*;
use vstd::string::StringExecFns;

verus! {

/// Largest magnitude of a coordinate that the geometry accepts: a million
/// units on either side of the origin.
pub const COORD_MAX: i64 = 1_000_000_000_000;

/// `String::push` of the standard library appends the character to the
/// string.
pub assume_specification[ String::push ](s: &mut String, c: char)
    ensures
        final(s)@ == old(s)@.push(c),
;

/// Whether `v` is within the range of coordinates that the geometry accepts.
pub open spec fn in_range(v: int) -> bool {
    -COORD_MAX <= v <= COORD_MAX
}

/// `n / d` rounded to the nearest integer, halves rounded up.
pub open spec fn div_round(n: int, d: int) -> int
    recommends
        d > 0,
{
    (2 * n + d) / (2 * d)
}

/// Floor division of `n` by a positive `d`.
pub fn floor_div(n: i128, d: i128) -> (q: i128)
    requires
        d > 0,
        -0x4000_0000_0000_0000_0000_0000_0000_0000 <= n <= 0x4000_0000_0000_0000_0000_0000_0000_0000,
        d <= 0x4000_0000_0000_0000_0000_0000_0000_0000,
    ensures
        q == n / d,
{
    if n >= 0 {
        n / d
    } else {
        let up: i128 = (d - 1 - n) / d;
        proof {
            let dd = d as int;
            let x = dd - 1 - n;
            vstd::arithmetic::div_mod::lemma_fundamental_div_mod(x, dd);
            vstd::arithmetic::div_mod::lemma_mod_bound(x, dd);
            assert(n == (-(x / dd)) * dd + (dd - 1 - x % dd)) by (nonlinear_arith)
                requires
                    x == dd * (x / dd) + x % dd,
                    x == dd - 1 - n,
            ;
            vstd::arithmetic::div_mod::lemma_fundamental_div_mod_converse(
                n as int,
                dd,
                -(x / dd),
                dd - 1 - x % dd,
            );
            assert(0 <= x / dd <= x) by (nonlinear_arith)
                requires
                    x == dd * (x / dd) + x % dd,
                    0 <= x % dd < dd,
                    x >= 0,
                    dd > 0,
            ;
        }
        -up
    }
}

/// Division of `n` by a positive `d`, rounded to the nearest integer.
pub fn round_div(n: i128, d: i128) -> (q: i128)
    requires
        d > 0,
        -0x1000_0000_0000_0000_0000_0000_0000_0000 <= n <= 0x1000_0000_0000_0000_0000_0000_0000_0000,
        d <= 0x1000_0000_0000_0000_0000_0000_0000_0000,
    ensures
        q == div_round(n as int, d as int),
        n >= 0 ==> 0 <= q <= n + 1,
        n < 0 ==> n - 1 <= q <= 0,
{
    proof {
        lemma_div_round_bound(n as int, d as int);
    }
    floor_div(2 * n + d, 2 * d)
}

/// A rounded quotient is no farther from zero than its numerator, by more
/// than one.
pub proof fn lemma_div_round_bound(n: int, d: int)
    requires
        d > 0,
    ensures
        n >= 0 ==> 0 <= div_round(n, d) <= n + 1,
        n < 0 ==> n - 1 <= div_round(n, d) <= 0,
{
    let q = (2 * n + d) / (2 * d);
    let r = (2 * n + d) % (2 * d);
    vstd::arithmetic::div_mod::lemma_fundamental_div_mod(2 * n + d, 2 * d);
    vstd::arithmetic::div_mod::lemma_mod_bound(2 * n + d, 2 * d);
    assert(n >= 0 ==> 0 <= q <= n + 1) by (nonlinear_arith)
        requires
            2 * n + d == (2 * d) * q + r,
            0 <= r < 2 * d,
            d >= 1,
    ;
    assert(n < 0 ==> n - 1 <= q <= 0) by (nonlinear_arith)
        requires
            2 * n + d == (2 * d) * q + r,
            0 <= r < 2 * d,
            d >= 1,
    ;
}

/// The ratio between a point (1/72 inch) and a millimetre is 360/127.
pub open spec fn mm_to_pt_spec(v: int) -> int {
    div_round(v * 360, 127)
}

/// Converts a length in millimetres to typographic points, rounded to the
/// nearest fixed-point step.
pub fn mm_to_pt(v: i64) -> (r: i128)
    ensures
        r == mm_to_pt_spec(v as int),
{
    round_div((v as i128) * 360, 127)
}

/// Converts a length in millimetres to typographic points, rounded to the
/// nearest fixed-point step.
pub fn mm_to_pt_wide(v: i128) -> (r: i128)
    requires
        -55_000_000_000_000_000_000_000_000_000_000_000 <= v
            <= 55_000_000_000_000_000_000_000_000_000_000_000,
    ensures
        r == mm_to_pt_spec(v as int),
{
    round_div(v * 360, 127)
}

/// The character of a decimal digit.
pub open spec fn digit_char(d: int) -> char {
    ((48 + d) as u8) as char
}

/// The decimal digits of `n`, most significant first, without leading zeros.
pub open spec fn digits(n: nat) -> Seq<char>
    decreases n,
{
    if n < 10 {
        seq![digit_char(n as int)]
    } else {
        digits(n / 10).push(digit_char((n % 10) as int))
    }
}

/// The digits of the fraction `f / (10 * scale)`, where `scale` is a power of
/// ten, up to and without its trailing zeros.
pub open spec fn fraction_digits(f: nat, scale: nat) -> Seq<char>
    decreases scale,
{
    if f == 0 || scale == 0 {
        Seq::empty()
    } else {
        seq![digit_char((f / scale) as int)] + fraction_digits(f % scale, scale / 10)
    }
}

/// The decimal notation of the fixed-point number `v`: an optional minus
/// sign, the integer part, and, where the fraction is not zero, a point and
/// the fraction's digits without trailing zeros.
pub open spec fn decimal(v: int) -> Seq<char> {
    let mag = if v < 0 {
        -v
    } else {
        v
    };
    let sign = if v < 0 {
        seq!['-']
    } else {
        Seq::empty()
    };
    let fraction = if mag % 1_000_000 == 0 {
        Seq::empty()
    } else {
        seq!['.'] + fraction_digits((mag % 1_000_000) as nat, 100_000)
    };
    sign + digits((mag / 1_000_000) as nat) + fraction
}

fn digit_of(d: u8) -> (c: char)
    requires
        d < 10,
    ensures
        c == digit_char(d as int),
{
    (48u8 + d) as char
}

/// Appends the decimal digits of `n`.
pub fn push_digits(out: &mut String, n: u128)
    ensures
        final(out)@ == old(out)@ + digits(n as nat),
    decreases n,
{
    if n >= 10 {
        push_digits(out, n / 10);
    }
    out.push(digit_of((n % 10) as u8));
}

fn push_fraction(out: &mut String, f: u32)
    requires
        f < 1_000_000,
    ensures
        final(out)@ == old(out)@ + fraction_digits(f as nat, 100_000),
{
    let mut rest: u32 = f;
    let mut scale: u32 = 100_000;
    let ghost done: Seq<char> = Seq::empty();
    while rest != 0 && scale != 0
        invariant
            rest < 10 * scale || (scale == 0 && rest == 0),
            scale == 100_000 || scale == 10_000 || scale == 1_000 || scale == 100 || scale == 10
                || scale == 1 || scale == 0,
            out@ + fraction_digits(rest as nat, scale as nat) == old(out)@ + fraction_digits(
                f as nat,
                100_000,
            ),
        decreases scale,
    {
        let ghost before = out@;
        let d: u32 = rest / scale;
        out.push(digit_of(d as u8));
        proof {
            assert(before + (seq![digit_char(d as int)] + fraction_digits(
                (rest % scale) as nat,
                (scale / 10) as nat,
            )) == out@ + fraction_digits((rest % scale) as nat, (scale / 10) as nat));
        }
        rest = rest % scale;
        scale = scale / 10;
    }
    proof {
        assert(fraction_digits(rest as nat, scale as nat) == Seq::<char>::empty());
    }
}

/// Appends the decimal notation of the fixed-point number `v`.
pub fn push_decimal(out: &mut String, v: i128)
    requires
        -0x7fff_ffff_ffff_ffff_ffff_ffff_ffff_ffff <= v,
    ensures
        final(out)@ == old(out)@ + decimal(v as int),
{
    let mag: u128 = if v < 0 {
        (-v) as u128
    } else {
        v as u128
    };
    let ghost sign = if v < 0 {
        seq!['-']
    } else {
        Seq::<char>::empty()
    };
    if v < 0 {
        out.push('-');
    }
    assert(out@ == old(out)@ + sign);
    push_digits(out, mag / 1_000_000);
    let f: u32 = (mag % 1_000_000) as u32;
    if f != 0 {
        out.push('.');
        push_fraction(out, f);
        assert(out@ == old(out)@ + (sign + digits((mag / 1_000_000) as nat) + (seq!['.']
            + fraction_digits(f as nat, 100_000))));
    } else {
        assert(out@ == old(out)@ + (sign + digits((mag / 1_000_000) as nat) + Seq::<char>::empty()));
    }
}

} // verus!
