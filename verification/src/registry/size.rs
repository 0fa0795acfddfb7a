//! Human-readable file sizes.
use vstd::prelude::*;
use crate::text::{decimal, decimal_chars, push_str};

verus! {

pub const KIB: u64 = 1024;

pub const MIB: u64 = 1048576;

pub const GIB: u64 = 1073741824;

/// `n / d` rounded to the nearest integer, ties to the even one.
pub open spec fn round_half_even_div(n: int, d: int) -> int {
    let q = n / d;
    let r = n % d;
    if 2 * r > d {
        q + 1
    } else if 2 * r < d {
        q
    } else if q % 2 == 0 {
        q
    } else {
        q + 1
    }
}

/// The gap between neighbouring binary64 floating-point numbers around `s`.
pub open spec fn f64_spacing(s: int) -> int {
    if s < 0x20_0000_0000_0000 {
        1
    } else if s < 0x40_0000_0000_0000 {
        2
    } else if s < 0x80_0000_0000_0000 {
        4
    } else if s < 0x100_0000_0000_0000 {
        8
    } else if s < 0x200_0000_0000_0000 {
        16
    } else if s < 0x400_0000_0000_0000 {
        32
    } else if s < 0x800_0000_0000_0000 {
        64
    } else if s < 0x1000_0000_0000_0000 {
        128
    } else if s < 0x2000_0000_0000_0000 {
        256
    } else if s < 0x4000_0000_0000_0000 {
        512
    } else if s < 0x8000_0000_0000_0000 {
        1024
    } else {
        2048
    }
}

/// The binary64 floating-point number nearest to `s` (ties to even), as `s as f64`
/// gives it.
pub open spec fn nearest_f64(s: int) -> int {
    f64_spacing(s) * round_half_even_div(s, f64_spacing(s))
}

/// `tenths / 10` written with one decimal.
pub open spec fn one_decimal(tenths: nat) -> Seq<char> {
    decimal(tenths / 10) + "."@ + decimal(tenths % 10)
}

/// The text of a file size: `?` for zero, GiB or MiB with one decimal rounded half
/// to even (the value in GiB being that of the nearest binary64 number), otherwise
/// whole KiB rounded half to even.
pub open spec fn size_text(size: u64) -> Seq<char> {
    if size == 0 {
        "?"@
    } else if size >= GIB {
        one_decimal(round_half_even_div(10 * nearest_f64(size as int), GIB as int) as nat) + " GiB"@
    } else if size >= MIB {
        one_decimal(round_half_even_div(10 * size, MIB as int) as nat) + " MiB"@
    } else {
        decimal(round_half_even_div(size as int, KIB as int) as nat) + " KiB"@
    }
}

fn round_half_even(n: u128, d: u128) -> (r: u128)
    requires
        0 < d <= 0x1_0000_0000_0000_0000,
        n < 0x100_0000_0000_0000_0000,
    ensures
        r <= n / d + 1,
        r == round_half_even_div(n as int, d as int),
{
    let q = n / d;
    let m = n % d;
    if 2 * m > d {
        q + 1
    } else if 2 * m < d {
        q
    } else if q % 2 == 0 {
        q
    } else {
        q + 1
    }
}

fn spacing(s: u128) -> (g: u128)
    ensures
        g == f64_spacing(s as int),
{
    if s < 0x20_0000_0000_0000 {
        1
    } else if s < 0x40_0000_0000_0000 {
        2
    } else if s < 0x80_0000_0000_0000 {
        4
    } else if s < 0x100_0000_0000_0000 {
        8
    } else if s < 0x200_0000_0000_0000 {
        16
    } else if s < 0x400_0000_0000_0000 {
        32
    } else if s < 0x800_0000_0000_0000 {
        64
    } else if s < 0x1000_0000_0000_0000 {
        128
    } else if s < 0x2000_0000_0000_0000 {
        256
    } else if s < 0x4000_0000_0000_0000 {
        512
    } else if s < 0x8000_0000_0000_0000 {
        1024
    } else {
        2048
    }
}

fn one_decimal_chars(out: &mut Vec<char>, tenths: u128)
    ensures
        final(out)@ == old(out)@ + one_decimal(tenths as nat),
{
    let whole = decimal_chars(tenths / 10);
    let frac = decimal_chars(tenths % 10);
    let ghost start = out@;
    let mut i: usize = 0;
    while i < whole.len()
        invariant
            i <= whole@.len(),
            out@ == start + whole@.take(i as int),
        decreases whole@.len() - i,
    {
        out.push(whole[i]);
        assert(whole@.take(i + 1) =~= whole@.take(i as int).push(whole@[i as int]));
        i = i + 1;
    }
    assert(whole@.take(i as int) =~= whole@);
    push_str(out, ".");
    out.push(frac[0]);
    assert(frac@ =~= seq![frac@[0]]);
    assert(out@ =~= start + one_decimal(tenths as nat));
}

/// The characters of [`size_text`].
pub fn size_text_chars(size: u64) -> (cs: Vec<char>)
    ensures
        cs@ == size_text(size),
{
    let mut out: Vec<char> = Vec::new();
    if size == 0 {
        push_str(&mut out, "?");
        assert(out@ =~= "?"@);
        return out;
    }
    let s = size as u128;
    if size >= GIB {
        let g = spacing(s);
        let q = round_half_even(s, g);
        assert(g * q <= s + g) by (nonlinear_arith)
            requires
                q <= s / g + 1,
                g > 0,
        ;
        let f = g * q;
        let tenths = round_half_even(10 * f, GIB as u128);
        one_decimal_chars(&mut out, tenths);
        push_str(&mut out, " GiB");
    } else if size >= MIB {
        let tenths = round_half_even(10 * s, MIB as u128);
        one_decimal_chars(&mut out, tenths);
        push_str(&mut out, " MiB");
    } else {
        let whole = round_half_even(s, KIB as u128);
        let digits = decimal_chars(whole);
        let mut i: usize = 0;
        while i < digits.len()
            invariant
                i <= digits@.len(),
                out@ == digits@.take(i as int),
            decreases digits@.len() - i,
        {
            out.push(digits[i]);
            assert(digits@.take(i + 1) =~= digits@.take(i as int).push(digits@[i as int]));
            i = i + 1;
        }
        assert(digits@.take(i as int) =~= digits@);
        push_str(&mut out, " KiB");
    }
    out
}

} // verus!
