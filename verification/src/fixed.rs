//! Quotients as decimal text: a fixed number of fraction digits, or the
//! shortest text within a limit, rounded to the nearest, halves up.

use crate::digits::{decimal, push_decimal, push_zero_padded, zero_padded};
use crate::stats::{lemma_round_half_up, lemma_round_shift, round_half_up};
use vstd::arithmetic::div_mod::*;
use vstd::prelude::*;
use vstd::string::*;

verus! {

/// The most fraction digits that a quotient is computed to.
pub const MAX_PLACES: usize = 18;

/// The fraction digits of a quotient for which no number of them is asked.
pub const SHORT_PLACES: usize = 9;

/// Ten to the power of `k`.
pub open spec fn pow10(k: nat) -> nat
    decreases k,
{
    if k == 0 {
        1
    } else {
        10 * pow10((k - 1) as nat)
    }
}

/// `num / den` in units of `10^-places`, rounded to the nearest, halves up.
pub open spec fn scaled(num: nat, den: nat, places: nat) -> nat
    recommends
        den > 0,
{
    round_half_up(num * pow10(places), den)
}

/// A whole part and `places` fraction digits, as text; no point where there
/// are no fraction digits.
pub open spec fn point_text(whole: nat, frac: nat, places: nat) -> Seq<char> {
    if places == 0 {
        decimal(whole)
    } else {
        decimal(whole) + seq!['.'] + zero_padded(frac, places)
    }
}

/// As `point_text`, without zeros at the end of the fraction.
pub open spec fn trimmed_text(whole: nat, frac: nat, places: nat) -> Seq<char>
    decreases places,
{
    if places == 0 {
        decimal(whole)
    } else if frac % 10 == 0 {
        trimmed_text(whole, frac / 10, (places - 1) as nat)
    } else {
        point_text(whole, frac, places)
    }
}

/// `num / den` with exactly `places` fraction digits.
pub open spec fn fixed_text(num: nat, den: nat, places: nat) -> Seq<char>
    recommends
        den > 0,
{
    let s = scaled(num, den, places);
    point_text(s / pow10(places), s % pow10(places), places)
}

/// `num / den` with up to `SHORT_PLACES` fraction digits, as few as show the
/// rounded value.
pub open spec fn short_text(num: nat, den: nat) -> Seq<char>
    recommends
        den > 0,
{
    let s = scaled(num, den, SHORT_PLACES as nat);
    trimmed_text(s / pow10(SHORT_PLACES as nat), s % pow10(SHORT_PLACES as nat), SHORT_PLACES as nat)
}

/// `count` times the character `c`.
pub open spec fn repeated(c: char, count: nat) -> Seq<char> {
    Seq::new(count, |i: int| c)
}

/// `num / den` with `places` fraction digits, of which those beyond
/// `MAX_PLACES` are zeros.
pub open spec fn precise_text(num: nat, den: nat, places: nat) -> Seq<char>
    recommends
        den > 0,
{
    if places <= MAX_PLACES {
        fixed_text(num, den, places)
    } else {
        fixed_text(num, den, MAX_PLACES as nat) + repeated('0', (places - MAX_PLACES) as nat)
    }
}

/// `text` with spaces in front up to `width` characters.
pub open spec fn right_aligned(text: Seq<char>, width: nat) -> Seq<char> {
    if text.len() >= width {
        text
    } else {
        repeated(' ', (width - text.len()) as nat) + text
    }
}

proof fn lemma_pow10_bound(k: nat)
    requires
        k <= 18,
    ensures
        1 <= pow10(k) <= 1_000_000_000_000_000_000,
        k == 9 ==> pow10(k) == 1_000_000_000,
    decreases k,
{
    reveal_with_fuel(pow10, 20);
}

/// Ten to the power of `places`.
pub fn power_of_ten(places: usize) -> (p: u128)
    requires
        places <= MAX_PLACES,
    ensures
        p == pow10(places as nat),
{
    let mut p: u128 = 1;
    let mut i: usize = 0;
    while i < places
        invariant
            i <= places <= 18,
            p == pow10(i as nat),
        decreases places - i,
    {
        proof {
            lemma_pow10_bound(i as nat);
        }
        p = p * 10;
        i = i + 1;
    }
    p
}

/// The whole part and the fraction digits of `num / den` rounded to `places`
/// fraction digits.
pub fn split_scaled(num: u128, den: u64, places: usize) -> (parts: (u128, u128))
    requires
        den > 0,
        places <= MAX_PLACES,
    ensures
        parts.0 == scaled(num as nat, den as nat, places as nat) / pow10(places as nat),
        parts.1 == scaled(num as nat, den as nat, places as nat) % pow10(places as nat),
{
    let scale: u128 = power_of_ten(places);
    let d: u128 = den as u128;
    let q: u128 = num / d;
    let r: u128 = num % d;
    proof {
        lemma_pow10_bound(places as nat);
        lemma_fundamental_div_mod(num as int, d as int);
        assert(r * scale <= 0xFFFF_FFFF_FFFF_FFFF * 1_000_000_000_000_000_000) by (nonlinear_arith)
            requires
                r <= 0xFFFF_FFFF_FFFF_FFFF,
                scale <= 1_000_000_000_000_000_000,
        ;
    }
    let x: u128 = r * scale;
    let fq: u128 = x / d;
    let fr: u128 = x % d;
    let up: u128 = if 2 * fr >= d {
        1
    } else {
        0
    };
    let frac: u128 = fq + up;
    proof {
        lemma_fundamental_div_mod(x as int, d as int);
        lemma_round_half_up(x as nat, d as nat);
        assert(frac <= scale) by (nonlinear_arith)
            requires
                x == d * fq + fr,
                x == r * scale,
                r < d,
                frac == fq + up,
                up == 1 ==> 2 * fr >= d,
                up == 0 || up == 1,
                fr >= 0,
                d > 0,
                scale >= 1,
        ;
        let total = num as nat * pow10(places as nat);
        assert(total == (q * scale) * d + x) by (nonlinear_arith)
            requires
                total == num * scale,
                num == d * q + r,
                x == r * scale,
        ;
        lemma_round_shift((q * scale) as nat, x as nat, d as nat);
        assert(scaled(num as nat, den as nat, places as nat) == q * scale + frac);
        if frac == scale {
            assert(q * scale + frac == (q + 1) * scale + 0) by (nonlinear_arith)
                requires
                    frac == scale,
            ;
            lemma_fundamental_div_mod_converse(
                (q * scale + frac) as int,
                scale as int,
                (q + 1) as int,
                0,
            );
            if r == 0 {
                assert(x == 0) by (nonlinear_arith)
                    requires
                        x == r * scale,
                        r == 0,
                ;
                assert(fq == 0 && fr == 0) by (nonlinear_arith)
                    requires
                        0 == d * fq + fr,
                        d > 0,
                        fq >= 0,
                        fr >= 0,
                ;
            }
            assert(q < u128::MAX) by (nonlinear_arith)
                requires
                    num == d * q + r,
                    1 <= r < d,
                    q >= 0,
                    num <= u128::MAX,
            ;
        } else {
            lemma_fundamental_div_mod_converse(
                (q * scale + frac) as int,
                scale as int,
                q as int,
                frac as int,
            );
        }
    }
    if frac == scale {
        (q + 1, 0)
    } else {
        (q, frac)
    }
}

/// Appends `count` times the one-character text `one`.
fn push_repeated(out: &mut String, one: &str, count: usize)
    requires
        one@.len() == 1,
    ensures
        final(out)@ == old(out)@ + repeated(one@[0], count as nat),
{
    let mut i: usize = 0;
    assert(out@ =~= old(out)@ + repeated(one@[0], 0));
    while i < count
        invariant
            i <= count,
            one@.len() == 1,
            out@ == old(out)@ + repeated(one@[0], i as nat),
        decreases count - i,
    {
        out.append(one);
        i = i + 1;
        assert(out@ =~= old(out)@ + repeated(one@[0], i as nat));
    }
}

/// Appends a whole part and `places` fraction digits.
fn push_point_text(out: &mut String, whole: u128, frac: u128, places: usize)
    ensures
        final(out)@ == old(out)@ + point_text(whole as nat, frac as nat, places as nat),
{
    push_decimal(out, whole);
    if places > 0 {
        proof {
            reveal_strlit(".");
        }
        out.append(".");
        push_zero_padded(out, frac, places);
        assert(final(out)@ =~= old(out)@ + point_text(whole as nat, frac as nat, places as nat)) by {
            assert("."@ =~= seq!['.']);
        }
    }
}

/// `num / den` as text with exactly `places` fraction digits.
pub fn precise_string(num: u128, den: u64, places: usize) -> (text: String)
    requires
        den > 0,
    ensures
        text@ == precise_text(num as nat, den as nat, places as nat),
{
    let kept: usize = if places <= MAX_PLACES {
        places
    } else {
        MAX_PLACES
    };
    let parts = split_scaled(num, den, kept);
    let mut text = String::new();
    push_point_text(&mut text, parts.0, parts.1, kept);
    if places > MAX_PLACES {
        proof {
            reveal_strlit("0");
        }
        push_repeated(&mut text, "0", places - MAX_PLACES);
    }
    assert(text@ =~= precise_text(num as nat, den as nat, places as nat));
    text
}

/// `num / den` as the shortest text for its value rounded to `SHORT_PLACES`
/// fraction digits.
pub fn short_string(num: u128, den: u64) -> (text: String)
    requires
        den > 0,
    ensures
        text@ == short_text(num as nat, den as nat),
{
    let parts = split_scaled(num, den, SHORT_PLACES);
    let whole: u128 = parts.0;
    let mut frac: u128 = parts.1;
    let mut places: usize = SHORT_PLACES;
    while places > 0 && frac % 10 == 0
        invariant
            places <= SHORT_PLACES,
            trimmed_text(whole as nat, frac as nat, places as nat) == short_text(
                num as nat,
                den as nat,
            ),
        decreases places,
    {
        frac = frac / 10;
        places = places - 1;
    }
    let mut text = String::new();
    push_point_text(&mut text, whole, frac, places);
    assert(text@ =~= short_text(num as nat, den as nat));
    text
}

/// `text` with spaces in front up to `width` characters.
pub fn align_right(text: &str, width: usize) -> (out: String)
    ensures
        out@ == right_aligned(text@, width as nat),
{
    let len = text.unicode_len();
    let mut out = String::new();
    if len < width {
        proof {
            reveal_strlit(" ");
        }
        push_repeated(&mut out, " ", width - len);
    }
    out.append(text);
    assert(out@ =~= right_aligned(text@, width as nat));
    out
}

} // verus!
