//! Human-readable sizes in binary units, B to TiB.
//!
//! A size of at least 1 KiB is shown as the byte count taken as a 64-bit
//! float, divided by 1024 until it is below 1024 (or the unit is TiB), and
//! printed with one decimal. All of this is exact integer arithmetic here:
//! the nearest float to an integer is that integer rounded to 53 significant
//! bits, dividing by 1024 loses nothing, and one-decimal printing rounds the
//! exact value to the nearest tenth, ties to an even last digit.
use vstd::prelude::*;
use crate::text::{decimal, push_decimal};

verus! {

/// `2^e`.
pub open spec fn two_to(e: nat) -> nat
    decreases e,
{
    if e == 0 {
        1
    } else {
        2 * two_to((e - 1) as nat)
    }
}

/// `1024^k`.
pub open spec fn kib_to(k: nat) -> nat
    decreases k,
{
    if k == 0 {
        1
    } else {
        1024 * kib_to((k - 1) as nat)
    }
}

/// The largest integer below which every integer is a 64-bit float.
pub open spec fn float_exact_bound() -> nat {
    9007199254740992
}

/// `x / d` rounded to the nearest integer, ties to the even one.
pub open spec fn round_half_even(x: nat, d: nat) -> nat
    recommends
        d > 0,
{
    let q = x / d;
    let r = x % d;
    if 2 * r > d || (2 * r == d && q % 2 == 1) {
        q + 1
    } else {
        q
    }
}

/// How many low bits of `b` a 64-bit float cannot hold.
pub open spec fn dropped_bits(b: nat) -> nat
    decreases b,
{
    if b < float_exact_bound() {
        0
    } else {
        1 + dropped_bits(b / 2)
    }
}

/// The value of the 64-bit float nearest to `b`, ties to even.
pub open spec fn nearest_float(b: nat) -> nat {
    let step = two_to(dropped_bits(b));
    round_half_even(b, step) * step
}

/// The unit index for a value `m`: how often it can be divided by 1024,
/// starting from unit `k`, while it stays at least 1024 and the unit is
/// below TiB.
pub open spec fn unit_index(m: nat, k: nat) -> nat
    decreases 4 - k,
{
    if k < 4 && m >= kib_to(k + 1) {
        unit_index(m, k + 1)
    } else {
        k
    }
}

/// The name of unit `k`.
pub open spec fn unit_name(k: nat) -> Seq<char> {
    if k == 0 {
        "B"@
    } else if k == 1 {
        "KiB"@
    } else if k == 2 {
        "MiB"@
    } else if k == 3 {
        "GiB"@
    } else {
        "TiB"@
    }
}

/// The text for `bytes`: the plain count with " B" below 1024, else the
/// value in the largest fitting unit, rounded to tenths.
pub open spec fn size_text(bytes: u64) -> Seq<char> {
    if bytes < 1024 {
        decimal(bytes as nat) + " B"@
    } else {
        let m = nearest_float(bytes as nat);
        let k = unit_index(m, 0);
        let tenths = round_half_even(10 * m, kib_to(k));
        decimal(tenths / 10) + "."@ + decimal(tenths % 10) + " "@ + unit_name(k)
    }
}

/// `x / d` rounded half to even.
fn divide_rounded(x: u128, d: u128) -> (q: u128)
    requires
        d > 0,
        x < 0x1_0000_0000_0000_0000_0000,
    ensures
        q == round_half_even(x as nat, d as nat),
        q * d <= x + d,
{
    let q = x / d;
    let r = x % d;
    proof {
        vstd::arithmetic::div_mod::lemma_fundamental_div_mod(x as int, d as int);
        assert(q * d <= x) by (nonlinear_arith)
            requires
                x == d * q + r,
                r >= 0,
        ;
        assert(q <= x) by (nonlinear_arith)
            requires
                q * d <= x,
                d >= 1,
                q >= 0,
        ;
    }
    if 2 * r > d || (2 * r == d && q % 2 == 1) {
        proof {
            assert((q + 1) * d == q * d + d) by (nonlinear_arith);
        }
        q + 1
    } else {
        q
    }
}

/// The name of unit `k` as text.
fn unit_text(k: usize) -> (text: &'static str)
    requires
        k <= 4,
    ensures
        text@ == unit_name(k as nat),
{
    if k == 0 {
        "B"
    } else if k == 1 {
        "KiB"
    } else if k == 2 {
        "MiB"
    } else if k == 3 {
        "GiB"
    } else {
        "TiB"
    }
}

/// Formats a byte count with binary units: "0 B", "1023 B", "1.0 KiB",
/// "1.5 MiB", up to TiB.
pub fn human_size(bytes: u64) -> (text: String)
    ensures
        text@ == size_text(bytes),
{
    let mut text = String::new();
    if bytes < 1024 {
        push_decimal(&mut text, bytes as u128);
        text.append(" B");
        return text;
    }
    // The step between neighbouring floats around `bytes`.

    let mut x: u64 = bytes;
    let mut step: u128 = 1;
    let mut e: usize = 0;
    while x >= 9007199254740992
        invariant
            x >= 1,
            step >= 1,
            x * step <= bytes,
            step == two_to(e as nat),
            e <= 64,
            dropped_bits(bytes as nat) == e + dropped_bits(x as nat),
        decreases x,
    {
        proof {
            assert((x / 2) * (2 * step) <= x * step) by (nonlinear_arith)
                requires
                    x >= 0,
                    step >= 0,
            ;
            assert(step * 2 <= bytes) by (nonlinear_arith)
                requires
                    x >= 2,
                    x * step <= bytes,
                    step >= 0,
            ;
            assert(e < 64) by {
                if e >= 64 {
                    lemma_two_to_grows(64, e as nat);
                    lemma_two_to_64();
                }
            }
        }
        x = x / 2;
        step = step * 2;
        e = e + 1;
    }
    proof {
        assert(step <= bytes) by (nonlinear_arith)
            requires
                x >= 1,
                x * step <= bytes,
                step >= 0,
        ;
    }
    let m = divide_rounded(bytes as u128, step) * step;
    assert(m == nearest_float(bytes as nat));
    // The unit: how often the value divides by 1024 and stays at least 1024.
    let mut k: usize = 0;
    let mut scale: u128 = 1;
    proof {
        reveal_with_fuel(kib_to, 5);
    }
    while k < 4 && m >= scale * 1024
        invariant
            k <= 4,
            scale == kib_to(k as nat),
            unit_index(m as nat, 0) == unit_index(m as nat, k as nat),
            kib_to(4) == 1099511627776,
            kib_to(3) == 1073741824,
            kib_to(2) == 1048576,
            kib_to(1) == 1024,
            kib_to(0) == 1,
        decreases 4 - k,
    {
        scale = scale * 1024;
        k = k + 1;
    }
    assert(unit_index(m as nat, k as nat) == k);
    let tenths = divide_rounded(10 * m, scale);
    push_decimal(&mut text, tenths / 10);
    text.append(".");
    push_decimal(&mut text, tenths % 10);
    text.append(" ");
    text.append(unit_text(k));
    text
}

/// The unit chosen for a value of at least 1024 is the largest one, up to
/// TiB, in which the value is at least 1: it is at least KiB, the value is
/// at least one of it, and below 1024 of it unless the unit is TiB.
pub proof fn law_unit_fits(m: nat, k: nat)
    requires
        k <= 4,
        kib_to(k) <= m,
    ensures
        k <= unit_index(m, k) <= 4,
        kib_to(unit_index(m, k)) <= m,
        unit_index(m, k) < 4 ==> m < kib_to(unit_index(m, k) + 1),
    decreases 4 - k,
{
    if k < 4 && m >= kib_to(k + 1) {
        law_unit_fits(m, k + 1);
    }
}

/// For sizes of at least 1 KiB the unit is KiB or larger.
pub proof fn law_large_sizes_use_units(bytes: u64)
    requires
        bytes >= 1024,
    ensures
        unit_index(nearest_float(bytes as nat), 0) >= 1,
{
    let b = bytes as nat;
    let step = two_to(dropped_bits(b));
    lemma_step_quotient(b);
    let q = b / step;
    vstd::arithmetic::div_mod::lemma_fundamental_div_mod(b as int, step as int);
    assert(round_half_even(b, step) >= q);
    assert(round_half_even(b, step) * step >= 1024) by (nonlinear_arith)
        requires
            round_half_even(b, step) >= q,
            q >= 1024,
            step >= 1,
    ;
    reveal_with_fuel(kib_to, 2);
    law_unit_fits(nearest_float(b), 0);
}

/// The float value of a byte count is the count itself below 2^53, and
/// otherwise within half a float step of it, which keeps the error under
/// one part in 2^53; a size below 1 KiB is its decimal count and " B".
pub proof fn law_float_value_and_small_sizes(b: nat, bytes: u64)
    ensures
        b < float_exact_bound() ==> nearest_float(b) == b,
        9007199254740992 * (nearest_float(b) - b) <= b,
        9007199254740992 * (b - nearest_float(b)) <= b,
        bytes < 1024 ==> size_text(bytes) == decimal(bytes as nat) + " B"@,
{
    let step = two_to(dropped_bits(b));
    lemma_step_quotient(b);
    let q = b / step;
    let r = b % step;
    vstd::arithmetic::div_mod::lemma_fundamental_div_mod(b as int, step as int);
    let t = round_half_even(b, step);
    let m = t * step;
    assert(m == nearest_float(b));
    if b < float_exact_bound() {
        assert(dropped_bits(b) == 0);
        assert(step == 1);
        assert(q == b && r == 0) by (nonlinear_arith)
            requires
                b == step * q + r,
                0 <= r < step,
                step == 1,
        ;
        assert(b / 1 == b && b % 1 == 0);
        assert(t == b);
        assert(t * step == b) by (nonlinear_arith)
            requires
                t == b,
                step == 1,
        ;
        assert(nearest_float(b) == b);
    } else {
        assert(q >= 4503599627370496);
        if t == q {
            assert(2 * r <= step);
            assert(9007199254740992 * (b - m) <= b && m <= b) by (nonlinear_arith)
                requires
                    b == step * q + r,
                    m == t * step,
                    t == q,
                    2 * r <= step,
                    r >= 0,
                    q >= 4503599627370496,
                    step >= 1,
            ;
        } else {
            assert(t == q + 1);
            assert(2 * r >= step);
            assert(9007199254740992 * (m - b) <= b && m >= b) by (nonlinear_arith)
                requires
                    b == step * q + r,
                    m == t * step,
                    t == q + 1,
                    2 * r >= step,
                    r < step,
                    q >= 4503599627370496,
                    step >= 1,
            ;
        }
    }
}

/// The float step of `b` is positive, and dividing by it keeps at least
/// `b` itself (below the exact bound) or half the exact bound.
pub proof fn lemma_step_quotient(b: nat)
    ensures
        two_to(dropped_bits(b)) >= 1,
        b / two_to(dropped_bits(b)) >= (if b < float_exact_bound() {
            b
        } else {
            float_exact_bound() / 2
        }),
    decreases b,
{
    if b >= float_exact_bound() {
        lemma_step_quotient(b / 2);
        let t = two_to(dropped_bits(b / 2));
        vstd::arithmetic::div_mod::lemma_div_denominator(b as int, 2, t as int);
        assert(two_to(dropped_bits(b)) == 2 * t);
        assert((b / 2) / t == b / (2 * t));
        assert(b / 2 >= float_exact_bound() / 2);
        assert((b / 2) / t >= float_exact_bound() / 2);
    } else {
        assert(dropped_bits(b) == 0);
        assert(two_to(0) == 1);
        assert(b / 1 == b);
    }
}

proof fn lemma_two_to_grows(a: nat, b: nat)
    requires
        a <= b,
    ensures
        two_to(a) <= two_to(b),
    decreases b,
{
    if a < b {
        lemma_two_to_grows(a, (b - 1) as nat);
    }
}

proof fn lemma_two_to_64()
    ensures
        two_to(64) == 0x1_0000_0000_0000_0000,
{
    reveal_with_fuel(two_to, 65);
}

} // verus!
