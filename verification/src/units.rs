//! Memory sizes and transfer rates as the process list prints them: a
//! binary-scaled value with one decimal.
//!
//! The value printed is what `{:.1}` prints for the byte count converted to
//! a double and divided by a power of two: the count rounded to 53
//! significant bits (ties to even), then the exact quotient rounded to
//! tenths (ties to even). Both steps are done here on integers.

use crate::text::{chars_of, decimal, decimal_chars, push_all, string_from_chars};
use vstd::prelude::*;

verus! {

/// `2^e`.
pub open spec fn power_of_two(e: nat) -> nat
    decreases e,
{
    if e == 0 {
        1
    } else {
        2 * power_of_two((e - 1) as nat)
    }
}

/// The number of binary digits of `v`.
pub open spec fn bit_length(v: nat) -> nat
    decreases v,
{
    if v == 0 {
        0
    } else {
        1 + bit_length(v / 2)
    }
}

/// `a / d` rounded to the nearest integer, ties to even.
pub open spec fn rounded_quotient(a: nat, d: nat) -> nat
    recommends
        d > 0,
{
    let q = a / d;
    let r = a % d;
    if 2 * r > d || (2 * r == d && q % 2 == 1) {
        q + 1
    } else {
        q
    }
}

/// The value of `v` as a double: exact below `2^53`, otherwise rounded to
/// 53 significant bits, ties to even.
pub open spec fn as_double(v: nat) -> nat {
    if bit_length(v) <= 53 {
        v
    } else {
        let p = power_of_two((bit_length(v) - 53) as nat);
        rounded_quotient(v, p) * p
    }
}

/// A count of tenths printed as `N.N`.
pub open spec fn tenths_text(t: nat) -> Seq<char> {
    decimal(t / 10) + "."@ + decimal(t % 10)
}

/// The text of `v` divided by `2^shift`, with one decimal, then `unit`.
pub open spec fn scaled_text(v: nat, shift: nat, unit: Seq<char>) -> Seq<char> {
    tenths_text(rounded_quotient(as_double(v) * 10, power_of_two(shift))) + unit
}

/// A working-set size: gigabytes from one gigabyte up, megabytes below.
pub open spec fn bytes_text(value: u64) -> Seq<char> {
    if value >= 0x4000_0000 {
        scaled_text(value as nat, 30, " GB"@)
    } else {
        scaled_text(value as nat, 20, " MB"@)
    }
}

/// A transfer rate: megabytes or kilobytes per second with one decimal, and
/// plain bytes below one kilobyte.
pub open spec fn rate_text(value: u64) -> Seq<char> {
    if value >= 0x10_0000 {
        scaled_text(value as nat, 20, " MB/s"@)
    } else if value >= 0x400 {
        scaled_text(value as nat, 10, " KB/s"@)
    } else {
        decimal(value as nat) + " B/s"@
    }
}

proof fn lemma_power_of_two_positive(e: nat)
    ensures
        power_of_two(e) >= 1,
    decreases e,
{
    if e > 0 {
        lemma_power_of_two_positive((e - 1) as nat);
    }
}

proof fn lemma_power_of_two_grows(a: nat, b: nat)
    requires
        a <= b,
    ensures
        power_of_two(a) <= power_of_two(b),
    decreases b,
{
    if a < b {
        lemma_power_of_two_grows(a, (b - 1) as nat);
    }
}

/// A number has at most `n` binary digits exactly when it is below `2^n`.
proof fn lemma_bit_length_bound(v: nat, n: nat)
    ensures
        bit_length(v) <= n <==> v < power_of_two(n),
    decreases v, n,
{
    if v == 0 {
        lemma_power_of_two_positive(n);
    } else if n == 0 {
    } else {
        lemma_bit_length_bound(v / 2, (n - 1) as nat);
    }
}

/// The number of binary digits of `v`.
fn bits_of(v: u64) -> (r: u64)
    ensures
        r == bit_length(v as nat),
        r <= 64,
{
    let mut n: u64 = 0;
    let mut rest: u64 = v;
    proof {
        lemma_two_to_64();
    }
    while rest > 0
        invariant
            n + bit_length(rest as nat) == bit_length(v as nat),
            n <= 64,
            rest < power_of_two((64 - n) as nat),
        decreases rest,
    {
        proof {
            lemma_bit_length_bound(rest as nat, (64 - n) as nat);
            lemma_bit_length_bound((rest / 2) as nat, (64 - n - 1) as nat);
            assert(bit_length(rest as nat) == 1 + bit_length((rest / 2) as nat));
        }
        rest = rest / 2;
        n = n + 1;
    }
    proof {
        assert(v < power_of_two(64)) by {
            lemma_two_to_64();
        }
    }
    n
}

proof fn lemma_two_to_64()
    ensures
        power_of_two(64) == 0x1_0000_0000_0000_0000,
{
    reveal_with_fuel(power_of_two, 65);
}

fn power(e: u64) -> (r: u128)
    requires
        e <= 64,
    ensures
        r == power_of_two(e as nat),
{
    let mut r: u128 = 1;
    let mut k: u64 = 0;
    while k < e
        invariant
            k <= e,
            e <= 64,
            r == power_of_two(k as nat),
        decreases e - k,
    {
        proof {
            lemma_power_of_two_grows((k + 1) as nat, 64);
            lemma_two_to_64();
        }
        r = r * 2;
        k = k + 1;
    }
    r
}

fn rounded(a: u128, d: u128) -> (r: u128)
    requires
        d > 0,
        d <= 0x1_0000_0000_0000_0000,
        a < 0x1_0000_0000_0000_0000_0000,
    ensures
        r == rounded_quotient(a as nat, d as nat),
{
    let q = a / d;
    let rem = a % d;
    assert(q <= a) by (nonlinear_arith)
        requires
            d > 0,
            q == a / d,
    ;
    if 2 * rem > d || (2 * rem == d && q % 2 == 1) {
        q + 1
    } else {
        q
    }
}

fn double_value(v: u64) -> (r: u128)
    ensures
        r == as_double(v as nat),
        r <= 0x1_0000_0000_0000_0000,
{
    let n = bits_of(v);
    if n <= 53 {
        return v as u128;
    }
    let p = power(n - 53);
    proof {
        lemma_power_of_two_positive((n - 53) as nat);
        lemma_power_of_two_grows((n - 53) as nat, 11);
        reveal_with_fuel(power_of_two, 12);
        lemma_bit_length_bound(v as nat, 64);
        lemma_two_to_64();
    }
    let q = rounded(v as u128, p);
    proof {
        lemma_bit_length_bound(v as nat, n as nat);
        lemma_bit_length_bound(v as nat, (n - 1) as nat);
        lemma_power_of_two_split((n - 53) as nat, 53);
        assert(v < power_of_two(n as nat));
        assert(q <= power_of_two(53)) by {
            lemma_rounded_bound(v as nat, p as nat, power_of_two(53));
        }
        assert(power_of_two(53) == 0x20_0000_0000_0000) by {
            reveal_with_fuel(power_of_two, 54);
        }
        assert(q * p <= 0x20_0000_0000_0000 * 0x800) by (nonlinear_arith)
            requires
                q <= 0x20_0000_0000_0000,
                p <= 0x800,
        ;
    }
    q * p
}

/// `2^(a+b) == 2^a * 2^b`.
proof fn lemma_power_of_two_split(a: nat, b: nat)
    ensures
        power_of_two(a + b) == power_of_two(a) * power_of_two(b),
    decreases a,
{
    if a > 0 {
        let a1 = (a - 1) as nat;
        lemma_power_of_two_split(a1, b);
        assert(a + b == (a1 + b) + 1);
        assert(power_of_two(a + b) == 2 * power_of_two(a1 + b));
        assert(power_of_two(a) == 2 * power_of_two(a1));
        let x = power_of_two(a1);
        let y = power_of_two(b);
        assert(2 * (x * y) == (2 * x) * y) by (nonlinear_arith);
        assert(power_of_two(a) * power_of_two(b) == (2 * x) * y);
    } else {
        assert(power_of_two(a) == 1);
        assert(a + b == b);
    }
}

/// Rounding `v / p` stays within `m` when `v < m * p`.
proof fn lemma_rounded_bound(v: nat, p: nat, m: nat)
    requires
        p > 0,
        v < p * m,
    ensures
        rounded_quotient(v, p) <= m,
{
    assert(v / p < m) by (nonlinear_arith)
        requires
            p > 0,
            v < p * m,
    ;
}

/// Appends the text of `value / 2^shift` with one decimal.
fn push_scaled(out: &mut Vec<char>, value: u64, shift: u64)
    requires
        10 <= shift <= 30,
    ensures
        final(out)@ == old(out)@ + tenths_text(
            rounded_quotient(as_double(value as nat) * 10, power_of_two(shift as nat)),
        ),
{
    let x = double_value(value);
    let d = power(shift);
    proof {
        lemma_power_of_two_positive(shift as nat);
        lemma_power_of_two_grows(shift as nat, 64);
        lemma_two_to_64();
    }
    let t = rounded(x * 10, d);
    proof {
        lemma_power_of_two_grows(10, shift as nat);
        assert(power_of_two(10) == 1024) by {
            reveal_with_fuel(power_of_two, 11);
        }
        let q = (x * 10) as nat / d as nat;
        assert(q <= (x * 10) as nat / 1024) by (nonlinear_arith)
            requires
                d >= 1024,
                q == (x * 10) as nat / d as nat,
        ;
        assert(t <= q + 1);
    }
    let whole = t / 10;
    push_all(out, &decimal_chars(whole as u64));
    push_all(out, &chars_of("."));
    push_all(out, &decimal_chars((t % 10) as u64));
}

/// A working-set size as the list prints it (see `bytes_text`).
pub fn format_bytes(value: u64) -> (r: String)
    ensures
        r@ == bytes_text(value),
{
    let mut out: Vec<char> = Vec::new();
    if value >= 0x4000_0000 {
        push_scaled(&mut out, value, 30);
        push_all(&mut out, &chars_of(" GB"));
    } else {
        push_scaled(&mut out, value, 20);
        push_all(&mut out, &chars_of(" MB"));
    }
    string_from_chars(out.as_slice())
}

/// A transfer rate as the list prints it (see `rate_text`).
pub fn format_rate(value: u64) -> (r: String)
    ensures
        r@ == rate_text(value),
{
    let mut out: Vec<char> = Vec::new();
    if value >= 0x10_0000 {
        push_scaled(&mut out, value, 20);
        push_all(&mut out, &chars_of(" MB/s"));
    } else if value >= 0x400 {
        push_scaled(&mut out, value, 10);
        push_all(&mut out, &chars_of(" KB/s"));
    } else {
        push_all(&mut out, &decimal_chars(value));
        push_all(&mut out, &chars_of(" B/s"));
    }
    string_from_chars(out.as_slice())
}

/// A CPU share in tenths of a percent, printed as `N.N%`.
pub fn format_cpu(cpu_tenths: u32) -> (r: String)
    ensures
        r@ == tenths_text(cpu_tenths as nat) + "%"@,
{
    let mut out: Vec<char> = Vec::new();
    push_all(&mut out, &decimal_chars((cpu_tenths / 10) as u64));
    push_all(&mut out, &chars_of("."));
    push_all(&mut out, &decimal_chars((cpu_tenths % 10) as u64));
    push_all(&mut out, &chars_of("%"));
    string_from_chars(out.as_slice())
}

/// Rounding to the nearest: the rounded quotient is within half a divisor.
proof fn lemma_rounded_close(a: nat, d: nat)
    requires
        d > 0,
    ensures
        -(d as int) <= 2 * (rounded_quotient(a, d) * d - a) <= d,
{
    let q = a / d;
    let r = a % d;
    assert(a == q * d + r && 0 <= r < d) by (nonlinear_arith)
        requires
            d > 0,
            q == a / d,
            r == a % d,
    ;
    assert((q + 1) * d == q * d + d) by (nonlinear_arith);
}

/// Values below `2^53` are exact as doubles.
proof fn lemma_exact_double(v: nat)
    requires
        v < 9007199254740992,
    ensures
        as_double(v) == v,
{
    reveal_with_fuel(power_of_two, 54);
    lemma_bit_length_bound(v, 53);
}

/// A working-set size prints in gigabytes from 2^30 bytes up and in
/// megabytes below, with one decimal that is the exact value rounded to the
/// nearest tenth (for sizes a double holds exactly).
pub proof fn lemma_bytes_text(value: u64)
    requires
        value < 9007199254740992,
    ensures
        exists|t: nat|
            {
                let unit: int = if value >= 1073741824 { 1073741824 } else { 1048576 };
                &&& bytes_text(value) == #[trigger] tenths_text(t) + (if value >= 1073741824 {
                    " GB"@
                } else {
                    " MB"@
                })
                &&& -unit <= 2 * (t * unit - 10 * value) <= unit
            },
{
    lemma_exact_double(value as nat);
    reveal_with_fuel(power_of_two, 31);
    let d: nat = if value >= 1073741824 { 1073741824 } else { 1048576 };
    lemma_rounded_close(value as nat * 10, d);
    let t = rounded_quotient(value as nat * 10, d);
    assert(-(d as int) <= 2 * (t * d - 10 * value) <= d);
    assert(power_of_two(20) == 1048576 && power_of_two(30) == 1073741824);
    assert(as_double(value as nat) * 10 == value as nat * 10);
    if value >= 1073741824 {
        assert(bytes_text(value) == tenths_text(t) + " GB"@);
    } else {
        assert(bytes_text(value) == tenths_text(t) + " MB"@);
    }
}

/// A transfer rate prints in megabytes per second from 2^20 bytes up, in
/// kilobytes per second from 2^10 up, with one decimal that is the exact
/// value rounded to the nearest tenth (for rates a double holds exactly),
/// and as a whole number of bytes per second below.
pub proof fn lemma_rate_text(value: u64)
    requires
        value < 9007199254740992,
    ensures
        value < 1024 ==> rate_text(value) == decimal(value as nat) + " B/s"@,
        value >= 1024 ==> exists|t: nat|
            {
                let unit: int = if value >= 1048576 { 1048576 } else { 1024 };
                &&& rate_text(value) == #[trigger] tenths_text(t) + (if value >= 1048576 {
                    " MB/s"@
                } else {
                    " KB/s"@
                })
                &&& -unit <= 2 * (t * unit - 10 * value) <= unit
            },
{
    lemma_exact_double(value as nat);
    reveal_with_fuel(power_of_two, 21);
    if value >= 1024 {
        let d: nat = if value >= 1048576 { 1048576 } else { 1024 };
        lemma_rounded_close(value as nat * 10, d);
        let t = rounded_quotient(value as nat * 10, d);
        assert(-(d as int) <= 2 * (t * d - 10 * value) <= d);
        assert(power_of_two(10) == 1024 && power_of_two(20) == 1048576);
        assert(as_double(value as nat) * 10 == value as nat * 10);
        if value >= 1048576 {
            assert(rate_text(value) == tenths_text(t) + " MB/s"@);
        } else {
            assert(rate_text(value) == tenths_text(t) + " KB/s"@);
        }
    }
}

} // verus!
