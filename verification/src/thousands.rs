//! Parameter counts in thousands, rounded as 64-bit floating-point numbers are:
//! the count and its thousandth are each rounded to 53 significant bits, and
//! the thousandth is then rounded to the digits that are shown. Every rounding
//! goes to the nearest value, and to the even one of two that are as near.
use crate::number::decimal;
use crate::number::push_decimal;
use vstd::prelude::*;
use vstd::string::*;

verus! {

/// The least 53-bit number.
pub const LOW: u64 = 0x10_0000_0000_0000;

/// The least 54-bit number.
pub const HIGH: u64 = 0x20_0000_0000_0000;

/// The integer nearest to `n / d`, and the even one of two.
pub open spec fn round_even(n: nat, d: nat) -> nat {
    let q = n / d;
    let r = n % d;
    if 2 * r < d || (2 * r == d && q % 2 == 0) {
        q
    } else {
        q + 1
    }
}

/// `d` doubled until `n / d` has at most 53 bits before the point.
pub open spec fn widened(n: nat, d: nat) -> nat
    decreases n - d,
{
    if d == 0 || n < d * HIGH {
        d
    } else {
        widened(n, 2 * d)
    }
}

/// `n` and `unit` doubled until `n / d` has 53 bits before the point.
pub open spec fn scaled(n: nat, d: nat, unit: nat) -> (nat, nat)
    decreases
        (if n < d * LOW {
            d * LOW - n
        } else {
            0
        }),
{
    if n == 0 || n >= d * LOW {
        (n, unit)
    } else {
        scaled(2 * n, d, 2 * unit)
    }
}

/// The integer nearest to `n` that has 53 significant bits.
pub open spec fn float_int(n: nat) -> nat {
    let w = widened(n, 1);
    round_even(n, w) * w
}

/// The fraction nearest to `n / 1000` that has 53 significant bits.
pub open spec fn float_thousandth(n: nat) -> (nat, nat) {
    if n >= 1000 * HIGH {
        let w = widened(n, 1000);
        (round_even(n, w) * (w / 1000), 1)
    } else {
        let s = scaled(n, 1000, 1);
        (round_even(s.0, 1000), s.1)
    }
}

/// The thousandth of `n` as a floating-point number, rounded to a whole number
/// of tenths or, for `whole`, to a whole number.
pub open spec fn thousandth(n: nat, whole: bool) -> nat {
    let f = float_thousandth(float_int(n));
    round_even(
        if whole {
            f.0
        } else {
            10 * f.0
        },
        f.1,
    )
}

/// A parameter count in thousands: whole from ten thousand on, otherwise with
/// one digit behind the point.
pub open spec fn thousands_text(p: int) -> Seq<char> {
    let n = (if p < 0 {
        -p
    } else {
        p
    }) as nat;
    if p >= 10_000 {
        decimal(thousandth(n, true)) + "K"@
    } else {
        let t = thousandth(n, false);
        (if p < 0 {
            "-"@
        } else {
            ""@
        }) + decimal(t / 10) + "."@ + decimal(t % 10) + "K"@
    }
}

fn round_to_even(n: u128, d: u128) -> (r: u128)
    requires
        0 < d <= 0x1_0000_0000_0000_0000_0000,
        n < 0x1_0000_0000_0000_0000_0000_0000,
    ensures
        r == round_even(n as nat, d as nat),
        r <= n + 1,
{
    let q: u128 = n / d;
    let rem: u128 = n % d;
    proof {
        assert(n / d <= n) by (nonlinear_arith)
            requires
                d > 0,
        ;
    }
    if 2 * rem < d || (2 * rem == d && q % 2 == 0) {
        q
    } else {
        q + 1
    }
}

proof fn lemma_round_bound(n: nat, d: nat, k: nat)
    requires
        d > 0,
        n <= k * d,
    ensures
        round_even(n, d) <= k,
{
    assert(n / d <= k) by (nonlinear_arith)
        requires
            d > 0,
            n <= k * d,
    ;
    if n / d == k {
        assert(n % d == 0) by (nonlinear_arith)
            requires
                d > 0,
                n <= k * d,
                n / d == k,
        ;
    }
}

/// The integer nearest to `n` that has 53 significant bits.
fn round_to_float(n: u64) -> (r: u64)
    requires
        n <= 0x8000_0000_0000_0000,
    ensures
        r == float_int(n as nat),
        r <= 0x8000_0000_0000_0000,
        n < 10_000 ==> r == n,
{
    let mut w: u64 = 1;
    while n as u128 >= (w as u128) * (HIGH as u128)
        invariant
            n <= 0x8000_0000_0000_0000,
            1 <= w <= 2048,
            widened(n as nat, 1) == widened(n as nat, w as nat),
            w == 1 || w == 2 || w == 4 || w == 8 || w == 16 || w == 32 || w == 64 || w == 128 || w
                == 256 || w == 512 || w == 1024 || w == 2048,
        decreases 4096 - w,
    {
        w = 2 * w;
    }
    let m: u128 = round_to_even(n as u128, w as u128);
    proof {
        let k: nat = (0x8000_0000_0000_0000u64 / w) as nat;
        assert(k * w == 0x8000_0000_0000_0000u64);
        lemma_round_bound(n as nat, w as nat, k);
        assert(m * w <= k * w) by (nonlinear_arith)
            requires
                m <= k,
        ;
        assert(n < 10_000 ==> w == 1);
    }
    (m as u64) * w
}

/// The thousandth of `n` as a floating-point number, rounded to whole tenths
/// or, for `whole`, to a whole number.
fn round_thousandth(n: u64, whole: bool) -> (r: u64)
    requires
        n <= 0x8000_0000_0000_0000,
    ensures
        r == thousandth(n as nat, whole),
{
    let a: u64 = round_to_float(n);
    let factor: u128 = if whole {
        1
    } else {
        10
    };
    if a as u128 >= 1000 * (HIGH as u128) {
        proof {
            reveal_with_fuel(widened, 3);
            assert(widened(a as nat, 1000) == 2000);
        }
        let m: u128 = round_to_even(a as u128, 2000);
        proof {
            lemma_round_bound(a as nat, 2000, a as nat);
            let x = (m * 2 * factor) as nat;
            assert(round_even(x, 1) == x);
            lemma_round_bound(a as nat, 2000, 4_611_686_018_427_388);
        }
        return (m * 2 * factor) as u64;
    }
    let mut x: u128 = a as u128;
    let mut unit: u128 = 1;
    while 0 < x && x < 1000 * (LOW as u128)
        invariant
            x < 1000 * HIGH,
            scaled(a as nat, 1000, 1) == scaled(x as nat, 1000, unit as nat),
            1 <= unit,
            x > 0 ==> unit <= x,
            x == 0 ==> unit == 1,
        decreases
            (if x < 1000 * LOW {
                1000 * LOW - x
            } else {
                0
            }),
    {
        x = 2 * x;
        unit = 2 * unit;
    }
    let m: u128 = round_to_even(x, 1000);
    proof {
        lemma_round_bound(x as nat, 1000, HIGH as nat);
    }
    let r: u128 = round_to_even(factor * m, unit);
    proof {
        let t = (factor * m) as nat;
        assert(t <= t * (unit as nat)) by (nonlinear_arith)
            requires
                unit >= 1,
        ;
        lemma_round_bound(t, unit as nat, t);
    }
    r as u64
}

/// Appends a parameter count in thousands.
pub fn push_thousands(out: &mut String, p: i64)
    ensures
        final(out)@ == old(out)@ + thousands_text(p as int),
{
    let n: u64 = if p == i64::MIN {
        0x8000_0000_0000_0000u64
    } else if p < 0 {
        (-p) as u64
    } else {
        p as u64
    };
    if p >= 10_000 {
        push_decimal(out, round_thousandth(n, true));
    } else {
        if p < 0 {
            out.append("-");
        }
        let t: u64 = round_thousandth(n, false);
        push_decimal(out, t / 10);
        out.append(".");
        push_decimal(out, t % 10);
    }
    out.append("K");
    proof {
        reveal_strlit("");
        assert(out@ =~= old(out)@ + thousands_text(p as int));
    }
}

proof fn lemma_round_nearest(n: nat, d: nat)
    requires
        d > 0,
    ensures
        -(d as int) <= 2 * (round_even(n, d) * d - n) <= d,
{
    let q = n / d;
    let r = n % d;
    vstd::arithmetic::div_mod::lemma_fundamental_div_mod(n as int, d as int);
    assert(d * q == q * d) by (nonlinear_arith);
    assert((q + 1) * d == q * d + d) by (nonlinear_arith);
}

/// Rounding gives the nearest whole number, and the even one of two that are as
/// near.
pub proof fn law_rounding_is_to_the_nearest(n: nat, d: nat)
    requires
        d > 0,
    ensures
        -(d as int) <= 2 * (round_even(n, d) * d - n) <= d,
        2 * (round_even(n, d) * d - n) == d || 2 * (round_even(n, d) * d - n) == -(d as int)
            ==> round_even(n, d) % 2 == 0,
{
    lemma_round_nearest(n, d);
    let q = n / d;
    let r = n % d;
    vstd::arithmetic::div_mod::lemma_fundamental_div_mod(n as int, d as int);
    assert(d * q == q * d) by (nonlinear_arith);
    assert((q + 1) * d == q * d + d) by (nonlinear_arith);
    assert(q % 2 == 0 || (q + 1) % 2 == 0);
}

proof fn lemma_scaled(n: nat, d: nat, unit: nat, n0: nat)
    requires
        d > 0,
        unit > 0,
        n == n0 * unit,
    ensures
        scaled(n, d, unit).0 == n0 * scaled(n, d, unit).1,
        scaled(n, d, unit).1 > 0,
        n0 > 0 ==> scaled(n, d, unit).0 >= d * LOW,
    decreases
            (if n < d * LOW {
                d * LOW - n
            } else {
                0
            }),
{
    if n == 0 || n >= d * LOW {
        if n == 0 && n0 > 0 {
            assert(n0 * unit > 0) by (nonlinear_arith)
                requires
                    n0 > 0,
                    unit > 0,
            ;
        }
    } else {
        assert(2 * n == n0 * (2 * unit)) by (nonlinear_arith)
            requires
                n == n0 * unit,
        ;
        lemma_scaled(2 * n, d, 2 * unit, n0);
    }
}

/// A count is shown in thousands to the nearest whole, or to the nearest tenth.
pub proof fn law_thousands_are_the_nearest(n: nat)
    requires
        n < LOW,
    ensures
        -500 <= 1000 * thousandth(n, true) - n <= 500,
        -50 <= 100 * thousandth(n, false) - n <= 50,
{
    reveal_with_fuel(widened, 2);
    assert(widened(n, 1) == 1);
    lemma_round_nearest(n, 1);
    assert(float_int(n) == n) by {
        assert(round_even(n, 1) == n);
    }
    let s = scaled(n, 1000, 1);
    lemma_scaled(n, 1000, 1, n);
    let u = s.1;
    let m = round_even(s.0, 1000);
    lemma_round_nearest(s.0, 1000);
    let t = round_even(m, u);
    let z = round_even(10 * m, u);
    lemma_round_nearest(m, u);
    lemma_round_nearest(10 * m, u);
    if n > 0 {
        assert(u >= 1000) by (nonlinear_arith)
            requires
                n < LOW,
                n * u >= 1000 * LOW,
        ;
        // In units of `u`: the first rounding is off by at most 500, the second
        // by at most half a unit.
        assert(-1000 <= 2 * (m * 1000 - n * u) <= 1000);
        assert(-(u as int) <= 2 * (t * u - m) <= u);
        assert(-1001 * (u as int) <= 2 * ((1000 * t - n) * u) <= 1001 * u) by (nonlinear_arith)
            requires
                -1000 <= 2 * (m * 1000 - n * u) <= 1000,
                -(u as int) <= 2 * (t * u - m) <= u,
                u >= 1000,
        ;
        assert(-501 < 1000 * t - n < 501) by (nonlinear_arith)
            requires
                -1001 * (u as int) <= 2 * ((1000 * t - n) * u) <= 1001 * u,
                u >= 1000,
        ;
        assert(-(u as int) <= 2 * (z * u - 10 * m) <= u);
        assert(-101 * (u as int) <= 2 * ((100 * z - n) * u) <= 101 * u) by (nonlinear_arith)
            requires
                -1000 <= 2 * (m * 1000 - n * u) <= 1000,
                -(u as int) <= 2 * (z * u - 10 * m) <= u,
                u >= 1000,
        ;
        assert(-51 < 100 * z - n < 51) by (nonlinear_arith)
            requires
                -101 * (u as int) <= 2 * ((100 * z - n) * u) <= 101 * u,
                u >= 1000,
        ;
    } else {
        assert(s == (0nat, 1nat));
        assert(m == 0 && t == 0 && z == 0);
    }
}

} // verus!
