//! Floating-point rounding, stated in integers.
//!
//! A number is counted in units of 2^-64, so that every value this library
//! rounds (none but zero lies below 2^-17) is a whole number of units. A
//! floating-point format keeps a fixed number of significant bits:
//! [`DOUBLE`] and [`SINGLE`] are two to that number. The result of an
//! operation is the exact result rounded to the nearest value of the format,
//! ties to the one with an even last bit.

use vstd::arithmetic::power2::pow2;
use vstd::prelude::*;

verus! {

/// One, in units.
pub const UNIT: u128 = 0x1_0000_0000_0000_0000;

/// What is rounded stays below this.
pub const LIMIT: u128 = 0x100_0000_0000_0000_0000_0000_0000_0000;

/// Two to the number of significant bits of a double.
pub const DOUBLE: u128 = 0x20_0000_0000_0000;

/// Two to the number of significant bits of a single.
pub const SINGLE: u128 = 0x100_0000;

/// The distance between neighboring values of the format around `num / den`:
/// the least power of two by which `num / den` stays below `top`.
pub open spec fn grain(num: int, den: int, top: int) -> int
    decreases num - den,
{
    if den <= 0 || top <= 1 || num < top * den {
        1
    } else {
        proof {
            lemma_double(num, den, top);
        }
        2 * grain(num, 2 * den, top)
    }
}

pub proof fn lemma_double(num: int, den: int, top: int)
    requires
        0 < den,
        1 < top,
        num >= top * den,
    ensures
        0 <= num - 2 * den < num - den,
{
    assert(2 * den <= top * den) by (nonlinear_arith)
        requires
            0 < den,
            2 <= top,
    ;
}

/// `num / den` to the nearest whole number, ties to even.
pub open spec fn even_round(num: int, den: int) -> int {
    let q = num / den;
    let r = num % den;
    if 2 * r < den || (2 * r == den && q % 2 == 0) {
        q
    } else {
        q + 1
    }
}

/// `num / den` rounded to the nearest value of the format with `top`.
pub open spec fn nearest(num: int, den: int, top: int) -> int {
    grain(num, den, top) * even_round(num, den * grain(num, den, top))
}

/// A number of units to the nearest whole number, ties up.
pub open spec fn whole(x: int) -> int {
    (2 * x + UNIT) / (2 * UNIT as int)
}

pub proof fn lemma_grain(num: int, den: int, top: int)
    requires
        0 <= num,
        0 < den,
        1 < top,
    ensures
        1 <= grain(num, den, top),
        num < top * (den * grain(num, den, top)),
        grain(num, den, top) == 1 || top * (den * grain(num, den, top)) <= 2 * num,
        0 < den * grain(num, den, top),
    decreases num - den,
{
    if num < top * den {
        assert(den * 1 == den);
    } else {
        lemma_double(num, den, top);
        lemma_grain(num, 2 * den, top);
        let g = grain(num, 2 * den, top);
        assert((2 * den) * g == den * (2 * g)) by (nonlinear_arith);
        if g == 1 {
            assert(top * (den * 2) == 2 * (top * den)) by (nonlinear_arith);
        }
    }
}

/// A power of two that is coarse enough is a multiple of the grain.
pub proof fn lemma_grain_divides(num: int, den: int, top: int, k: nat)
    requires
        0 <= num,
        0 < den,
        1 < top,
        num < top * (den * pow2(k)),
    ensures
        pow2(k) as int % grain(num, den, top) == 0,
    decreases k,
{
    if num < top * den {
    } else {
        vstd::arithmetic::power2::lemma_pow2_pos(k);
        if k == 0 {
            vstd::arithmetic::power2::lemma2_to64();
            assert(den * 1 == den);
        } else {
            lemma_double(num, den, top);
            vstd::arithmetic::power2::lemma_pow2_unfold(k);
            let p = pow2((k - 1) as nat) as int;
            assert(den * (2 * p) == (2 * den) * p) by (nonlinear_arith);
            lemma_grain_divides(num, 2 * den, top, (k - 1) as nat);
            lemma_grain(num, 2 * den, top);
            let g = grain(num, 2 * den, top);
            vstd::arithmetic::div_mod::lemma_fundamental_div_mod(p, g);
            assert(2 * p == (p / g) * (2 * g) + 0) by (nonlinear_arith)
                requires
                    p == g * (p / g),
            ;
            vstd::arithmetic::div_mod::lemma_fundamental_div_mod_converse(2 * p, 2 * g, p / g, 0);
        }
    }
}

proof fn lemma_grain_scales(num: int, den: int, top: int, k: int)
    requires
        0 <= num,
        0 < den,
        1 < top,
        0 < k,
    ensures
        grain(k * num, k * den, top) == grain(num, den, top),
    decreases num - den,
{
    assert(0 < k * den) by (nonlinear_arith)
        requires
            0 < k,
            0 < den,
    ;
    assert(top * (k * den) == k * (top * den)) by (nonlinear_arith);
    if num < top * den {
        assert(k * num < k * (top * den)) by (nonlinear_arith)
            requires
                num < top * den,
                0 < k,
        ;
    } else {
        assert(k * num >= k * (top * den)) by (nonlinear_arith)
            requires
                num >= top * den,
                0 < k,
        ;
        lemma_double(num, den, top);
        lemma_grain_scales(num, 2 * den, top, k);
        assert(k * (2 * den) == 2 * (k * den)) by (nonlinear_arith);
    }
}

/// A common factor changes nothing.
pub proof fn lemma_scale(num: int, den: int, top: int, k: int)
    requires
        0 <= num,
        0 < den,
        1 < top,
        0 < k,
    ensures
        nearest(k * num, k * den, top) == nearest(num, den, top),
{
    lemma_grain_scales(num, den, top, k);
    lemma_grain(num, den, top);
    let d = den * grain(num, den, top);
    assert((k * den) * grain(num, den, top) == k * d) by (nonlinear_arith)
        requires
            d == den * grain(num, den, top),
    ;
    let (q, r) = (num / d, num % d);
    vstd::arithmetic::div_mod::lemma_fundamental_div_mod(num, d);
    assert(k * num == q * (k * d) + k * r) by (nonlinear_arith)
        requires
            num == d * q + r,
    ;
    assert(0 <= k * r < k * d) by (nonlinear_arith)
        requires
            0 <= r < d,
            0 < k,
    ;
    vstd::arithmetic::div_mod::lemma_fundamental_div_mod_converse(k * num, k * d, q, k * r);
    assert(2 * (k * r) < k * d <==> 2 * r < d) by (nonlinear_arith)
        requires
            0 < k,
    ;
    assert(2 * (k * r) == k * d <==> 2 * r == d) by (nonlinear_arith)
        requires
            0 < k,
    ;
}

proof fn lemma_even_round(num: int, den: int)
    requires
        0 <= num,
        0 < den,
    ensures
        0 <= even_round(num, den),
        2 * num - den <= 2 * (even_round(num, den) * den) <= 2 * num + den,
        forall|k: int|
            #![trigger k * den]
            (num <= k * den ==> even_round(num, den) <= k) && (num >= k * den ==> even_round(
                num,
                den,
            ) >= k),
{
    let (q, r) = (num / den, num % den);
    vstd::arithmetic::div_mod::lemma_fundamental_div_mod(num, den);
    assert(0 <= q) by (nonlinear_arith)
        requires
            num == den * q + r,
            0 <= num,
            r < den,
            0 < den,
    ;
    assert(q * den == den * q && (q + 1) * den == den * q + den) by (nonlinear_arith);
    assert forall|k: int| #![trigger k * den]
        (num <= k * den ==> even_round(num, den) <= k) && (num >= k * den ==> even_round(num, den)
            >= k) by {
        assert(num <= k * den ==> q < k || (q == k && r == 0)) by (nonlinear_arith)
            requires
                num == den * q + r,
                0 <= r < den,
        ;
        assert(num >= k * den ==> q >= k) by (nonlinear_arith)
            requires
                num == den * q + r,
                0 <= r < den,
        ;
    }
}

/// Rounding errs by at most half a grain.
pub proof fn lemma_error(num: int, den: int, top: int)
    requires
        0 <= num,
        0 < den,
        1 < top,
    ensures
        0 <= nearest(num, den, top),
        2 * num - den * grain(num, den, top) <= 2 * (nearest(num, den, top) * den) <= 2 * num + den
            * grain(num, den, top),
{
    lemma_grain(num, den, top);
    let g = grain(num, den, top);
    let m = even_round(num, den * g);
    lemma_even_round(num, den * g);
    assert(m * (den * g) == (g * m) * den) by (nonlinear_arith);
    assert(0 <= g * m) by (nonlinear_arith)
        requires
            0 <= g,
            0 <= m,
    ;
}

/// Rounding crosses no multiple of the grain.
pub proof fn lemma_sides(num: int, den: int, top: int, n: int)
    requires
        0 <= num,
        0 < den,
        1 < top,
        n % grain(num, den, top) == 0,
    ensures
        num <= n * den ==> nearest(num, den, top) <= n,
        num >= n * den ==> nearest(num, den, top) >= n,
{
    lemma_grain(num, den, top);
    let g = grain(num, den, top);
    let k = n / g;
    vstd::arithmetic::div_mod::lemma_fundamental_div_mod(n, g);
    lemma_even_round(num, den * g);
    assert(k * (den * g) == n * den) by (nonlinear_arith)
        requires
            n == g * k,
    ;
    let m = even_round(num, den * g);
    assert(m <= k ==> g * m <= g * k) by (nonlinear_arith)
        requires
            0 < g,
    ;
    assert(m >= k ==> g * m >= g * k) by (nonlinear_arith)
        requires
            0 < g,
    ;
}

/// Rounding keeps the order.
pub proof fn lemma_monotone(a: int, b: int, den: int, top: int)
    requires
        0 <= a <= b,
        0 < den,
        1 < top,
        top % 2 == 0,
    ensures
        nearest(a, den, top) <= nearest(b, den, top),
{
    lemma_grain(a, den, top);
    lemma_grain(b, den, top);
    lemma_grain_grows(a, b, den, top);
    let ga = grain(a, den, top);
    let gb = grain(b, den, top);
    let ma = even_round(a, den * ga);
    let mb = even_round(b, den * gb);
    lemma_even_round(a, den * ga);
    lemma_even_round(b, den * gb);
    if ga == gb {
        let d = den * ga;
        vstd::arithmetic::div_mod::lemma_div_is_ordered(a, b, d);
        vstd::arithmetic::div_mod::lemma_fundamental_div_mod(a, d);
        vstd::arithmetic::div_mod::lemma_fundamental_div_mod(b, d);
        assert(ma <= mb);
        assert(ga * ma <= ga * mb) by (nonlinear_arith)
            requires
                ma <= mb,
                0 < ga,
        ;
    } else {
        let half = top / 2;
        assert(ma <= top) by {
            assert(a <= top * (den * ga));
        }
        assert(mb >= half) by {
            assert(half * (den * gb) * 2 == top * (den * gb)) by (nonlinear_arith)
                requires
                    top == 2 * half,
            ;
            assert(b >= half * (den * gb));
        }
        assert(ga * ma <= gb * mb) by (nonlinear_arith)
            requires
                0 < ga,
                2 * ga <= gb,
                0 <= ma <= 2 * half,
                half <= mb,
        ;
    }
}

proof fn lemma_grain_grows(a: int, b: int, den: int, top: int)
    requires
        0 <= a <= b,
        0 < den,
        1 < top,
    ensures
        grain(a, den, top) == grain(b, den, top) || 2 * grain(a, den, top) <= grain(b, den, top),
    decreases b - den,
{
    if b < top * den {
    } else {
        lemma_double(b, den, top);
        lemma_grain(b, 2 * den, top);
        if a >= top * den {
            lemma_grain_grows(a, b, 2 * den, top);
        }
    }
}

/// The result of an operation is a value of the format, and no other lies
/// nearer to the exact result: a significand of at most the format's bits at
/// the grain of its range, off by at most half a grain.
pub proof fn law_nearest_value(num: int, den: int, top: int)
    requires
        0 < den,
        1 < top,
        top % 2 == 0,
        top / 2 * den <= num,
    ensures
        ({
            let g = grain(num, den, top);
            let m = even_round(num, den * g);
            &&& nearest(num, den, top) == g * m
            &&& top / 2 <= m <= top
            &&& 2 * num - den * g <= 2 * (nearest(num, den, top) * den) <= 2 * num + den * g
        }),
{
    assert(0 <= num) by (nonlinear_arith)
        requires
            0 <= top / 2,
            0 < den,
            top / 2 * den <= num,
    ;
    lemma_error(num, den, top);
    lemma_grain(num, den, top);
    let g = grain(num, den, top);
    lemma_even_round(num, den * g);
    let half = top / 2;
    assert(num <= top * (den * g));
    assert(half * (den * g) * 2 == top * (den * g)) by (nonlinear_arith)
        requires
            top == 2 * half,
    ;
    if g == 1 {
        assert(den * 1 == den);
    }
    assert(num >= half * (den * g));
}

/// The significand and the grain of `num / den` rounded to the format with
/// `top`.
pub fn parts_of(num: u128, den: u128, top: u128) -> (out: (u128, u128))
    requires
        num < LIMIT,
        0 < den <= UNIT,
        1 < top <= DOUBLE,
    ensures
        out.1 == grain(num as int, den as int, top as int),
        out.0 == even_round(num as int, den * out.1),
        out.1 * out.0 == nearest(num as int, den as int, top as int),
        out.0 <= top,
        1 <= out.1,
        out.1 * out.0 <= 2 * num + 1,
{
    let mut d: u128 = den;
    let mut g: u128 = 1;
    proof {
        assert(den * 1 == den);
        assert(top * den <= 0x20_0000_0000_0000 * 0x1_0000_0000_0000_0000) by (nonlinear_arith)
            requires
                0 < den <= 0x1_0000_0000_0000_0000,
                0 < top <= 0x20_0000_0000_0000,
        ;
    }
    while num >= top * d
        invariant
            num < LIMIT,
            0 < den <= d,
            1 < top <= DOUBLE,
            1 <= g <= d,
            d == den * g,
            top * d <= 2 * LIMIT,
            grain(num as int, den as int, top as int) == g * grain(
                num as int,
                d as int,
                top as int,
            ),
        decreases num - d,
    {
        proof {
            lemma_double(num as int, d as int, top as int);
            assert(den * (2 * g) == 2 * (den * g)) by (nonlinear_arith);
            assert(top * (2 * d) == 2 * (top * d)) by (nonlinear_arith);
            let h = grain(num as int, 2 * d, top as int);
            assert(g * (2 * h) == (2 * g) * h) by (nonlinear_arith);
        }
        d = 2 * d;
        g = 2 * g;
    }
    proof {
        assert(g * 1 == g);
        lemma_grain(num as int, den as int, top as int);
        lemma_even_round(num as int, d as int);
        lemma_error(num as int, den as int, top as int);
        let (q, r) = (num as int / d as int, num as int % d as int);
        vstd::arithmetic::div_mod::lemma_fundamental_div_mod(num as int, d as int);
        assert(num <= top * d);
        let n = nearest(num as int, den as int, top as int);
        if g == 1 {
            assert(d == den);
            assert(n <= 2 * num + 1) by (nonlinear_arith)
                requires
                    2 * (n * den) <= 2 * num + den,
                    0 < den,
                    0 <= n,
                    0 <= num,
            ;
        } else {
            assert(den * g <= 2 * num) by (nonlinear_arith)
                requires
                    top * (den * g) <= 2 * num,
                    1 < top,
                    0 < den * g,
            ;
            assert(n <= 2 * num + 1) by (nonlinear_arith)
                requires
                    2 * (n * den) <= 2 * num + den * g,
                    den * g <= 2 * num,
                    0 < den,
                    0 <= n,
                    0 <= num,
            ;
        }
    }
    let q: u128 = num / d;
    let r: u128 = num % d;
    let m: u128 = if r < d - r || (r == d - r && q % 2 == 0) {
        q
    } else {
        q + 1
    };
    (m, g)
}

/// `num / den` rounded to the format with `top`.
pub fn nearest_of(num: u128, den: u128, top: u128) -> (out: u128)
    requires
        num < LIMIT,
        0 < den <= UNIT,
        1 < top <= DOUBLE,
    ensures
        out == nearest(num as int, den as int, top as int),
        out <= 2 * num + 1,
{
    let (m, g) = parts_of(num, den, top);
    g * m
}

/// Rounding to a whole number is to the nearest: off by at most half of one.
pub proof fn law_whole_is_nearest(x: int)
    ensures
        2 * x - 0x1_0000_0000_0000_0000 < 0x2_0000_0000_0000_0000 * whole(x) <= 2 * x
            + 0x1_0000_0000_0000_0000,
{
    let u = UNIT as int;
    assert(whole(x) == (2 * x + u) / (2 * u));
    vstd::arithmetic::div_mod::lemma_fundamental_div_mod(2 * x + u, 2 * u);
}

/// A quotient is rounded to the nearest whole number, and from the middle to
/// the even one.
pub proof fn law_even_round(num: int, den: int)
    requires
        0 < den,
    ensures
        ({
            let twice = 2 * (den * even_round(num, den));
            &&& 2 * num - den <= twice <= 2 * num + den
            &&& twice == 2 * num - den || twice == 2 * num + den ==> even_round(num, den) % 2 == 0
        }),
{
    let q = num / den;
    let r = num % den;
    vstd::arithmetic::div_mod::lemma_fundamental_div_mod(num, den);
    assert(den * (q + 1) == den * q + den) by (nonlinear_arith);
}

/// The grain is the least power of two that leaves a significand in range: with
/// half of it the significand would no longer fit.
pub proof fn law_grain_is_least(num: int, den: int, top: int)
    requires
        0 <= num,
        0 < den,
        1 < top,
    ensures
        exists|k: nat| #[trigger] pow2(k) == grain(num, den, top),
        num < top * (den * grain(num, den, top)),
        grain(num, den, top) > 1 ==> top * (den * grain(num, den, top)) <= 2 * num,
    decreases num - den,
{
    lemma_grain(num, den, top);
    vstd::arithmetic::power2::lemma2_to64();
    if num < top * den {
        assert(pow2(0) == grain(num, den, top));
    } else {
        lemma_double(num, den, top);
        law_grain_is_least(num, 2 * den, top);
        let k = choose|k: nat| #[trigger] pow2(k) == grain(num, 2 * den, top);
        vstd::arithmetic::power2::lemma_pow2_unfold(k + 1);
        assert(pow2(k + 1) == grain(num, den, top));
    }
}

} // verus!
