//! Properties of the values and of rounding.
use crate::binary32::{is_whole_root, nearest_bits, nearest_even, units, whole_root};
use vstd::arithmetic::div_mod::{lemma_fundamental_div_mod, lemma_fundamental_div_mod_converse};
use vstd::arithmetic::power2::{
    lemma2_to64, lemma_pow2_adds, lemma_pow2_pos, lemma_pow2_unfold, pow2,
};
use vstd::prelude::*;

verus! {

/// The value of the number `k` binades above the one with the bits `m`.
pub proof fn lemma_units_binades(m: nat, k: nat)
    requires
        k == 0 || 0x0080_0000 <= m,
        m < 0x0100_0000,
    ensures
        units(k * 0x0080_0000 + m) == m * pow2(k),
    decreases k,
{
    if k == 0 {
        lemma2_to64();
    } else {
        let j = (k - 1) as nat;
        lemma_units_binades(m, j);
        lemma_pow2_unfold(k);
        assert(k * 0x0080_0000 + m - 0x0080_0000 == j * 0x0080_0000 + m) by (nonlinear_arith)
            requires
                j == k - 1,
        ;
        assert(k * 0x0080_0000 + m >= 0x0100_0000) by (nonlinear_arith)
            requires
                k >= 1,
                m >= 0x0080_0000,
        ;
        assert(2 * (m * pow2(j)) == m * (2 * pow2(j))) by (nonlinear_arith);
    }
}

/// A larger magnitude is a larger value.
pub proof fn lemma_units_order(a: nat, b: nat)
    ensures
        a < b ==> units(a) < units(b),
        a <= b ==> units(a) <= units(b),
        units(a) < units(b) ==> a < b,
        units(a) == units(b) ==> a == b,
    decreases a + b,
{
    if a >= 0x0100_0000 && b >= 0x0100_0000 {
        lemma_units_order((a - 0x0080_0000) as nat, (b - 0x0080_0000) as nat);
    } else if a >= 0x0100_0000 {
        lemma_units_lower(a);
    } else if b >= 0x0100_0000 {
        lemma_units_lower(b);
    }
}

/// Past the first binades a magnitude is worth at least its own count.
proof fn lemma_units_lower(a: nat)
    requires
        a >= 0x0100_0000,
    ensures
        units(a) >= 0x0100_0000,
    decreases a,
{
    if a >= 0x0180_0000 {
        lemma_units_lower((a - 0x0080_0000) as nat);
    } else {
        assert(units((a - 0x0080_0000) as nat) == a - 0x0080_0000);
    }
}

/// Scaling both terms of a fraction changes nothing.
pub proof fn lemma_nearest_scaled(n: nat, d: nat, c: nat)
    requires
        d > 0,
        c > 0,
    ensures
        nearest_bits(n * c, d * c) == nearest_bits(n, d),
    decreases n - d,
{
    let b: nat = 0x0100_0000;
    assert(d * c > 0) by (nonlinear_arith)
        requires
            d > 0,
            c > 0,
    ;
    assert(n < d * b <==> n * c < (d * c) * b) by (nonlinear_arith)
        requires
            c > 0,
    ;
    if n < d * b {
        let q = n / d;
        let r = n % d;
        lemma_fundamental_div_mod(n as int, d as int);
        assert(n * c == (d * c) * q + r * c) by (nonlinear_arith)
            requires
                n == d * q + r,
        ;
        assert(r * c < d * c) by (nonlinear_arith)
            requires
                r < d,
                c > 0,
        ;
        lemma_fundamental_div_mod_converse(
            (n * c) as int,
            (d * c) as int,
            q as int,
            (r * c) as int,
        );
        assert(2 * r < d <==> 2 * (r * c) < d * c) by (nonlinear_arith)
            requires
                c > 0,
        ;
        assert(2 * r == d <==> 2 * (r * c) == d * c) by (nonlinear_arith)
            requires
                c > 0,
        ;
    } else {
        lemma_nearest_scaled(n, 2 * d, c);
        assert(2 * (d * c) == (2 * d) * c) by (nonlinear_arith);
    }
}

/// Doubling a value of the normal range moves it up one binade.
pub proof fn lemma_nearest_binades(n: nat, d: nat, k: nat)
    requires
        d > 0,
        k == 0 || n >= d * 0x0080_0000,
    ensures
        nearest_bits(n * pow2(k), d) == k * 0x0080_0000 + nearest_bits(n, d),
    decreases k,
{
    lemma2_to64();
    if k > 0 {
        let j = (k - 1) as nat;
        lemma_nearest_binades(n, d, j);
        lemma_pow2_unfold(k);
        lemma_pow2_pos(j);
        let p = pow2(j);
        assert(n * (2 * p) == (n * p) * 2) by (nonlinear_arith);
        assert(n * (2 * p) >= d * (0x0100_0000)) by (nonlinear_arith)
            requires
                n >= d * 0x0080_0000,
                p >= 1,
        ;
        lemma_nearest_scaled(n * p, d, 2);
        assert(nearest_bits(n * pow2(k), d) == 0x0080_0000 + nearest_bits(n * pow2(k), 2 * d));
        assert(k * 0x0080_0000 == j * 0x0080_0000 + 0x0080_0000) by (nonlinear_arith)
            requires
                j == k - 1,
        ;
    }
}


/// A value that lies strictly between `q` and `q + 1` may be replaced by
/// `q + 1/2`, at a scale at which rounding still drops a bit of `q`.
pub proof fn lemma_nearest_sticky(n: nat, d: nat, q: nat, c: nat)
    requires
        q * d < n < (q + 1) * d,
        c % 2 == 0 && c > 0 || c == 1 && q >= 0x0100_0000,
    ensures
        d > 0,
        nearest_bits(n, d * c) == nearest_bits(2 * q + 1, 2 * c),
    decreases n - d * c,
{
    let b: nat = 0x0100_0000;
    assert(d > 0) by (nonlinear_arith)
        requires
            q * d < n < (q + 1) * d,
    ;
    assert(d * c > 0) by (nonlinear_arith)
        requires
            d > 0,
            c > 0,
    ;
    assert(n < (d * c) * b <==> q < c * b) by {
        if q < c * b {
            assert((q + 1) * d <= (c * b) * d) by (nonlinear_arith)
                requires
                    q + 1 <= c * b,
                    d > 0,
            ;
            assert((c * b) * d == (d * c) * b) by (nonlinear_arith);
        } else {
            assert(q * d >= (c * b) * d) by (nonlinear_arith)
                requires
                    q >= c * b,
                    d > 0,
            ;
            assert((c * b) * d == (d * c) * b) by (nonlinear_arith);
        }
    }
    if n < (d * c) * b {
        let h = c / 2;
        let a = q / c;
        let e = q % c;
        let r = (n - q * d) as nat;
        lemma_fundamental_div_mod(q as int, c as int);
        assert(n == a * (d * c) + (e * d + r)) by (nonlinear_arith)
            requires
                n == q * d + r,
                q == c * a + e,
        ;
        assert(r < d) by (nonlinear_arith)
            requires
                r == n - q * d,
                n < (q + 1) * d,
        ;
        assert(e * d + r < d * c) by (nonlinear_arith)
            requires
                e + 1 <= c,
                r < d,
        ;
        lemma_fundamental_div_mod_converse(
            n as int,
            (d * c) as int,
            a as int,
            (e * d + r) as int,
        );
        assert(2 * q + 1 == a * (2 * c) + (2 * e + 1)) by (nonlinear_arith)
            requires
                q == c * a + e,
        ;
        lemma_fundamental_div_mod_converse(
            (2 * q + 1) as int,
            (2 * c) as int,
            a as int,
            (2 * e + 1) as int,
        );
        assert(c == 2 * h);
        if e < h {
            assert(2 * (e * d + r) < d * c) by (nonlinear_arith)
                requires
                    e + 1 <= h,
                    r < d,
                    c == 2 * h,
            ;
        } else {
            assert(2 * (e * d + r) > d * c) by (nonlinear_arith)
                requires
                    e >= h,
                    r > 0,
                    c == 2 * h,
            ;
        }
    } else {
        assert(d * (2 * c) == 2 * (d * c)) by (nonlinear_arith);
        lemma_nearest_sticky(n, d, q, 2 * c);
    }
}

/// A larger value does not round to a smaller number.
pub proof fn lemma_nearest_order(m: nat, n: nat, d: nat)
    requires
        d > 0,
        m <= n,
    ensures
        nearest_bits(m, d) <= nearest_bits(n, d),
    decreases n - d,
{
    if n < d * 0x0100_0000 {
        lemma_nearest_even_order(m, n, d);
    } else if m < d * 0x0100_0000 {
        lemma_nearest_even_order(m, d * 0x0100_0000, d);
        lemma_whole(0x0100_0000, d);
        assert(nearest_even(m, d) <= 0x0100_0000);
        lemma_nearest_order(2 * d * 0x0080_0000, n, 2 * d);
        lemma_whole(0x0080_0000, 2 * d);
        assert(nearest_bits(2 * d * 0x0080_0000, 2 * d) == 0x0080_0000);
    } else {
        lemma_nearest_order(m, n, 2 * d);
    }
}

/// A whole number rounds to itself.
proof fn lemma_whole(k: nat, d: nat)
    requires
        d > 0,
    ensures
        nearest_even(d * k, d) == k,
{
    assert(d * k == k * d) by (nonlinear_arith);
    lemma_fundamental_div_mod_converse(
        (d * k) as int,
        d as int,
        k as int,
        0,
    );
}

proof fn lemma_nearest_even_order(m: nat, n: nat, d: nat)
    requires
        d > 0,
        m <= n,
    ensures
        nearest_even(m, d) <= nearest_even(n, d),
{
    let (a, r) = (m / d, m % d);
    let (b, s) = (n / d, n % d);
    lemma_fundamental_div_mod(m as int, d as int);
    lemma_fundamental_div_mod(n as int, d as int);
    assert(a <= b) by (nonlinear_arith)
        requires
            m == d * a + r,
            n == d * b + s,
            m <= n,
            r < d,
            s < d,
    ;
    if a == b {
        assert(r <= s);
    }
}

/// A larger fraction does not round to a smaller number.
pub proof fn lemma_nearest_fraction_order(m: nat, c: nat, n: nat, d: nat)
    requires
        c > 0,
        d > 0,
        m * d <= n * c,
    ensures
        nearest_bits(m, c) <= nearest_bits(n, d),
{
    lemma_nearest_scaled(m, c, d);
    lemma_nearest_scaled(n, d, c);
    assert(c * d > 0 && c * d == d * c) by (nonlinear_arith)
        requires
            c > 0,
            d > 0,
    ;
    lemma_nearest_order(m * d, n * c, c * d);
}

/// The value of a number rounds to that number.
pub proof fn lemma_nearest_exact(bits: nat)
    ensures
        nearest_bits(units(bits), 1) == bits,
    decreases bits,
{
    if bits < 0x0100_0000 {
        lemma_whole(bits, 1);
    } else {
        let below = (bits - 0x0080_0000) as nat;
        lemma_nearest_exact(below);
        lemma_nearest_scaled(units(below), 1, 2);
        lemma_units_order(0x0080_0000, below);
    }
}

/// The bits of the non-negative number nearest to `n / d * 2^e` units when the
/// range of exponents is not bounded.
pub open spec fn nearest_ratio(n: nat, d: nat, e: int) -> nat {
    if e >= 0 {
        nearest_bits(n * pow2(e as nat), d)
    } else {
        nearest_bits(n, d * pow2((-e) as nat))
    }
}

/// Only the difference of the exponents of a fraction's two terms counts.
pub proof fn lemma_nearest_ratio(n: nat, a: nat, d: nat, b: nat)
    requires
        d > 0,
    ensures
        nearest_bits(n * pow2(a), d * pow2(b)) == nearest_ratio(n, d, a - b),
{
    lemma_pow2_pos(a);
    lemma_pow2_pos(b);
    if a >= b {
        let c = (a - b) as nat;
        lemma_pow2_adds(c, b);
        assert(n * (pow2(c) * pow2(b)) == (n * pow2(c)) * pow2(b)) by (nonlinear_arith);
        lemma_nearest_scaled(n * pow2(c), d, pow2(b));
    } else {
        let c = (b - a) as nat;
        lemma_pow2_adds(c, a);
        lemma_pow2_pos(c);
        assert(d * (pow2(c) * pow2(a)) == (d * pow2(c)) * pow2(a)) by (nonlinear_arith);
        assert(d * pow2(c) > 0) by (nonlinear_arith)
            requires
                d > 0,
                pow2(c) > 0,
        ;
        lemma_nearest_scaled(n, d * pow2(c), pow2(a));
    }
}

/// A fraction rounds as its integer part does, with one half behind it if it is
/// not whole.
pub proof fn lemma_nearest_quotient(n: nat, d: nat, q: nat, e: int)
    requires
        d > 0,
        q * d <= n < (q + 1) * d,
        q >= 0x0100_0000,
    ensures
        q * d == n ==> nearest_ratio(n, d, e) == nearest_ratio(q, 1, e),
        q * d < n ==> nearest_ratio(n, d, e) == nearest_ratio(2 * q + 1, 1, e - 1),
{
    if q * d == n {
        if e >= 0 {
            let p = pow2(e as nat);
            assert((q * d) * p == (q * p) * d) by (nonlinear_arith);
            lemma_nearest_scaled(q * p, 1, d);
        } else {
            let p = pow2((-e) as nat);
            lemma_pow2_pos((-e) as nat);
            assert(d * p == p * d) by (nonlinear_arith);
            lemma_nearest_scaled(q, p, d);
        }
    } else if e >= 0 {
        let k = e as nat;
        assert(n >= d * 0x0080_0000) by (nonlinear_arith)
            requires
                q * d <= n,
                q >= 0x0080_0000,
        ;
        lemma_nearest_binades(n, d, k);
        lemma_nearest_sticky(n, d, q, 1);
        lemma_nearest_binades(2 * q + 1, 2, k);
        lemma2_to64();
        if e == 0 {
            assert(nearest_ratio(2 * q + 1, 1, -1) == nearest_bits(2 * q + 1, 2));
        } else {
            let p = pow2((e - 1) as nat);
            lemma_pow2_unfold(k);
            assert((2 * q + 1) * (2 * p) == ((2 * q + 1) * p) * 2) by (nonlinear_arith);
            lemma_nearest_scaled((2 * q + 1) * p, 1, 2);
        }
    } else {
        let k = (-e) as nat;
        lemma_pow2_unfold(k);
        lemma_pow2_pos(k);
        lemma_nearest_sticky(n, d, q, pow2(k));
        lemma_pow2_unfold(k + 1);
        assert((-(e - 1)) as nat == k + 1);
    }
}

/// There is no more than one integer part of a square root.
proof fn lemma_root_unique(n: nat, r: nat)
    requires
        is_whole_root(n, r),
    ensures
        whole_root(n) == r,
{
    let s = whole_root(n);
    if s < r {
        assert((s + 1) * (s + 1) <= r * r) by (nonlinear_arith)
            requires
                s + 1 <= r,
        ;
    } else if r < s {
        assert((r + 1) * (r + 1) <= s * s) by (nonlinear_arith)
            requires
                r + 1 <= s,
        ;
    }
}

/// Every integer has a square root with an integer part.
pub proof fn lemma_root_exists(n: nat)
    ensures
        is_whole_root(n, whole_root(n)),
    decreases n,
{
    if n == 0 {
        assert(is_whole_root(0, 0)) by (nonlinear_arith);
    } else {
        lemma_root_exists((n - 1) as nat);
        let r = whole_root((n - 1) as nat);
        if n < (r + 1) * (r + 1) {
            assert(is_whole_root(n, r));
        } else {
            assert((r + 1) * (r + 1) < (r + 2) * (r + 2)) by (nonlinear_arith);
            assert(is_whole_root(n, r + 1));
        }
    }
}

/// A number times a power of four is a square only if the number is one.
proof fn lemma_square_scaled(x: nat, r: nat, h: nat)
    requires
        r * r == x * (pow2(h) * pow2(h)),
    ensures
        exists|s: nat| #![trigger s * s] s * s == x,
    decreases h,
{
    lemma2_to64();
    if h == 0 {
        assert(x * (1 * 1) == x) by (nonlinear_arith);
        assert(r * r == x);
    } else {
        let g = (h - 1) as nat;
        let p = pow2(g);
        lemma_pow2_unfold(h);
        assert(r * r == 4 * (x * (p * p))) by (nonlinear_arith)
            requires
                r * r == x * ((2 * p) * (2 * p)),
        ;
        let half = r / 2;
        if r % 2 == 1 {
            assert(r * r == 4 * (half * half + half) + 1) by (nonlinear_arith)
                requires
                    r == 2 * half + 1,
            ;
            assert(false);
        }
        assert(r * r == 4 * (half * half)) by (nonlinear_arith)
            requires
                r == 2 * half,
        ;
        lemma_square_scaled(x, half, g);
    }
}

/// The square root of `x * 4^h`, by the integer part `s` of the root of `x`.
pub proof fn lemma_root_scaled(x: nat, s: nat, h: nat)
    requires
        is_whole_root(x, s),
        s >= 0x0100_0000,
    ensures
        ({
            let square = x * (pow2(h) * pow2(h));
            let root = whole_root(square);
            &&& s * s == x ==> root * root == square && nearest_bits(root, 1) == nearest_ratio(
                s,
                1,
                h as int,
            )
            &&& s * s != x ==> root * root != square && nearest_bits(2 * root + 1, 2)
                == nearest_ratio(2 * s + 1, 1, h - 1)
        }),
{
    let p = pow2(h);
    let square = x * (p * p);
    lemma_pow2_pos(h);
    if s * s == x {
        assert((s * p) * (s * p) == (s * s) * (p * p)) by (nonlinear_arith);
        assert((s * p + 1) * (s * p + 1) > (s * p) * (s * p)) by (nonlinear_arith);
        assert(is_whole_root(square, s * p));
        lemma_root_unique(square, s * p);
    } else {
        let r = whole_root(square);
        lemma_root_exists(square);
        assert(s * p < r + 1) by (nonlinear_arith)
            requires
                s * s <= x,
                square == x * (p * p),
                square < (r + 1) * (r + 1),
                p > 0,
        ;
        assert(r < (s + 1) * p) by (nonlinear_arith)
            requires
                x < (s + 1) * (s + 1),
                square == x * (p * p),
                r * r <= square,
                p > 0,
        ;
        if r * r == square {
            lemma_square_scaled(x, r, h);
            let t = choose|t: nat| #![trigger t * t] t * t == x;
            assert(is_whole_root(x, t)) by {
                assert((t + 1) * (t + 1) > t * t) by (nonlinear_arith);
            }
            lemma_root_unique(x, t);
            lemma_root_unique(x, s);
            assert(false);
        }
        lemma_pow2_unfold(h + 1);
        let n = 2 * r + 1;
        lemma_nearest_scaled(n, 2, p);
        assert(s * (2 * p) == 2 * (s * p)) by (nonlinear_arith);
        assert((s + 1) * (2 * p) == 2 * ((s + 1) * p)) by (nonlinear_arith);
        lemma_nearest_quotient(n, 2 * p, s, h as int);
    }
}

} // verus!
