//! Rounding of exact ratios to 53-digit binary significands.
use vstd::arithmetic::div_mod::{lemma_fundamental_div_mod, lemma_fundamental_div_mod_converse};
use vstd::arithmetic::power2::{
    lemma_pow2_adds, lemma_pow2_pos, lemma_pow2_strictly_increases, lemma_pow2_unfold, pow2,
};
use vstd::prelude::*;

verus! {

/// The integer nearest to `n / d`, the even one of two that are equally near.
pub open spec fn nearest(n: nat, d: nat) -> nat {
    let q = n / d;
    let r = n % d;
    if 2 * r < d || (2 * r == d && q % 2 == 0) {
        q
    } else {
        q + 1
    }
}

/// The least `k` with `n / d < 2^(53 + k)`: how many binary digits before the point a
/// significand of 53 digits leaves out.
pub open spec fn dropped(n: nat, d: nat) -> nat
    recommends
        d > 0,
    decreases n,
{
    proof {
        lemma_pow2_pos(53);
        assert(d > 0 ==> d * pow2(53) > 0) by (nonlinear_arith)
            requires
                pow2(53) > 0,
        ;
    }
    if d == 0 || n < d * pow2(53) {
        0
    } else {
        1 + dropped(n / 2, d)
    }
}

/// The ratio `n / d` rounded to the nearest multiple of `2^k`, ties to the even multiple, where
/// `k` is as small as 53 significant binary digits allow.
pub open spec fn round_ratio(n: nat, d: nat) -> nat {
    let k = dropped(n, d);
    nearest(n, d * pow2(k)) * pow2(k)
}

/// `m` is the whole part of `(n / d) / 2^e`, and `inexact` says whether a fraction is left over.
pub open spec fn approximates(m: nat, e: int, inexact: bool, n: nat, d: nat) -> bool {
    let (num, den) = if e >= 0 {
        (n, d * pow2(e as nat))
    } else {
        (n * pow2((-e) as nat), d)
    };
    &&& m == num / den
    &&& inexact == (num % den != 0)
}

/// Powers of two grow with the exponent.
pub proof fn lemma_pow2_monotone(a: nat, b: nat)
    requires
        a <= b,
    ensures
        pow2(a) <= pow2(b),
{
    if a < b {
        lemma_pow2_strictly_increases(a, b);
    }
}

/// The two bounds on `k` determine `dropped`.
pub proof fn lemma_dropped(n: nat, d: nat, k: nat)
    requires
        d > 0,
        n < d * pow2(53 + k),
        k == 0 || d * pow2((52 + k) as nat) <= n,
    ensures
        dropped(n, d) == k,
    decreases k,
{
    if k > 0 {
        let h = (k - 1) as nat;
        assert(d * pow2(53) <= n) by {
            lemma_pow2_monotone(53, (52 + k) as nat);
            assert(d * pow2(53) <= d * pow2((52 + k) as nat)) by (nonlinear_arith)
                requires
                    pow2(53) <= pow2((52 + k) as nat),
            ;
        }
        assert(d * pow2(53 + k) == 2 * (d * pow2((53 + h) as nat))) by {
            lemma_pow2_unfold(53 + k);
            assert(d * (2 * pow2((53 + h) as nat)) == 2 * (d * pow2((53 + h) as nat)))
                by (nonlinear_arith);
        }
        assert(n / 2 < d * pow2(53 + h));
        if h > 0 {
            assert(d * pow2((52 + k) as nat) == 2 * (d * pow2((52 + h) as nat))) by {
                lemma_pow2_unfold((52 + k) as nat);
                assert(d * (2 * pow2((52 + h) as nat)) == 2 * (d * pow2((52 + h) as nat)))
                    by (nonlinear_arith);
            }
        }
        lemma_dropped(n / 2, d, h);
    }
}

/// `dropped` meets the bounds that determine it.
pub proof fn lemma_dropped_bounds(n: nat, d: nat)
    requires
        d > 0,
    ensures
        n < d * pow2(53 + dropped(n, d)),
        dropped(n, d) == 0 || d * pow2((52 + dropped(n, d)) as nat) <= n,
    decreases n,
{
    lemma_pow2_pos(53);
    assert(d * pow2(53) > 0) by (nonlinear_arith)
        requires
            pow2(53) > 0,
            d > 0,
    ;
    if n >= d * pow2(53) {
        let h = dropped(n / 2, d);
        lemma_dropped_bounds(n / 2, d);
        lemma_pow2_unfold((54 + h) as nat);
        lemma_pow2_unfold((53 + h) as nat);
        assert(d * (2 * pow2((53 + h) as nat)) == 2 * (d * pow2((53 + h) as nat)))
            by (nonlinear_arith);
        assert(d * (2 * pow2((52 + h) as nat)) == 2 * (d * pow2((52 + h) as nat)))
            by (nonlinear_arith);
    }
}

/// A common factor changes neither the quotient nor what is nearest.
pub proof fn lemma_nearest_scaled(n: nat, d: nat, c: nat)
    requires
        d > 0,
        c > 0,
    ensures
        d * c > 0,
        (n * c) / (d * c) == n / d,
        (n * c) % (d * c) == (n % d) * c,
        nearest(n * c, d * c) == nearest(n, d),
{
    let q = (n / d) as int;
    let r = (n % d) as int;
    lemma_fundamental_div_mod(n as int, d as int);
    assert(d * c > 0) by (nonlinear_arith)
        requires
            d > 0,
            c > 0,
    ;
    assert(n * c == q * (d * c) + r * c) by (nonlinear_arith)
        requires
            n == d * q + r,
    ;
    assert(0 <= r * c < d * c) by (nonlinear_arith)
        requires
            0 <= r < d,
            c > 0,
    ;
    lemma_fundamental_div_mod_converse((n * c) as int, (d * c) as int, q, r * c);
    assert(2 * (r * c) < d * c <==> 2 * r < d) by (nonlinear_arith)
        requires
            c > 0,
    ;
    assert(2 * (r * c) == d * c <==> 2 * r == d) by (nonlinear_arith)
        requires
            c > 0,
    ;
}

/// What is nearest in steps of `2 * half` follows from the whole part and from whether anything
/// is left over.
pub proof fn lemma_nearest_in_steps(n: nat, d: nat, half: nat)
    requires
        d > 0,
        half > 0,
    ensures
        ({
            let m = n / d;
            let q = m / (2 * half);
            let r = m % (2 * half);
            let up = r > half || (r == half && (n % d != 0 || q % 2 == 1));
            nearest(n, d * (2 * half)) == if up { q + 1 } else { q }
        }),
{
    let p = 2 * half;
    let m = (n / d) as int;
    let rest = (n % d) as int;
    let q = m / (p as int);
    let r = m % (p as int);
    lemma_fundamental_div_mod(n as int, d as int);
    lemma_fundamental_div_mod(m, p as int);
    assert(m >= 0 && q >= 0) by (nonlinear_arith)
        requires
            m == n as int / d as int,
            q == m / p as int,
            d > 0,
            p > 0,
    ;
    assert(n == q * (d * p) + (r * d + rest)) by (nonlinear_arith)
        requires
            n == d * m + rest,
            m == p * q + r,
    ;
    assert(0 <= r * d + rest < d * p) by (nonlinear_arith)
        requires
            0 <= r <= p - 1,
            0 <= rest < d,
    ;
    lemma_fundamental_div_mod_converse(n as int, (d * p) as int, q, r * d + rest);
    if r < half {
        assert(2 * (r * d + rest) < d * p) by (nonlinear_arith)
            requires
                r <= half - 1,
                rest < d,
                p == 2 * half,
        ;
    } else if r > half {
        assert(2 * (r * d + rest) > d * p) by (nonlinear_arith)
            requires
                r >= half + 1,
                0 <= rest < d,
                p == 2 * half,
        ;
    } else {
        assert(2 * (r * d + rest) == d * p + 2 * rest) by (nonlinear_arith)
            requires
                r == half,
                p == 2 * half,
        ;
    }
}

/// An exact multiple is its own nearest.
pub proof fn lemma_nearest_exact(q: nat, d: nat)
    requires
        d > 0,
    ensures
        nearest(q * d, d) == q,
{
    assert(q * d == q * d + 0);
    lemma_fundamental_div_mod_converse((q * d) as int, d as int, q as int, 0);
}

/// Rounding from an approximation whose last digit weighs `2^e`, in steps of `2^(e + sh)`.
pub proof fn lemma_nearest_from_approximation(
    m: nat,
    e: int,
    inexact: bool,
    n: nat,
    d: nat,
    sh: nat,
)
    requires
        d > 0,
        sh > 0,
        e + sh >= 0,
        approximates(m, e, inexact, n, d),
    ensures
        ({
            let p = pow2(sh);
            let q = m / p;
            let r = m % p;
            let up = 2 * r > p || (2 * r == p && (inexact || q % 2 == 1));
            nearest(n, d * pow2((e + sh) as nat)) == if up { q + 1 } else { q }
        }),
{
    let half = pow2((sh - 1) as nat);
    lemma_pow2_unfold(sh);
    lemma_pow2_pos((sh - 1) as nat);
    lemma_pow2_pos(sh);
    let k = (e + sh) as nat;
    lemma_pow2_pos(k);
    if e >= 0 {
        let s = pow2(e as nat);
        lemma_pow2_pos(e as nat);
        assert(d * s > 0) by (nonlinear_arith)
            requires
                d > 0,
                s > 0,
        ;
        lemma_nearest_in_steps(n, d * s, half);
        lemma_pow2_adds(e as nat, sh);
        assert((d * s) * pow2(sh) == d * (s * pow2(sh))) by (nonlinear_arith);
    } else {
        let s = pow2((-e) as nat);
        lemma_pow2_pos((-e) as nat);
        lemma_nearest_in_steps(n * s, d, half);
        lemma_pow2_adds(k, (-e) as nat);
        assert(k + (-e) as nat == sh);
        assert(d * pow2(sh) == (d * pow2(k)) * s) by (nonlinear_arith)
            requires
                pow2(sh) == pow2(k) * s,
        ;
        assert(d * pow2(k) > 0) by (nonlinear_arith)
            requires
                d > 0,
                pow2(k) > 0,
        ;
        lemma_nearest_scaled(n, d * pow2(k), s);
    }
}

/// An approximation places the ratio between two neighbouring multiples of `2^e`.
pub proof fn lemma_approximation_bounds(m: nat, e: int, inexact: bool, n: nat, d: nat)
    requires
        d > 0,
        approximates(m, e, inexact, n, d),
    ensures
        e >= 0 ==> m * (d * pow2(e as nat)) <= n < (m + 1) * (d * pow2(e as nat)),
        e < 0 ==> m * d <= n * pow2((-e) as nat) < (m + 1) * d,
        e >= 0 && !inexact ==> n == m * (d * pow2(e as nat)),
{
    let (num, den) = if e >= 0 {
        (n, d * pow2(e as nat))
    } else {
        (n * pow2((-e) as nat), d)
    };
    if e >= 0 {
        lemma_pow2_pos(e as nat);
        assert(den > 0) by (nonlinear_arith)
            requires
                d > 0,
                pow2(e as nat) > 0,
                den == d * pow2(e as nat),
        ;
    }
    lemma_fundamental_div_mod(num as int, den as int);
    assert(m * den <= num < (m + 1) * den) by (nonlinear_arith)
        requires
            num == den * m + (num as int) % (den as int),
            0 <= (num as int) % (den as int) < den,
    ;
    assert(den * m == m * den) by (nonlinear_arith);
}

/// The binary length `l` of the approximation fixes how many digits are dropped.
pub proof fn lemma_dropped_from_approximation(
    m: nat,
    e: int,
    inexact: bool,
    n: nat,
    d: nat,
    l: nat,
)
    requires
        d > 0,
        l > 0,
        pow2((l - 1) as nat) <= m < pow2(l),
        approximates(m, e, inexact, n, d),
    ensures
        dropped(n, d) == if l + e > 53 { l + e - 53 } else { 0 },
{
    lemma_approximation_bounds(m, e, inexact, n, d);
    let k = (if l + e > 53 { l + e - 53 } else { 0 }) as nat;
    // n / d < 2^(l + e) <= 2^(53 + k)
    if e >= 0 {
        let s = pow2(e as nat);
        lemma_pow2_pos(e as nat);
        lemma_pow2_adds(l, e as nat);
        assert(n < d * (pow2(l) * s)) by (nonlinear_arith)
            requires
                n < (m + 1) * (d * s),
                m + 1 <= pow2(l),
                d > 0,
                s > 0,
        ;
        lemma_pow2_monotone(l + e as nat, 53 + k);
        assert(d * pow2((l + e) as nat) <= d * pow2(53 + k)) by (nonlinear_arith)
            requires
                pow2((l + e) as nat) <= pow2(53 + k),
        ;
        if k > 0 {
            lemma_pow2_adds((l - 1) as nat, e as nat);
            assert(n >= d * (pow2((l - 1) as nat) * s)) by (nonlinear_arith)
                requires
                    n >= m * (d * s),
                    m >= pow2((l - 1) as nat),
                    d > 0,
                    s > 0,
            ;
        }
    } else {
        let f = (-e) as nat;
        let s = pow2(f);
        lemma_pow2_pos(f);
        // n * 2^f < d * 2^l <= d * 2^(53 + k + f)
        assert(n * s < d * pow2(l)) by (nonlinear_arith)
            requires
                n * s < (m + 1) * d,
                m + 1 <= pow2(l),
                d > 0,
        ;
        lemma_pow2_monotone(l, (53 + k + f) as nat);
        lemma_pow2_adds((53 + k) as nat, f);
        assert(n < d * pow2(53 + k)) by (nonlinear_arith)
            requires
                n * s < d * pow2(l),
                pow2(l) <= pow2((53 + k) as nat) * s,
                s > 0,
                d > 0,
        ;
        if k > 0 {
            lemma_pow2_adds((52 + k) as nat, f);
            assert((52 + k) as nat + f == (l - 1) as nat);
            assert(n >= d * pow2((52 + k) as nat)) by (nonlinear_arith)
                requires
                    n * s >= m * d,
                    m >= pow2((52 + k) as nat) * s,
                    s > 0,
                    d > 0,
            ;
        }
    }
    lemma_dropped(n, d, k);
}

} // verus!
