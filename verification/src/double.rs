//! Arithmetic on binary floating-point numbers of 64 bits (IEEE 754 binary64), rounding to
//! nearest with ties to even, carried out on integers.
//!
//! Every finite number of the format is a whole multiple of `2^-1074`. The model of a number
//! counts these units, so sums are exact integers, and products and quotients are exact ratios,
//! before one rounding.
use crate::rounding::{
    approximates, dropped, lemma_approximation_bounds, lemma_dropped_from_approximation,
    lemma_nearest_exact, lemma_nearest_from_approximation, lemma_nearest_scaled,
    lemma_pow2_monotone, nearest, round_ratio,
};
use vstd::arithmetic::div_mod::{lemma_fundamental_div_mod, lemma_fundamental_div_mod_converse};
use vstd::arithmetic::power2::{
    lemma2_to64, lemma2_to64_rest, lemma_pow2_adds, lemma_pow2_pos, lemma_pow2_strictly_increases,
    lemma_pow2_unfold, pow2,
};
use vstd::prelude::*;

verus! {

/// The weight of the sign bit.
pub const SIGN: u64 = 0x8000_0000_0000_0000;

/// The weight of the lowest exponent bit, `2^52`.
pub const UNIT: u64 = 0x10_0000_0000_0000;

/// The exponent field of infinities and of what is not a number.
pub const SPECIAL: u64 = 2047;

/// What a `Double` stands for.
pub enum Value {
    /// Not a number.
    Nan,
    /// An infinity.
    Infinite { negative: bool },
    /// `magnitude * 2^-1074`, negated if `negative`. Zero has either sign.
    Finite { negative: bool, magnitude: nat },
}

/// The magnitude, in units of `2^-1074`, of an exponent field and a fraction field.
pub open spec fn magnitude(exponent: nat, fraction: nat) -> nat {
    if exponent == 0 {
        fraction
    } else {
        (UNIT + fraction) as nat * pow2((exponent - 1) as nat)
    }
}

/// The value that a bit pattern encodes.
pub open spec fn decode(bits: u64) -> Value {
    let negative = bits >= SIGN;
    let exponent = (bits % SIGN) / UNIT;
    let fraction = (bits % SIGN) % UNIT;
    if exponent == SPECIAL {
        if fraction == 0 {
            Value::Infinite { negative }
        } else {
            Value::Nan
        }
    } else {
        Value::Finite { negative, magnitude: magnitude(exponent as nat, fraction as nat) }
    }
}

/// The number nearest to `n / d` units, an infinity where that needs an exponent out of range.
#[verifier::opaque]
pub open spec fn rounded(negative: bool, n: nat, d: nat) -> Value {
    let m = round_ratio(n, d);
    if m >= pow2(2098) {
        Value::Infinite { negative }
    } else {
        Value::Finite { negative, magnitude: m }
    }
}

/// The number nearest to the ratio `n / d` of two whole numbers, as a decimal literal denotes it.
pub open spec fn ratio(n: nat, d: nat) -> Value {
    rounded(false, n * pow2(1074), d)
}

/// The number nearest to the whole number `n`.
pub open spec fn whole(n: nat) -> Value {
    ratio(n, 1)
}

/// Zero without a sign.
pub open spec fn zero() -> Value {
    Value::Finite { negative: false, magnitude: 0 }
}

/// Whether the sign bit is set. What is not a number has no sign here.
pub open spec fn is_negative(v: Value) -> bool {
    match v {
        Value::Nan => false,
        Value::Infinite { negative } => negative,
        Value::Finite { negative, .. } => negative,
    }
}

/// A finite value as a signed count of units.
pub open spec fn units(v: Value) -> int {
    match v {
        Value::Finite { negative, magnitude } => if negative {
            -(magnitude as int)
        } else {
            magnitude as int
        },
        _ => 0,
    }
}

/// The value with the other sign.
pub open spec fn negated(v: Value) -> Value {
    match v {
        Value::Nan => Value::Nan,
        Value::Infinite { negative } => Value::Infinite { negative: !negative },
        Value::Finite { negative, magnitude } => Value::Finite { negative: !negative, magnitude },
    }
}

/// The value without its sign.
pub open spec fn absolute(v: Value) -> Value {
    match v {
        Value::Nan => Value::Nan,
        Value::Infinite { .. } => Value::Infinite { negative: false },
        Value::Finite { magnitude, .. } => Value::Finite { negative: false, magnitude },
    }
}

/// The sum, rounded once. A sum of nothing is positive unless both summands are negative.
#[verifier::opaque]
pub open spec fn sum(a: Value, b: Value) -> Value {
    match (a, b) {
        (Value::Nan, _) => Value::Nan,
        (_, Value::Nan) => Value::Nan,
        (Value::Infinite { negative: s }, Value::Infinite { negative: t }) => if s == t {
            a
        } else {
            Value::Nan
        },
        (Value::Infinite { .. }, _) => a,
        (_, Value::Infinite { .. }) => b,
        (Value::Finite { negative: s, .. }, Value::Finite { negative: t, .. }) => {
            let total = units(a) + units(b);
            if total == 0 {
                Value::Finite { negative: s && t, magnitude: 0 }
            } else if total < 0 {
                rounded(true, (-total) as nat, 1)
            } else {
                rounded(false, total as nat, 1)
            }
        },
    }
}

/// The difference, rounded once.
pub open spec fn difference(a: Value, b: Value) -> Value {
    sum(a, negated(b))
}

/// The product, rounded once.
#[verifier::opaque]
pub open spec fn product(a: Value, b: Value) -> Value {
    let negative = is_negative(a) != is_negative(b);
    match (a, b) {
        (Value::Nan, _) => Value::Nan,
        (_, Value::Nan) => Value::Nan,
        (Value::Infinite { .. }, Value::Infinite { .. }) => Value::Infinite { negative },
        (Value::Infinite { .. }, Value::Finite { magnitude: m, .. }) => if m == 0 {
            Value::Nan
        } else {
            Value::Infinite { negative }
        },
        (Value::Finite { magnitude: m, .. }, Value::Infinite { .. }) => if m == 0 {
            Value::Nan
        } else {
            Value::Infinite { negative }
        },
        (Value::Finite { magnitude: m, .. }, Value::Finite { magnitude: n, .. }) => rounded(
            negative,
            m * n,
            pow2(1074),
        ),
    }
}

/// The quotient, rounded once.
#[verifier::opaque]
pub open spec fn quotient(a: Value, b: Value) -> Value {
    let negative = is_negative(a) != is_negative(b);
    match (a, b) {
        (Value::Nan, _) => Value::Nan,
        (_, Value::Nan) => Value::Nan,
        (Value::Infinite { .. }, Value::Infinite { .. }) => Value::Nan,
        (Value::Infinite { .. }, Value::Finite { .. }) => Value::Infinite { negative },
        (Value::Finite { .. }, Value::Infinite { .. }) => Value::Finite { negative, magnitude: 0 },
        (Value::Finite { magnitude: m, .. }, Value::Finite { magnitude: n, .. }) => if n == 0 {
            if m == 0 {
                Value::Nan
            } else {
                Value::Infinite { negative }
            }
        } else {
            rounded(negative, m * pow2(1074), n)
        },
    }
}

/// Whether `a < b`. Nothing is less or greater than what is not a number.
pub open spec fn less(a: Value, b: Value) -> bool {
    match (a, b) {
        (Value::Nan, _) => false,
        (_, Value::Nan) => false,
        (Value::Infinite { negative: s }, Value::Infinite { negative: t }) => s && !t,
        (Value::Infinite { negative }, _) => negative,
        (_, Value::Infinite { negative }) => !negative,
        _ => units(a) < units(b),
    }
}

/// Whether `a == b`. The two zeros are equal; what is not a number equals nothing.
pub open spec fn equal(a: Value, b: Value) -> bool {
    a !is Nan && b !is Nan && !less(a, b) && !less(b, a)
}

/// The smaller of two numbers, or the one of them that is a number. Of the two zeros the negative
/// one counts as smaller.
pub open spec fn smaller(a: Value, b: Value) -> Value {
    if a is Nan || less(b, a) || (equal(a, b) && is_negative(b)) {
        b
    } else {
        a
    }
}

/// The larger of two numbers, or the one of them that is a number. Of the two zeros the negative
/// one counts as smaller.
pub open spec fn larger(a: Value, b: Value) -> Value {
    if a is Nan || less(a, b) || (equal(a, b) && is_negative(a)) {
        b
    } else {
        a
    }
}

/// One with the sign of `v`, for zeros too.
pub open spec fn sign_of(v: Value) -> Value {
    if v is Nan {
        Value::Nan
    } else {
        Value::Finite { negative: is_negative(v), magnitude: pow2(1074) }
    }
}

/// A binary floating-point number of 64 bits, kept as its bit pattern.
#[derive(Clone, Copy, Debug)]
pub struct Double {
    pub bits: u64,
}

impl View for Double {
    type V = Value;

    open spec fn view(&self) -> Value {
        decode(self.bits)
    }
}

/// Bit patterns without a sign are ordered as the magnitudes that they encode.
pub proof fn lemma_magnitude_order(a: nat, b: nat)
    requires
        a < b,
    ensures
        magnitude(a / (UNIT as nat), a % (UNIT as nat)) < magnitude(
            b / (UNIT as nat),
            b % (UNIT as nat),
        ),
{
    let u = UNIT as nat;
    let (ea, fa) = (a / u, a % u);
    let (eb, fb) = (b / u, b % u);
    assert(a == u * ea + fa && b == u * eb + fb);
    if ea == eb {
        if ea > 0 {
            lemma_pow2_pos((ea - 1) as nat);
            assert((u + fa) as nat * pow2((ea - 1) as nat) < (u + fb) as nat * pow2(
                (ea - 1) as nat,
            )) by (nonlinear_arith)
                requires
                    fa < fb,
                    pow2((ea - 1) as nat) > 0,
            ;
        }
    } else {
        assert(ea < eb);
        let q = pow2((eb - 1) as nat);
        lemma_pow2_pos((eb - 1) as nat);
        assert(u * q <= (u + fb) as nat * q) by (nonlinear_arith)
            requires
                q > 0,
        ;
        if ea == 0 {
            assert(u <= u * q) by (nonlinear_arith)
                requires
                    q >= 1,
            ;
        } else {
            let p = pow2((ea - 1) as nat);
            lemma_pow2_pos((ea - 1) as nat);
            lemma_pow2_unfold(ea);
            lemma_pow2_monotone(ea, (eb - 1) as nat);
            assert((u + fa) as nat * p < u * q) by (nonlinear_arith)
                requires
                    fa < u,
                    p > 0,
                    2 * p <= q,
            ;
        }
    }
}

/// Finite magnitudes stay below `2^2098` units.
pub proof fn lemma_magnitude_bound(exponent: nat, fraction: nat)
    requires
        exponent < SPECIAL,
        fraction < UNIT,
    ensures
        magnitude(exponent, fraction) < pow2(2098),
{
    lemma2_to64_rest();
    if exponent == 0 {
        lemma_pow2_strictly_increases(52, 2098);
    } else {
        let p = pow2((exponent - 1) as nat);
        lemma_pow2_pos((exponent - 1) as nat);
        lemma_pow2_adds(53, (exponent - 1) as nat);
        lemma_pow2_monotone((52 + exponent) as nat, 2098);
        assert((UNIT + fraction) as nat * p < pow2(53) * p) by (nonlinear_arith)
            requires
                UNIT + fraction < pow2(53),
                p > 0,
        ;
    }
}

/// The number of binary digits of `m`.
fn binary_length(m: u128) -> (l: u32)
    ensures
        m == 0 ==> l == 0,
        m > 0 ==> 0 < l && pow2((l - 1) as nat) <= m < pow2(l as nat),
        l <= 128,
{
    let mut p: u128 = m;
    let mut l: u32 = 0;
    proof {
        lemma2_to64();
        lemma_pow2_adds(64, 64);
        assert(pow2(128) > u128::MAX);
    }
    while p > 0
        invariant
            p * pow2(l as nat) <= m < (p + 1) * pow2(l as nat),
            l > 0 ==> pow2((l - 1) as nat) <= m,
            m == 0 ==> l == 0,
            l <= 128,
            pow2(128) > u128::MAX,
        decreases p,
    {
        proof {
            let w = pow2(l as nat);
            lemma_pow2_pos(l as nat);
            assert(w <= m) by (nonlinear_arith)
                requires
                    p * w <= m,
                    p >= 1,
            ;
            if l >= 128 {
                lemma_pow2_monotone(128, l as nat);
            }
            lemma_pow2_unfold((l + 1) as nat);
            let h = p / 2;
            assert(h * (2 * w) <= p * w) by (nonlinear_arith)
                requires
                    2 * h <= p,
                    w > 0,
            ;
            assert((p + 1) * w <= (h + 1) * (2 * w)) by (nonlinear_arith)
                requires
                    p + 1 <= 2 * (h + 1),
                    w > 0,
            ;
        }
        p = p / 2;
        l = l + 1;
    }
    proof {
        lemma2_to64();
        assert((0 + 1) * pow2(l as nat) == pow2(l as nat)) by (nonlinear_arith);
    }
    l
}

/// The power `2^k`.
pub(crate) fn power_of_two(k: u32) -> (r: u128)
    requires
        k < 128,
    ensures
        r == pow2(k as nat),
{
    let mut r: u128 = 1;
    let mut i: u32 = 0;
    proof {
        lemma2_to64();
    }
    while i < k
        invariant
            i <= k < 128,
            r == pow2(i as nat),
        decreases k - i,
    {
        proof {
            lemma_pow2_unfold((i + 1) as nat);
            lemma_pow2_monotone((i + 1) as nat, 127);
            lemma2_to64();
            lemma2_to64_rest();
            lemma_pow2_adds(64, 63);
            assert(pow2(127) <= u128::MAX);
        }
        r = r * 2;
        i = i + 1;
    }
    r
}

impl Double {
    /// The number whose sign, steps of `2^k` units and count of steps are given.
    fn assemble(negative: bool, k: u32, q: u64) -> (r: Double)
        requires
            q <= 2 * UNIT,
            k == 0 || q >= UNIT,
        ensures
            r@ == if q * pow2(k as nat) >= pow2(2098) {
                Value::Infinite { negative }
            } else {
                Value::Finite { negative, magnitude: (q * pow2(k as nat)) as nat }
            },
    {
        let sign: u64 = if negative {
            SIGN
        } else {
            0
        };
        proof {
            lemma2_to64();
            lemma2_to64_rest();
            lemma_pow2_pos(k as nat);
            lemma_pow2_adds(53, k as nat);
            lemma_pow2_adds(52, k as nat);
        }
        let ghost w = pow2(k as nat);
        if k >= SPECIAL as u32 {
            proof {
                lemma_pow2_monotone(2098, (52 + k) as nat);
                assert(q * w >= pow2(52) * w) by (nonlinear_arith)
                    requires
                        q >= pow2(52),
                ;
            }
            return Double { bits: sign + SPECIAL * UNIT };
        }
        let a: u64 = k as u64 * UNIT + q;
        let exponent: u64 = a / UNIT;
        if exponent >= SPECIAL {
            proof {
                if q == 2 * UNIT {
                    lemma_pow2_monotone(2098, (53 + k) as nat);
                } else {
                    assert(k >= 2046);
                    lemma_pow2_monotone(2098, (52 + k) as nat);
                    assert(q * w >= pow2(52) * w) by (nonlinear_arith)
                        requires
                            q >= pow2(52),
                    ;
                }
            }
            return Double { bits: sign + SPECIAL * UNIT };
        }
        let r = Double { bits: sign + a };
        proof {
            let e = (a / UNIT) as nat;
            let f = (a % UNIT) as nat;
            if q < UNIT {
                assert(k == 0 && e == 0 && f == q);
                assert(q * w == q) by (nonlinear_arith)
                    requires
                        w == 1,
                ;
            } else if q < 2 * UNIT {
                assert(e == k + 1 && f == q - UNIT);
            } else {
                assert(e == k + 2 && f == 0);
                lemma_pow2_unfold((k + 1) as nat);
                assert(UNIT * (2 * w) == (2 * UNIT) * w) by (nonlinear_arith);
                assert((UNIT + f) as nat * pow2((e - 1) as nat) == UNIT * (2 * w));
            }
            assert(magnitude(e, f) == q * w);
            lemma_magnitude_bound(e, f);
        }
        r
    }

    /// Rounds a ratio of units, given by the leading digits of its binary expansion.
    fn round(
        negative: bool,
        m: u128,
        e: i32,
        inexact: bool,
        Ghost(n): Ghost<nat>,
        Ghost(d): Ghost<nat>,
    ) -> (r: Double)
        requires
            d > 0,
            m < pow2(127),
            -8000 <= e <= 8000,
            approximates(m as nat, e as int, inexact, n, d),
            inexact ==> m >= pow2(54),
        ensures
            r@ == rounded(negative, n, d),
    {
        let l: i32 = binary_length(m) as i32;
        proof {
            reveal(rounded);
            lemma2_to64();
            lemma2_to64_rest();
        }
        if m == 0 {
            proof {
                lemma_pow2_pos(54);
                lemma_zero_rounds_to_zero(e as int, n, d);
                lemma_pow2_pos(2098);
                assert(0 * pow2(0) == 0) by (nonlinear_arith);
            }
            return Self::assemble(negative, 0, 0);
        }
        let k: i32 = if l + e > 53 {
            l + e - 53
        } else {
            0
        };
        proof {
            lemma_dropped_from_approximation(m as nat, e as int, inexact, n, d, l as nat);
            assert(dropped(n, d) == k);
            if l > 127 {
                lemma_pow2_monotone(127, (l - 1) as nat);
            }
            if inexact && l < 55 {
                lemma_pow2_monotone(l as nat, 54);
            }
        }
        if k <= e {
            // All digits fit.
            let p = power_of_two((e - k) as u32);
            proof {
                lemma_exact_shift(m as nat, e as nat, n, d, k as nat);
                lemma_pow2_adds(l as nat, (e - k) as nat);
                lemma_pow2_adds((l - 1) as nat, (e - k) as nat);
                lemma_pow2_pos((e - k) as nat);
                lemma_pow2_monotone(l as nat + (e - k) as nat, 53);
                assert(m * p < pow2(l as nat) * p) by (nonlinear_arith)
                    requires
                        m < pow2(l as nat),
                        p > 0,
                ;
                assert(m * p >= pow2((l - 1) as nat) * p) by (nonlinear_arith)
                    requires
                        m >= pow2((l - 1) as nat),
                ;
                if k > 0 {
                    assert((l - 1) as nat + (e - k) as nat == 52);
                }
            }
            return Self::assemble(negative, k as u32, (m * p) as u64);
        }
        let sh: i32 = k - e;
        proof {
            lemma_nearest_from_approximation(m as nat, e as int, inexact, n, d, sh as nat);
        }
        if sh > l {
            proof {
                lemma_pow2_unfold(sh as nat);
                lemma_pow2_monotone(l as nat, (sh - 1) as nat);
                let p = pow2(sh as nat);
                lemma_fundamental_div_mod_converse(m as int, p as int, 0, m as int);
                assert(k == 0);
            }
            return Self::assemble(negative, 0, 0);
        }
        let p = power_of_two(sh as u32);
        proof {
            lemma_pow2_pos(sh as nat);
        }
        let q: u128 = m / p;
        let r: u128 = m % p;
        let up: bool = r > p - r || (r == p - r && (inexact || q % 2 == 1));
        proof {
            lemma_fundamental_div_mod(m as int, p as int);
            if k > 0 {
                lemma_pow2_adds(52, sh as nat);
                lemma_pow2_adds(53, sh as nat);
                assert(q >= pow2(52)) by (nonlinear_arith)
                    requires
                        m >= pow2(52) * p,
                        m == p * q + r,
                        r < p,
                ;
            }
            lemma_pow2_adds(53, sh as nat);
            lemma_pow2_monotone(l as nat, (53 + sh) as nat);
            assert(q < pow2(53)) by (nonlinear_arith)
                requires
                    m < pow2(53) * p,
                    m == p * q + r,
                    r >= 0,
                    p > 0,
            ;
        }
        let q: u64 = if up {
            (q + 1) as u64
        } else {
            q as u64
        };
        Self::assemble(negative, k as u32, q)
    }
}

proof fn lemma_zero_rounds_to_zero(e: int, n: nat, d: nat)
    requires
        d > 0,
        approximates(0, e, false, n, d),
    ensures
        round_ratio(n, d) == 0,
{
    lemma_approximation_bounds(0, e, false, n, d);
    if e < 0 {
        let s = pow2((-e) as nat);
        lemma_pow2_pos((-e) as nat);
        lemma_fundamental_div_mod((n * s) as int, d as int);
        assert(n == 0) by (nonlinear_arith)
            requires
                n * s == 0,
                s > 0,
        ;
    } else {
        assert(0 * (d * pow2(e as nat)) == 0) by (nonlinear_arith);
    }
    let k = dropped(n, d);
    lemma_pow2_pos(k);
    assert(d * pow2(k) > 0) by (nonlinear_arith)
        requires
            d > 0,
            pow2(k) > 0,
    ;
    lemma_nearest_exact(0, d * pow2(k));
    assert(0 * (d * pow2(k)) == 0) by (nonlinear_arith);
    assert(0 * pow2(k) == 0) by (nonlinear_arith);
}

proof fn lemma_zero_ratio(d: nat)
    requires
        d > 0,
    ensures
        forall|negative: bool| #[trigger]
            rounded(negative, 0 * pow2(1074), d) == (Value::Finite { negative, magnitude: 0 }),
{
    reveal(rounded);
    lemma2_to64();
    lemma_pow2_pos(2098);
    assert(0 * pow2(1074) == 0) by (nonlinear_arith);
    assert(d * pow2(0) == d) by (nonlinear_arith)
        requires
            pow2(0) == 1,
    ;
    lemma_fundamental_div_mod_converse(0, d as int, 0, 0);
    lemma_zero_rounds_to_zero(0, 0, d);
}

proof fn lemma_exact_shift(m: nat, e: nat, n: nat, d: nat, k: nat)
    requires
        d > 0,
        k <= e,
        approximates(m, e as int, false, n, d),
    ensures
        nearest(n, d * pow2(k)) == m * pow2((e - k) as nat),
{
    lemma_approximation_bounds(m, e as int, false, n, d);
    lemma_pow2_adds(k, (e - k) as nat);
    lemma_pow2_pos(k);
    assert(d * pow2(k) > 0) by (nonlinear_arith)
        requires
            d > 0,
            pow2(k) > 0,
    ;
    let q = m * pow2((e - k) as nat);
    assert(n == q * (d * pow2(k))) by (nonlinear_arith)
        requires
            n == m * (d * pow2(e)),
            pow2(e) == pow2(k) * pow2((e - k) as nat),
            q == m * pow2((e - k) as nat),
    ;
    lemma_nearest_exact(q, d * pow2(k));
}


proof fn lemma_exact_approximation(m: nat, e: nat)
    ensures
        approximates(m, e as int, false, m * pow2(e), 1),
{
    lemma_pow2_pos(e);
    lemma_fundamental_div_mod_converse(
        (m * pow2(e)) as int,
        pow2(e) as int,
        m as int,
        0,
    );
    assert(1 * pow2(e) == pow2(e)) by (nonlinear_arith);
}

proof fn lemma_product_approximation(m: nat, x: nat, n: nat, y: nat)
    ensures
        approximates(
            m * n,
            x + y - 1074,
            false,
            (m * pow2(x)) * (n * pow2(y)),
            pow2(1074),
        ),
{
    let e = x + y - 1074;
    let w = m * n;
    let num = (m * pow2(x)) * (n * pow2(y));
    lemma_pow2_adds(x, y);
    assert(num == w * pow2(x + y)) by (nonlinear_arith)
        requires
            num == (m * pow2(x)) * (n * pow2(y)),
            pow2(x + y) == pow2(x) * pow2(y),
            w == m * n,
    ;
    if e >= 0 {
        lemma_pow2_adds(1074, e as nat);
        lemma_pow2_pos(x + y);
        lemma_fundamental_div_mod_converse(num as int, pow2(x + y) as int, w as int, 0);
    } else {
        let f = (-e) as nat;
        lemma_pow2_adds(x + y, f);
        lemma_pow2_pos(1074);
        assert(num * pow2(f) == w * pow2(1074)) by (nonlinear_arith)
            requires
                num == w * pow2(x + y),
                pow2(1074) == pow2(x + y) * pow2(f),
        ;
        lemma_fundamental_div_mod_converse(
            (num * pow2(f)) as int,
            pow2(1074) as int,
            w as int,
            0,
        );
    }
}

proof fn lemma_quotient_approximation(a: nat, s: nat, b: nat, t: nat, f: nat)
    requires
        b > 0,
    ensures
        approximates(
            (a * pow2(f)) / b,
            s - t - f,
            (a * pow2(f)) % b != 0,
            a * pow2(s),
            b * pow2(t),
        ),
{
    let e = s - t - f;
    let c = if e >= 0 {
        pow2((s - f) as nat)
    } else {
        pow2(t)
    };
    let w = a * pow2(f);
    if e >= 0 {
        lemma_pow2_pos((s - f) as nat);
        lemma_pow2_adds(f, (s - f) as nat);
        lemma_pow2_adds(t, e as nat);
        assert(a * pow2(s) == w * c) by (nonlinear_arith)
            requires
                w == a * pow2(f),
                pow2(s) == pow2(f) * c,
        ;
        assert((b * pow2(t)) * pow2(e as nat) == b * c) by (nonlinear_arith)
            requires
                c == pow2(t) * pow2(e as nat),
        ;
    } else {
        lemma_pow2_pos(t);
        lemma_pow2_adds(s, (-e) as nat);
        lemma_pow2_adds(t, f);
        assert(s + (-e) as nat == t + f);
        assert((a * pow2(s)) * pow2((-e) as nat) == w * c) by (nonlinear_arith)
            requires
                w == a * pow2(f),
                pow2(s) * pow2((-e) as nat) == c * pow2(f),
        ;
    }
    lemma_nearest_scaled(w, b, c);
    let rest = w % b;
    assert(rest * c != 0 <==> rest != 0) by (nonlinear_arith)
        requires
            c > 0,
    ;
}

/// A far smaller summand moves the larger one by less than a unit of twelve further digits.
proof fn lemma_distant_sum(m: nat, e: nat, n: nat, x: nat)
    requires
        m >= UNIT,
        0 < n < 2 * UNIT,
        x + 65 <= e,
    ensures
        approximates(4096 * m, e - 12, true, m * pow2(e) + n * pow2(x), 1),
        n * pow2(x) < m * pow2(e),
        approximates(
            (4096 * m - 1) as nat,
            e - 12,
            true,
            (m * pow2(e) - n * pow2(x)) as nat,
            1,
        ),
{
    let c = pow2((e - 12) as nat);
    let small = n * pow2(x);
    lemma2_to64();
    lemma2_to64_rest();
    lemma_pow2_pos(x);
    lemma_pow2_pos((e - 12) as nat);
    lemma_pow2_adds(12, (e - 12) as nat);
    lemma_pow2_adds(53, x);
    lemma_pow2_monotone(53 + x, (e - 12) as nat);
    assert(0 < small < pow2(53) * pow2(x)) by (nonlinear_arith)
        requires
            small == n * pow2(x),
            0 < n < pow2(53),
            pow2(x) > 0,
    ;
    assert(m * pow2(e) == (4096 * m) * c) by (nonlinear_arith)
        requires
            pow2(e) == 4096 * c,
    ;
    assert(c <= (4096 * m) * c) by (nonlinear_arith)
        requires
            m >= 1,
            c > 0,
    ;
    assert(1 * c == c) by (nonlinear_arith);
    lemma_fundamental_div_mod_converse(
        (m * pow2(e) + small) as int,
        c as int,
        (4096 * m) as int,
        small as int,
    );
    assert((4096 * m) * c - small == (4096 * m - 1) * c + (c - small)) by (nonlinear_arith);
    lemma_fundamental_div_mod_converse(
        m * pow2(e) - small,
        c as int,
        4096 * m - 1,
        c - small,
    );
}

impl Double {
    /// Sign, digits and exponent of a finite number.
    pub(crate) fn parts(self) -> (r: (bool, u64, u32))
        requires
            self@ is Finite,
        ensures
            self@ == (Value::Finite {
                negative: r.0,
                magnitude: (r.1 * pow2(r.2 as nat)) as nat,
            }),
            r.1 < 2 * UNIT,
            r.2 <= 2045,
            r.2 > 0 ==> r.1 >= UNIT,
    {
        let a: u64 = self.bits % SIGN;
        let exponent: u64 = a / UNIT;
        let fraction: u64 = a % UNIT;
        proof {
            lemma2_to64();
        }
        if exponent == 0 {
            proof {
                assert(fraction * pow2(0) == fraction);
            }
            (self.bits >= SIGN, fraction, 0)
        } else {
            (self.bits >= SIGN, UNIT + fraction, (exponent - 1) as u32)
        }
    }

    /// The number that a bit pattern encodes.
    pub fn from_bits(bits: u64) -> (r: Double)
        ensures
            r.bits == bits,
            r@ == decode(bits),
    {
        Double { bits }
    }

    /// Whether this is not a number.
    pub fn is_nan(self) -> (r: bool)
        ensures
            r == (self@ is Nan),
    {
        self.bits % SIGN > SPECIAL * UNIT
    }

    /// Whether this is a number and no infinity.
    pub fn is_finite(self) -> (r: bool)
        ensures
            r == (self@ is Finite),
    {
        self.bits % SIGN < SPECIAL * UNIT
    }

    /// Whether the sign bit of this number is set.
    pub(crate) fn is_negative(self) -> (r: bool)
        requires
            self@ !is Nan,
        ensures
            r == is_negative(self@),
    {
        self.bits >= SIGN
    }

    /// The number with the other sign.
    pub fn negate(self) -> (r: Double)
        ensures
            r@ == negated(self@),
    {
        if self.bits >= SIGN {
            Double { bits: self.bits - SIGN }
        } else {
            Double { bits: self.bits + SIGN }
        }
    }

    /// The number without its sign.
    pub fn abs(self) -> (r: Double)
        ensures
            r@ == absolute(self@),
    {
        Double { bits: self.bits % SIGN }
    }

    fn nan() -> (r: Double)
        ensures
            r@ is Nan,
    {
        Double { bits: SPECIAL * UNIT + UNIT / 2 }
    }

    /// The infinity of the given sign.
    pub fn infinity(negative: bool) -> (r: Double)
        ensures
            r@ == (Value::Infinite { negative }),
    {
        if negative {
            Double { bits: SIGN + SPECIAL * UNIT }
        } else {
            Double { bits: SPECIAL * UNIT }
        }
    }

    /// The zero of the given sign.
    pub fn signed_zero(negative: bool) -> (r: Double)
        ensures
            r@ == (Value::Finite { negative, magnitude: 0 }),
    {
        if negative {
            Double { bits: SIGN }
        } else {
            Double { bits: 0 }
        }
    }

    /// The sum of two finite numbers, the first with the larger exponent.
    fn sum_finite(s: bool, m: u64, e: u32, t: bool, n: u64, x: u32) -> (r: Double)
        requires
            x <= e <= 2045,
            m < 2 * UNIT,
            n < 2 * UNIT,
            e > 0 ==> m >= UNIT,
        ensures
            r@ == sum(
                Value::Finite { negative: s, magnitude: (m * pow2(e as nat)) as nat },
                Value::Finite { negative: t, magnitude: (n * pow2(x as nat)) as nat },
            ),
    {
        let ghost a = (m * pow2(e as nat)) as nat;
        let ghost b = (n * pow2(x as nat)) as nat;
        proof {
            reveal(sum);
            lemma2_to64();
            lemma2_to64_rest();
            lemma_pow2_pos(e as nat);
            lemma_pow2_pos(x as nat);
        }
        if e - x <= 64 {
            let p = power_of_two(e - x);
            let ghost w = pow2(x as nat);
            proof {
                lemma_pow2_adds((e - x) as nat, x as nat);
                lemma_pow2_adds(53, 64);
                lemma_pow2_monotone((e - x) as nat, 64);
                assert(m * p < pow2(53) * pow2(64)) by (nonlinear_arith)
                    requires
                        m < pow2(53),
                        p <= pow2(64),
                        pow2(53) > 0,
                        pow2(64) > 0,
                ;
                lemma_pow2_strictly_increases(117, 118);
                lemma_pow2_unfold(118);
                lemma_pow2_monotone(118, 127);
                lemma_pow2_adds(64, 63);
                lemma_pow2_monotone(53, 117);
                assert(a == (m * p) * w) by (nonlinear_arith)
                    requires
                        a == m * pow2(e as nat),
                        pow2(e as nat) == p * w,
                ;
            }
            let big: u128 = m as u128 * p;
            let small: u128 = n as u128;
            if s == t {
                let total: u128 = big + small;
                proof {
                    assert(a + b == total * w) by (nonlinear_arith)
                        requires
                            a == big * w,
                            b == small * w,
                            total == big + small,
                    ;
                }
                if total == 0 {
                    return Self::signed_zero(s);
                }
                proof {
                    assert(total * w > 0) by (nonlinear_arith)
                        requires
                            total > 0,
                            w > 0,
                    ;
                    lemma_exact_approximation(total as nat, x as nat);
                }
                Self::round(s, total, x as i32, false, Ghost(a + b), Ghost(1))
            } else if big == small {
                proof {
                    assert(a == b);
                }
                Self::signed_zero(false)
            } else if big > small {
                let total: u128 = big - small;
                proof {
                    assert(a - b == total * w) by (nonlinear_arith)
                        requires
                            a == big * w,
                            b == small * w,
                            total == big - small,
                    ;
                    assert(total * w > 0) by (nonlinear_arith)
                        requires
                            total > 0,
                            w > 0,
                    ;
                    lemma_exact_approximation(total as nat, x as nat);
                }
                Self::round(s, total, x as i32, false, Ghost((a - b) as nat), Ghost(1))
            } else {
                let total: u128 = small - big;
                proof {
                    assert(b - a == total * w) by (nonlinear_arith)
                        requires
                            a == big * w,
                            b == small * w,
                            total == small - big,
                    ;
                    assert(total * w > 0) by (nonlinear_arith)
                        requires
                            total > 0,
                            w > 0,
                    ;
                    lemma_exact_approximation(total as nat, x as nat);
                }
                Self::round(t, total, x as i32, false, Ghost((b - a) as nat), Ghost(1))
            }
        } else {
            proof {
                lemma_pow2_monotone(65, 127);
                assert(a > 0) by (nonlinear_arith)
                    requires
                        a == m * pow2(e as nat),
                        m > 0,
                        pow2(e as nat) > 0,
                ;
            }
            if n == 0 {
                proof {
                    lemma_exact_approximation(m as nat, e as nat);
                    assert(0 * pow2(x as nat) == 0) by (nonlinear_arith);
                    lemma_pow2_monotone(53, 127);
                }
                return Self::round(s, m as u128, e as i32, false, Ghost(a), Ghost(1));
            }
            proof {
                lemma_distant_sum(m as nat, e as nat, n as nat, x as nat);
                lemma_pow2_unfold(54);
                assert(4096 * m < pow2(65)) by {
                    lemma_pow2_adds(53, 12);
                }
            }
            if s == t {
                Self::round(s, 4096 * m as u128, e as i32 - 12, true, Ghost(a + b), Ghost(1))
            } else {
                Self::round(
                    s,
                    4096 * m as u128 - 1,
                    e as i32 - 12,
                    true,
                    Ghost((a - b) as nat),
                    Ghost(1),
                )
            }
        }
    }

    /// The sum, rounded once.
    pub fn plus(self, other: Double) -> (r: Double)
        ensures
            r@ == sum(self@, other@),
    {
        proof {
            reveal(sum);
        }
        if self.is_nan() || other.is_nan() {
            return Self::nan();
        }
        if !self.is_finite() {
            if !other.is_finite() && self.bits != other.bits {
                return Self::nan();
            }
            return self;
        }
        if !other.is_finite() {
            return other;
        }
        let (s, m, e) = self.parts();
        let (t, n, x) = other.parts();
        if x <= e {
            Self::sum_finite(s, m, e, t, n, x)
        } else {
            Self::sum_finite(t, n, x, s, m, e)
        }
    }

    /// The difference, rounded once.
    pub fn minus(self, other: Double) -> (r: Double)
        ensures
            r@ == difference(self@, other@),
    {
        self.plus(other.negate())
    }

    /// The product, rounded once.
    pub fn times(self, other: Double) -> (r: Double)
        ensures
            r@ == product(self@, other@),
    {
        proof {
            reveal(product);
        }
        if self.is_nan() || other.is_nan() {
            return Self::nan();
        }
        let negative: bool = (self.bits >= SIGN) != (other.bits >= SIGN);
        if !self.is_finite() {
            if other.is_zero() {
                return Self::nan();
            }
            return Self::infinity(negative);
        }
        if !other.is_finite() {
            if self.is_zero() {
                return Self::nan();
            }
            return Self::infinity(negative);
        }
        let (_, m, e) = self.parts();
        let (_, n, x) = other.parts();
        proof {
            lemma2_to64();
            lemma2_to64_rest();
            lemma_product_approximation(m as nat, e as nat, n as nat, x as nat);
            lemma_pow2_pos(1074);
            lemma_pow2_adds(53, 53);
            lemma_pow2_monotone(106, 127);
            lemma_pow2_adds(64, 63);
            assert(m * n < pow2(53) * pow2(53)) by (nonlinear_arith)
                requires
                    m < pow2(53),
                    n < pow2(53),
            ;
            assert(0 <= m * n) by (nonlinear_arith);
        }
        Self::round(
            negative,
            m as u128 * n as u128,
            e as i32 + x as i32 - 1074,
            false,
            Ghost(((m * pow2(e as nat)) * (n * pow2(x as nat))) as nat),
            Ghost(pow2(1074)),
        )
    }

    /// Whether this is one of the two zeros.
    pub fn is_zero(self) -> (r: bool)
        ensures
            r == (self@ matches Value::Finite { magnitude, .. } && magnitude == 0),
    {
        proof {
            let a = self.bits % SIGN;
            if a > 0 {
                lemma_magnitude_order(0, a as nat);
            }
        }
        self.bits % SIGN == 0
    }

    /// The ratio of `a * 2^s` to `b * 2^t` units, rounded once.
    fn round_quotient(negative: bool, a: u64, s: u32, b: u64, t: u32) -> (r: Double)
        requires
            a > 0,
            b > 0,
            s <= 4000,
            t <= 4000,
        ensures
            r@ == rounded(
                negative,
                (a * pow2(s as nat)) as nat,
                (b * pow2(t as nat)) as nat,
            ),
    {
        let mut c: u64 = a;
        let mut j: u32 = 0;
        proof {
            lemma2_to64();
            lemma2_to64_rest();
            assert(a * pow2(0) == a);
        }
        while c < SIGN
            invariant
                0 < a <= c,
                c == a * pow2(j as nat),
                j <= 63,
                pow2(63) == SIGN,
            ensures
                c >= SIGN,
                c == a * pow2(j as nat),
                j <= 63,
            decreases 63 - j,
        {
            proof {
                lemma_pow2_unfold((j + 1) as nat);
                assert(2 * c == a * pow2((j + 1) as nat)) by (nonlinear_arith)
                    requires
                        c == a * pow2(j as nat),
                        pow2((j + 1) as nat) == 2 * pow2(j as nat),
                ;
                if j == 63 {
                    assert(a * pow2(63) >= pow2(63)) by (nonlinear_arith)
                        requires
                            a >= 1,
                    ;
                }
            }
            c = 2 * c;
            j = j + 1;
        }
        let shift: u128 = 0x8000_0000_0000_0000;
        proof {
            lemma_pow2_adds(64, 63);
            assert(c * shift < pow2(64) * pow2(63)) by (nonlinear_arith)
                requires
                    c < pow2(64),
                    shift == pow2(63),
                    pow2(63) > 0,
            ;
        }
        let w: u128 = c as u128 * shift;
        let q: u128 = w / b as u128;
        let rest: u128 = w % b as u128;
        proof {
            let f = (j + 63) as nat;
            lemma_pow2_adds(j as nat, 63);
            assert(w == a * pow2(f)) by (nonlinear_arith)
                requires
                    w == c * shift,
                    c == a * pow2(j as nat),
                    shift == pow2(63),
                    pow2(f) == pow2(j as nat) * pow2(63),
            ;
            lemma_quotient_approximation(a as nat, s as nat, b as nat, t as nat, f);
            lemma_pow2_pos(t as nat);
            assert(b * pow2(t as nat) > 0) by (nonlinear_arith)
                requires
                    b > 0,
                    pow2(t as nat) > 0,
            ;
            assert(w >= pow2(63) * pow2(63)) by (nonlinear_arith)
                requires
                    w == c * shift,
                    c >= pow2(63),
                    shift == pow2(63),
            ;
            lemma_fundamental_div_mod(w as int, b as int);
            lemma_pow2_unfold(64);
            assert(pow2(63) == pow2(54) * 512);
            assert(q >= pow2(54)) by (nonlinear_arith)
                requires
                    w >= pow2(63) * pow2(63),
                    w == b * q + rest,
                    0 <= rest < b,
                    0 < b < 2 * pow2(63),
                    pow2(63) == pow2(54) * 512,
                    pow2(54) > 4,
            ;
            assert(q <= w) by (nonlinear_arith)
                requires
                    w == b * q + rest,
                    b >= 1,
                    rest >= 0,
                    q >= 0,
            ;
        }
        Self::round(
            negative,
            q,
            s as i32 - t as i32 - j as i32 - 63,
            rest != 0,
            Ghost((a * pow2(s as nat)) as nat),
            Ghost((b * pow2(t as nat)) as nat),
        )
    }

    /// The quotient, rounded once.
    pub fn over(self, other: Double) -> (r: Double)
        ensures
            r@ == quotient(self@, other@),
    {
        proof {
            reveal(quotient);
        }
        if self.is_nan() || other.is_nan() {
            return Self::nan();
        }
        let negative: bool = (self.bits >= SIGN) != (other.bits >= SIGN);
        if !self.is_finite() {
            if !other.is_finite() {
                return Self::nan();
            }
            return Self::infinity(negative);
        }
        if !other.is_finite() {
            return Self::signed_zero(negative);
        }
        if other.is_zero() {
            if self.is_zero() {
                return Self::nan();
            }
            return Self::infinity(negative);
        }
        let (_, m, e) = self.parts();
        let (_, n, x) = other.parts();
        proof {
            lemma_pow2_pos(e as nat);
            assert(n > 0) by {
                assert(0 * pow2(x as nat) == 0) by (nonlinear_arith);
            }
        }
        if m == 0 {
            proof {
                assert(0 * pow2(e as nat) == 0) by (nonlinear_arith);
                lemma_zero_ratio((n * pow2(x as nat)) as nat);
            }
            return Self::signed_zero(negative);
        }
        proof {
            lemma_pow2_adds(e as nat, 1074);
            assert((m * pow2(e as nat)) * pow2(1074) == m * pow2((e + 1074) as nat))
                by (nonlinear_arith)
                requires
                    pow2((e + 1074) as nat) == pow2(e as nat) * pow2(1074),
            ;
        }
        Self::round_quotient(negative, m, e + 1074, n, x)
    }

    /// The number nearest to `n / d`.
    pub fn from_ratio(n: u64, d: u64) -> (r: Double)
        requires
            d > 0,
        ensures
            r@ == ratio(n as nat, d as nat),
    {
        proof {
            lemma2_to64();
            assert(d * pow2(0) == d);
        }
        if n == 0 {
            proof {
                lemma_zero_ratio(d as nat);
            }
            return Self::signed_zero(false);
        }
        Self::round_quotient(false, n, 1074, d, 0)
    }

    /// The number nearest to the whole number `n`.
    pub fn from_whole(n: u64) -> (r: Double)
        ensures
            r@ == whole(n as nat),
    {
        proof {
            lemma_exact_approximation(n as nat, 1074);
            lemma2_to64();
            lemma_pow2_strictly_increases(64, 127);
        }
        Self::round(false, n as u128, 1074, false, Ghost((n * pow2(1074)) as nat), Ghost(1))
    }

    /// Whether this is less than `other`.
    pub fn lt(self, other: Double) -> (r: bool)
        ensures
            r == less(self@, other@),
    {
        let a: u64 = self.bits % SIGN;
        let b: u64 = other.bits % SIGN;
        if self.is_nan() || other.is_nan() {
            return false;
        }
        proof {
            if a < b {
                lemma_magnitude_order(a as nat, b as nat);
            }
            if b < a {
                lemma_magnitude_order(b as nat, a as nat);
            }
            if a > 0 {
                lemma_magnitude_order(0, a as nat);
            }
            if b > 0 {
                lemma_magnitude_order(0, b as nat);
            }
        }
        if self.bits >= SIGN {
            if other.bits >= SIGN {
                b < a
            } else {
                a != 0 || b != 0
            }
        } else {
            other.bits < SIGN && a < b
        }
    }

    /// Whether this equals `other` as a number.
    pub fn equals(self, other: Double) -> (r: bool)
        ensures
            r == equal(self@, other@),
    {
        !self.is_nan() && !other.is_nan() && !self.lt(other) && !other.lt(self)
    }

    /// The smaller of the two.
    pub fn min(self, other: Double) -> (r: Double)
        ensures
            r@ == smaller(self@, other@),
    {
        if self.is_nan() || other.lt(self) || (self.equals(other) && other.bits >= SIGN) {
            other
        } else {
            self
        }
    }

    /// The larger of the two.
    pub fn max(self, other: Double) -> (r: Double)
        ensures
            r@ == larger(self@, other@),
    {
        if self.is_nan() || self.lt(other) || (self.equals(other) && self.bits >= SIGN) {
            other
        } else {
            self
        }
    }

    /// One with the sign of this number.
    pub fn signum(self) -> (r: Double)
        ensures
            r@ == sign_of(self@),
    {
        if self.is_nan() {
            return self;
        }
        proof {
            lemma2_to64();
            lemma2_to64_rest();
            lemma_pow2_adds(52, 1022);
        }
        if self.bits >= SIGN {
            Double { bits: SIGN + 1023 * UNIT }
        } else {
            Double { bits: 1023 * UNIT }
        }
    }
}

} // verus!
