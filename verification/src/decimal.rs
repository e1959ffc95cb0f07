//! Numbers as decimal text.
use crate::double::{power_of_two, Double, Value, UNIT};
use crate::rounding::{lemma_nearest_from_approximation, lemma_pow2_monotone, nearest};
use vstd::arithmetic::div_mod::lemma_fundamental_div_mod_converse;
use vstd::arithmetic::power2::{
    lemma2_to64, lemma2_to64_rest, lemma_pow2_adds, lemma_pow2_pos, lemma_pow2_unfold, pow2,
};
use vstd::prelude::*;

verus! {

/// One decimal digit.
pub open spec fn digit(d: nat) -> Seq<char> {
    if d == 0 {
        "0"@
    } else if d == 1 {
        "1"@
    } else if d == 2 {
        "2"@
    } else if d == 3 {
        "3"@
    } else if d == 4 {
        "4"@
    } else if d == 5 {
        "5"@
    } else if d == 6 {
        "6"@
    } else if d == 7 {
        "7"@
    } else if d == 8 {
        "8"@
    } else {
        "9"@
    }
}

/// A whole number in decimal, without leading zeros.
pub open spec fn digits(n: nat) -> Seq<char>
    decreases n,
{
    if n < 10 {
        digit(n)
    } else {
        digits(n / 10) + digit(n % 10)
    }
}

/// A whole number in decimal, filled up with leading zeros to three digits.
pub open spec fn digits_padded(n: nat) -> Seq<char> {
    if n < 10 {
        "00"@ + digits(n)
    } else if n < 100 {
        "0"@ + digits(n)
    } else {
        digits(n)
    }
}

/// The mark in front of a number: `-` if it is negative, else `+` if one is asked for.
pub open spec fn sign_mark(negative: bool, plus: bool) -> Seq<char> {
    if negative {
        "-"@
    } else if plus {
        "+"@
    } else {
        ""@
    }
}

/// A number without decimals: the nearest whole number, ties to even.
pub open spec fn rounded_text(v: Value) -> Seq<char> {
    match v {
        Value::Nan => "NaN"@,
        Value::Infinite { negative } => sign_mark(negative, false) + "inf"@,
        Value::Finite { negative, magnitude } => sign_mark(negative, false) + digits(
            nearest(magnitude, pow2(1074)),
        ),
    }
}

/// A count of hundredths with a point before the last two digits.
pub open spec fn hundredths(q: nat) -> Seq<char> {
    digits(q / 100) + "."@ + digit((q / 10) % 10) + digit(q % 10)
}

/// A number with two decimals: the nearest count of hundredths, ties to even. Positive numbers are
/// marked with a `+` if `plus` is set.
pub open spec fn cents_text(v: Value, plus: bool) -> Seq<char> {
    match v {
        Value::Nan => "NaN"@,
        Value::Infinite { negative } => sign_mark(negative, plus) + "inf"@,
        Value::Finite { negative, magnitude } => sign_mark(negative, plus) + hundredths(
            nearest(magnitude * 100, pow2(1074)),
        ),
    }
}

fn digit_text(d: u64) -> (r: &'static str)
    requires
        d < 10,
    ensures
        r@ == digit(d as nat),
{
    if d == 0 {
        "0"
    } else if d == 1 {
        "1"
    } else if d == 2 {
        "2"
    } else if d == 3 {
        "3"
    } else if d == 4 {
        "4"
    } else if d == 5 {
        "5"
    } else if d == 6 {
        "6"
    } else if d == 7 {
        "7"
    } else if d == 8 {
        "8"
    } else {
        "9"
    }
}

/// Writes a whole number in decimal.
pub fn format_digits(n: u64) -> (r: String)
    ensures
        r@ == digits(n as nat),
    decreases n,
{
    if n < 10 {
        digit_text(n).to_string()
    } else {
        let mut s = format_digits(n / 10);
        s.append(digit_text(n % 10));
        s
    }
}

/// Writes a whole number in decimal with at least three digits.
pub fn format_padded(n: u64) -> (r: String)
    ensures
        r@ == digits_padded(n as nat),
{
    let mut s = String::new();
    if n < 10 {
        s.append("00");
    } else if n < 100 {
        s.append("0");
    }
    let d = format_digits(n);
    s.append(d.as_str());
    s
}

/// The power `10^k`.
spec fn pow10(k: nat) -> nat
    decreases k,
{
    if k == 0 {
        1
    } else {
        10 * pow10((k - 1) as nat)
    }
}

/// The number that a row of decimal digits stands for, the last digit with the most weight.
spec fn row_value(s: Seq<u8>) -> nat
    decreases s.len(),
{
    if s.len() == 0 {
        0
    } else {
        row_value(s.drop_last()) + s.last() as nat * pow10((s.len() - 1) as nat)
    }
}

spec fn is_row(s: Seq<u8>) -> bool {
    &&& s.len() > 0
    &&& forall|i: int| 0 <= i < s.len() ==> s[i] < 10
    &&& s.len() > 1 ==> s.last() > 0
}

proof fn lemma_row_first(s: Seq<u8>)
    requires
        s.len() > 0,
    ensures
        row_value(s) == s[0] + 10 * row_value(s.drop_first()),
    decreases s.len(),
{
    if s.len() == 1 {
        assert(s.drop_last() =~= Seq::<u8>::empty());
        assert(s.drop_first() =~= Seq::<u8>::empty());
        assert(row_value(s.drop_last()) == 0);
        assert(row_value(s.drop_first()) == 0);
        assert(pow10(0) == 1);
    } else {
        let t = s.drop_last();
        lemma_row_first(t);
        assert(s.drop_first().drop_last() =~= t.drop_first());
        assert(s.drop_first().last() == s.last());
        let w = pow10((s.len() - 2) as nat);
        let l = s.last() as nat;
        assert(l * (10 * w) == 10 * (l * w)) by (nonlinear_arith);
        assert(row_value(s.drop_first()) == row_value(t.drop_first()) + l * w);
        assert(pow10((s.len() - 1) as nat) == 10 * w);
    }
}

proof fn lemma_row_large(s: Seq<u8>)
    requires
        is_row(s),
        s.len() > 1,
    ensures
        row_value(s) >= 10,
    decreases s.len(),
{
    let w = pow10((s.len() - 1) as nat);
    lemma_pow10_large((s.len() - 1) as nat);
    let l = s.last() as nat;
    assert(l * w >= 10) by (nonlinear_arith)
        requires
            l >= 1,
            w >= 10,
    ;
}

proof fn lemma_pow10_large(k: nat)
    requires
        k > 0,
    ensures
        pow10(k) >= 10,
    decreases k,
{
    if k > 1 {
        lemma_pow10_large((k - 1) as nat);
    } else {
        assert(pow10(0) == 1);
    }
}

/// The row of a whole number.
fn row_of(n: u64) -> (r: Vec<u8>)
    ensures
        is_row(r@),
        row_value(r@) == n,
{
    let mut r: Vec<u8> = Vec::new();
    let mut p: u64 = n;
    let ghost mut w: nat = 1;
    while p >= 10
        invariant
            forall|i: int| 0 <= i < r@.len() ==> r@[i] < 10,
            w == pow10(r@.len()),
            row_value(r@) + p * w == n,
            p == 0 ==> r@.len() == 0,
        decreases p,
    {
        let ghost before = r@;
        r.push((p % 10) as u8);
        proof {
            assert(r@.drop_last() =~= before);
            let q = p / 10;
            let d = p % 10;
            assert(p * w == d * w + q * (10 * w)) by (nonlinear_arith)
                requires
                    p == 10 * q + d,
            ;
            w = 10 * w;
        }
        p = p / 10;
    }
    let ghost before = r@;
    r.push(p as u8);
    proof {
        assert(r@.drop_last() =~= before);
    }
    r
}

/// The row of twice the number.
fn row_doubled(s: &Vec<u8>) -> (r: Vec<u8>)
    requires
        is_row(s@),
    ensures
        is_row(r@),
        row_value(r@) == 2 * row_value(s@),
{
    let mut r: Vec<u8> = Vec::new();
    let mut carry: u8 = 0;
    let mut i: usize = 0;
    proof {
        assert(s@.take(0) =~= Seq::<u8>::empty());
        assert(0 * pow10(0) == 0) by (nonlinear_arith);
    }
    while i < s.len()
        invariant
            is_row(s@),
            i <= s@.len(),
            r@.len() == i,
            carry <= 1,
            forall|j: int| 0 <= j < i ==> r@[j] < 10,
            row_value(r@) + carry * pow10(i as nat) == 2 * row_value(s@.take(i as int)),
            i > 1 && i == s@.len() && carry == 0 ==> r@[i - 1] > 0,
        decreases s@.len() - i,
    {
        let ghost before = r@;
        let t: u8 = 2 * s[i] + carry;
        r.push(t % 10);
        proof {
            let w = pow10(i as nat);
            assert(r@.drop_last() =~= before);
            assert(s@.take(i + 1).drop_last() =~= s@.take(i as int));
            let d = (t % 10) as nat;
            let c = (t / 10) as nat;
            let x = s@[i as int] as nat;
            assert(d * w + c * (10 * w) == 2 * (x * w) + carry * w) by (nonlinear_arith)
                requires
                    10 * c + d == 2 * x + carry,
            ;
            assert(pow10((i + 1) as nat) == 10 * w);
        }
        carry = t / 10;
        i = i + 1;
    }
    assert(s@.take(i as int) =~= s@);
    if carry > 0 {
        let ghost before = r@;
        r.push(carry);
        proof {
            assert(r@.drop_last() =~= before);
        }
    } else {
        assert(0 * pow10(i as nat) == 0) by (nonlinear_arith);
    }
    r
}

fn row_text(s: &Vec<u8>) -> (r: String)
    requires
        is_row(s@),
    ensures
        r@ == digits(row_value(s@)),
{
    let mut i: usize = s.len() - 1;
    let mut r = digit_text(s[i] as u64).to_string();
    proof {
        let t = s@.skip(i as int);
        lemma_row_first(t);
        assert(t.drop_first() =~= Seq::<u8>::empty());
        assert(row_value(t.drop_first()) == 0);
    }
    while i > 0
        invariant
            is_row(s@),
            i < s@.len(),
            r@ == digits(row_value(s@.skip(i as int))),
        decreases i,
    {
        i = i - 1;
        r.append(digit_text(s[i] as u64));
        proof {
            let t = s@.skip(i as int);
            assert(t.drop_first() =~= s@.skip(i + 1));
            lemma_row_first(t);
            assert(is_row(t));
            lemma_row_large(t);
            let v = row_value(t.drop_first());
            assert(row_value(t) / 10 == v && row_value(t) % 10 == t[0]);
        }
    }
    assert(s@.skip(0) =~= s@);
    r
}

/// Writes `m * 2^k` in decimal.
fn format_scaled(m: u64, k: u32) -> (r: String)
    ensures
        r@ == digits((m * pow2(k as nat)) as nat),
{
    let mut row = row_of(m);
    let mut i: u32 = 0;
    proof {
        lemma2_to64();
        assert(m * pow2(0) == m) by (nonlinear_arith)
            requires
                pow2(0) == 1,
        ;
    }
    while i < k
        invariant
            i <= k,
            is_row(row@),
            row_value(row@) == m * pow2(i as nat),
        decreases k - i,
    {
        proof {
            lemma_pow2_unfold((i + 1) as nat);
            assert(m * (2 * pow2(i as nat)) == 2 * (m * pow2(i as nat)))
                by (nonlinear_arith);
        }
        row = row_doubled(&row);
        i = i + 1;
    }
    row_text(&row)
}

/// The whole number nearest to `w * 2^(e - 1074)`.
fn nearest_whole(w: u64, e: u32) -> (q: u64)
    requires
        w < 256 * UNIT,
        e < 1074,
    ensures
        q == nearest((w * pow2(e as nat)) as nat, pow2(1074)),
{
    let sh: u32 = 1074 - e;
    let ghost n = (w * pow2(e as nat)) as nat;
    proof {
        lemma2_to64();
        lemma2_to64_rest();
        lemma_pow2_pos(e as nat);
        lemma_fundamental_div_mod_converse(n as int, pow2(e as nat) as int, w as int, 0);
        assert(1 * pow2(e as nat) == pow2(e as nat)) by (nonlinear_arith);
        assert(1 * pow2(1074) == pow2(1074)) by (nonlinear_arith);
        lemma_nearest_from_approximation(w as nat, e as int, false, n, 1, sh as nat);
        lemma_pow2_unfold(sh as nat);
        lemma_pow2_pos(sh as nat);
    }
    if sh > 63 {
        proof {
            lemma_pow2_monotone(63, (sh - 1) as nat);
            lemma_fundamental_div_mod_converse(w as int, pow2(sh as nat) as int, 0, w as int);
        }
        return 0;
    }
    proof {
        lemma_pow2_monotone(sh as nat, 63);
    }
    let p: u64 = power_of_two(sh) as u64;
    let q: u64 = w / p;
    let r: u64 = w % p;
    proof {
        assert(p >= 2) by {
            lemma_pow2_monotone(1, sh as nat);
        }
        assert(2 * q <= w) by (nonlinear_arith)
            requires
                q == w as int / p as int,
                p >= 2,
                w >= 0,
        ;
    }
    if r > p - r || (r == p - r && q % 2 == 1) {
        q + 1
    } else {
        q
    }
}

fn append_sign(s: &mut String, negative: bool, plus: bool)
    ensures
        final(s)@ == old(s)@ + sign_mark(negative, plus),
{
    if negative {
        s.append("-");
    } else if plus {
        s.append("+");
    } else {
        s.append("");
    }
}

/// Writes a number rounded to a whole number.
pub fn format_rounded(x: Double) -> (r: String)
    ensures
        r@ == rounded_text(x@),
{
    if x.is_nan() {
        return "NaN".to_string();
    }
    let mut s = String::new();
    append_sign(&mut s, x.is_negative(), false);
    if !x.is_finite() {
        s.append("inf");
        return s;
    }
    let (_, m, e) = x.parts();
    let text = if e < 1074 {
        format_digits(nearest_whole(m, e))
    } else {
        proof {
            lemma_nearest_multiple(m as nat, e as nat);
        }
        format_scaled(m, e - 1074)
    };
    s.append(text.as_str());
    s
}

/// Writes a number with two decimals, positive ones with a `+` if `plus` is set.
pub fn format_cents(x: Double, plus: bool) -> (r: String)
    ensures
        r@ == cents_text(x@, plus),
{
    if x.is_nan() {
        return "NaN".to_string();
    }
    let mut s = String::new();
    append_sign(&mut s, x.is_negative(), plus);
    if !x.is_finite() {
        s.append("inf");
        return s;
    }
    let (_, m, e) = x.parts();
    let ghost w = pow2(e as nat);
    proof {
        assert((m * w) * 100 == (m * 100) * w) by (nonlinear_arith);
    }
    if e < 1074 {
        let q: u64 = nearest_whole(m * 100, e);
        let text = format_digits(q / 100);
        s.append(text.as_str());
        s.append(".");
        s.append(digit_text((q / 10) % 10));
        s.append(digit_text(q % 10));
    } else {
        let ghost v = (m * pow2((e - 1074) as nat)) as nat;
        proof {
            lemma_nearest_multiple((m * 100) as nat, e as nat);
            assert((m * 100) * pow2((e - 1074) as nat) == 100 * v) by (nonlinear_arith)
                requires
                    v == m * pow2((e - 1074) as nat),
            ;
            assert((100 * v) / 100 == v && ((100 * v) / 10) % 10 == 0 && (100 * v) % 10 == 0);
        }
        let text = format_scaled(m, e - 1074);
        s.append(text.as_str());
        s.append(".");
        s.append(digit_text(0));
        s.append(digit_text(0));
    }
    s
}

proof fn lemma_nearest_multiple(m: nat, e: nat)
    requires
        e >= 1074,
    ensures
        nearest(m * pow2(e), pow2(1074)) == m * pow2((e - 1074) as nat),
{
    let q = m * pow2((e - 1074) as nat);
    lemma_pow2_adds(1074, (e - 1074) as nat);
    lemma_pow2_pos(1074);
    assert(m * pow2(e) == q * pow2(1074)) by (nonlinear_arith)
        requires
            q == m * pow2((e - 1074) as nat),
            pow2(e) == pow2(1074) * pow2((e - 1074) as nat),
    ;
    crate::rounding::lemma_nearest_exact(q, pow2(1074));
}

} // verus!
