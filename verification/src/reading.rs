//! Decimal text read back as numbers.
use crate::decimal::{
    cents_text, digit, digits, digits_padded, hundredths, rounded_text, sign_mark,
};
use crate::double::{is_negative, units, Value};
use crate::exactness::{lemma_nearest_bounds, lemma_nearest_monotone};
use crate::rounding::nearest;
use vstd::arithmetic::power2::{lemma_pow2_pos, pow2};
use vstd::prelude::*;

verus! {

/// Whether a character is a decimal digit.
pub open spec fn is_digit(c: char) -> bool {
    '0' <= c <= '9'
}

/// The number that the digits of a text form, whatever stands between them.
pub open spec fn digits_read(s: Seq<char>) -> int
    decreases s.len(),
{
    if s.len() == 0 {
        0
    } else if is_digit(s.last()) {
        10 * digits_read(s.drop_last()) + (s.last() as int - '0' as int)
    } else {
        digits_read(s.drop_last())
    }
}

/// The number that a text with an optional sign forms, counted in its last place: that of its
/// digits, negative if there is a minus in front.
pub open spec fn number_read(s: Seq<char>) -> int {
    if s.len() > 0 && s[0] == '-' {
        -digits_read(s.drop_first())
    } else {
        digits_read(s)
    }
}

/// Whether a text has a point before its last two characters.
pub open spec fn has_cents(s: Seq<char>) -> bool {
    s.len() >= 4 && s[s.len() - 3] == '.' && is_digit(s[s.len() - 2]) && is_digit(s[s.len() - 1])
}

/// Whether a text is a finite number to the nearest hundredth.
pub open spec fn shows_cents(s: Seq<char>, v: Value) -> bool {
    let off = number_read(s) * pow2(1074) - 100 * units(v);
    &&& has_cents(s)
    &&& -(pow2(1074) as int) <= 2 * off <= pow2(1074)
}

/// Whether a text is a finite number to the nearest whole number.
pub open spec fn shows_whole(s: Seq<char>, v: Value) -> bool {
    let off = number_read(s) * pow2(1074) - units(v);
    -(pow2(1074) as int) <= 2 * off <= pow2(1074)
}

proof fn lemma_digit_read(d: nat)
    requires
        d < 10,
    ensures
        digit(d).len() == 1,
        is_digit(digit(d)[0]),
        digit(d)[0] as int - '0' as int == d,
{
    reveal_strlit("0");
    reveal_strlit("1");
    reveal_strlit("2");
    reveal_strlit("3");
    reveal_strlit("4");
    reveal_strlit("5");
    reveal_strlit("6");
    reveal_strlit("7");
    reveal_strlit("8");
    reveal_strlit("9");
}

proof fn lemma_digits_read(n: nat)
    ensures
        digits(n).len() >= 1,
        forall|i: int| 0 <= i < digits(n).len() ==> is_digit(#[trigger] digits(n)[i]),
        digits_read(digits(n)) == n,
    decreases n,
{
    if n < 10 {
        lemma_digit_read(n);
        assert(digits(n).drop_last() =~= Seq::<char>::empty());
        assert(digits_read(digits(n).drop_last()) == 0);
    } else {
        lemma_digits_read(n / 10);
        lemma_digit_read(n % 10);
        assert(digits(n).drop_last() =~= digits(n / 10));
    }
}

proof fn lemma_read_more(s: Seq<char>, d: nat)
    requires
        d < 10,
    ensures
        digits_read(s + digit(d)) == 10 * digits_read(s) + d,
{
    lemma_digit_read(d);
    assert((s + digit(d)).drop_last() =~= s);
}

proof fn lemma_hundredths_read(q: nat)
    ensures
        hundredths(q).len() >= 4,
        is_digit(hundredths(q)[0]),
        has_cents(hundredths(q)),
        digits_read(hundredths(q)) == q,
{
    reveal_strlit(".");
    let a = digits(q / 100);
    let b = a + "."@;
    let c = b + digit((q / 10) % 10);
    lemma_digits_read(q / 100);
    assert(b.drop_last() =~= a);
    assert(digits_read(b) == q / 100);
    lemma_digit_read((q / 10) % 10);
    lemma_digit_read(q % 10);
    lemma_read_more(b, (q / 10) % 10);
    lemma_read_more(c, q % 10);
    assert(hundredths(q) =~= c + digit(q % 10));
    let s = hundredths(q);
    assert(s[s.len() - 3] == '.');
    assert(s[0] == a[0]);
}

/// A sign in front of digits.
proof fn lemma_signed_read(negative: bool, plus: bool, s: Seq<char>)
    requires
        s.len() >= 1,
        is_digit(s[0]),
    ensures
        number_read(sign_mark(negative, plus) + s) == if negative {
            -digits_read(s)
        } else {
            digits_read(s)
        },
        has_cents(s) ==> has_cents(sign_mark(negative, plus) + s),
        ((sign_mark(negative, plus) + s)[0] == '-') == negative,
        ((sign_mark(negative, plus) + s)[0] == '+') == (!negative && plus),
{
    reveal_strlit("-");
    reveal_strlit("+");
    reveal_strlit("");
    let t = sign_mark(negative, plus) + s;
    if negative {
        assert(t.drop_first() =~= s);
    } else if plus {
        assert(t =~= seq!['+'] + s);
        lemma_read_after_mark(t, s);
    } else {
        assert(t =~= s);
    }
    if has_cents(s) {
        assert(t[t.len() - 3] == s[s.len() - 3]);
        assert(t[t.len() - 2] == s[s.len() - 2]);
        assert(t[t.len() - 1] == s[s.len() - 1]);
    }
}

proof fn lemma_read_after_mark(t: Seq<char>, s: Seq<char>)
    requires
        t == seq!['+'] + s,
    ensures
        digits_read(t) == digits_read(s),
    decreases s.len(),
{
    if s.len() == 0 {
        assert(t.drop_last() =~= s);
        assert(digits_read(t.drop_last()) == 0);
    } else {
        assert(t.drop_last() =~= seq!['+'] + s.drop_last());
        lemma_read_after_mark(t.drop_last(), s.drop_last());
    }
}

/// A count in decimal reads as that count.
pub proof fn law_counts_read_back(n: nat)
    ensures
        digits_read(digits(n)) == n,
        digits_read(digits_padded(n)) == n,
        digits_padded(n).len() >= 3,
        n < 1000 ==> digits_padded(n).len() == 3,
{
    reveal_strlit("0");
    reveal_strlit("00");
    lemma_digits_read(n);
    let s = digits(n);
    if n < 10 {
        lemma_digit_read(n);
        assert("00"@ + s =~= ("0"@ + "0"@) + s);
        let none = Seq::<char>::empty();
        assert("0"@ =~= none + digit(0));
        assert(("0"@ + "0"@) =~= "0"@ + digit(0));
        lemma_read_more(none, 0);
        lemma_read_more("0"@, 0);
        assert("00"@ =~= "0"@ + "0"@);
        lemma_read_more("00"@, n);
        assert(digits_read(none) == 0);
    } else if n < 100 {
        lemma_digit_read(n / 10);
        lemma_digit_read(n % 10);
        let none = Seq::<char>::empty();
        assert(digits_read(none) == 0);
        assert("0"@ =~= none + digit(0));
        lemma_read_more(none, 0);
        lemma_read_more("0"@, n / 10);
        lemma_read_more("0"@ + digit(n / 10), n % 10);
        assert(digits(n / 10) == digit(n / 10));
        assert("0"@ + s =~= ("0"@ + digit(n / 10)) + digit(n % 10));
    }
    lemma_padded_length(n);
}

proof fn lemma_padded_length(n: nat)
    ensures
        digits_padded(n).len() >= 3,
        n < 1000 ==> digits_padded(n).len() == 3,
{
    reveal_strlit("0");
    reveal_strlit("00");
    if n < 10 {
        lemma_digit_read(n);
        assert(digits(n) == digit(n));
    } else if n < 100 {
        lemma_digit_read(n / 10);
        lemma_digit_read(n % 10);
        assert(digits(n / 10) == digit(n / 10));
        assert(digits(n) == digits(n / 10) + digit(n % 10));
    } else {
        let m = n / 10;
        lemma_digits_read(m / 10);
        lemma_digit_read(m % 10);
        lemma_digit_read(n % 10);
        assert(digits(m) == digits(m / 10) + digit(m % 10));
        assert(digits(n) == digits(m) + digit(n % 10));
        if n < 1000 {
            lemma_digit_read(m / 10);
            assert(digits(m / 10) == digit(m / 10));
        }
    }
}

proof fn lemma_nearest_read(negative: bool, n: nat, d: nat, q: int)
    requires
        d > 0,
        q == if negative {
            -(nearest(n, d) as int)
        } else {
            nearest(n, d) as int
        },
    ensures
        ({
            let off = q * d - if negative {
                -(n as int)
            } else {
                n as int
            };
            -(d as int) <= 2 * off <= d
        }),
{
    lemma_nearest_bounds(n, d);
    let x = nearest(n, d) as int;
    assert((2 * x - 1) * d == 2 * (x * d) - d) by (nonlinear_arith);
    assert((2 * x + 1) * d == 2 * (x * d) + d) by (nonlinear_arith);
    assert((-x) * d == -(x * d)) by (nonlinear_arith);
}

/// An amount with two decimals reads as the amount, to half a hundredth. It has a minus in front
/// exactly if its sign is set, and else a plus exactly if one is asked for.
pub proof fn law_amounts_read_back(v: Value, plus: bool)
    requires
        v is Finite,
    ensures
        shows_cents(cents_text(v, plus), v),
        (cents_text(v, plus)[0] == '-') == is_negative(v),
        (cents_text(v, plus)[0] == '+') == (!is_negative(v) && plus),
{
    let w = pow2(1074);
    lemma_pow2_pos(1074);
    let m = v->magnitude;
    let q = nearest(m * 100, w);
    lemma_hundredths_read(q);
    lemma_signed_read(is_negative(v), plus, hundredths(q));
    lemma_nearest_read(is_negative(v), m * 100, w, number_read(cents_text(v, plus)));
}

/// A quantity without decimals reads as the quantity, to half a unit, and has a minus in front
/// exactly if its sign is set.
pub proof fn law_quantities_read_back(v: Value)
    requires
        v is Finite,
    ensures
        shows_whole(rounded_text(v), v),
        (rounded_text(v)[0] == '-') == is_negative(v),
{
    let w = pow2(1074);
    lemma_pow2_pos(1074);
    let m = v->magnitude;
    let q = nearest(m, w);
    lemma_digits_read(q);
    lemma_signed_read(is_negative(v), false, digits(q));
    lemma_nearest_read(is_negative(v), m, w, number_read(rounded_text(v)));
}

/// Amounts that are more than a hundredth apart have different texts.
pub proof fn law_amounts_are_told_apart(a: Value, b: Value, plus: bool)
    requires
        a is Finite,
        b is Finite,
        100 * (units(b) - units(a)) > pow2(1074),
    ensures
        cents_text(a, plus) != cents_text(b, plus),
        number_read(cents_text(a, plus)) < number_read(cents_text(b, plus)),
{
    law_amounts_read_back(a, plus);
    law_amounts_read_back(b, plus);
    let w = pow2(1074) as int;
    lemma_pow2_pos(1074);
    let x = number_read(cents_text(a, plus));
    let y = number_read(cents_text(b, plus));
    assert(x < y) by (nonlinear_arith)
        requires
            x * w < y * w,
            w > 0,
    ;
}

/// A larger amount does not read as a smaller one.
pub proof fn law_amounts_keep_their_order(a: Value, b: Value, p: bool, q: bool)
    requires
        a is Finite,
        b is Finite,
        units(a) <= units(b),
    ensures
        number_read(cents_text(a, p)) <= number_read(cents_text(b, q)),
{
    let w = pow2(1074);
    lemma_pow2_pos(1074);
    let m = a->magnitude * 100;
    let n = b->magnitude * 100;
    lemma_hundredths_read(nearest(m, w));
    lemma_hundredths_read(nearest(n, w));
    lemma_signed_read(is_negative(a), p, hundredths(nearest(m, w)));
    lemma_signed_read(is_negative(b), q, hundredths(nearest(n, w)));
    if m <= n {
        assert(m * w <= n * w) by (nonlinear_arith)
            requires
                m <= n,
        ;
        lemma_nearest_monotone(m, w, n, w);
    }
    if n <= m {
        assert(n * w <= m * w) by (nonlinear_arith)
            requires
                n <= m,
        ;
        lemma_nearest_monotone(n, w, m, w);
    }
    if m == 0 && n == 0 {
        lemma_nearest_bounds(0, w);
        let x = nearest(0, w) as int;
        assert(x <= 0) by (nonlinear_arith)
            requires
                (2 * x - 1) * w <= 0,
                w > 0,
        ;
    }
}

/// The number of characters that a sign takes.
pub open spec fn sign_len(negative: bool, plus: bool) -> int {
    if negative || plus {
        1
    } else {
        0
    }
}

proof fn lemma_no_leading_zero(n: nat)
    ensures
        digits(n).len() >= 1,
        digits(n)[0] == '0' ==> n == 0 && digits(n).len() == 1,
    decreases n,
{
    if n < 10 {
        lemma_digit_read(n);
    } else {
        lemma_no_leading_zero(n / 10);
        lemma_digit_read(n % 10);
        assert(digits(n)[0] == digits(n / 10)[0]);
    }
}

/// A count in decimal is made of digits alone, the first of them zero only if it is the only one.
pub proof fn law_counts_are_plain(n: nat, i: int)
    requires
        0 <= i < digits(n).len(),
    ensures
        is_digit(digits(n)[i]),
        digits(n)[0] == '0' ==> digits(n).len() == 1,
        n >= 100 ==> digits_padded(n) == digits(n),
{
    lemma_digits_read(n);
    lemma_no_leading_zero(n);
}

/// Behind its sign, a quantity is made of digits alone, the first of them zero only if it is the
/// only one.
pub proof fn law_quantities_are_plain(v: Value, i: int)
    requires
        v is Finite,
        0 <= i < rounded_text(v).len(),
    ensures
        ({
            let s = rounded_text(v);
            let n = sign_len(is_negative(v), false);
            &&& s.len() > n
            &&& i >= n ==> is_digit(s[i])
            &&& s[n] == '0' ==> s.len() == n + 1
        }),
{
    reveal_strlit("-");
    reveal_strlit("");
    let q = nearest(v->magnitude, pow2(1074));
    lemma_digits_read(q);
    lemma_no_leading_zero(q);
    let n = sign_len(is_negative(v), false);
    let s = rounded_text(v);
    assert(s.len() == n + digits(q).len());
    if i >= n {
        assert(s[i] == digits(q)[i - n]);
    }
    assert(s[n] == digits(q)[0]);
}

/// Behind its sign, an amount is made of digits and one point before the last two of them, the
/// first digit zero only if it is the only one before the point.
pub proof fn law_amounts_are_plain(v: Value, plus: bool, i: int)
    requires
        v is Finite,
        0 <= i < cents_text(v, plus).len(),
    ensures
        ({
            let s = cents_text(v, plus);
            let n = sign_len(is_negative(v), plus);
            &&& s.len() >= n + 4
            &&& s[s.len() - 3] == '.'
            &&& i >= n && i != s.len() - 3 ==> is_digit(s[i])
            &&& s[n] == '0' ==> s.len() == n + 4
        }),
{
    reveal_strlit("-");
    reveal_strlit("+");
    reveal_strlit("");
    reveal_strlit(".");
    let q = nearest(v->magnitude * 100, pow2(1074));
    let d = digits(q / 100);
    lemma_digits_read(q / 100);
    lemma_no_leading_zero(q / 100);
    lemma_digit_read((q / 10) % 10);
    lemma_digit_read(q % 10);
    let n = sign_len(is_negative(v), plus);
    let s = cents_text(v, plus);
    let h = hundredths(q);
    let m = d.len() as int;
    assert(h.len() == m + 3);
    assert(s.len() == n + m + 3);
    assert forall|k: int| 0 <= k < h.len() implies s[n + k] == #[trigger] h[k] by {}
    assert(h[0] == d[0]);
    assert(h[m] == '.');
    assert(h[m + 1] == digit((q / 10) % 10)[0]);
    assert(h[m + 2] == digit(q % 10)[0]);
    if i >= n && i != s.len() - 3 {
        let k = i - n;
        assert(s[n + k] == h[k]);
        if k < m {
            assert(h[k] == d[k]);
        }
    }
    assert(s[n + 0] == h[0]);
    assert(s[n + m] == h[m]);
}

/// What is no number, and what is infinite, has a text of its own.
pub proof fn law_special_values_have_names(negative: bool, plus: bool)
    ensures
        cents_text(Value::Nan, plus) == "NaN"@,
        rounded_text(Value::Nan) == "NaN"@,
        cents_text(Value::Infinite { negative: true }, plus) == "-"@ + "inf"@,
        cents_text(Value::Infinite { negative: false }, true) == "+"@ + "inf"@,
        cents_text(Value::Infinite { negative: false }, false) == "inf"@,
        rounded_text(Value::Infinite { negative: true }) == "-"@ + "inf"@,
        rounded_text(Value::Infinite { negative: false }) == "inf"@,
{
    reveal_strlit("");
    assert(""@ + "inf"@ =~= "inf"@);
}

} // verus!
