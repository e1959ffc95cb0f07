//! What the totals over all positions are made of.
use crate::accounting::{
    exact_mark, exact_product, exact_total, law_exact_totals_are_sums, lemma_units_total_update,
    size, units_total,
};
use crate::conduct::lemma_nothing_times;
use crate::double::{
    absolute, difference, equal, less, product, rounded, sum, units, zero, Value,
};
use crate::exactness::{lemma_round_monotone, lemma_short_is_exact};
use crate::laws::{is_number, lemma_product_is_number, lemma_sum_is_number, lemma_zero_is_number};
use crate::market::{exposed, is_flat, unrealized};
use crate::terminal::{exposed_each, realized_each, total, unrealized_each, AppView};
use vstd::arithmetic::power2::{lemma_pow2_pos, pow2};
use vstd::prelude::*;

verus! {

/// The number of positions that have an instrument: the smaller of the two numbers.
pub open spec fn valued(a: AppView) -> nat {
    if a.instruments.len() < a.positions.len() {
        a.instruments.len()
    } else {
        a.positions.len()
    }
}

/// What the first `n` positions would yield: each the difference between the price of its
/// instrument and its average price, times its quantity.
pub open spec fn open_amount(a: AppView, n: nat) -> int
    decreases n,
{
    if n == 0 {
        0
    } else {
        let p = a.positions[n - 1];
        let price = a.instruments[n - 1].price;
        open_amount(a, (n - 1) as nat) + (units(price) - units(p.average_price)) * units(p.qty)
    }
}

/// What the first `n` positions have yielded.
pub open spec fn realized_amount(a: AppView, n: nat) -> int
    decreases n,
{
    if n == 0 {
        0
    } else {
        realized_amount(a, (n - 1) as nat) + units(a.positions[n - 1].realized_pnl)
    }
}

/// What the first `n` positions are worth, owned or owed.
pub open spec fn gross_amount(a: AppView, n: nat) -> int
    decreases n,
{
    if n == 0 {
        0
    } else {
        gross_amount(a, (n - 1) as nat) + size(units(a.positions[n - 1].qty)) * units(
            a.instruments[n - 1].price,
        )
    }
}

proof fn lemma_take_one_more(s: Seq<Value>, n: nat)
    requires
        n < s.len(),
    ensures
        units_total(s.take((n + 1) as int)) == units_total(s.take(n as int)) + units(s[n as int]),
{
    assert(s.take((n + 1) as int).drop_last() =~= s.take(n as int));
}

/// The total of what is open counts every position with its instrument, from the first to the last
/// one: the difference between price and average price, times the quantity, where nothing is
/// rounded.
pub proof fn law_open_total_counts_every_position(a: AppView)
    requires
        exact_total(unrealized_each(a)),
        forall|i: int|
            0 <= i < valued(a) ==> {
                &&& exact_mark(#[trigger] a.positions[i], a.instruments[i].price)
                &&& is_flat(a.positions[i].qty) ==> units(a.positions[i].qty) == 0
            },
    ensures
        units(total(unrealized_each(a))) * pow2(1074) == open_amount(a, valued(a)),
{
    let s = unrealized_each(a);
    law_exact_totals_are_sums(s);
    lemma_open_amount(a, valued(a));
    assert(s.take(valued(a) as int) =~= s);
}

proof fn lemma_open_amount(a: AppView, n: nat)
    requires
        n <= valued(a),
        forall|i: int|
            0 <= i < valued(a) ==> {
                &&& exact_mark(#[trigger] a.positions[i], a.instruments[i].price)
                &&& is_flat(a.positions[i].qty) ==> units(a.positions[i].qty) == 0
            },
    ensures
        units_total(unrealized_each(a).take(n as int)) * pow2(1074) == open_amount(a, n),
    decreases n,
{
    let s = unrealized_each(a);
    let w = pow2(1074) as int;
    if n == 0 {
        assert(units_total(s.take(0)) == 0);
        assert(0 * w == 0) by (nonlinear_arith);
    } else {
        let m = (n - 1) as nat;
        lemma_open_amount(a, m);
        lemma_take_one_more(s, m);
        let p = a.positions[m as int];
        let price = a.instruments[m as int].price;
        let u = units(unrealized(p, price));
        assert(s[m as int] == unrealized(p, price));
        let gap = units(price) - units(p.average_price);
        assert(exact_mark(p, price));
        if is_flat(p.qty) {
            assert(gap * 0 == 0) by (nonlinear_arith);
            assert(0 * w == 0) by (nonlinear_arith);
        }
        assert(u * w == gap * units(p.qty));
        let t = units_total(s.take(m as int));
        assert((t + u) * w == t * w + u * w) by (nonlinear_arith);
    }
}

/// The total of what is realized counts every position, where nothing is rounded.
pub proof fn law_realized_total_counts_every_position(a: AppView)
    requires
        exact_total(realized_each(a)),
    ensures
        units(total(realized_each(a))) == realized_amount(a, a.positions.len()),
{
    let s = realized_each(a);
    law_exact_totals_are_sums(s);
    lemma_realized_amount(a, a.positions.len());
    assert(s.take(a.positions.len() as int) =~= s);
}

proof fn lemma_realized_amount(a: AppView, n: nat)
    requires
        n <= a.positions.len(),
    ensures
        units_total(realized_each(a).take(n as int)) == realized_amount(a, n),
    decreases n,
{
    if n > 0 {
        lemma_realized_amount(a, (n - 1) as nat);
        lemma_take_one_more(realized_each(a), (n - 1) as nat);
    }
}

/// The total of what the positions are worth counts every position with its instrument: the price
/// times the quantity, owned or owed, where nothing is rounded.
pub proof fn law_exposure_counts_every_position(a: AppView)
    requires
        exact_total(exposed_each(a)),
        forall|i: int|
            0 <= i < valued(a) ==> exact_product(
                absolute((#[trigger] a.positions[i]).qty),
                a.instruments[i].price,
            ),
    ensures
        units(total(exposed_each(a))) * pow2(1074) == gross_amount(a, valued(a)),
{
    let s = exposed_each(a);
    law_exact_totals_are_sums(s);
    lemma_gross_amount(a, valued(a));
    assert(s.take(valued(a) as int) =~= s);
}

proof fn lemma_gross_amount(a: AppView, n: nat)
    requires
        n <= valued(a),
        forall|i: int|
            0 <= i < valued(a) ==> exact_product(
                absolute((#[trigger] a.positions[i]).qty),
                a.instruments[i].price,
            ),
    ensures
        units_total(exposed_each(a).take(n as int)) * pow2(1074) == gross_amount(a, n),
    decreases n,
{
    let s = exposed_each(a);
    let w = pow2(1074) as int;
    if n == 0 {
        assert(units_total(s.take(0)) == 0);
        assert(0 * w == 0) by (nonlinear_arith);
    } else {
        let m = (n - 1) as nat;
        lemma_gross_amount(a, m);
        lemma_take_one_more(s, m);
        let p = a.positions[m as int];
        let price = a.instruments[m as int].price;
        assert(s[m as int] == exposed(p, price));
        assert(exact_product(absolute(p.qty), price));
        let u = units(exposed(p, price));
        let t = units_total(s.take(m as int));
        assert((t + u) * w == t * w + u * w) by (nonlinear_arith);
    }
}

/// Adding a zero changes no number but perhaps the sign of a zero.
proof fn lemma_zero_adds_nothing(v: Value, z: Value)
    requires
        is_number(v),
        v !is Nan,
        z is Finite,
        units(z) == 0,
    ensures
        equal(sum(v, z), v),
        equal(sum(z, v), v),
{
    reveal(sum);
    reveal(rounded);
    if v is Finite && v->magnitude > 0 {
        lemma_short_is_exact(v->magnitude);
    }
}

/// The total of a list in which all but one are zero is that one.
proof fn lemma_one_is_the_total(s: Seq<Value>, i: int, n: nat)
    requires
        0 <= i < s.len(),
        n <= s.len(),
        s[i] !is Nan,
        is_number(s[i]),
        forall|j: int|
            0 <= j < s.len() && j != i ==> (#[trigger] s[j]) is Finite && units(s[j]) == 0,
    ensures
        n <= i ==> total(s.take(n as int)) is Finite && units(total(s.take(n as int))) == 0,
        n > i ==> equal(total(s.take(n as int)), s[i]),
        is_number(total(s.take(n as int))),
    decreases n,
{
    lemma_zero_is_number();
    if n > 0 {
        let m = (n - 1) as nat;
        lemma_one_is_the_total(s, i, m);
        assert(s.take(n as int).drop_last() =~= s.take(m as int));
        let t = total(s.take(m as int));
        let x = s[m as int];
        lemma_sum_is_number(t, x);
        if m < i {
            reveal(sum);
        } else if m == i {
            lemma_zero_adds_nothing(x, t);
        } else {
            lemma_zero_adds_nothing(t, x);
        }
    }
}

/// Where all positions but one are none, the total of what is open is what that one would yield,
/// whichever it is.
pub proof fn law_one_open_position_is_the_total(a: AppView, i: int)
    requires
        0 <= i < valued(a),
        forall|j: int| 0 <= j < valued(a) && j != i ==> is_flat((#[trigger] a.positions[j]).qty),
        unrealized(a.positions[i], a.instruments[i].price) !is Nan,
    ensures
        equal(
            total(unrealized_each(a)),
            unrealized(a.positions[i], a.instruments[i].price),
        ),
{
    let s = unrealized_each(a);
    let p = a.positions[i];
    lemma_zero_is_number();
    lemma_product_is_number(difference(a.instruments[i].price, p.average_price), p.qty);
    assert(s[i] == unrealized(p, a.instruments[i].price));
    assert forall|j: int| 0 <= j < s.len() && j != i implies (#[trigger] s[j]) is Finite && units(
        s[j],
    ) == 0 by {
        assert(is_flat(a.positions[j].qty));
    }
    lemma_one_is_the_total(s, i, s.len());
    assert(s.take(s.len() as int) =~= s);
}

/// Where all positions but one have yielded nothing, the total of what is realized is what that one
/// has yielded.
pub proof fn law_one_realized_position_is_the_total(a: AppView, i: int)
    requires
        0 <= i < a.positions.len(),
        forall|j: int|
            0 <= j < a.positions.len() && j != i ==> (#[trigger] a.positions[j]).realized_pnl
                == zero(),
        a.positions[i].realized_pnl !is Nan,
        is_number(a.positions[i].realized_pnl),
    ensures
        equal(total(realized_each(a)), a.positions[i].realized_pnl),
{
    let s = realized_each(a);
    assert(s[i] == a.positions[i].realized_pnl);
    assert forall|j: int| 0 <= j < s.len() && j != i implies (#[trigger] s[j]) is Finite && units(
        s[j],
    ) == 0 by {
        assert(a.positions[j].realized_pnl == zero());
    }
    lemma_one_is_the_total(s, i, s.len());
    assert(s.take(s.len() as int) =~= s);
}

/// Where all positions but one are none and the prices are finite, the total of what the positions
/// are worth is what that one is worth.
pub proof fn law_one_exposed_position_is_the_total(a: AppView, i: int)
    requires
        0 <= i < valued(a),
        forall|j: int|
            0 <= j < valued(a) && j != i ==> (#[trigger] a.positions[j]).qty == zero()
                && a.instruments[j].price is Finite,
        product(absolute(a.positions[i].qty), a.instruments[i].price) !is Nan,
    ensures
        equal(
            total(exposed_each(a)),
            product(absolute(a.positions[i].qty), a.instruments[i].price),
        ),
{
    let s = exposed_each(a);
    let p = a.positions[i];
    lemma_product_is_number(absolute(p.qty), a.instruments[i].price);
    assert(s[i] == product(absolute(p.qty), a.instruments[i].price));
    assert forall|j: int| 0 <= j < s.len() && j != i implies (#[trigger] s[j]) is Finite && units(
        s[j],
    ) == 0 by {
        assert(a.positions[j].qty == zero());
        lemma_nothing_times(absolute(zero()), a.instruments[j].price);
    }
    lemma_one_is_the_total(s, i, s.len());
    assert(s.take(s.len() as int) =~= s);
}

/// A change of one position or of one price moves the total of what is open by the change of what
/// that position would yield, where the totals are not rounded.
pub proof fn law_open_total_moves_with_each_position(a: AppView, b: AppView, i: int)
    requires
        valued(a) == valued(b),
        0 <= i < valued(a),
        forall|j: int|
            0 <= j < valued(a) && j != i ==> (#[trigger] a.positions[j]) == b.positions[j]
                && a.instruments[j].price == b.instruments[j].price,
        exact_total(unrealized_each(a)),
        exact_total(unrealized_each(b)),
    ensures
        units(total(unrealized_each(b))) - units(total(unrealized_each(a))) == units(
            unrealized(b.positions[i], b.instruments[i].price),
        ) - units(unrealized(a.positions[i], a.instruments[i].price)),
{
    let s = unrealized_each(a);
    let t = unrealized_each(b);
    law_exact_totals_are_sums(s);
    law_exact_totals_are_sums(t);
    assert(s[i] == unrealized(a.positions[i], a.instruments[i].price));
    assert(t[i] == unrealized(b.positions[i], b.instruments[i].price));
    assert forall|j: int| 0 <= j < s.len() && j != i implies t[j] == s[j] by {
        assert(a.positions[j] == b.positions[j]);
    }
    assert(t =~= s.update(i, t[i]));
    lemma_units_total_update(s, i, t[i]);
}

/// A total is added up from the front, one number after the other.
pub proof fn law_totals_add_in_order(s: Seq<Value>, v: Value)
    ensures
        total(s.push(v)) == sum(total(s), v),
        total(Seq::<Value>::empty()) is Finite,
        units(total(Seq::<Value>::empty())) == 0,
{
    assert(s.push(v).drop_last() =~= s);
}

/// A sum does not fall when a summand rises.
proof fn lemma_sum_keeps_order(a: Value, b: Value, c: Value, d: Value)
    requires
        a is Finite,
        b is Finite,
        c is Finite,
        d is Finite,
        units(a) <= units(c),
        units(b) <= units(d),
    ensures
        sum(a, b) !is Nan,
        sum(c, d) !is Nan,
        !less(sum(c, d), sum(a, b)),
{
    reveal(sum);
    reveal(rounded);
    lemma_pow2_pos(2098);
    let x = units(a) + units(b);
    let y = units(c) + units(d);
    let m = size(x) as nat;
    let n = size(y) as nat;
    if m <= n {
        lemma_round_monotone(m, 1, n, 1);
    } else {
        lemma_round_monotone(n, 1, m, 1);
    }
}

/// A total does not fall when the numbers in it rise, however they are rounded, as long as all that
/// is added up on the way is finite.
pub proof fn law_totals_keep_the_order(s: Seq<Value>, t: Seq<Value>)
    requires
        s.len() == t.len(),
        forall|i: int| 0 <= i < s.len() ==> (#[trigger] s[i]) is Finite,
        forall|i: int| 0 <= i < t.len() ==> (#[trigger] t[i]) is Finite,
        forall|i: int| 0 <= i < s.len() ==> units(#[trigger] s[i]) <= units(t[i]),
        forall|n: int| 0 <= n <= s.len() ==> total(#[trigger] s.take(n)) is Finite,
        forall|n: int| 0 <= n <= t.len() ==> total(#[trigger] t.take(n)) is Finite,
    ensures
        units(total(s)) <= units(total(t)),
{
    lemma_totals_keep_order(s, t, s.len());
    assert(s.take(s.len() as int) =~= s);
    assert(t.take(t.len() as int) =~= t);
}

proof fn lemma_totals_keep_order(s: Seq<Value>, t: Seq<Value>, n: nat)
    requires
        s.len() == t.len(),
        n <= s.len(),
        forall|i: int| 0 <= i < s.len() ==> (#[trigger] s[i]) is Finite,
        forall|i: int| 0 <= i < t.len() ==> (#[trigger] t[i]) is Finite,
        forall|i: int| 0 <= i < s.len() ==> units(#[trigger] s[i]) <= units(t[i]),
        forall|n: int| 0 <= n <= s.len() ==> total(#[trigger] s.take(n)) is Finite,
        forall|n: int| 0 <= n <= t.len() ==> total(#[trigger] t.take(n)) is Finite,
    ensures
        units(total(s.take(n as int))) <= units(total(t.take(n as int))),
    decreases n,
{
    if n > 0 {
        let m = n - 1;
        lemma_totals_keep_order(s, t, m as nat);
        assert(s.take(n as int).drop_last() =~= s.take(m));
        assert(t.take(n as int).drop_last() =~= t.take(m));
        assert(s[m] is Finite && t[m] is Finite);
        assert(units(s[m]) <= units(t[m]));
        lemma_sum_keeps_order(total(s.take(m)), s[m], total(t.take(m)), t[m]);
        assert(total(s.take(n as int)) is Finite);
        assert(total(t.take(n as int)) is Finite);
    } else {
        assert(s.take(0) =~= t.take(0));
    }
}

} // verus!
