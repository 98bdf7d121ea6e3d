//! The canonical enumeration order of a shape's values.
//!
//! [`value_at`] gives the value standing at a linear index in a shape's
//! enumeration; [`shape_values`] collects the whole enumeration as a
//! sequence of value models.  A product follows mixed-radix order: the
//! first component is the most significant digit, the last varies fastest.
//! A sum concatenates its alternatives' enumerations in declaration order.
//! A repeat behaves as a product of equal components.
//!
//! [`value_index`] is the inverse direction: the linear index at which an
//! inhabitant stands.  The lemmas here prove that the two directions are
//! mutually inverse bijections between `[0, shape_card(s))` and the
//! inhabitants of `s`, which is what the uniqueness and completeness laws
//! rest on.

use vstd::prelude::*;

verus! {

use vstd::arithmetic::div_mod::{
    lemma_fundamental_div_mod,
    lemma_fundamental_div_mod_converse,
    lemma_mod_bound,
    lemma_multiply_divide_lt,
};
use vstd::arithmetic::mul::{
    lemma_mul_by_zero_is_zero,
    lemma_mul_inequality,
    lemma_mul_is_commutative,
    lemma_mul_is_distributive_sub_other_way,
};
use crate::index::{lemma_linear_index_bound, linear_index, radix_prod};
use crate::shape::{Shape, pow_nat, prod_card, shape_card, sum_card};
use crate::value::{Val, inhabits, repeat_inhabits, sum_inhabits, tuple_inhabits};

/// The value standing at linear index `i` in the enumeration of `s`,
/// for `i < shape_card(s)`.
pub open spec fn value_at(s: Shape, i: nat) -> Val
    decreases s, 0nat,
{
    match s {
        Shape::Empty => Val::Unit,
        Shape::Singleton => Val::Unit,
        Shape::Product(vs) => Val::Record(prod_value_at(vs@, i)),
        Shape::Sum(vs) => sum_value_at(vs@, i),
        Shape::Repeat(b, n) => Val::Record(repeat_value_at(*b, n as nat, i)),
    }
}

/// The component values at linear index `i` of the product of `ss`:
/// the first component's index is `i` divided by the cardinality of the
/// rest, the rest continues with the remainder.
pub open spec fn prod_value_at(ss: Seq<Shape>, i: nat) -> Seq<Val>
    decreases ss, 0nat,
{
    if ss.len() == 0 {
        Seq::empty()
    } else {
        let rest = prod_card(ss.drop_first());
        seq![value_at(ss[0], i / rest)] + prod_value_at(ss.drop_first(), i % rest)
    }
}

/// The tagged value at linear index `i` of the sum of `ss`: the
/// alternatives' enumerations stand one after another, in order.
pub open spec fn sum_value_at(ss: Seq<Shape>, i: nat) -> Val
    decreases ss, 0nat,
{
    if ss.len() == 0 {
        Val::Unit
    } else if i < shape_card(ss[0]) {
        Val::Tagged(0, Box::new(value_at(ss[0], i)))
    } else {
        bump_tag(sum_value_at(ss.drop_first(), (i - shape_card(ss[0])) as nat))
    }
}

/// Shifts a tagged value one alternative later.
pub open spec fn bump_tag(v: Val) -> Val {
    match v {
        Val::Tagged(t, x) => Val::Tagged(t + 1, x),
        _ => v,
    }
}

/// The component values at linear index `i` of `n` repetitions of `b`,
/// in the same mixed-radix order as a product of `n` copies of `b`.
pub open spec fn repeat_value_at(b: Shape, n: nat, i: nat) -> Seq<Val>
    decreases b, n,
{
    if n == 0 {
        Seq::empty()
    } else {
        let rest = pow_nat(shape_card(b), (n - 1) as nat);
        seq![value_at(b, i / rest)] + repeat_value_at(b, (n - 1) as nat, i % rest)
    }
}

/// The full enumeration of `s`: all its values, in canonical order.
pub open spec fn shape_values(s: Shape) -> Seq<Val> {
    Seq::new(shape_card(s), |i: int| value_at(s, i as nat))
}

/// The linear index at which the inhabitant `v` stands in the
/// enumeration of `s`.
pub open spec fn value_index(s: Shape, v: Val) -> nat
    decreases s, 0nat,
{
    match s {
        Shape::Empty => 0,
        Shape::Singleton => 0,
        Shape::Product(vs) => match v {
            Val::Record(ts) => tuple_index(vs@, ts),
            _ => 0,
        },
        Shape::Sum(vs) => match v {
            Val::Tagged(t, x) => sum_index(vs@, t, *x),
            _ => 0,
        },
        Shape::Repeat(b, n) => match v {
            Val::Record(ts) => repeat_index(*b, n as nat, ts),
            _ => 0,
        },
    }
}

/// The linear index of the component tuple `ts` in the product of `ss`.
pub open spec fn tuple_index(ss: Seq<Shape>, ts: Seq<Val>) -> nat
    decreases ss, 0nat,
{
    if ss.len() == 0 {
        0
    } else {
        value_index(ss[0], ts[0]) * prod_card(ss.drop_first()) + tuple_index(
            ss.drop_first(),
            ts.drop_first(),
        )
    }
}

/// The linear index of payload `x` under tag `t` in the sum of `ss`.
pub open spec fn sum_index(ss: Seq<Shape>, t: nat, x: Val) -> nat
    decreases ss, 0nat,
{
    if ss.len() == 0 {
        0
    } else if t == 0 {
        value_index(ss[0], x)
    } else {
        shape_card(ss[0]) + sum_index(ss.drop_first(), (t - 1) as nat, x)
    }
}

/// The linear index of the component tuple `ts` in `n` repetitions of `b`.
pub open spec fn repeat_index(b: Shape, n: nat, ts: Seq<Val>) -> nat
    decreases b, n,
{
    if n == 0 {
        0
    } else {
        value_index(b, ts[0]) * pow_nat(shape_card(b), (n - 1) as nat) + repeat_index(
            b,
            (n - 1) as nat,
            ts.drop_first(),
        )
    }
}

/// Every enumerated value inhabits its shape: the enumeration is sound.
pub proof fn lemma_value_at_inhabits(s: Shape, i: nat)
    requires
        i < shape_card(s),
    ensures
        inhabits(s, value_at(s, i)),
    decreases s, 0nat,
{
    match s {
        Shape::Empty => {},
        Shape::Singleton => {},
        Shape::Product(vs) => {
            lemma_prod_value_at_inhabits(vs@, i);
        },
        Shape::Sum(vs) => {
            lemma_sum_value_at_inhabits(vs@, i);
        },
        Shape::Repeat(b, n) => {
            lemma_repeat_value_at_inhabits(*b, n as nat, i);
        },
    }
}

/// The component tuple at any in-range product index inhabits the
/// components, and has one value per component.
pub proof fn lemma_prod_value_at_inhabits(ss: Seq<Shape>, i: nat)
    requires
        i < prod_card(ss),
    ensures
        tuple_inhabits(ss, prod_value_at(ss, i)),
        prod_value_at(ss, i).len() == ss.len(),
    decreases ss, 0nat,
{
    if ss.len() > 0 {
        let c0 = shape_card(ss[0]);
        let rest = prod_card(ss.drop_first());
        if rest == 0 {
            lemma_mul_by_zero_is_zero(c0 as int);
            assert(false);
        }
        lemma_mul_is_commutative(c0 as int, rest as int);
        lemma_multiply_divide_lt(i as int, rest as int, c0 as int);
        lemma_mod_bound(i as int, rest as int);
        lemma_value_at_inhabits(ss[0], i / rest);
        lemma_prod_value_at_inhabits(ss.drop_first(), i % rest);
        assert(prod_value_at(ss, i).drop_first() =~= prod_value_at(ss.drop_first(), i % rest));
    }
}

/// The value at any in-range sum index is tagged with an alternative's
/// position and its payload inhabits that alternative.
pub proof fn lemma_sum_value_at_inhabits(ss: Seq<Shape>, i: nat)
    requires
        i < sum_card(ss),
    ensures
        sum_value_at(ss, i) is Tagged,
        sum_value_at(ss, i)->Tagged_0 < ss.len(),
        sum_inhabits(ss, sum_value_at(ss, i)->Tagged_0, *sum_value_at(ss, i)->Tagged_1),
    decreases ss, 0nat,
{
    let c0 = shape_card(ss[0]);
    if i < c0 {
        lemma_value_at_inhabits(ss[0], i);
    } else {
        lemma_sum_value_at_inhabits(ss.drop_first(), (i - c0) as nat);
    }
}

/// The component tuple at any in-range repeat index inhabits `n`
/// repetitions of `b`, and has `n` values.
pub proof fn lemma_repeat_value_at_inhabits(b: Shape, n: nat, i: nat)
    requires
        i < pow_nat(shape_card(b), n),
    ensures
        repeat_inhabits(b, n, repeat_value_at(b, n, i)),
        repeat_value_at(b, n, i).len() == n,
    decreases b, n,
{
    if n > 0 {
        let cb = shape_card(b);
        let rest = pow_nat(cb, (n - 1) as nat);
        if rest == 0 {
            lemma_mul_by_zero_is_zero(cb as int);
            assert(false);
        }
        lemma_mul_is_commutative(cb as int, rest as int);
        lemma_multiply_divide_lt(i as int, rest as int, cb as int);
        lemma_mod_bound(i as int, rest as int);
        lemma_value_at_inhabits(b, i / rest);
        lemma_repeat_value_at_inhabits(b, (n - 1) as nat, i % rest);
        assert(repeat_value_at(b, n, i).drop_first() =~= repeat_value_at(
            b,
            (n - 1) as nat,
            i % rest,
        ));
    }
}

/// `value_index` inverts `value_at`: recombining the value standing at
/// index `i` gives back `i`.  Hence no value appears twice.
pub proof fn lemma_value_index_of_value_at(s: Shape, i: nat)
    requires
        i < shape_card(s),
    ensures
        value_index(s, value_at(s, i)) == i,
    decreases s, 0nat,
{
    match s {
        Shape::Empty => {},
        Shape::Singleton => {},
        Shape::Product(vs) => {
            lemma_tuple_index_of_prod_value_at(vs@, i);
        },
        Shape::Sum(vs) => {
            lemma_sum_index_of_sum_value_at(vs@, i);
        },
        Shape::Repeat(b, n) => {
            lemma_repeat_index_of_repeat_value_at(*b, n as nat, i);
        },
    }
}

/// Product case of [`lemma_value_index_of_value_at`].
pub proof fn lemma_tuple_index_of_prod_value_at(ss: Seq<Shape>, i: nat)
    requires
        i < prod_card(ss),
    ensures
        tuple_index(ss, prod_value_at(ss, i)) == i,
    decreases ss, 0nat,
{
    if ss.len() > 0 {
        let c0 = shape_card(ss[0]);
        let rest = prod_card(ss.drop_first());
        if rest == 0 {
            lemma_mul_by_zero_is_zero(c0 as int);
            assert(false);
        }
        lemma_mul_is_commutative(c0 as int, rest as int);
        lemma_multiply_divide_lt(i as int, rest as int, c0 as int);
        lemma_mod_bound(i as int, rest as int);
        lemma_value_index_of_value_at(ss[0], i / rest);
        lemma_tuple_index_of_prod_value_at(ss.drop_first(), i % rest);
        let ts = prod_value_at(ss, i);
        assert(ts[0] == value_at(ss[0], i / rest));
        assert(ts.drop_first() =~= prod_value_at(ss.drop_first(), i % rest));
        lemma_fundamental_div_mod(i as int, rest as int);
        lemma_mul_is_commutative(rest as int, (i / rest) as int);
    }
}

/// Sum case of [`lemma_value_index_of_value_at`].
pub proof fn lemma_sum_index_of_sum_value_at(ss: Seq<Shape>, i: nat)
    requires
        i < sum_card(ss),
    ensures
        sum_value_at(ss, i) is Tagged,
        sum_index(ss, sum_value_at(ss, i)->Tagged_0, *sum_value_at(ss, i)->Tagged_1) == i,
    decreases ss, 0nat,
{
    let c0 = shape_card(ss[0]);
    if i < c0 {
        lemma_value_index_of_value_at(ss[0], i);
    } else {
        lemma_sum_index_of_sum_value_at(ss.drop_first(), (i - c0) as nat);
    }
}

/// Repeat case of [`lemma_value_index_of_value_at`].
pub proof fn lemma_repeat_index_of_repeat_value_at(b: Shape, n: nat, i: nat)
    requires
        i < pow_nat(shape_card(b), n),
    ensures
        repeat_index(b, n, repeat_value_at(b, n, i)) == i,
    decreases b, n,
{
    if n > 0 {
        let cb = shape_card(b);
        let rest = pow_nat(cb, (n - 1) as nat);
        if rest == 0 {
            lemma_mul_by_zero_is_zero(cb as int);
            assert(false);
        }
        lemma_mul_is_commutative(cb as int, rest as int);
        lemma_multiply_divide_lt(i as int, rest as int, cb as int);
        lemma_mod_bound(i as int, rest as int);
        lemma_value_index_of_value_at(b, i / rest);
        lemma_repeat_index_of_repeat_value_at(b, (n - 1) as nat, i % rest);
        let ts = repeat_value_at(b, n, i);
        assert(ts[0] == value_at(b, i / rest));
        assert(ts.drop_first() =~= repeat_value_at(b, (n - 1) as nat, i % rest));
        lemma_fundamental_div_mod(i as int, rest as int);
        lemma_mul_is_commutative(rest as int, (i / rest) as int);
    }
}

/// `value_at` inverts `value_index`: every inhabitant stands at its own
/// index, which is in range.  Hence every inhabitant appears.
pub proof fn lemma_value_at_of_value_index(s: Shape, v: Val)
    requires
        inhabits(s, v),
    ensures
        value_index(s, v) < shape_card(s),
        value_at(s, value_index(s, v)) == v,
    decreases s, 0nat,
{
    match s {
        Shape::Empty => {},
        Shape::Singleton => {},
        Shape::Product(vs) => {
            lemma_prod_value_at_of_tuple_index(vs@, v->Record_0);
        },
        Shape::Sum(vs) => {
            lemma_sum_value_at_of_sum_index(vs@, v->Tagged_0, *v->Tagged_1);
        },
        Shape::Repeat(b, n) => {
            lemma_repeat_value_at_of_repeat_index(*b, n as nat, v->Record_0);
        },
    }
}

/// Product case of [`lemma_value_at_of_value_index`].
pub proof fn lemma_prod_value_at_of_tuple_index(ss: Seq<Shape>, ts: Seq<Val>)
    requires
        tuple_inhabits(ss, ts),
    ensures
        tuple_index(ss, ts) < prod_card(ss),
        prod_value_at(ss, tuple_index(ss, ts)) == ts,
    decreases ss, 0nat,
{
    if ss.len() == 0 {
        assert(prod_value_at(ss, tuple_index(ss, ts)) =~= ts);
    } else {
        let c0 = shape_card(ss[0]);
        let rest = prod_card(ss.drop_first());
        lemma_value_at_of_value_index(ss[0], ts[0]);
        lemma_prod_value_at_of_tuple_index(ss.drop_first(), ts.drop_first());
        let i0 = value_index(ss[0], ts[0]);
        let ir = tuple_index(ss.drop_first(), ts.drop_first());
        // i0 * rest + ir < c0 * rest
        lemma_mul_inequality(i0 as int, c0 as int - 1, rest as int);
        lemma_mul_is_distributive_sub_other_way(rest as int, c0 as int, 1);
        // division recovers the components
        lemma_fundamental_div_mod_converse(
            (i0 * rest + ir) as int,
            rest as int,
            i0 as int,
            ir as int,
        );
        assert(prod_value_at(ss, tuple_index(ss, ts)) =~= ts);
    }
}

/// Sum case of [`lemma_value_at_of_value_index`].
pub proof fn lemma_sum_value_at_of_sum_index(ss: Seq<Shape>, t: nat, x: Val)
    requires
        sum_inhabits(ss, t, x),
    ensures
        sum_index(ss, t, x) < sum_card(ss),
        sum_value_at(ss, sum_index(ss, t, x)) == Val::Tagged(t, Box::new(x)),
    decreases ss, 0nat,
{
    if t == 0 {
        lemma_value_at_of_value_index(ss[0], x);
    } else {
        lemma_sum_value_at_of_sum_index(ss.drop_first(), (t - 1) as nat, x);
    }
}

/// Repeat case of [`lemma_value_at_of_value_index`].
pub proof fn lemma_repeat_value_at_of_repeat_index(b: Shape, n: nat, ts: Seq<Val>)
    requires
        repeat_inhabits(b, n, ts),
    ensures
        repeat_index(b, n, ts) < pow_nat(shape_card(b), n),
        repeat_value_at(b, n, repeat_index(b, n, ts)) == ts,
    decreases b, n,
{
    if n == 0 {
        assert(repeat_value_at(b, n, repeat_index(b, n, ts)) =~= ts);
    } else {
        let cb = shape_card(b);
        let rest = pow_nat(cb, (n - 1) as nat);
        lemma_value_at_of_value_index(b, ts[0]);
        lemma_repeat_value_at_of_repeat_index(b, (n - 1) as nat, ts.drop_first());
        let i0 = value_index(b, ts[0]);
        let ir = repeat_index(b, (n - 1) as nat, ts.drop_first());
        lemma_mul_inequality(i0 as int, cb as int - 1, rest as int);
        lemma_mul_is_distributive_sub_other_way(rest as int, cb as int, 1);
        lemma_fundamental_div_mod_converse(
            (i0 * rest + ir) as int,
            rest as int,
            i0 as int,
            ir as int,
        );
        assert(repeat_value_at(b, n, repeat_index(b, n, ts)) =~= ts);
    }
}

/// Radixes that agree with the components' cardinalities multiply to the
/// product's cardinality.
pub proof fn lemma_radix_prod_eq_prod_card(ss: Seq<Shape>, rs: Seq<usize>)
    requires
        ss.len() == rs.len(),
        forall|k: int| 0 <= k < rs.len() ==> rs[k] as nat == shape_card(ss[k]),
    ensures
        radix_prod(rs) == prod_card(ss),
    decreases ss,
{
    if ss.len() > 0 {
        assert forall|k: int| 0 <= k < rs.drop_first().len() implies rs.drop_first()[k] as nat
            == shape_card(ss.drop_first()[k]) by {
            assert(rs.drop_first()[k] == rs[k + 1]);
            assert(ss.drop_first()[k] == ss[k + 1]);
        }
        lemma_radix_prod_eq_prod_card(ss.drop_first(), rs.drop_first());
    }
}

/// The component tuple at the linear index of a digit tuple reads one
/// component value per digit: digit `k` picks the value of component `k`.
pub proof fn lemma_prod_value_at_digits(ss: Seq<Shape>, ds: Seq<usize>, rs: Seq<usize>)
    requires
        ss.len() == rs.len(),
        ds.len() == rs.len(),
        forall|k: int| 0 <= k < rs.len() ==> rs[k] as nat == shape_card(ss[k]),
        forall|k: int| 0 <= k < rs.len() ==> ds[k] < rs[k],
    ensures
        linear_index(ds, rs) < prod_card(ss),
        prod_value_at(ss, linear_index(ds, rs)) == Seq::new(
            ss.len(),
            |k: int| value_at(ss[k], ds[k] as nat),
        ),
    decreases ss,
{
    lemma_radix_prod_eq_prod_card(ss, rs);
    lemma_linear_index_bound(ds, rs);
    if ss.len() == 0 {
        assert(prod_value_at(ss, linear_index(ds, rs)) =~= Seq::new(
            ss.len(),
            |k: int| value_at(ss[k], ds[k] as nat),
        ));
    } else {
        assert forall|k: int| 0 <= k < rs.drop_first().len() implies rs.drop_first()[k] as nat
            == shape_card(ss.drop_first()[k]) && ds.drop_first()[k] < rs.drop_first()[k] by {
            assert(rs.drop_first()[k] == rs[k + 1]);
            assert(ss.drop_first()[k] == ss[k + 1]);
            assert(ds.drop_first()[k] == ds[k + 1]);
        }
        lemma_prod_value_at_digits(ss.drop_first(), ds.drop_first(), rs.drop_first());
        lemma_radix_prod_eq_prod_card(ss.drop_first(), rs.drop_first());
        let rest = prod_card(ss.drop_first());
        let d0 = ds[0] as nat;
        let lr = linear_index(ds.drop_first(), rs.drop_first());
        lemma_linear_index_bound(ds.drop_first(), rs.drop_first());
        lemma_fundamental_div_mod_converse(
            (d0 * rest + lr) as int,
            rest as int,
            d0 as int,
            lr as int,
        );
        assert(prod_value_at(ss, linear_index(ds, rs)) =~= Seq::new(
            ss.len(),
            |k: int| value_at(ss[k], ds[k] as nat),
        ));
    }
}

/// A repeat has the cardinality of the product of equally many copies
/// of its component.
pub proof fn lemma_repeat_card_eq_prod(b: Shape, n: nat, ss: Seq<Shape>)
    requires
        ss.len() == n,
        forall|k: int| 0 <= k < ss.len() ==> ss[k] == b,
    ensures
        pow_nat(shape_card(b), n) == prod_card(ss),
    decreases n,
{
    if n > 0 {
        assert forall|k: int| 0 <= k < ss.drop_first().len() implies ss.drop_first()[k] == b by {
            assert(ss.drop_first()[k] == ss[k + 1]);
        }
        lemma_repeat_card_eq_prod(b, (n - 1) as nat, ss.drop_first());
        assert(ss[0] == b);
    }
}

/// A repeat is the product of equally many copies of its component: at
/// every index of the common range, both enumerate the same tuple.
pub proof fn lemma_repeat_value_at_eq_prod(b: Shape, n: nat, ss: Seq<Shape>, i: nat)
    requires
        ss.len() == n,
        forall|k: int| 0 <= k < ss.len() ==> ss[k] == b,
        i < pow_nat(shape_card(b), n),
    ensures
        repeat_value_at(b, n, i) == prod_value_at(ss, i),
    decreases n,
{
    lemma_repeat_card_eq_prod(b, n, ss);
    if n > 0 {
        assert forall|k: int| 0 <= k < ss.drop_first().len() implies ss.drop_first()[k] == b by {
            assert(ss.drop_first()[k] == ss[k + 1]);
        }
        let cb = shape_card(b);
        let rest = pow_nat(cb, (n - 1) as nat);
        if rest == 0 {
            lemma_mul_by_zero_is_zero(cb as int);
            assert(false);
        }
        lemma_mod_bound(i as int, rest as int);
        lemma_repeat_card_eq_prod(b, (n - 1) as nat, ss.drop_first());
        lemma_repeat_value_at_eq_prod(b, (n - 1) as nat, ss.drop_first(), i % rest);
        assert(ss[0] == b);
        assert(rest == prod_card(ss.drop_first()));
        assert(repeat_value_at(b, n, i) =~= prod_value_at(ss, i));
    } else {
        assert(repeat_value_at(b, n, i) =~= prod_value_at(ss, i));
    }
}

/// Where each alternative's block stands in a sum's enumeration: the
/// value at offset `j` inside block `k` is the `j`-th value of
/// alternative `k`, tagged with `k`.
pub proof fn lemma_sum_value_at_block(ss: Seq<Shape>, k: int, j: nat)
    requires
        0 <= k < ss.len(),
        j < shape_card(ss[k]),
    ensures
        sum_card(ss.take(k)) + j < sum_card(ss),
        sum_value_at(ss, (sum_card(ss.take(k)) + j) as nat) == Val::Tagged(
            k as nat,
            Box::new(value_at(ss[k], j)),
        ),
    decreases k,
{
    if k == 0 {
        assert(ss.take(0) =~= Seq::<Shape>::empty());
    } else {
        assert(ss.take(k)[0] == ss[0]);
        assert(ss.take(k).drop_first() =~= ss.drop_first().take(k - 1));
        assert(ss.drop_first()[k - 1] == ss[k]);
        lemma_sum_value_at_block(ss.drop_first(), k - 1, j);
    }
}

} // verus!
