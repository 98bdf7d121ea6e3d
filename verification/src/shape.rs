//! Shapes of finite types and the cardinality algebra.
//!
//! A [`Shape`] is a structural description of a finite type.  The spec
//! function [`shape_card`] assigns each shape its cardinality: the number of
//! distinct values that inhabit it.  The executable [`cardinality`] computes
//! the same number, detecting overflow of `usize` instead of wrapping, and
//! [`is_uninhabited`] decides whether the cardinality is zero without any
//! arithmetic that could overflow.

use vstd::prelude::*;

verus! {

use vstd::arithmetic::mul::{
    lemma_mul_basics,
    lemma_mul_by_zero_is_zero,
    lemma_mul_inequality,
    lemma_mul_is_commutative,
    lemma_mul_nonzero,
    lemma_mul_strictly_positive,
};

broadcast use vstd::std_specs::vec::axiom_vec_index_decreases;

/// Structural description of a finite type.
///
/// The cardinality of each variant:
/// - `Empty` has no values,
/// - `Singleton` has exactly one value,
/// - `Product(components)` has one value per combination of one value from
///   each component (an empty product has one value),
/// - `Sum(alternatives)` has one value per value of each alternative, tagged
///   by the alternative it came from (an empty sum has no values),
/// - `Repeat(component, count)` behaves as a product of `count` equal
///   components.
#[derive(Debug, PartialEq, Eq)]
pub enum Shape {
    Empty,
    Singleton,
    Product(Vec<Shape>),
    Sum(Vec<Shape>),
    Repeat(Box<Shape>, usize),
}

/// `base` raised to `exp`, over naturals.
pub open spec fn pow_nat(base: nat, exp: nat) -> nat
    decreases exp,
{
    if exp == 0 {
        1
    } else {
        base * pow_nat(base, (exp - 1) as nat)
    }
}

/// Cardinality of a shape: how many distinct values inhabit it.
pub open spec fn shape_card(s: Shape) -> nat
    decreases s,
{
    match s {
        Shape::Empty => 0,
        Shape::Singleton => 1,
        Shape::Product(vs) => prod_card(vs@),
        Shape::Sum(vs) => sum_card(vs@),
        Shape::Repeat(b, n) => pow_nat(shape_card(*b), n as nat),
    }
}

/// Product of the cardinalities of a list of shapes; 1 for the empty list.
pub open spec fn prod_card(ss: Seq<Shape>) -> nat
    decreases ss,
{
    if ss.len() == 0 {
        1
    } else {
        shape_card(ss[0]) * prod_card(ss.drop_first())
    }
}

/// Sum of the cardinalities of a list of shapes; 0 for the empty list.
pub open spec fn sum_card(ss: Seq<Shape>) -> nat
    decreases ss,
{
    if ss.len() == 0 {
        0
    } else {
        shape_card(ss[0]) + sum_card(ss.drop_first())
    }
}

/// A product of cardinalities is zero exactly when some factor is zero.
pub proof fn lemma_prod_card_zero(ss: Seq<Shape>)
    ensures
        (prod_card(ss) == 0) <==> (exists|k: int| 0 <= k < ss.len() && shape_card(ss[k]) == 0),
    decreases ss,
{
    if ss.len() == 0 {
    } else {
        lemma_prod_card_zero(ss.drop_first());
        if shape_card(ss[0]) == 0 {
            lemma_mul_by_zero_is_zero(prod_card(ss.drop_first()) as int);
            assert(shape_card(ss[0]) == 0 && 0 < ss.len());
        } else if prod_card(ss.drop_first()) == 0 {
            lemma_mul_by_zero_is_zero(shape_card(ss[0]) as int);
            let k = choose|k: int|
                0 <= k < ss.drop_first().len() && shape_card(ss.drop_first()[k]) == 0;
            assert(shape_card(ss[k + 1]) == 0);
        } else {
            lemma_mul_nonzero(shape_card(ss[0]) as int, prod_card(ss.drop_first()) as int);
            assert forall|k: int| 0 <= k < ss.len() implies shape_card(ss[k]) != 0 by {
                if k > 0 {
                    assert(shape_card(ss.drop_first()[k - 1]) != 0);
                }
            }
        }
    }
}

/// A sum of cardinalities is zero exactly when every summand is zero.
pub proof fn lemma_sum_card_zero(ss: Seq<Shape>)
    ensures
        (sum_card(ss) == 0) <==> (forall|k: int| 0 <= k < ss.len() ==> shape_card(ss[k]) == 0),
    decreases ss,
{
    if ss.len() == 0 {
    } else {
        lemma_sum_card_zero(ss.drop_first());
        if sum_card(ss) == 0 {
            assert forall|k: int| 0 <= k < ss.len() implies shape_card(ss[k]) == 0 by {
                if k > 0 {
                    assert(shape_card(ss.drop_first()[k - 1]) == 0);
                }
            }
        } else if shape_card(ss[0]) != 0 {
        } else {
            let k = choose|k: int|
                0 <= k < ss.drop_first().len() && shape_card(ss.drop_first()[k]) != 0;
            assert(shape_card(ss[k + 1]) != 0);
        }
    }
}

/// A power is zero exactly when the base is zero and the exponent positive.
pub proof fn lemma_pow_nat_zero(base: nat, exp: nat)
    ensures
        (pow_nat(base, exp) == 0) <==> (base == 0 && exp > 0),
    decreases exp,
{
    if exp > 0 {
        lemma_pow_nat_zero(base, (exp - 1) as nat);
        if base == 0 {
            lemma_mul_by_zero_is_zero(pow_nat(base, (exp - 1) as nat) as int);
        } else {
            lemma_mul_nonzero(base as int, pow_nat(base, (exp - 1) as nat) as int);
        }
    }
}

/// A product of positive cardinalities is positive.
pub proof fn lemma_prod_card_pos(ss: Seq<Shape>)
    requires
        forall|k: int| 0 <= k < ss.len() ==> shape_card(ss[k]) >= 1,
    ensures
        prod_card(ss) >= 1,
    decreases ss,
{
    if ss.len() > 0 {
        assert forall|k: int| 0 <= k < ss.drop_first().len() implies shape_card(
            ss.drop_first()[k],
        ) >= 1 by {
            assert(ss.drop_first()[k] == ss[k + 1]);
        }
        lemma_prod_card_pos(ss.drop_first());
        lemma_mul_strictly_positive(shape_card(ss[0]) as int, prod_card(ss.drop_first()) as int);
    }
}

/// A power of a positive base is positive.
pub proof fn lemma_pow_nat_pos(base: nat, exp: nat)
    requires
        base >= 1,
    ensures
        pow_nat(base, exp) >= 1,
    decreases exp,
{
    if exp > 0 {
        lemma_pow_nat_pos(base, (exp - 1) as nat);
        lemma_mul_strictly_positive(base as int, pow_nat(base, (exp - 1) as nat) as int);
    }
}

/// Peeling the element at `k` off the suffix product starting at `k`.
pub proof fn lemma_prod_card_skip_unfold(ss: Seq<Shape>, k: int)
    requires
        0 <= k < ss.len(),
    ensures
        prod_card(ss.skip(k)) == shape_card(ss[k]) * prod_card(ss.skip(k + 1)),
{
    assert(ss.skip(k)[0] == ss[k]);
    assert(ss.skip(k).drop_first() =~= ss.skip(k + 1));
}

/// Peeling the element at `k` off the suffix sum starting at `k`.
pub proof fn lemma_sum_card_skip_unfold(ss: Seq<Shape>, k: int)
    requires
        0 <= k < ss.len(),
    ensures
        sum_card(ss.skip(k)) == shape_card(ss[k]) + sum_card(ss.skip(k + 1)),
{
    assert(ss.skip(k)[0] == ss[k]);
    assert(ss.skip(k).drop_first() =~= ss.skip(k + 1));
}

/// Each factor of a product of positive cardinalities is at most the
/// product.
pub proof fn lemma_prod_card_factor_le(ss: Seq<Shape>, k: int)
    requires
        0 <= k < ss.len(),
        forall|j: int| 0 <= j < ss.len() ==> shape_card(ss[j]) >= 1,
    ensures
        shape_card(ss[k]) <= prod_card(ss),
    decreases ss,
{
    assert forall|j: int| 0 <= j < ss.drop_first().len() implies shape_card(
        ss.drop_first()[j],
    ) >= 1 by {
        assert(ss.drop_first()[j] == ss[j + 1]);
    }
    lemma_prod_card_pos(ss.drop_first());
    let rest = prod_card(ss.drop_first());
    let c0 = shape_card(ss[0]);
    if k == 0 {
        lemma_mul_inequality(1, rest as int, c0 as int);
        lemma_mul_is_commutative(rest as int, c0 as int);
    } else {
        assert(ss.drop_first()[k - 1] == ss[k]);
        lemma_prod_card_factor_le(ss.drop_first(), k - 1);
        lemma_mul_inequality(1, c0 as int, rest as int);
    }
}

/// Each summand of a sum of cardinalities is at most the sum.
pub proof fn lemma_sum_card_member_le(ss: Seq<Shape>, k: int)
    requires
        0 <= k < ss.len(),
    ensures
        shape_card(ss[k]) <= sum_card(ss),
    decreases ss,
{
    if k > 0 {
        assert(ss.drop_first()[k - 1] == ss[k]);
        lemma_sum_card_member_le(ss.drop_first(), k - 1);
    }
}

/// A positive base is at most any positive power of itself.
pub proof fn lemma_pow_nat_base_le(base: nat, exp: nat)
    requires
        base >= 1,
        exp >= 1,
    ensures
        base <= pow_nat(base, exp),
{
    lemma_pow_nat_pos(base, (exp - 1) as nat);
    lemma_mul_inequality(1, pow_nat(base, (exp - 1) as nat) as int, base as int);
    lemma_mul_is_commutative(pow_nat(base, (exp - 1) as nat) as int, base as int);
}

/// Extending a prefix sum of cardinalities by the element at `k`.
pub proof fn lemma_sum_card_take_unsnoc(ss: Seq<Shape>, k: int)
    requires
        0 <= k < ss.len(),
    ensures
        sum_card(ss.take(k + 1)) == sum_card(ss.take(k)) + shape_card(ss[k]),
    decreases k,
{
    if k == 0 {
        assert(ss.take(0) =~= Seq::<Shape>::empty());
        assert(ss.take(1)[0] == ss[0]);
        assert(ss.take(1).drop_first() =~= Seq::<Shape>::empty());
    } else {
        assert(ss.take(k + 1)[0] == ss[0]);
        assert(ss.take(k + 1).drop_first() =~= ss.drop_first().take(k));
        assert(ss.take(k)[0] == ss[0]);
        assert(ss.take(k).drop_first() =~= ss.drop_first().take(k - 1));
        assert(ss.drop_first()[k - 1] == ss[k]);
        lemma_sum_card_take_unsnoc(ss.drop_first(), k - 1);
    }
}

/// Decides whether a shape has no values at all.
///
/// Unlike [`cardinality`] this cannot overflow, so it answers for every
/// shape, however large its cardinality.
#[verifier::loop_isolation(false)]
pub fn is_uninhabited(s: &Shape) -> (r: bool)
    ensures
        r <==> (shape_card(*s) == 0),
    decreases *s,
{
    match s {
        Shape::Empty => true,
        Shape::Singleton => false,
        Shape::Product(vs) => {
            let mut k: usize = 0;
            while k < vs.len()
                invariant
                    k <= vs@.len(),
                    forall|j: int| 0 <= j < k ==> shape_card(vs@[j]) != 0,
                decreases vs@.len() - k,
            {
                if is_uninhabited(&vs[k]) {
                    proof {
                        lemma_prod_card_zero(vs@);
                    }
                    return true;
                }
                k += 1;
            }
            proof {
                lemma_prod_card_zero(vs@);
            }
            false
        },
        Shape::Sum(vs) => {
            let mut k: usize = 0;
            while k < vs.len()
                invariant
                    k <= vs@.len(),
                    forall|j: int| 0 <= j < k ==> shape_card(vs@[j]) == 0,
                decreases vs@.len() - k,
            {
                if !is_uninhabited(&vs[k]) {
                    proof {
                        lemma_sum_card_zero(vs@);
                    }
                    return false;
                }
                k += 1;
            }
            proof {
                lemma_sum_card_zero(vs@);
            }
            true
        },
        Shape::Repeat(b, n) => {
            if *n == 0 {
                false
            } else {
                let r = is_uninhabited(b);
                proof {
                    lemma_pow_nat_zero(shape_card(**b), *n as nat);
                }
                r
            }
        },
    }
}

/// Cardinality of a shape, as a machine integer.
///
/// Returns `None` exactly when the cardinality does not fit in `usize`;
/// the overflow is detected before any value is constructed, never wrapped.
/// A product with an uninhabited component is recognized as empty without
/// computing the other components' cardinalities.
#[verifier::loop_isolation(false)]
#[verifier::rlimit(50)]
pub fn cardinality(s: &Shape) -> (r: Option<usize>)
    ensures
        (r is Some) <==> shape_card(*s) <= usize::MAX,
        r matches Some(n) ==> n as nat == shape_card(*s),
    decreases *s,
{
    match s {
        Shape::Empty => Some(0),
        Shape::Singleton => Some(1),
        Shape::Product(vs) => {
            let mut k: usize = 0;
            while k < vs.len()
                invariant
                    k <= vs@.len(),
                    forall|j: int| 0 <= j < k ==> shape_card(vs@[j]) >= 1,
                decreases vs@.len() - k,
            {
                if is_uninhabited(&vs[k]) {
                    proof {
                        lemma_prod_card_zero(vs@);
                    }
                    return Some(0);
                }
                k += 1;
            }
            let ghost all = vs@;
            proof {
                assert(all.skip(0) =~= all);
            }
            let mut acc: usize = 1;
            let mut j: usize = 0;
            while j < vs.len()
                invariant
                    j <= all.len(),
                    vs@ == all,
                    forall|m: int| 0 <= m < all.len() ==> shape_card(all[m]) >= 1,
                    acc >= 1,
                    acc * prod_card(all.skip(j as int)) == prod_card(all),
                decreases all.len() - j,
            {
                proof {
                    lemma_prod_card_skip_unfold(all, j as int);
                    assert forall|m: int| 0 <= m < all.skip(j + 1).len() implies shape_card(
                        #[trigger] all.skip(j + 1)[m],
                    ) >= 1 by {
                        assert(all.skip(j + 1)[m] == all[m + j + 1]);
                    }
                    lemma_prod_card_pos(all.skip(j + 1));
                }
                let c = match cardinality(&vs[j]) {
                    Some(c) => c,
                    None => {
                        proof {
                            let rest = prod_card(all.skip(j as int + 1));
                            lemma_mul_inequality(1, acc as int, prod_card(all.skip(j as int)) as int);
                            lemma_mul_inequality(
                                1,
                                rest as int,
                                shape_card(all[j as int]) as int,
                            );
                            lemma_mul_is_commutative(rest as int, shape_card(all[j as int]) as int);
                        }
                        return None;
                    },
                };
                let acc2 = match acc.checked_mul(c) {
                    Some(a) => a,
                    None => {
                        proof {
                            let rest = prod_card(all.skip(j as int + 1));
                            vstd::arithmetic::mul::lemma_mul_is_associative(
                                acc as int,
                                c as int,
                                rest as int,
                            );
                            lemma_mul_inequality(1, rest as int, (acc * c) as int);
                            lemma_mul_is_commutative(rest as int, (acc * c) as int);
                        }
                        return None;
                    },
                };
                proof {
                    vstd::arithmetic::mul::lemma_mul_is_associative(
                        acc as int,
                        c as int,
                        prod_card(all.skip(j as int + 1)) as int,
                    );
                    lemma_mul_strictly_positive(acc as int, c as int);
                }
                acc = acc2;
                j += 1;
            }
            proof {
                assert(all.skip(all.len() as int) =~= Seq::<Shape>::empty());
                lemma_mul_basics(acc as int);
            }
            Some(acc)
        },
        Shape::Sum(vs) => {
            let ghost all = vs@;
            proof {
                assert(all.skip(0) =~= all);
            }
            let mut acc: usize = 0;
            let mut j: usize = 0;
            while j < vs.len()
                invariant
                    j <= all.len(),
                    vs@ == all,
                    acc + sum_card(all.skip(j as int)) == sum_card(all),
                decreases all.len() - j,
            {
                proof {
                    lemma_sum_card_skip_unfold(all, j as int);
                }
                let c = match cardinality(&vs[j]) {
                    Some(c) => c,
                    None => {
                        return None;
                    },
                };
                let acc2 = match acc.checked_add(c) {
                    Some(a) => a,
                    None => {
                        return None;
                    },
                };
                acc = acc2;
                j += 1;
            }
            proof {
                assert(all.skip(all.len() as int) =~= Seq::<Shape>::empty());
            }
            Some(acc)
        },
        Shape::Repeat(b, n) => {
            if *n == 0 {
                return Some(1);
            }
            if is_uninhabited(b) {
                proof {
                    lemma_pow_nat_zero(shape_card(**b), *n as nat);
                }
                return Some(0);
            }
            let ghost cb = shape_card(**b);
            let c = match cardinality(b) {
                Some(c) => c,
                None => {
                    proof {
                        lemma_pow_nat_pos(cb, (*n - 1) as nat);
                        lemma_mul_inequality(1, pow_nat(cb, (*n - 1) as nat) as int, cb as int);
                        lemma_mul_is_commutative(pow_nat(cb, (*n - 1) as nat) as int, cb as int);
                    }
                    return None;
                },
            };
            let mut acc: usize = 1;
            let mut j: usize = 0;
            while j < *n
                invariant
                    j <= *n,
                    c as nat == cb,
                    cb >= 1,
                    acc >= 1,
                    acc * pow_nat(cb, (*n - j) as nat) == pow_nat(cb, *n as nat),
                decreases *n - j,
            {
                proof {
                    lemma_pow_nat_pos(cb, (*n - j - 1) as nat);
                    assert(pow_nat(cb, (*n - j) as nat) == cb * pow_nat(cb, (*n - j - 1) as nat));
                }
                let acc2 = match acc.checked_mul(c) {
                    Some(a) => a,
                    None => {
                        proof {
                            let rest = pow_nat(cb, (*n - j - 1) as nat);
                            vstd::arithmetic::mul::lemma_mul_is_associative(
                                acc as int,
                                c as int,
                                rest as int,
                            );
                            lemma_mul_inequality(1, rest as int, (acc * c) as int);
                            lemma_mul_is_commutative(rest as int, (acc * c) as int);
                        }
                        return None;
                    },
                };
                proof {
                    vstd::arithmetic::mul::lemma_mul_is_associative(
                        acc as int,
                        c as int,
                        pow_nat(cb, (*n - j - 1) as nat) as int,
                    );
                    lemma_mul_strictly_positive(acc as int, c as int);
                }
                acc = acc2;
                j += 1;
            }
            proof {
                lemma_mul_basics(acc as int);
            }
            Some(acc)
        },
    }
}

} // verus!
