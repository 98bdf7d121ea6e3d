//! The laws of the enumeration, stated over the spec-level model.
//!
//! Each proof function here is a public statement of one property of
//! [`crate::order::shape_values`]: its length is the cardinality, its
//! elements are pairwise distinct, it contains every inhabitant and
//! nothing else, sums concatenate their alternatives' blocks in order,
//! a repeat enumerates exactly as the product of equally many copies,
//! an uninhabited component empties a product, and the enumeration is
//! a pure function of the shape.

use vstd::prelude::*;

verus! {

use crate::order::{
    lemma_repeat_card_eq_prod,
    lemma_repeat_value_at_eq_prod,
    lemma_sum_value_at_block,
    lemma_value_at_inhabits,
    lemma_value_at_of_value_index,
    lemma_value_index_of_value_at,
    shape_values,
    value_index,
};
use crate::shape::{Shape, lemma_prod_card_zero, lemma_sum_card_zero, shape_card, sum_card};
use crate::value::{Val, inhabits};

/// Cardinality correctness: the enumeration of a shape has exactly
/// `shape_card(s)` elements.
pub proof fn lemma_enumeration_length(s: Shape)
    ensures
        shape_values(s).len() == shape_card(s),
{
}

/// Uniqueness: the elements of the enumeration are pairwise distinct —
/// no value appears twice.
pub proof fn lemma_enumeration_unique(s: Shape)
    ensures
        shape_values(s).no_duplicates(),
{
    assert forall|i: int, j: int|
        0 <= i < shape_values(s).len() && 0 <= j < shape_values(s).len() && i != j implies
        shape_values(s)[i] != shape_values(s)[j] by {
        lemma_value_index_of_value_at(s, i as nat);
        lemma_value_index_of_value_at(s, j as nat);
    }
}

/// Soundness: every element of the enumeration is an inhabitant of the
/// shape.
pub proof fn lemma_enumeration_sound(s: Shape, i: int)
    requires
        0 <= i < shape_values(s).len(),
    ensures
        inhabits(s, shape_values(s)[i]),
{
    lemma_value_at_inhabits(s, i as nat);
}

/// Completeness: every inhabitant of the shape appears in the
/// enumeration — together with uniqueness, exactly once.
pub proof fn lemma_enumeration_complete(s: Shape, v: Val)
    requires
        inhabits(s, v),
    ensures
        shape_values(s).contains(v),
{
    lemma_value_at_of_value_index(s, v);
    assert(shape_values(s)[value_index(s, v) as int] == v);
}

/// Sum ordering: the enumeration of a sum is the concatenation of its
/// alternatives' enumerations in declaration order.  The value at
/// offset `j` inside alternative `k`'s block is the `j`-th value of
/// alternative `k`, tagged with `k`; the block starts after all the
/// cardinalities of the alternatives before `k`.
pub proof fn lemma_sum_ordering(vs: Vec<Shape>, k: int, j: int)
    requires
        0 <= k < vs@.len(),
        0 <= j < shape_card(vs@[k]),
    ensures
        sum_card(vs@.take(k)) + j < shape_card(Shape::Sum(vs)),
        shape_values(Shape::Sum(vs))[sum_card(vs@.take(k)) + j] == Val::Tagged(
            k as nat,
            Box::new(shape_values(vs@[k])[j]),
        ),
{
    lemma_sum_value_at_block(vs@, k, j as nat);
    lemma_value_at_inhabits(vs@[k], j as nat);
}

/// Repeat law: a repeat of `n` copies of `b` has the same cardinality
/// and the same enumeration, element for element, as a product of `n`
/// components equal to `b`.
pub proof fn lemma_repeat_is_product(b: Shape, n: usize, vs: Vec<Shape>)
    requires
        vs@.len() == n,
        forall|k: int| 0 <= k < vs@.len() ==> vs@[k] == b,
    ensures
        shape_card(Shape::Repeat(Box::new(b), n)) == shape_card(Shape::Product(vs)),
        shape_values(Shape::Repeat(Box::new(b), n)) == shape_values(Shape::Product(vs)),
{
    let rep = Shape::Repeat(Box::new(b), n);
    let prod = Shape::Product(vs);
    lemma_repeat_card_eq_prod(b, n as nat, vs@);
    assert forall|i: int| 0 <= i < shape_values(rep).len() implies shape_values(rep)[i]
        == shape_values(prod)[i] by {
        lemma_repeat_value_at_eq_prod(b, n as nat, vs@, i as nat);
    }
    assert(shape_values(rep) =~= shape_values(prod));
}

/// Uninhabited propagation, product case: one component without values
/// leaves the whole product without values, and its enumeration empty.
pub proof fn lemma_uninhabited_product(vs: Vec<Shape>, k: int)
    requires
        0 <= k < vs@.len(),
        shape_card(vs@[k]) == 0,
    ensures
        shape_card(Shape::Product(vs)) == 0,
        shape_values(Shape::Product(vs)) == Seq::<Val>::empty(),
{
    lemma_prod_card_zero(vs@);
    assert(shape_values(Shape::Product(vs)) =~= Seq::<Val>::empty());
}

/// Uninhabited propagation, sum case: a sum of alternatives that all
/// lack values lacks values itself, and its enumeration is empty.
pub proof fn lemma_uninhabited_sum(vs: Vec<Shape>)
    requires
        forall|k: int| 0 <= k < vs@.len() ==> shape_card(vs@[k]) == 0,
    ensures
        shape_card(Shape::Sum(vs)) == 0,
        shape_values(Shape::Sum(vs)) == Seq::<Val>::empty(),
{
    lemma_sum_card_zero(vs@);
    assert(shape_values(Shape::Sum(vs)) =~= Seq::<Val>::empty());
}

/// Idempotence: the enumeration is a pure function of the shape, so two
/// results of materializing equal shapes agree element for element.
pub proof fn lemma_enumeration_deterministic(s: Shape, a: Seq<Val>, b: Seq<Val>)
    requires
        a == shape_values(s),
        b == shape_values(s),
    ensures
        a.len() == b.len(),
        forall|i: int| 0 <= i < a.len() ==> a[i] == b[i],
{
}

} // verus!
