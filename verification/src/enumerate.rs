//! The enumeration engine: materializing every value of a shape.
//!
//! [`materialize`] computes the complete enumeration of a shape as a
//! vector of [`Value`]s in the canonical order of
//! [`crate::order::shape_values`].  Products and repeats are filled by
//! generating the value of each linear index from its mixed-radix digit
//! tuple, into a buffer of write-once cells; sums concatenate their
//! alternatives' enumerations, each value tagged with its alternative's
//! position.  Cardinality overflow is detected up front, before any
//! value is constructed.

use vstd::prelude::*;

verus! {

use crate::buffer::{SlotBuffer, concat};
use crate::index::split_index;
use crate::order::{
    lemma_prod_value_at_digits,
    lemma_radix_prod_eq_prod_card,
    lemma_repeat_card_eq_prod,
    lemma_repeat_value_at_eq_prod,
    lemma_sum_value_at_block,
    prod_value_at,
    repeat_value_at,
    shape_values,
    sum_value_at,
    value_at,
};
use crate::shape::{
    Shape,
    cardinality,
    lemma_pow_nat_base_le,
    lemma_pow_nat_zero,
    lemma_prod_card_factor_le,
    lemma_prod_card_zero,
    lemma_sum_card_member_le,
    lemma_sum_card_take_unsnoc,
    prod_card,
    shape_card,
    sum_card,
};
use crate::value::{Val, Value, lemma_models_of, model_of, models_of};

/// Fills the enumeration of a product whose components' enumerations
/// are given: the value at linear index `i` is the record of the
/// component values picked by the mixed-radix digits of `i`.
#[verifier::loop_isolation(false)]
fn materialize_tuples(children: &Vec<Vec<Value>>, total: usize, ss: Ghost<Seq<Shape>>) -> (r: Vec<
    Value,
>)
    requires
        children@.len() == ss@.len(),
        forall|k: int|
            0 <= k < children@.len() ==> models_of(children@[k]@) == shape_values(ss@[k]),
        total as nat == prod_card(ss@),
    ensures
        r@.len() == total,
        forall|i: int|
            0 <= i < total ==> model_of(r@[i]) == Val::Record(prod_value_at(ss@, i as nat)),
{
    let n = children.len();
    proof {
        assert forall|k: int| 0 <= k < n implies children@[k]@.len() == shape_card(ss@[k]) by {
            lemma_models_of(children@[k]@);
        }
    }
    let mut radixes: Vec<usize> = Vec::new();
    let mut k: usize = 0;
    while k < n
        invariant
            k <= n,
            radixes@.len() == k,
            forall|m: int| 0 <= m < k ==> radixes@[m] == children@[m]@.len(),
        decreases n - k,
    {
        radixes.push(children[k].len());
        k += 1;
    }
    proof {
        assert forall|m: int| 0 <= m < n implies radixes@[m] as nat == shape_card(ss@[m]) by {
            lemma_models_of(children@[m]@);
        }
        lemma_radix_prod_eq_prod_card(ss@, radixes@);
    }
    let mut buf: SlotBuffer<Value> = SlotBuffer::new(total);
    let mut i: usize = 0;
    while i < total
        invariant
            buf@.len() == total,
            i <= total,
            forall|j: int|
                0 <= j < i ==> buf@[j] is Some && model_of(buf@[j]->Some_0) == Val::Record(
                    prod_value_at(ss@, j as nat),
                ),
            forall|j: int| i <= j < total ==> buf@[j] is None,
        decreases total - i,
    {
        let digits = split_index(i, &radixes);
        let mut comps: Vec<Value> = Vec::new();
        let mut c: usize = 0;
        while c < n
            invariant
                c <= n,
                comps@.len() == c,
                digits@.len() == n,
                forall|m: int| 0 <= m < n ==> digits@[m] < radixes@[m],
                forall|m: int|
                    0 <= m < c ==> model_of(comps@[m]) == value_at(ss@[m], digits@[m] as nat),
            decreases n - c,
        {
            proof {
                lemma_models_of(children@[c as int]@);
                let d = digits@[c as int] as int;
                assert(models_of(children@[c as int]@)[d] == model_of(children@[c as int]@[d]));
                assert(shape_values(ss@[c as int])[d] == value_at(ss@[c as int], d as nat));
            }
            let d = digits[c];
            let v = children[c][d].clone();
            comps.push(v);
            c += 1;
        }
        proof {
            lemma_models_of(comps@);
            lemma_prod_value_at_digits(ss@, digits@, radixes@);
            assert(models_of(comps@) =~= prod_value_at(ss@, i as nat));
        }
        buf.write(i, Value::Record(comps));
        i += 1;
    }
    let ghost cells = buf@;
    let r = buf.reinterpret();
    proof {
        assert forall|j: int| 0 <= j < total implies model_of(r@[j]) == Val::Record(
            prod_value_at(ss@, j as nat),
        ) by {
            assert(cells[j] == Some(r@[j]));
        }
    }
    r
}

/// Materializes the complete enumeration of `s`: every value of the
/// shape, exactly once, in canonical order — element `i` of the result
/// models `shape_values(s)[i]`.  Returns `None` exactly when the
/// cardinality does not fit in `usize`; the overflow is found before
/// any buffer is allocated, and an uninhabited product component
/// short-circuits to the empty enumeration without materializing the
/// other components.
#[verifier::loop_isolation(false)]
pub fn materialize(s: &Shape) -> (r: Option<Vec<Value>>)
    ensures
        (r is Some) <==> shape_card(*s) <= usize::MAX,
        r matches Some(vals) ==> models_of(vals@) == shape_values(*s),
        r matches Some(vals) ==> vals@.len() == shape_card(*s),
    decreases *s,
{
    let total = match cardinality(s) {
        Some(t) => t,
        None => {
            return None;
        },
    };
    match s {
        Shape::Empty => {
            let out: Vec<Value> = Vec::new();
            proof {
                assert(models_of(out@) =~= shape_values(*s));
            }
            Some(out)
        },
        Shape::Singleton => {
            let mut out: Vec<Value> = Vec::new();
            out.push(Value::Unit);
            proof {
                lemma_models_of(out@);
                assert(models_of(out@) =~= shape_values(*s));
            }
            Some(out)
        },
        Shape::Product(vs) => {
            if total == 0 {
                let out: Vec<Value> = Vec::new();
                proof {
                    assert(models_of(out@) =~= shape_values(*s));
                }
                return Some(out);
            }
            proof {
                lemma_prod_card_zero(vs@);
                assert forall|m: int| 0 <= m < vs@.len() implies shape_card(vs@[m]) >= 1 by {
                    if shape_card(vs@[m]) == 0 {
                        assert(exists|k: int| 0 <= k < vs@.len() && shape_card(vs@[k]) == 0);
                    }
                }
            }
            let mut children: Vec<Vec<Value>> = Vec::new();
            let mut k: usize = 0;
            while k < vs.len()
                invariant
                    k <= vs@.len(),
                    children@.len() == k,
                    forall|m: int| 0 <= m < k ==> models_of(children@[m]@) == shape_values(vs@[m]),
                decreases vs@.len() - k,
            {
                proof {
                    lemma_prod_card_factor_le(vs@, k as int);
                }
                let child = match materialize(&vs[k]) {
                    Some(c) => c,
                    None => {
                        proof {
                            assert(false);
                        }
                        return None;
                    },
                };
                children.push(child);
                k += 1;
            }
            let r = materialize_tuples(&children, total, Ghost(vs@));
            proof {
                lemma_models_of(r@);
                assert(models_of(r@) =~= shape_values(*s));
            }
            Some(r)
        },
        Shape::Sum(vs) => {
            let ghost all = vs@;
            let mut out: Vec<Value> = Vec::new();
            let mut k: usize = 0;
            while k < vs.len()
                invariant
                    k <= all.len(),
                    out@.len() == sum_card(all.take(k as int)),
                    forall|m: int|
                        0 <= m < out@.len() ==> model_of(out@[m]) == sum_value_at(all, m as nat),
                decreases all.len() - k,
            {
                proof {
                    lemma_sum_card_member_le(all, k as int);
                }
                let child = match materialize(&vs[k]) {
                    Some(c) => c,
                    None => {
                        proof {
                            assert(false);
                        }
                        return None;
                    },
                };
                proof {
                    lemma_models_of(child@);
                }
                let ghost base = sum_card(all.take(k as int));
                let mut tagged: Vec<Value> = Vec::new();
                let mut j: usize = 0;
                while j < child.len()
                    invariant
                        j <= child@.len(),
                        tagged@.len() == j,
                        models_of(child@) == shape_values(all[k as int]),
                        forall|m: int|
                            0 <= m < j ==> model_of(tagged@[m]) == sum_value_at(
                                all,
                                (base + m) as nat,
                            ),
                    decreases child@.len() - j,
                {
                    let v = child[j].clone();
                    proof {
                        lemma_models_of(child@);
                        lemma_sum_value_at_block(all, k as int, j as nat);
                        assert(models_of(child@)[j as int] == model_of(child@[j as int]));
                        assert(shape_values(all[k as int])[j as int] == value_at(
                            all[k as int],
                            j as nat,
                        ));
                        assert(model_of(v) == value_at(all[k as int], j as nat));
                        assert(model_of(Value::Tagged(k, Box::new(v))) == Val::Tagged(
                            k as nat,
                            Box::new(model_of(v)),
                        ));
                    }
                    tagged.push(Value::Tagged(k, Box::new(v)));
                    j += 1;
                }
                proof {
                    lemma_sum_card_take_unsnoc(all, k as int);
                }
                out = concat(out, tagged);
                k += 1;
            }
            proof {
                assert(all.take(all.len() as int) =~= all);
                lemma_models_of(out@);
                assert(models_of(out@) =~= shape_values(*s));
            }
            Some(out)
        },
        Shape::Repeat(b, n) => {
            if total == 0 {
                let out: Vec<Value> = Vec::new();
                proof {
                    assert(models_of(out@) =~= shape_values(*s));
                }
                return Some(out);
            }
            if *n == 0 {
                let mut out: Vec<Value> = Vec::new();
                out.push(Value::Record(Vec::new()));
                proof {
                    lemma_models_of(out@);
                    assert(model_of(out@[0]) == Val::Record(models_of(Seq::<Value>::empty())));
                    assert(value_at(*s, 0) == Val::Record(repeat_value_at(**b, 0, 0)));
                    assert(models_of(out@) =~= shape_values(*s));
                }
                return Some(out);
            }
            proof {
                lemma_pow_nat_zero(shape_card(**b), *n as nat);
                lemma_pow_nat_base_le(shape_card(**b), *n as nat);
            }
            let child = match materialize(b) {
                Some(c) => c,
                None => {
                    proof {
                        assert(false);
                    }
                    return None;
                },
            };
            let ghost ss_rep = Seq::new(*n as nat, |q: int| **b);
            let mut children: Vec<Vec<Value>> = Vec::new();
            let mut k: usize = 0;
            while k < *n
                invariant
                    k <= *n,
                    children@.len() == k,
                    models_of(child@) == shape_values(**b),
                    forall|m: int| 0 <= m < k ==> models_of(children@[m]@) == shape_values(**b),
                decreases *n - k,
            {
                let cc = child.clone();
                proof {
                    lemma_models_of(cc@);
                    lemma_models_of(child@);
                    assert forall|m: int| 0 <= m < child@.len() implies model_of(cc@[m])
                        == model_of(child@[m]) by {
                        assert(cloned::<Value>(child@[m], cc@[m]));
                    }
                    assert(models_of(cc@) =~= models_of(child@));
                }
                children.push(cc);
                k += 1;
            }
            proof {
                lemma_repeat_card_eq_prod(**b, *n as nat, ss_rep);
            }
            let r = materialize_tuples(&children, total, Ghost(ss_rep));
            proof {
                lemma_models_of(r@);
                assert forall|i: int| 0 <= i < total implies model_of(r@[i]) == value_at(
                    *s,
                    i as nat,
                ) by {
                    lemma_repeat_value_at_eq_prod(**b, *n as nat, ss_rep, i as nat);
                }
                assert(models_of(r@) =~= shape_values(*s));
            }
            Some(r)
        },
    }
}

} // verus!
