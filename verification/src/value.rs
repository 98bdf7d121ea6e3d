//! Materialized values of a shape, and their mathematical model.
//!
//! A [`Value`] is one inhabitant of a [`crate::shape::Shape`]: the unit value
//! for a singleton, a record of component values for a product or repeat, or
//! a payload tagged with its alternative's position for a sum.  Contracts
//! speak about values through the ghost model [`Val`], where a record is a
//! `Seq` instead of a `Vec`; [`model_of`] maps one to the other.  The spec
//! predicate [`inhabits`] says which values belong to which shape.

use vstd::prelude::*;

verus! {

use crate::shape::Shape;

/// One fully constructed value of a shape.
#[derive(Debug, PartialEq, Eq)]
pub enum Value {
    /// The only value of a `Singleton` shape.
    Unit,
    /// A value of a `Product` or `Repeat` shape: one value per component,
    /// in component order.
    Record(Vec<Value>),
    /// A value of a `Sum` shape: the position of the alternative it belongs
    /// to, and a value of that alternative.
    Tagged(usize, Box<Value>),
}

/// The mathematical model of a [`Value`].
#[verifier::ext_equal]
pub enum Val {
    Unit,
    Record(Seq<Val>),
    Tagged(nat, Box<Val>),
}

/// Model of a value: the same tree with sequences for records.
pub open spec fn model_of(v: Value) -> Val
    decreases v,
{
    match v {
        Value::Unit => Val::Unit,
        Value::Record(vs) => Val::Record(models_of(vs@)),
        Value::Tagged(t, b) => Val::Tagged(t as nat, Box::new(model_of(*b))),
    }
}

/// Models of a sequence of values, elementwise.
pub open spec fn models_of(vs: Seq<Value>) -> Seq<Val>
    decreases vs,
{
    if vs.len() == 0 {
        Seq::empty()
    } else {
        seq![model_of(vs[0])] + models_of(vs.drop_first())
    }
}

/// `models_of` has the same length as its argument and maps elementwise.
pub proof fn lemma_models_of(vs: Seq<Value>)
    ensures
        models_of(vs).len() == vs.len(),
        forall|i: int| 0 <= i < vs.len() ==> #[trigger] models_of(vs)[i] == model_of(vs[i]),
    decreases vs,
{
    if vs.len() > 0 {
        lemma_models_of(vs.drop_first());
        assert forall|i: int| 0 <= i < vs.len() implies #[trigger] models_of(vs)[i] == model_of(
            vs[i],
        ) by {
            if i > 0 {
                assert(models_of(vs.drop_first())[i - 1] == model_of(vs.drop_first()[i - 1]));
            }
        }
    }
}

/// Does the value model `v` inhabit the shape `s`?
pub open spec fn inhabits(s: Shape, v: Val) -> bool
    decreases s, 0nat,
{
    match s {
        Shape::Empty => false,
        Shape::Singleton => v == Val::Unit,
        Shape::Product(vs) => match v {
            Val::Record(ts) => tuple_inhabits(vs@, ts),
            _ => false,
        },
        Shape::Sum(vs) => match v {
            Val::Tagged(t, x) => sum_inhabits(vs@, t, *x),
            _ => false,
        },
        Shape::Repeat(b, n) => match v {
            Val::Record(ts) => repeat_inhabits(*b, n as nat, ts),
            _ => false,
        },
    }
}

/// Does the tuple `ts` inhabit the product of the shapes `ss`, componentwise?
pub open spec fn tuple_inhabits(ss: Seq<Shape>, ts: Seq<Val>) -> bool
    decreases ss, 0nat,
{
    if ss.len() == 0 {
        ts.len() == 0
    } else {
        &&& ts.len() > 0
        &&& inhabits(ss[0], ts[0])
        &&& tuple_inhabits(ss.drop_first(), ts.drop_first())
    }
}

/// Does the payload `x`, under tag `t`, inhabit the sum of the shapes `ss`?
pub open spec fn sum_inhabits(ss: Seq<Shape>, t: nat, x: Val) -> bool
    decreases ss, 0nat,
{
    if ss.len() == 0 {
        false
    } else if t == 0 {
        inhabits(ss[0], x)
    } else {
        sum_inhabits(ss.drop_first(), (t - 1) as nat, x)
    }
}

/// Does the tuple `ts` inhabit `n` repetitions of the shape `b`?
pub open spec fn repeat_inhabits(b: Shape, n: nat, ts: Seq<Val>) -> bool
    decreases b, n,
{
    if n == 0 {
        ts.len() == 0
    } else {
        &&& ts.len() > 0
        &&& inhabits(b, ts[0])
        &&& repeat_inhabits(b, (n - 1) as nat, ts.drop_first())
    }
}

impl Clone for Value {
    /// A clone has the same model as the value it was cloned from.
    #[verifier::loop_isolation(false)]
    fn clone(&self) -> (r: Self)
        ensures
            model_of(r) == model_of(*self),
        decreases *self,
    {
        match self {
            Value::Unit => Value::Unit,
            Value::Record(vs) => {
                let mut out: Vec<Value> = Vec::new();
                let mut k: usize = 0;
                while k < vs.len()
                    invariant
                        k <= vs@.len(),
                        out@.len() == k,
                        forall|j: int| 0 <= j < k ==> model_of(out@[j]) == model_of(vs@[j]),
                    decreases vs@.len() - k,
                {
                    out.push(vs[k].clone());
                    k += 1;
                }
                proof {
                    lemma_models_of(out@);
                    lemma_models_of(vs@);
                    assert(models_of(out@) =~= models_of(vs@));
                }
                Value::Record(out)
            },
            Value::Tagged(t, b) => Value::Tagged(*t, Box::new((**b).clone())),
        }
    }
}

} // verus!
