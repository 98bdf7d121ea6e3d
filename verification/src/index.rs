//! Mixed-radix indexing: the ordering contract.
//!
//! A product of components with cardinalities (radixes) `c_0, .., c_{n-1}`
//! has one value per tuple of per-component indices `d_k < c_k`.  The linear
//! position of such a tuple is [`linear_index`]: the mixed-radix number with
//! the first digit most significant, so the last component varies fastest.
//! [`split_index`] decomposes a linear index into its digit tuple and
//! [`combine_index`] is the inverse; [`lemma_linear_index_injective`] states
//! that the correspondence is a bijection.

use vstd::prelude::*;

verus! {

use vstd::arithmetic::div_mod::{
    lemma_fundamental_div_mod,
    lemma_fundamental_div_mod_converse,
    lemma_mod_bound,
    lemma_multiply_divide_lt,
};
use vstd::arithmetic::mul::{
    lemma_mul_basics,
    lemma_mul_by_zero_is_zero,
    lemma_mul_inequality,
    lemma_mul_is_associative,
    lemma_mul_is_commutative,
    lemma_mul_is_distributive_add_other_way,
    lemma_mul_is_distributive_sub_other_way,
    lemma_mul_strictly_positive,
};

/// Product of a sequence of radixes; 1 for the empty sequence.
pub open spec fn radix_prod(rs: Seq<usize>) -> nat
    decreases rs,
{
    if rs.len() == 0 {
        1
    } else {
        (rs[0] as nat) * radix_prod(rs.drop_first())
    }
}

/// Linear position of the digit tuple `ds` under the radixes `rs`:
/// the first digit is the most significant, the last varies fastest.
pub open spec fn linear_index(ds: Seq<usize>, rs: Seq<usize>) -> nat
    decreases ds,
{
    if ds.len() == 0 {
        0
    } else {
        (ds[0] as nat) * radix_prod(rs.drop_first()) + linear_index(ds.drop_first(), rs.drop_first())
    }
}

/// A radix product with a zero radix is zero.
pub proof fn lemma_radix_prod_zero_factor(rs: Seq<usize>, k: int)
    requires
        0 <= k < rs.len(),
        rs[k] == 0,
    ensures
        radix_prod(rs) == 0,
    decreases rs,
{
    if k == 0 {
        lemma_mul_by_zero_is_zero(radix_prod(rs.drop_first()) as int);
    } else {
        lemma_radix_prod_zero_factor(rs.drop_first(), k - 1);
        lemma_mul_by_zero_is_zero(rs[0] as int);
    }
}

/// A product of positive radixes is positive.
pub proof fn lemma_radix_prod_pos(rs: Seq<usize>)
    requires
        forall|k: int| 0 <= k < rs.len() ==> rs[k] >= 1,
    ensures
        radix_prod(rs) >= 1,
    decreases rs,
{
    if rs.len() > 0 {
        assert forall|k: int| 0 <= k < rs.drop_first().len() implies rs.drop_first()[k] >= 1 by {
            assert(rs.drop_first()[k] == rs[k + 1]);
        }
        lemma_radix_prod_pos(rs.drop_first());
        lemma_mul_strictly_positive(rs[0] as int, radix_prod(rs.drop_first()) as int);
    }
}

/// Peeling the last radix off a radix product.
pub proof fn lemma_radix_prod_unsnoc(rs: Seq<usize>)
    requires
        rs.len() >= 1,
    ensures
        radix_prod(rs) == radix_prod(rs.drop_last()) * rs.last(),
    decreases rs,
{
    if rs.len() == 1 {
        assert(rs.drop_first() =~= Seq::<usize>::empty());
        assert(rs.drop_last() =~= Seq::<usize>::empty());
        lemma_mul_is_commutative(1, rs[0] as int);
    } else {
        lemma_radix_prod_unsnoc(rs.drop_first());
        assert(rs.drop_first().drop_last() =~= rs.drop_last().drop_first());
        assert(rs.drop_first().last() == rs.last());
        lemma_mul_is_associative(
            rs[0] as int,
            radix_prod(rs.drop_first().drop_last()) as int,
            rs.last() as int,
        );
        assert(rs.drop_last()[0] == rs[0]);
    }
}

/// Peeling position `k` off the suffix radix product starting at `k`.
pub proof fn lemma_radix_prod_skip_unfold(rs: Seq<usize>, k: int)
    requires
        0 <= k < rs.len(),
    ensures
        radix_prod(rs.skip(k)) == rs[k] * radix_prod(rs.skip(k + 1)),
{
    assert(rs.skip(k)[0] == rs[k]);
    assert(rs.skip(k).drop_first() =~= rs.skip(k + 1));
}

/// Peeling position `k` off the linear index of the suffixes starting at `k`.
pub proof fn lemma_linear_index_skip_unfold(ds: Seq<usize>, rs: Seq<usize>, k: int)
    requires
        ds.len() == rs.len(),
        0 <= k < ds.len(),
    ensures
        linear_index(ds.skip(k), rs.skip(k)) == ds[k] * radix_prod(rs.skip(k + 1))
            + linear_index(ds.skip(k + 1), rs.skip(k + 1)),
{
    assert(ds.skip(k)[0] == ds[k]);
    assert(ds.skip(k).drop_first() =~= ds.skip(k + 1));
    assert(rs.skip(k).drop_first() =~= rs.skip(k + 1));
}

/// The linear index of an in-range digit tuple lies below the radix product.
pub proof fn lemma_linear_index_bound(ds: Seq<usize>, rs: Seq<usize>)
    requires
        ds.len() == rs.len(),
        forall|k: int| 0 <= k < ds.len() ==> ds[k] < rs[k],
    ensures
        linear_index(ds, rs) < radix_prod(rs),
    decreases ds,
{
    if ds.len() == 0 {
    } else {
        assert forall|k: int| 0 <= k < ds.drop_first().len() implies ds.drop_first()[k]
            < rs.drop_first()[k] by {
            assert(ds.drop_first()[k] == ds[k + 1]);
            assert(rs.drop_first()[k] == rs[k + 1]);
        }
        lemma_linear_index_bound(ds.drop_first(), rs.drop_first());
        let c0 = rs[0] as int;
        let d0 = ds[0] as int;
        let p = radix_prod(rs.drop_first()) as int;
        lemma_mul_inequality(d0, c0 - 1, p);
        lemma_mul_is_distributive_sub_other_way(p, c0, 1);
        assert(d0 * p + linear_index(ds.drop_first(), rs.drop_first()) < c0 * p);
    }
}

/// Digit tuples are uniquely determined by their linear index: the
/// decomposition of `[0, radix_prod(rs))` into digit tuples is a bijection.
pub proof fn lemma_linear_index_injective(ds1: Seq<usize>, ds2: Seq<usize>, rs: Seq<usize>)
    requires
        ds1.len() == rs.len(),
        ds2.len() == rs.len(),
        forall|k: int| 0 <= k < rs.len() ==> ds1[k] < rs[k],
        forall|k: int| 0 <= k < rs.len() ==> ds2[k] < rs[k],
        linear_index(ds1, rs) == linear_index(ds2, rs),
    ensures
        ds1 == ds2,
    decreases rs,
{
    if rs.len() == 0 {
        assert(ds1 =~= ds2);
    } else {
        assert forall|k: int| 0 <= k < rs.drop_first().len() implies ds1.drop_first()[k]
            < rs.drop_first()[k] && ds2.drop_first()[k] < rs.drop_first()[k] by {
            assert(ds1.drop_first()[k] == ds1[k + 1]);
            assert(ds2.drop_first()[k] == ds2[k + 1]);
            assert(rs.drop_first()[k] == rs[k + 1]);
        }
        assert forall|k: int| 0 <= k < rs.drop_first().len() implies rs.drop_first()[k] >= 1 by {
            assert(ds1.drop_first()[k] < rs.drop_first()[k]);
        }
        lemma_radix_prod_pos(rs.drop_first());
        let p = radix_prod(rs.drop_first()) as int;
        let l = linear_index(ds1, rs) as int;
        lemma_linear_index_bound(ds1.drop_first(), rs.drop_first());
        lemma_linear_index_bound(ds2.drop_first(), rs.drop_first());
        lemma_fundamental_div_mod_converse(
            l,
            p,
            ds1[0] as int,
            linear_index(ds1.drop_first(), rs.drop_first()) as int,
        );
        lemma_fundamental_div_mod_converse(
            l,
            p,
            ds2[0] as int,
            linear_index(ds2.drop_first(), rs.drop_first()) as int,
        );
        lemma_linear_index_injective(ds1.drop_first(), ds2.drop_first(), rs.drop_first());
        assert forall|k: int| 0 <= k < ds1.len() implies ds1[k] == ds2[k] by {
            if k > 0 {
                assert(ds1[k] == ds1.drop_first()[k - 1]);
                assert(ds2[k] == ds2.drop_first()[k - 1]);
            }
        }
        assert(ds1 =~= ds2);
    }
}

/// Decomposes `index` into its digit tuple under the radixes `lengths`,
/// last digit fastest: digit `k` is `index`, divided by the product of the
/// radixes after position `k`, modulo the radix at position `k`.
///
/// The result is the unique tuple of in-range digits whose
/// [`linear_index`] is `index`.
#[verifier::loop_isolation(false)]
pub fn split_index(index: usize, lengths: &Vec<usize>) -> (digits: Vec<usize>)
    requires
        (index as nat) < radix_prod(lengths@),
    ensures
        digits@.len() == lengths@.len(),
        forall|k: int| 0 <= k < digits@.len() ==> digits@[k] < lengths@[k],
        linear_index(digits@, lengths@) == index as nat,
{
    let n = lengths.len();
    proof {
        assert forall|k: int| 0 <= k < lengths@.len() implies lengths@[k] >= 1 by {
            if lengths@[k] == 0 {
                lemma_radix_prod_zero_factor(lengths@, k);
            }
        }
        assert(lengths@.take(n as int) =~= lengths@);
        assert(lengths@.skip(n as int) =~= Seq::<usize>::empty());
    }
    let mut digits: Vec<usize> = Vec::new();
    let mut z: usize = 0;
    while z < n
        invariant
            z <= n,
            digits@.len() == z,
        decreases n - z,
    {
        digits.push(0);
        z += 1;
    }
    proof {
        assert(digits@.skip(n as int) =~= Seq::<usize>::empty());
        lemma_mul_basics(index as int);
    }
    let mut idx: usize = index;
    let mut p: usize = n;
    while p > 0
        invariant
            p <= n,
            digits@.len() == n,
            forall|k: int| p <= k < n ==> digits@[k] < lengths@[k],
            (idx as nat) < radix_prod(lengths@.take(p as int)),
            index as nat == idx * radix_prod(lengths@.skip(p as int)) + linear_index(
                digits@.skip(p as int),
                lengths@.skip(p as int),
            ),
        decreases p,
{
        let c = lengths[p - 1];
        let d = idx % c;
        let q = idx / c;
        proof {
            let pm1 = p - 1;
            lemma_mod_bound(idx as int, c as int);
            lemma_fundamental_div_mod(idx as int, c as int);
            // the prefix product shrinks with the position
            lemma_radix_prod_unsnoc(lengths@.take(p as int));
            assert(lengths@.take(p as int).drop_last() =~= lengths@.take(pm1));
            assert(lengths@.take(p as int).last() == lengths@[pm1]);
            assert(radix_prod(lengths@.take(p as int)) == radix_prod(lengths@.take(pm1)) * (
            c as nat));
            lemma_mul_is_commutative(c as int, radix_prod(lengths@.take(pm1)) as int);
            lemma_multiply_divide_lt(idx as int, c as int, radix_prod(lengths@.take(pm1)) as int);
            lemma_mul_is_commutative(c as int, q as int);
            assert(idx as int == q * c + d);
            // the new digit extends the processed suffix
            let ds2 = digits@.update(pm1, d);
            assert(ds2.skip(p as int) =~= digits@.skip(p as int));
            lemma_linear_index_skip_unfold(ds2, lengths@, pm1);
            lemma_radix_prod_skip_unfold(lengths@, pm1);
            // index == (q * c + d) * prod(skip p) + linear(skip p)
            lemma_mul_is_distributive_add_other_way(
                radix_prod(lengths@.skip(p as int)) as int,
                (q * c) as int,
                d as int,
            );
            lemma_mul_is_associative(q as int, c as int, radix_prod(lengths@.skip(p as int)) as int);
        }
        digits.set(p - 1, d);
        idx = q;
        p = p - 1;
    }
    proof {
        assert(lengths@.take(0) =~= Seq::<usize>::empty());
        assert(digits@.skip(0) =~= digits@);
        assert(lengths@.skip(0) =~= lengths@);
        lemma_mul_by_zero_is_zero(radix_prod(lengths@) as int);
    }
    digits
}

/// Recombines a tuple of in-range digits into its linear index, the
/// inverse of [`split_index`].  Returns `None` exactly when the linear
/// index does not fit in `usize`.
#[verifier::loop_isolation(false)]
pub fn combine_index(digits: &Vec<usize>, lengths: &Vec<usize>) -> (r: Option<usize>)
    requires
        digits@.len() == lengths@.len(),
        forall|k: int| 0 <= k < digits@.len() ==> digits@[k] < lengths@[k],
    ensures
        r matches Some(i) ==> i as nat == linear_index(digits@, lengths@),
        (r is Some) <==> linear_index(digits@, lengths@) <= usize::MAX,
{
    let n = digits.len();
    proof {
        assert(digits@.skip(0) =~= digits@);
        assert(lengths@.skip(0) =~= lengths@);
        assert forall|k: int| 0 <= k < lengths@.len() implies lengths@[k] >= 1 by {
            assert(digits@[k] < lengths@[k]);
        }
    }
    let mut acc: usize = 0;
    let mut k: usize = 0;
    while k < n
        invariant
            k <= n,
            linear_index(digits@, lengths@) == acc * radix_prod(lengths@.skip(k as int))
                + linear_index(digits@.skip(k as int), lengths@.skip(k as int)),
        decreases n - k,
    {
        proof {
            lemma_linear_index_skip_unfold(digits@, lengths@, k as int);
            lemma_radix_prod_skip_unfold(lengths@, k as int);
            assert forall|m: int| 0 <= m < lengths@.skip(k + 1).len() implies #[trigger] lengths@.skip(
                k + 1,
            )[m] >= 1 by {
                assert(lengths@.skip(k + 1)[m] == lengths@[m + k + 1]);
            }
            lemma_radix_prod_pos(lengths@.skip(k + 1));
        }
        let ghost rest = radix_prod(lengths@.skip(k as int + 1));
        let ghost lsuf = linear_index(digits@.skip(k as int + 1), lengths@.skip(k as int + 1));
        let c = lengths[k];
        let d = digits[k];
        proof {
            // linear == acc * (c * rest) + (d * rest + lsuf)
            //        == (acc * c) * rest + d * rest + lsuf
            lemma_mul_is_associative(acc as int, c as int, rest as int);
        }
        let m = match acc.checked_mul(c) {
            Some(m) => m,
            None => {
                proof {
                    lemma_mul_inequality(1, rest as int, (acc * c) as int);
                    lemma_mul_is_commutative(rest as int, (acc * c) as int);
                    lemma_mul_inequality(0, d as int, rest as int);
                }
                return None;
            },
        };
        let a2 = match m.checked_add(d) {
            Some(a) => a,
            None => {
                proof {
                    lemma_mul_inequality(1, rest as int, (acc * c) as int);
                    lemma_mul_is_commutative(rest as int, (acc * c) as int);
                    lemma_mul_inequality(1, rest as int, d as int);
                    lemma_mul_is_commutative(rest as int, d as int);
                }
                return None;
            },
        };
        proof {
            // the new accumulator pairs with the shorter suffix
            lemma_mul_is_distributive_add_other_way(rest as int, (acc * c) as int, d as int);
        }
        acc = a2;
        k += 1;
    }
    proof {
        assert(digits@.skip(n as int) =~= Seq::<usize>::empty());
        assert(lengths@.skip(n as int) =~= Seq::<usize>::empty());
        assert(radix_prod(lengths@.skip(n as int)) == 1);
        assert(linear_index(digits@.skip(n as int), lengths@.skip(n as int)) == 0);
        lemma_mul_basics(acc as int);
        assert(acc * radix_prod(lengths@.skip(n as int)) == acc);
    }
    Some(acc)
}

} // verus!
