//! Row-major (C order) linearisation of n-dimensional indices.
use vstd::arithmetic::div_mod::{
    lemma_fundamental_div_mod, lemma_fundamental_div_mod_converse,
};
use vstd::prelude::*;

verus! {

/// The number of elements of an array of this shape.
pub open spec fn num_elements(shape: Seq<u64>) -> int
    decreases shape.len(),
{
    if shape.len() == 0 {
        1
    } else {
        num_elements(shape.drop_last()) * shape.last()
    }
}

/// Every extent of `shape` is non-zero.
pub open spec fn all_positive(shape: Seq<u64>) -> bool {
    forall|d: int| 0 <= d < shape.len() ==> #[trigger] shape[d] > 0
}

/// `indices` has the rank of `shape` and lies inside it.
pub open spec fn in_bounds(indices: Seq<u64>, shape: Seq<u64>) -> bool {
    &&& indices.len() == shape.len()
    &&& forall|d: int| 0 <= d < shape.len() ==> #[trigger] indices[d] < shape[d]
}

/// The row-major linear index of `indices` in an array of `shape`.
pub open spec fn ravel(indices: Seq<u64>, shape: Seq<u64>) -> int
    decreases shape.len(),
{
    if shape.len() == 0 || indices.len() == 0 {
        0
    } else {
        ravel(indices.drop_last(), shape.drop_last()) * shape.last() + indices.last()
    }
}

/// The n-dimensional indices of the element at row-major linear index `index`.
pub open spec fn unravel(index: int, shape: Seq<u64>) -> Seq<u64>
    decreases shape.len(),
{
    if shape.len() == 0 {
        Seq::empty()
    } else {
        unravel(index / shape.last() as int, shape.drop_last()).push(
            (index % shape.last() as int) as u64,
        )
    }
}

pub proof fn lemma_num_elements_nonneg(shape: Seq<u64>)
    ensures
        num_elements(shape) >= 0,
        all_positive(shape) ==> num_elements(shape) >= 1,
    decreases shape.len(),
{
    if shape.len() > 0 {
        lemma_num_elements_nonneg(shape.drop_last());
        let a = num_elements(shape.drop_last());
        let b = shape.last() as int;
        assert(a * b >= 0) by (nonlinear_arith)
            requires
                a >= 0,
                b >= 0,
        ;
        if all_positive(shape) {
            assert(all_positive(shape.drop_last()));
            assert(b >= 1);
            assert(a * b >= 1) by (nonlinear_arith)
                requires
                    a >= 1,
                    b >= 1,
            ;
        }
    }
}

/// A shape with an index inside it has only positive extents.
pub proof fn lemma_in_bounds_positive(indices: Seq<u64>, shape: Seq<u64>)
    requires
        in_bounds(indices, shape),
    ensures
        all_positive(shape),
{
    assert forall|d: int| 0 <= d < shape.len() implies #[trigger] shape[d] > 0 by {
        assert(indices[d] < shape[d]);
    }
}

/// Linearising indices inside a shape gives a linear index inside the array, and
/// unravelling it gives the indices back.
pub proof fn lemma_ravel_unravel(indices: Seq<u64>, shape: Seq<u64>)
    requires
        in_bounds(indices, shape),
    ensures
        0 <= ravel(indices, shape) < num_elements(shape),
        unravel(ravel(indices, shape), shape) == indices,
    decreases shape.len(),
{
    if shape.len() > 0 {
        let fi = indices.drop_last();
        let fs = shape.drop_last();
        assert(in_bounds(fi, fs)) by {
            assert forall|d: int| 0 <= d < fs.len() implies #[trigger] fi[d] < fs[d] by {
                assert(indices[d] < shape[d]);
            }
        }
        lemma_ravel_unravel(fi, fs);
        let q = ravel(fi, fs);
        let n = num_elements(fs);
        let l = shape.last() as int;
        let r = indices.last() as int;
        assert(r < l) by {
            assert(indices[shape.len() - 1] < shape[shape.len() - 1]);
        }
        let x = q * l + r;
        assert(0 <= x < n * l) by (nonlinear_arith)
            requires
                0 <= q < n,
                0 <= r < l,
                x == q * l + r,
        ;
        lemma_fundamental_div_mod_converse(x, l, q, r);
        assert(unravel(x, shape) =~= indices);
    } else {
        assert(indices =~= Seq::<u64>::empty());
    }
}

/// Unravelling a linear index inside the array gives indices inside the shape, which
/// linearise back to it.
pub proof fn lemma_unravel_ravel(index: int, shape: Seq<u64>)
    requires
        0 <= index < num_elements(shape),
    ensures
        in_bounds(unravel(index, shape), shape),
        ravel(unravel(index, shape), shape) == index,
    decreases shape.len(),
{
    if shape.len() > 0 {
        let fs = shape.drop_last();
        let n = num_elements(fs);
        let l = shape.last() as int;
        lemma_num_elements_nonneg(fs);
        assert(l > 0) by (nonlinear_arith)
            requires
                0 <= index < n * l,
                n >= 0,
        ;
        lemma_fundamental_div_mod(index, l);
        let q = index / l;
        let r = index % l;
        assert(0 <= q < n) by (nonlinear_arith)
            requires
                0 <= index < n * l,
                index == l * q + r,
                0 <= r < l,
                n >= 0,
        ;
        lemma_unravel_ravel(q, fs);
        let u = unravel(index, shape);
        assert(u.drop_last() =~= unravel(q, fs));
        assert(in_bounds(u, shape)) by {
            assert forall|d: int| 0 <= d < shape.len() implies #[trigger] u[d] < shape[d] by {
                if d < shape.len() - 1 {
                    assert(u[d] == unravel(q, fs)[d]);
                }
            }
        }
        assert(index == q * l + r) by (nonlinear_arith)
            requires
                index == l * q + r,
        ;
    }
}

/// Extending a shape of positive extents never shrinks its element count.
pub proof fn lemma_num_elements_prefix_le(shape: Seq<u64>, i: int)
    requires
        all_positive(shape),
        0 <= i <= shape.len(),
    ensures
        num_elements(shape.subrange(0, i)) <= num_elements(shape),
    decreases shape.len(),
{
    if i < shape.len() {
        let f = shape.drop_last();
        assert(all_positive(f));
        lemma_num_elements_prefix_le(f, i);
        assert(f.subrange(0, i) =~= shape.subrange(0, i));
        lemma_num_elements_nonneg(f);
        let a = num_elements(f);
        let b = shape.last() as int;
        assert(b >= 1);
        assert(a <= a * b) by (nonlinear_arith)
            requires
                a >= 1,
                b >= 1,
        ;
    } else {
        assert(shape.subrange(0, i) =~= shape);
    }
}

/// The number of elements of `shape`, or `None` where it exceeds `u64::MAX`.
pub fn checked_num_elements(shape: &[u64]) -> (r: Option<u64>)
    ensures
        r matches Some(n) ==> n == num_elements(shape@),
        r is None <==> num_elements(shape@) > u64::MAX,
{
    let n = shape.len();
    let mut d: usize = 0;
    while d < n
        invariant
            n == shape@.len(),
            d <= n,
            forall|e: int| 0 <= e < d ==> #[trigger] shape@[e] > 0,
        decreases n - d,
    {
        if shape[d] == 0 {
            proof {
                lemma_num_elements_zero(shape@, d as int);
            }
            return Some(0);
        }
        d = d + 1;
    }
    let mut product: u64 = 1;
    let mut i: usize = 0;
    proof {
        assert(shape@.subrange(0, 0) =~= Seq::<u64>::empty());
    }
    while i < n
        invariant
            n == shape@.len(),
            i <= n,
            all_positive(shape@),
            product == num_elements(shape@.subrange(0, i as int)),
        decreases n - i,
    {
        proof {
            assert(shape@.subrange(0, i + 1).drop_last() =~= shape@.subrange(0, i as int));
        }
        let s = shape[i];
        if product > u64::MAX / s {
            proof {
                assert(product * s > u64::MAX) by (nonlinear_arith)
                    requires
                        product > u64::MAX / s,
                        s >= 1,
                ;
                lemma_num_elements_prefix_le(shape@, i + 1);
            }
            return None;
        }
        proof {
            assert(product * s <= u64::MAX) by (nonlinear_arith)
                requires
                    product <= u64::MAX / s,
                    s >= 1,
            ;
        }
        product = product * s;
        i = i + 1;
    }
    proof {
        assert(shape@.subrange(0, n as int) =~= shape@);
    }
    Some(product)
}

/// A shape with a zero extent has no elements.
pub proof fn lemma_num_elements_zero(shape: Seq<u64>, d: int)
    requires
        0 <= d < shape.len(),
        shape[d] == 0,
    ensures
        num_elements(shape) == 0,
    decreases shape.len(),
{
    if d < shape.len() - 1 {
        lemma_num_elements_zero(shape.drop_last(), d);
    }
}

/// Whether `indices` has the rank of `shape` and lies inside it.
pub fn indices_in_bounds(indices: &[u64], shape: &[u64]) -> (r: bool)
    ensures
        r == in_bounds(indices@, shape@),
{
    if indices.len() != shape.len() {
        return false;
    }
    let mut d: usize = 0;
    while d < shape.len()
        invariant
            indices@.len() == shape@.len(),
            d <= shape@.len(),
            forall|e: int| 0 <= e < d ==> #[trigger] indices@[e] < shape@[e],
        decreases shape@.len() - d,
    {
        if indices[d] >= shape[d] {
            return false;
        }
        d = d + 1;
    }
    true
}

/// Linear indices are never negative.
pub proof fn lemma_ravel_nonneg(indices: Seq<u64>, shape: Seq<u64>)
    ensures
        ravel(indices, shape) >= 0,
    decreases shape.len(),
{
    if shape.len() > 0 && indices.len() > 0 {
        lemma_ravel_nonneg(indices.drop_last(), shape.drop_last());
        let a = ravel(indices.drop_last(), shape.drop_last());
        let b = shape.last() as int;
        assert(a * b >= 0) by (nonlinear_arith)
            requires
                a >= 0,
                b >= 0,
        ;
    }
}

/// Row-major linear index of `indices` in an array of `shape`. The indices may lie outside
/// the shape; the shape's extents, their product and the result must fit.
pub fn ravel_indices(indices: &[u64], shape: &[u64]) -> (r: u64)
    requires
        indices@.len() == shape@.len(),
        all_positive(shape@),
        num_elements(shape@) <= u64::MAX,
        ravel(indices@, shape@) <= u64::MAX,
    ensures
        r == ravel(indices@, shape@),
{
    let n = shape.len();
    let mut index: u64 = 0;
    let mut count: u64 = 1;
    let mut i: usize = n;
    proof {
        lemma_ravel_nonneg(indices@, shape@);
        assert(shape@.subrange(0, n as int) =~= shape@);
        assert(indices@.subrange(0, n as int) =~= indices@);
    }
    while i > 0
        invariant
            0 <= i <= n,
            n == shape@.len(),
            indices@.len() == n,
            all_positive(shape@),
            num_elements(shape@) <= u64::MAX,
            0 <= ravel(indices@, shape@) <= u64::MAX,
            count >= 1,
            count * num_elements(shape@.subrange(0, i as int)) == num_elements(shape@),
            ravel(indices@, shape@) == ravel(
                indices@.subrange(0, i as int),
                shape@.subrange(0, i as int),
            ) * count + index,
        decreases i,
    {
        let ghost pi = indices@.subrange(0, i as int);
        let ghost ps = shape@.subrange(0, i as int);
        let ghost pi2 = indices@.subrange(0, i - 1);
        let ghost ps2 = shape@.subrange(0, i - 1);
        proof {
            assert(pi.drop_last() =~= pi2);
            assert(ps.drop_last() =~= ps2);
            assert(all_positive(ps2));
            lemma_num_elements_nonneg(ps2);
            lemma_ravel_nonneg(pi2, ps2);
        }
        let ix = indices[i - 1];
        let s = shape[i - 1];
        proof {
            let rp = ravel(pi2, ps2);
            let total = ravel(indices@, shape@);
            let np = num_elements(ps2);
            assert(ravel(pi, ps) == rp * (s as int) + ix as int);
            assert(num_elements(ps) == np * (s as int));
            assert(total == rp * ((s as int) * (count as int)) + (index + (ix as int) * (count as int)))
                by (nonlinear_arith)
                requires
                    total == (rp * (s as int) + ix as int) * (count as int) + index,
            ;
            assert((s as int) * (count as int) * np == num_elements(shape@)) by (nonlinear_arith)
                requires
                    (count as int) * (np * (s as int)) == num_elements(shape@),
            ;
            assert((s as int) * (count as int) <= num_elements(shape@)) by (nonlinear_arith)
                requires
                    (s as int) * (count as int) * np == num_elements(shape@),
                    np >= 1,
                    s >= 1,
                    count >= 1,
            ;
            assert(rp * ((s as int) * (count as int)) >= 0) by (nonlinear_arith)
                requires
                    rp >= 0,
                    s >= 1,
                    count >= 1,
            ;
            assert((ix as int) * (count as int) >= 0) by (nonlinear_arith)
                requires
                    count >= 1,
            ;
            assert((s as int) * (count as int) >= 1) by (nonlinear_arith)
                requires
                    s >= 1,
                    count >= 1,
            ;
        }
        index = index + ix * count;
        count = count * s;
        i = i - 1;
    }
    proof {
        assert(ravel(indices@.subrange(0, 0), shape@.subrange(0, 0)) == 0);
    }
    index
}

/// The n-dimensional indices of the element at row-major linear `index`.
pub fn unravel_index(index: u64, shape: &[u64]) -> (r: Vec<u64>)
    requires
        all_positive(shape@),
    ensures
        r@ == unravel(index as int, shape@),
{
    let n = shape.len();
    let mut indices: Vec<u64> = vec![0u64; n];
    let mut rest: u64 = index;
    let mut i: usize = n;
    proof {
        assert(shape@.subrange(0, n as int) =~= shape@);
        assert(indices@.subrange(n as int, n as int) =~= Seq::<u64>::empty());
    }
    while i > 0
        invariant
            0 <= i <= n,
            n == shape@.len(),
            indices@.len() == n,
            all_positive(shape@),
            unravel(index as int, shape@) == unravel(rest as int, shape@.subrange(0, i as int))
                + indices@.subrange(i as int, n as int),
        decreases i,
    {
        let s = shape[i - 1];
        let ghost old_indices = indices@;
        indices.set(i - 1, rest % s);
        proof {
            let ps = shape@.subrange(0, i as int);
            assert(ps.drop_last() =~= shape@.subrange(0, i - 1));
            assert(ps.last() == s);
            assert(indices@.subrange(i - 1, n as int) =~= seq![rest % s] + old_indices.subrange(
                i as int,
                n as int,
            ));
            assert(unravel(rest as int, ps) == unravel((rest / s) as int, shape@.subrange(0, i - 1)).push(
                (rest % s) as u64,
            ));
            assert(unravel(rest as int, ps) + old_indices.subrange(i as int, n as int) =~= unravel(
                (rest / s) as int,
                shape@.subrange(0, i - 1),
            ) + indices@.subrange(i - 1, n as int));
        }
        rest = rest / s;
        i = i - 1;
    }
    proof {
        assert(indices@.subrange(0, n as int) =~= indices@);
    }
    indices
}

} // verus!
