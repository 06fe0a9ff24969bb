//! The regular chunk grid: an array split into chunks of one fixed shape.
use crate::array_subset::{IncompatibleDimensionalityError, ArraySubset};
use crate::indices::{all_positive, in_bounds};
use vstd::arithmetic::div_mod::lemma_fundamental_div_mod;
use vstd::prelude::*;

verus! {

/// `ceil(a / b)`.
pub open spec fn ceil_div(a: int, b: int) -> int {
    (a + b - 1) / b
}

/// The number of chunks along each dimension of an array of `array_shape`.
pub open spec fn grid_shape_of(array_shape: Seq<u64>, chunk_shape: Seq<u64>) -> Seq<u64> {
    Seq::new(array_shape.len(), |d: int| ceil_div(array_shape[d] as int, chunk_shape[d] as int) as u64)
}

/// The chunk that holds the element at `indices`.
pub open spec fn chunk_of(indices: Seq<u64>, chunk_shape: Seq<u64>) -> Seq<u64> {
    Seq::new(indices.len(), |d: int| (indices[d] as int / chunk_shape[d] as int) as u64)
}

/// The position of the element at `indices` within its chunk.
pub open spec fn within_chunk(indices: Seq<u64>, chunk_shape: Seq<u64>) -> Seq<u64> {
    Seq::new(indices.len(), |d: int| (indices[d] as int % chunk_shape[d] as int) as u64)
}

/// The array indices of position `within` of chunk `chunk`.
pub open spec fn chunk_element(chunk: Seq<u64>, within: Seq<u64>, chunk_shape: Seq<u64>) -> Seq<u64> {
    Seq::new(chunk.len(), |d: int| (chunk[d] * chunk_shape[d] + within[d]) as u64)
}

/// A chunk grid whose chunks all have one shape.
#[derive(Debug, Clone, PartialEq, Eq)]
pub struct RegularChunkGrid {
    chunk_shape: Vec<u64>,
}

impl RegularChunkGrid {
    pub closed spec fn spec_chunk_shape(&self) -> Seq<u64> {
        self.chunk_shape@
    }

    /// Every chunk extent is positive.
    pub open spec fn wf(&self) -> bool {
        all_positive(self.spec_chunk_shape())
    }

    /// A grid of chunks of `chunk_shape`; `None` where an extent is zero.
    pub fn new(chunk_shape: Vec<u64>) -> (r: Option<RegularChunkGrid>)
        ensures
            r is Some <==> all_positive(chunk_shape@),
            r matches Some(g) ==> g.wf() && g.spec_chunk_shape() == chunk_shape@,
    {
        let mut d: usize = 0;
        while d < chunk_shape.len()
            invariant
                d <= chunk_shape@.len(),
                forall|e: int| 0 <= e < d ==> #[trigger] chunk_shape@[e] > 0,
            decreases chunk_shape@.len() - d,
        {
            if chunk_shape[d] == 0 {
                return None;
            }
            d = d + 1;
        }
        Some(RegularChunkGrid { chunk_shape })
    }

    pub fn chunk_shape(&self) -> (r: &Vec<u64>)
        ensures
            r@ == self.spec_chunk_shape(),
    {
        &self.chunk_shape
    }

    pub fn dimensionality(&self) -> (r: usize)
        ensures
            r == self.spec_chunk_shape().len(),
    {
        self.chunk_shape.len()
    }

    /// The number of chunks along each dimension of an array of `array_shape`.
    pub fn grid_shape(&self, array_shape: &[u64]) -> (r: Result<
        Vec<u64>,
        IncompatibleDimensionalityError,
    >)
        requires
            self.wf(),
        ensures
            r is Ok <==> array_shape@.len() == self.spec_chunk_shape().len(),
            r matches Ok(g) ==> g@ == grid_shape_of(array_shape@, self.spec_chunk_shape()),
    {
        if array_shape.len() != self.chunk_shape.len() {
            return Err(
                IncompatibleDimensionalityError {
                    got: array_shape.len(),
                    expected: self.chunk_shape.len(),
                },
            );
        }
        let mut g: Vec<u64> = Vec::new();
        let mut d: usize = 0;
        while d < array_shape.len()
            invariant
                self.wf(),
                array_shape@.len() == self.chunk_shape@.len(),
                d <= array_shape@.len(),
                g@ =~= grid_shape_of(array_shape@, self.chunk_shape@).subrange(0, d as int),
            decreases array_shape@.len() - d,
        {
            let a = array_shape[d];
            let c = self.chunk_shape[d];
            assert(c > 0);
            let q = a / c;
            proof {
                if c >= 2 {
                    assert(q <= a / 2) by {
                        vstd::arithmetic::div_mod::lemma_div_is_ordered_by_denominator(a as int, 2, c as int);
                    }
                }
            }
            let n = if a % c == 0 {
                q
            } else {
                q + 1
            };
            proof {
                lemma_fundamental_div_mod(a as int, c as int);
                let ai = a as int;
                let ci = c as int;
                lemma_fundamental_div_mod(ai + ci - 1, ci);
                assert(n as int == (ai + ci - 1) / ci) by {
                    let r = ai % ci;
                    if r == 0 {
                        assert(ai + ci - 1 == (q as int) * ci + (ci - 1)) by (nonlinear_arith)
                            requires
                                ai == ci * (q as int) + r,
                                r == 0,
                        ;
                        vstd::arithmetic::div_mod::lemma_fundamental_div_mod_converse(
                            ai + ci - 1,
                            ci,
                            q as int,
                            ci - 1,
                        );
                    } else {
                        assert(ai + ci - 1 == (q as int + 1) * ci + (r - 1)) by (nonlinear_arith)
                            requires
                                ai == ci * (q as int) + r,
                        ;
                        vstd::arithmetic::div_mod::lemma_fundamental_div_mod_converse(
                            ai + ci - 1,
                            ci,
                            q as int + 1,
                            r - 1,
                        );
                    }
                }
            }
            g.push(n);
            d = d + 1;
        }
        Ok(g)
    }

    /// The shape of chunk `chunk_indices`: the grid's chunk shape, or `None` where the
    /// chunk lies outside the grid of an array of `array_shape`.
    pub fn chunk_shape_at(&self, chunk_indices: &[u64], array_shape: &[u64]) -> (r: Result<
        Option<Vec<u64>>,
        IncompatibleDimensionalityError,
    >)
        requires
            self.wf(),
        ensures
            r is Ok <==> (chunk_indices@.len() == self.spec_chunk_shape().len()
                && array_shape@.len() == self.spec_chunk_shape().len()),
            r matches Ok(o) ==> (o is Some <==> in_bounds(
                chunk_indices@,
                grid_shape_of(array_shape@, self.spec_chunk_shape()),
            )),
            r matches Ok(Some(s)) ==> s@ == self.spec_chunk_shape(),
    {
        if chunk_indices.len() != self.chunk_shape.len() {
            return Err(
                IncompatibleDimensionalityError {
                    got: chunk_indices.len(),
                    expected: self.chunk_shape.len(),
                },
            );
        }
        let g = match self.grid_shape(array_shape) {
            Ok(g) => g,
            Err(e) => return Err(e),
        };
        if crate::indices::indices_in_bounds(chunk_indices, &g) {
            Ok(Some(self.chunk_shape.clone()))
        } else {
            Ok(None)
        }
    }

    /// The chunk that holds the element at `array_indices`, or `None` where the element
    /// lies outside an array of `array_shape`.
    pub fn chunk_indices(&self, array_indices: &[u64], array_shape: &[u64]) -> (r: Result<
        Option<Vec<u64>>,
        IncompatibleDimensionalityError,
    >)
        requires
            self.wf(),
        ensures
            r is Ok <==> (array_indices@.len() == self.spec_chunk_shape().len()
                && array_shape@.len() == self.spec_chunk_shape().len()),
            r matches Ok(o) ==> (o is Some <==> in_bounds(array_indices@, array_shape@)),
            r matches Ok(Some(c)) ==> c@ == chunk_of(array_indices@, self.spec_chunk_shape()),
    {
        if array_indices.len() != self.chunk_shape.len() {
            return Err(
                IncompatibleDimensionalityError {
                    got: array_indices.len(),
                    expected: self.chunk_shape.len(),
                },
            );
        }
        if array_shape.len() != self.chunk_shape.len() {
            return Err(
                IncompatibleDimensionalityError {
                    got: array_shape.len(),
                    expected: self.chunk_shape.len(),
                },
            );
        }
        if !crate::indices::indices_in_bounds(array_indices, array_shape) {
            return Ok(None);
        }
        let mut c: Vec<u64> = Vec::new();
        let mut d: usize = 0;
        while d < array_indices.len()
            invariant
                self.wf(),
                array_indices@.len() == self.chunk_shape@.len(),
                d <= array_indices@.len(),
                c@ =~= chunk_of(array_indices@, self.chunk_shape@).subrange(0, d as int),
            decreases array_indices@.len() - d,
        {
            assert(self.chunk_shape@[d as int] > 0);
            let ghost old_c = c@;
            c.push(array_indices[d] / self.chunk_shape[d]);
            proof {
                let full = chunk_of(array_indices@, self.chunk_shape@);
                assert(d < array_indices@.len());
                assert(full[d as int] == c@[d as int]);
                assert(c@ =~= full.subrange(0, d + 1));
            }
            d = d + 1;
        }
        Ok(Some(c))
    }

    /// The region of the array covered by chunk `chunk_indices`, or `None` where the
    /// chunk lies outside the grid of an array of `array_shape`. At the array's far
    /// edges the region may reach past the array.
    pub fn subset(&self, chunk_indices: &[u64], array_shape: &[u64]) -> (r: Result<
        Option<ArraySubset>,
        IncompatibleDimensionalityError,
    >)
        requires
            self.wf(),
            forall|d: int|
                0 <= d < array_shape@.len() ==> #[trigger] array_shape@[d] + self.spec_chunk_shape()[d]
                    <= u64::MAX,
        ensures
            r is Ok <==> (chunk_indices@.len() == self.spec_chunk_shape().len()
                && array_shape@.len() == self.spec_chunk_shape().len()),
            r matches Ok(o) ==> (o is Some <==> in_bounds(
                chunk_indices@,
                grid_shape_of(array_shape@, self.spec_chunk_shape()),
            )),
            r matches Ok(Some(s)) ==> s.wf() && s.spec_shape() == self.spec_chunk_shape()
                && s.spec_start().len() == chunk_indices@.len() && (forall|d: int|
                0 <= d < chunk_indices@.len() ==> #[trigger] s.spec_start()[d] == chunk_indices@[d]
                    * self.spec_chunk_shape()[d]),
    {
        let shape = match self.chunk_shape_at(chunk_indices, array_shape) {
            Ok(Some(s)) => s,
            Ok(None) => return Ok(None),
            Err(e) => return Err(e),
        };
        let mut start: Vec<u64> = Vec::new();
        let mut d: usize = 0;
        let ghost g = grid_shape_of(array_shape@, self.chunk_shape@);
        while d < chunk_indices.len()
            invariant
                self.wf(),
                chunk_indices@.len() == self.chunk_shape@.len(),
                array_shape@.len() == self.chunk_shape@.len(),
                shape@ == self.chunk_shape@,
                in_bounds(chunk_indices@, g),
                g == grid_shape_of(array_shape@, self.chunk_shape@),
                forall|e: int|
                    0 <= e < array_shape@.len() ==> #[trigger] array_shape@[e] + self.chunk_shape@[e]
                        <= u64::MAX,
                d <= chunk_indices@.len(),
                start@.len() == d,
                forall|e: int|
                    0 <= e < d ==> #[trigger] start@[e] == chunk_indices@[e] * self.chunk_shape@[e]
                        && start@[e] + self.chunk_shape@[e] <= u64::MAX,
            decreases chunk_indices@.len() - d,
        {
            let ci = chunk_indices[d];
            let cs = self.chunk_shape[d];
            proof {
                let a = array_shape@[d as int] as int;
                let csi = cs as int;
                assert(csi > 0);
                assert(ci < g[d as int]);
                assert((ci as int) < (a + csi - 1) / csi);
                lemma_fundamental_div_mod(a + csi - 1, csi);
                assert((ci as int + 1) * csi <= a + csi - 1) by (nonlinear_arith)
                    requires
                        (ci as int) < (a + csi - 1) / csi,
                        a + csi - 1 == csi * ((a + csi - 1) / csi) + (a + csi - 1) % csi,
                        (a + csi - 1) % csi < csi,
                        csi > 0,
                        ci >= 0,
                ;
                assert((ci as int + 1) * csi == ci * csi + csi) by (nonlinear_arith);
            }
            start.push(ci * cs);
            d = d + 1;
        }
        let r = ArraySubset::new_with_start_shape(start, shape);
        match r {
            Ok(s) => Ok(Some(s)),
            Err(_) => Ok(None),
        }
    }
}

/// An element's chunk and its position within the chunk give the element back, and the
/// position lies inside the chunk.
pub proof fn lemma_chunk_decompose(indices: Seq<u64>, chunk_shape: Seq<u64>)
    requires
        indices.len() == chunk_shape.len(),
        all_positive(chunk_shape),
    ensures
        in_bounds(within_chunk(indices, chunk_shape), chunk_shape),
        chunk_element(chunk_of(indices, chunk_shape), within_chunk(indices, chunk_shape), chunk_shape)
            == indices,
{
    let c = chunk_of(indices, chunk_shape);
    let w = within_chunk(indices, chunk_shape);
    assert forall|d: int| 0 <= d < chunk_shape.len() implies #[trigger] w[d] < chunk_shape[d]
        && chunk_element(c, w, chunk_shape)[d] == indices[d] by {
        let x = indices[d] as int;
        let s = chunk_shape[d] as int;
        assert(s > 0);
        lemma_fundamental_div_mod(x, s);
        assert((x / s) * s + x % s == x) by (nonlinear_arith)
            requires
                x == s * (x / s) + x % s,
        ;
    }
    assert(chunk_element(c, w, chunk_shape) =~= indices);
}

/// An element inside the array lies in a chunk inside the grid.
pub proof fn lemma_chunk_in_grid(indices: Seq<u64>, array_shape: Seq<u64>, chunk_shape: Seq<u64>)
    requires
        in_bounds(indices, array_shape),
        chunk_shape.len() == array_shape.len(),
        all_positive(chunk_shape),
        forall|d: int|
            0 <= d < array_shape.len() ==> #[trigger] array_shape[d] + chunk_shape[d] <= u64::MAX,
    ensures
        in_bounds(chunk_of(indices, chunk_shape), grid_shape_of(array_shape, chunk_shape)),
{
    let c = chunk_of(indices, chunk_shape);
    let g = grid_shape_of(array_shape, chunk_shape);
    assert forall|d: int| 0 <= d < array_shape.len() implies #[trigger] c[d] < g[d] by {
        let x = indices[d] as int;
        let a = array_shape[d] as int;
        let s = chunk_shape[d] as int;
        assert(x < a);
        assert(s > 0);
        lemma_fundamental_div_mod(x, s);
        lemma_fundamental_div_mod(a + s - 1, s);
        assert(x / s < (a + s - 1) / s) by (nonlinear_arith)
            requires
                x == s * (x / s) + x % s,
                0 <= x % s < s,
                a + s - 1 == s * ((a + s - 1) / s) + (a + s - 1) % s,
                0 <= (a + s - 1) % s < s,
                x < a,
                s > 0,
        ;
        assert(ceil_div(a, s) <= u64::MAX) by {
            vstd::arithmetic::div_mod::lemma_div_is_ordered(a + s - 1, 2 * (u64::MAX as int), s);
            assert((a + s - 1) / s <= a + s - 1) by {
                vstd::arithmetic::div_mod::lemma_div_is_ordered_by_denominator(a + s - 1, 1, s);
            }
        }
    }
}

} // verus!
