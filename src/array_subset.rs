//! Hyper-rectangular regions of an n-dimensional array.
use crate::bytes::ByteRange;
use crate::indices::{
    all_positive, lemma_num_elements_nonneg, lemma_num_elements_zero, ravel_indices, unravel_index,
    in_bounds, lemma_ravel_unravel, lemma_unravel_ravel, num_elements, ravel, unravel,
};
use vstd::prelude::*;

verus! {

/// The subset's rank differs from the rank it is used with.
#[derive(Debug, Clone, Copy, PartialEq, Eq)]
pub struct IncompatibleDimensionalityError {
    pub got: usize,
    pub expected: usize,
}

/// The subset does not lie inside the array shape it is used with.
#[derive(Debug, Clone, Copy, PartialEq, Eq)]
pub struct IncompatibleArraySubsetAndShapeError;

/// Why a subset cannot be made.
#[derive(Debug, Clone, Copy, PartialEq, Eq)]
pub enum ArraySubsetError {
    /// `start` and `shape` have different ranks.
    IncompatibleDimensionality(IncompatibleDimensionalityError),
    /// The end of some dimension, `start + shape`, does not fit in a `u64`.
    OutOfRange,
}

/// Element-wise sum of two index vectors.
pub open spec fn seq_add(a: Seq<u64>, b: Seq<u64>) -> Seq<u64> {
    Seq::new(a.len(), |d: int| (a[d] + b[d]) as u64)
}

/// Element-wise difference of two index vectors.
pub open spec fn seq_sub(a: Seq<u64>, b: Seq<u64>) -> Seq<u64> {
    Seq::new(a.len(), |d: int| (a[d] - b[d]) as u64)
}

/// Every end `start[d] + shape[d]` fits in a `u64`.
pub open spec fn ends_fit(start: Seq<u64>, shape: Seq<u64>) -> bool {
    forall|d: int| 0 <= d < start.len() ==> #[trigger] start[d] + shape[d] <= u64::MAX
}

/// `indices` lies in the region that starts at `start` and has extent `shape`.
pub open spec fn region_contains(start: Seq<u64>, shape: Seq<u64>, indices: Seq<u64>) -> bool {
    &&& indices.len() == start.len()
    &&& forall|d: int|
        0 <= d < start.len() ==> start[d] <= #[trigger] indices[d] < start[d] + shape[d]
}

pub open spec fn max_u64(a: u64, b: u64) -> u64 {
    if a > b {
        a
    } else {
        b
    }
}

pub open spec fn min_int(a: int, b: int) -> int {
    if a < b {
        a
    } else {
        b
    }
}

/// The length of `[s, e)`, zero where it is empty.
pub open spec fn gap(s: u64, e: int) -> u64 {
    if e > s {
        (e - s) as u64
    } else {
        0
    }
}

/// An n-dimensional region of an array: where it starts and its extent.
#[derive(Debug, Clone, PartialEq, Eq)]
pub struct ArraySubset {
    start: Vec<u64>,
    shape: Vec<u64>,
}

impl ArraySubset {
    pub closed spec fn spec_start(&self) -> Seq<u64> {
        self.start@
    }

    pub closed spec fn spec_shape(&self) -> Seq<u64> {
        self.shape@
    }

    /// Start and shape have one rank and every end fits in a `u64`.
    pub open spec fn wf(&self) -> bool {
        &&& self.spec_start().len() == self.spec_shape().len()
        &&& ends_fit(self.spec_start(), self.spec_shape())
    }

    pub open spec fn spec_contains(&self, indices: Seq<u64>) -> bool {
        region_contains(self.spec_start(), self.spec_shape(), indices)
    }

    pub open spec fn spec_num_elements(&self) -> int {
        num_elements(self.spec_shape())
    }

    /// The array indices of the subset's element at row-major position `k`.
    pub open spec fn element_indices(&self, k: int) -> Seq<u64> {
        seq_add(self.spec_start(), unravel(k, self.spec_shape()))
    }

    /// The row-major position in the subset of the element at array `indices`.
    pub open spec fn position_of(&self, indices: Seq<u64>) -> int {
        ravel(seq_sub(indices, self.spec_start()), self.spec_shape())
    }

    /// A subset with this start and shape.
    pub fn new_with_start_shape(start: Vec<u64>, shape: Vec<u64>) -> (r: Result<
        ArraySubset,
        ArraySubsetError,
    >)
        ensures
            start@.len() != shape@.len() ==> r == Err::<ArraySubset, ArraySubsetError>(
                ArraySubsetError::IncompatibleDimensionality(
                    IncompatibleDimensionalityError {
                        got: shape@.len() as usize,
                        expected: start@.len() as usize,
                    },
                ),
            ),
            start@.len() == shape@.len() && !ends_fit(start@, shape@) ==> r
                == Err::<ArraySubset, ArraySubsetError>(ArraySubsetError::OutOfRange),
            start@.len() == shape@.len() && ends_fit(start@, shape@) ==> r is Ok,
            r matches Ok(s) ==> s.wf() && s.spec_start() == start@ && s.spec_shape() == shape@,
    {
        if start.len() != shape.len() {
            return Err(
                ArraySubsetError::IncompatibleDimensionality(
                    IncompatibleDimensionalityError { got: shape.len(), expected: start.len() },
                ),
            );
        }
        let mut d: usize = 0;
        while d < start.len()
            invariant
                start@.len() == shape@.len(),
                d <= start@.len(),
                forall|e: int| 0 <= e < d ==> #[trigger] start@[e] + shape@[e] <= u64::MAX,
            decreases start@.len() - d,
        {
            if start[d] > u64::MAX - shape[d] {
                return Err(ArraySubsetError::OutOfRange);
            }
            d = d + 1;
        }
        Ok(ArraySubset { start, shape })
    }

    /// The subset that starts at the origin and covers `shape`.
    pub fn new_with_shape(shape: Vec<u64>) -> (r: ArraySubset)
        ensures
            r.wf(),
            r.spec_shape() == shape@,
            r.spec_start() == Seq::new(shape@.len(), |d: int| 0u64),
    {
        let start: Vec<u64> = vec![0u64; shape.len()];
        proof {
            assert(start@ =~= Seq::new(shape@.len(), |d: int| 0u64));
        }
        ArraySubset { start, shape }
    }

    pub fn start(&self) -> (r: &Vec<u64>)
        ensures
            r@ == self.spec_start(),
    {
        &self.start
    }

    pub fn shape(&self) -> (r: &Vec<u64>)
        ensures
            r@ == self.spec_shape(),
    {
        &self.shape
    }

    pub fn dimensionality(&self) -> (r: usize)
        ensures
            r == self.spec_start().len(),
    {
        self.start.len()
    }

    /// The end of each dimension, exclusive.
    pub fn end_exc(&self) -> (r: Vec<u64>)
        requires
            self.wf(),
        ensures
            r@ == seq_add(self.spec_start(), self.spec_shape()),
    {
        let mut r: Vec<u64> = Vec::new();
        let mut d: usize = 0;
        while d < self.start.len()
            invariant
                self.wf(),
                d <= self.start@.len(),
                r@ =~= seq_add(self.start@, self.shape@).subrange(0, d as int),
            decreases self.start@.len() - d,
        {
            r.push(self.start[d] + self.shape[d]);
            d = d + 1;
        }
        proof {
            assert(r@ =~= seq_add(self.start@, self.shape@));
        }
        r
    }

    /// The last index of each dimension, or `None` for an empty subset.
    pub fn end_inc(&self) -> (r: Option<Vec<u64>>)
        requires
            self.wf(),
        ensures
            (exists|d: int| 0 <= d < self.spec_shape().len() && #[trigger] self.spec_shape()[d] == 0)
                <==> r is None,
            r matches Some(e) ==> e@ == Seq::new(
                self.spec_start().len(),
                |d: int| (self.spec_start()[d] + self.spec_shape()[d] - 1) as u64,
            ),
    {
        let mut r: Vec<u64> = Vec::new();
        let mut d: usize = 0;
        while d < self.start.len()
            invariant
                self.wf(),
                d <= self.start@.len(),
                forall|e: int| 0 <= e < d ==> #[trigger] self.shape@[e] > 0,
                r@ =~= Seq::new(
                    self.start@.len(),
                    |e: int| (self.start@[e] + self.shape@[e] - 1) as u64,
                ).subrange(0, d as int),
            decreases self.start@.len() - d,
        {
            if self.shape[d] == 0 {
                return None;
            }
            r.push(self.start[d] + self.shape[d] - 1);
            d = d + 1;
        }
        proof {
            assert(r@ =~= Seq::new(
                self.start@.len(),
                |e: int| (self.start@[e] + self.shape@[e] - 1) as u64,
            ));
        }
        Some(r)
    }

    /// The number of elements in the subset.
    pub fn num_elements(&self) -> (r: Option<u64>)
        ensures
            r matches Some(n) ==> n == self.spec_num_elements(),
            r is None <==> self.spec_num_elements() > u64::MAX,
    {
        crate::indices::checked_num_elements(&self.shape)
    }

    /// Whether `indices` lies in the subset.
    pub fn contains(&self, indices: &[u64]) -> (r: bool)
        requires
            self.wf(),
        ensures
            r == self.spec_contains(indices@),
    {
        if indices.len() != self.start.len() {
            return false;
        }
        let mut d: usize = 0;
        while d < self.start.len()
            invariant
                self.wf(),
                indices@.len() == self.start@.len(),
                d <= self.start@.len(),
                forall|e: int|
                    0 <= e < d ==> self.start@[e] <= #[trigger] indices@[e] < self.start@[e]
                        + self.shape@[e],
            decreases self.start@.len() - d,
        {
            if indices[d] < self.start[d] || indices[d] >= self.start[d] + self.shape[d] {
                return false;
            }
            d = d + 1;
        }
        true
    }

    /// The region common to this subset and `other`.
    pub fn intersect(&self, other: &ArraySubset) -> (r: Result<
        ArraySubset,
        IncompatibleDimensionalityError,
    >)
        requires
            self.wf(),
            other.wf(),
        ensures
            self.spec_start().len() != other.spec_start().len() <==> r is Err,
            r matches Ok(s) ==> s.wf() && s.spec_start().len() == self.spec_start().len() && (
            forall|i: Seq<u64>|
                #[trigger] s.spec_contains(i) <==> self.spec_contains(i) && other.spec_contains(i)),
            r matches Ok(s) ==> forall|d: int|
                0 <= d < s.spec_start().len() ==> #[trigger] s.spec_start()[d] == max_u64(
                    self.spec_start()[d],
                    other.spec_start()[d],
                ) && s.spec_shape()[d] == gap(
                    max_u64(self.spec_start()[d], other.spec_start()[d]),
                    min_int(
                        self.spec_start()[d] + self.spec_shape()[d],
                        other.spec_start()[d] + other.spec_shape()[d],
                    ),
                ),
    {
        if self.start.len() != other.start.len() {
            return Err(
                IncompatibleDimensionalityError {
                    got: other.start.len(),
                    expected: self.start.len(),
                },
            );
        }
        let n = self.start.len();
        let mut start: Vec<u64> = Vec::new();
        let mut shape: Vec<u64> = Vec::new();
        let mut d: usize = 0;
        while d < n
            invariant
                self.wf(),
                other.wf(),
                n == self.start@.len(),
                n == other.start@.len(),
                d <= n,
                start@.len() == d,
                shape@.len() == d,
                forall|e: int|
                    0 <= e < d ==> #[trigger] start@[e] == max_u64(self.start@[e], other.start@[e]),
                forall|e: int|
                    0 <= e < d ==> #[trigger] shape@[e] == gap(
                        max_u64(self.start@[e], other.start@[e]),
                        min_int(self.start@[e] + self.shape@[e], other.start@[e] + other.shape@[e]),
                    ),
            decreases n - d,
        {
            let s0 = if self.start[d] > other.start[d] {
                self.start[d]
            } else {
                other.start[d]
            };
            let e1 = self.start[d] + self.shape[d];
            let e2 = other.start[d] + other.shape[d];
            let e0 = if e1 < e2 {
                e1
            } else {
                e2
            };
            start.push(s0);
            if e0 > s0 {
                shape.push(e0 - s0);
            } else {
                shape.push(0);
            }
            d = d + 1;
        }
        let r = ArraySubset { start, shape };
        proof {
            assert forall|i: Seq<u64>| #[trigger]
                r.spec_contains(i) <==> self.spec_contains(i) && other.spec_contains(i) by {
                if i.len() == n {
                    if r.spec_contains(i) {
                        assert forall|e: int| 0 <= e < n implies self.start@[e] <= #[trigger] i[e]
                            < self.start@[e] + self.shape@[e] by {
                            assert(r.start@[e] <= i[e] < r.start@[e] + r.shape@[e]);
                            assert(r.start@[e] == start@[e] && r.shape@[e] == shape@[e]);
                        }
                        assert forall|e: int| 0 <= e < n implies other.start@[e] <= #[trigger] i[e]
                            < other.start@[e] + other.shape@[e] by {
                            assert(r.start@[e] <= i[e] < r.start@[e] + r.shape@[e]);
                            assert(r.start@[e] == start@[e] && r.shape@[e] == shape@[e]);
                        }
                    }
                    if self.spec_contains(i) && other.spec_contains(i) {
                        assert forall|e: int| 0 <= e < n implies r.start@[e] <= #[trigger] i[e]
                            < r.start@[e] + r.shape@[e] by {
                            assert(self.start@[e] <= i[e] < self.start@[e] + self.shape@[e]);
                            assert(other.start@[e] <= i[e] < other.start@[e] + other.shape@[e]);
                            assert(r.start@[e] == start@[e] && r.shape@[e] == shape@[e]);
                        }
                    }
                }
            }
        }
        Ok(r)
    }

    /// The subset clipped to an array of `array_shape`.
    pub fn bound(&self, array_shape: &Vec<u64>) -> (r: Result<
        ArraySubset,
        IncompatibleDimensionalityError,
    >)
        requires
            self.wf(),
        ensures
            self.spec_start().len() != array_shape@.len() <==> r is Err,
            r matches Ok(s) ==> s.wf() && s.spec_start().len() == self.spec_start().len() && (
            forall|i: Seq<u64>|
                #[trigger] s.spec_contains(i) <==> self.spec_contains(i) && in_bounds(
                    i,
                    array_shape@,
                )),
            r matches Ok(s) ==> forall|d: int|
                0 <= d < s.spec_start().len() ==> #[trigger] s.spec_start()[d]
                    == self.spec_start()[d] && s.spec_shape()[d] == gap(
                    self.spec_start()[d],
                    min_int(self.spec_start()[d] + self.spec_shape()[d], array_shape@[d] as int),
                ),
    {
        let whole = ArraySubset::new_with_shape(array_shape.clone());
        let r = self.intersect(&whole);
        proof {
            if r is Ok {
                let s = r->Ok_0;
                assert forall|i: Seq<u64>| #[trigger]
                    s.spec_contains(i) <==> self.spec_contains(i) && in_bounds(i, array_shape@) by {
                    if whole.spec_contains(i) {
                        assert forall|d: int| 0 <= d < array_shape@.len() implies #[trigger] i[d]
                            < array_shape@[d] by {
                            assert(whole.spec_start()[d] <= i[d] < whole.spec_start()[d]
                                + whole.spec_shape()[d]);
                        }
                    }
                    if in_bounds(i, array_shape@) {
                        assert forall|d: int| 0 <= d < array_shape@.len() implies whole.spec_start()[d]
                            <= #[trigger] i[d] < whole.spec_start()[d] + whole.spec_shape()[d] by {
                            assert(i[d] < array_shape@[d]);
                        }
                    }
                }
            }
        }
        r
    }
}

/// The element at position `k` of a subset lies in it, at position `k`.
pub proof fn lemma_position_of_element(s: ArraySubset, k: int)
    requires
        s.wf(),
        0 <= k < s.spec_num_elements(),
    ensures
        s.spec_contains(s.element_indices(k)),
        s.position_of(s.element_indices(k)) == k,
{
    let u = unravel(k, s.spec_shape());
    lemma_unravel_ravel(k, s.spec_shape());
    let e = s.element_indices(k);
    assert forall|d: int| 0 <= d < s.spec_start().len() implies s.spec_start()[d] <= #[trigger] e[d]
        < s.spec_start()[d] + s.spec_shape()[d] by {
        assert(u[d] < s.spec_shape()[d]);
        assert(s.spec_start()[d] + s.spec_shape()[d] <= u64::MAX);
    }
    assert(seq_sub(e, s.spec_start()) =~= u);
}

/// Each element of a subset is the element at its position.
pub proof fn lemma_element_of_position(s: ArraySubset, indices: Seq<u64>)
    requires
        s.wf(),
        s.spec_contains(indices),
    ensures
        0 <= s.position_of(indices) < s.spec_num_elements(),
        s.element_indices(s.position_of(indices)) == indices,
{
    let w = seq_sub(indices, s.spec_start());
    assert(in_bounds(w, s.spec_shape())) by {
        assert forall|d: int| 0 <= d < s.spec_shape().len() implies #[trigger] w[d] < s.spec_shape()[d] by {
            assert(s.spec_start()[d] <= indices[d] < s.spec_start()[d] + s.spec_shape()[d]);
        }
    }
    lemma_ravel_unravel(w, s.spec_shape());
    assert(s.element_indices(s.position_of(indices)) =~= indices);
}

impl ArraySubset {
    /// The subset lies inside an array of `array_shape`.
    pub open spec fn inside(&self, array_shape: Seq<u64>) -> bool {
        &&& self.spec_start().len() == array_shape.len()
        &&& forall|d: int|
            0 <= d < array_shape.len() ==> #[trigger] self.spec_start()[d] + self.spec_shape()[d]
                <= array_shape[d]
    }

    /// The byte range of each element of the subset, in row-major order, in the bytes of
    /// an array of `array_shape` with `element_size`-byte elements.
    pub fn byte_ranges(&self, array_shape: &[u64], element_size: usize) -> (r: Result<
        Vec<ByteRange>,
        IncompatibleArraySubsetAndShapeError,
    >)
        requires
            self.wf(),
            element_size > 0,
            num_elements(array_shape@) * element_size <= u64::MAX,
        ensures
            r is Ok <==> self.inside(array_shape@) && self.spec_num_elements() <= u64::MAX,
            r matches Ok(ranges) ==> ranges@.len() == self.spec_num_elements() && forall|k: int|
                0 <= k < self.spec_num_elements() ==> #[trigger] ranges@[k] == ByteRange::FromStart(
                    (ravel(self.element_indices(k), array_shape@) * element_size) as u64,
                    Some(element_size as u64),
                ),
    {
        let n = array_shape.len();
        if self.start.len() != n {
            return Err(IncompatibleArraySubsetAndShapeError);
        }
        let mut d: usize = 0;
        while d < n
            invariant
                self.wf(),
                n == array_shape@.len(),
                self.start@.len() == n,
                d <= n,
                forall|e: int|
                    0 <= e < d ==> #[trigger] self.start@[e] + self.shape@[e] <= array_shape@[e],
            decreases n - d,
        {
            if self.start[d] + self.shape[d] > array_shape[d] {
                return Err(IncompatibleArraySubsetAndShapeError);
            }
            d = d + 1;
        }
        let count = match self.num_elements() {
            Some(c) => c,
            None => return Err(IncompatibleArraySubsetAndShapeError),
        };
        let mut ranges: Vec<ByteRange> = Vec::new();
        let mut k: u64 = 0;
        while k < count
            invariant
                self.wf(),
                self.inside(array_shape@),
                n == array_shape@.len(),
                count == self.spec_num_elements(),
                num_elements(array_shape@) * element_size <= u64::MAX,
                element_size > 0,
                k <= count,
                ranges@.len() == k,
                forall|j: int|
                    0 <= j < k ==> #[trigger] ranges@[j] == ByteRange::FromStart(
                        (ravel(self.element_indices(j), array_shape@) * element_size) as u64,
                        Some(element_size as u64),
                    ),
            decreases count - k,
        {
            proof {
                assert(all_positive(self.shape@)) by {
                    if !all_positive(self.shape@) {
                        let e = choose|e: int| 0 <= e < self.shape@.len() && !(self.shape@[e] > 0);
                        lemma_num_elements_zero(self.shape@, e);
                    }
                }
                lemma_unravel_ravel(k as int, self.shape@);
            }
            let u = unravel_index(k, self.shape.as_slice());
            let mut idx: Vec<u64> = Vec::new();
            let mut e: usize = 0;
            while e < n
                invariant
                    self.wf(),
                    self.inside(array_shape@),
                    n == array_shape@.len(),
                    u@ == unravel(k as int, self.shape@),
                    in_bounds(u@, self.shape@),
                    e <= n,
                    idx@ =~= self.element_indices(k as int).subrange(0, e as int),
                decreases n - e,
            {
                assert(u@[e as int] < self.shape@[e as int]);
                assert(self.start@[e as int] + self.shape@[e as int] <= u64::MAX);
                idx.push(self.start[e] + u[e]);
                e = e + 1;
            }
            proof {
                assert(idx@ =~= self.element_indices(k as int));
                assert(in_bounds(idx@, array_shape@)) by {
                    assert forall|f: int| 0 <= f < n implies #[trigger] idx@[f] < array_shape@[f] by {
                        assert(u@[f] < self.shape@[f]);
                        assert(self.start@[f] + self.shape@[f] <= array_shape@[f]);
                    }
                }
                lemma_ravel_unravel(idx@, array_shape@);
                lemma_num_elements_nonneg(array_shape@);
                let m = num_elements(array_shape@);
                let o = ravel(idx@, array_shape@);
                assert(o * element_size + element_size <= m * element_size) by (nonlinear_arith)
                    requires
                        0 <= o < m,
                ;
                assert(m <= u64::MAX) by (nonlinear_arith)
                    requires
                        m * element_size <= u64::MAX,
                        m >= 0,
                        element_size >= 1,
                ;
            }
            proof {
                crate::indices::lemma_in_bounds_positive(idx@, array_shape@);
            }
            let o = ravel_indices(idx.as_slice(), array_shape);
            ranges.push(ByteRange::FromStart(o * (element_size as u64), Some(element_size as u64)));
            k = k + 1;
        }
        Ok(ranges)
    }
}

} // verus!
