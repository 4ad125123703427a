//! Spaces and positions: shaped flat arrays of per-cell boundaries or values.
//!
//! A `Space` describes, cell by cell, which values are admissible; a
//! `Position` is one concrete point inside such a space. Both store their
//! cells in one flat vector together with a shape (`dimensions`), and a
//! multi-dimensional index is turned into a flat offset by `calculate_index`.

use vstd::prelude::*;

use crate::float_bits::{
    bits_of_key, f32_is_finite, f32_le, key_of_bits, le_bits, lemma_finite_key_range,
};
use crate::rng::{
    entropy_integer_between, entropy_u64_between, uniform_integer_between, uniform_u64_between,
};

pub use crate::format::{Format, FormatError};

verus! {

/// Errors of space and position construction and indexing.
#[derive(Debug, Eq, PartialEq, Structural, Clone)]
pub enum SpaceError {
    GivenDimensionsDoNotMatch,
    IndexOutOfBounds,
}

/// Number of cells of a shape: the product of its extents (1 for the empty
/// shape).
pub open spec fn dims_product(dims: Seq<usize>) -> nat
    decreases dims.len(),
{
    if dims.len() == 0 {
        1
    } else {
        dims_product(dims.drop_last()) * (dims.last() as nat)
    }
}

/// Every index component falls short of its extent, and there are no more
/// components than extents.
pub open spec fn index_in_shape(dims: Seq<usize>, index: Seq<usize>) -> bool {
    index.len() <= dims.len() && forall|k: int| 0 <= k < index.len() ==> index[k] < dims[k]
}

/// Flat offset of a multi-dimensional index: the first component counts
/// unscaled, and each later component is scaled by the extent of the
/// dimension before it.
pub open spec fn flat_offset(dims: Seq<usize>, index: Seq<usize>) -> int
    decreases index.len(),
{
    if index.len() == 0 {
        0
    } else if index.len() == 1 {
        index[0] as int
    } else {
        flat_offset(dims, index.drop_last()) + index.last() * dims[index.len() - 2]
    }
}

/// A prefix of the index never has a larger offset than the whole index.
proof fn lemma_flat_offset_mono(dims: Seq<usize>, index: Seq<usize>, m: int)
    requires
        0 <= m <= index.len(),
    ensures
        flat_offset(dims, index.take(m)) <= flat_offset(dims, index),
    decreases index.len() - m,
{
    if m == index.len() {
        assert(index.take(m) =~= index);
    } else {
        lemma_flat_offset_mono(dims, index, m + 1);
        let p = index.take(m + 1);
        assert(p.drop_last() =~= index.take(m));
        if m == 0 {
            assert(flat_offset(dims, index.take(0)) == 0);
            assert(flat_offset(dims, p) >= 0) by {
                if p.len() == 1 {
                } else {
                    assert(p.last() * dims[p.len() - 2] >= 0) by (nonlinear_arith);
                }
            }
        } else {
            assert(p.last() * dims[p.len() - 2] >= 0) by (nonlinear_arith);
        }
    }
}

/// Offsets are never negative.
proof fn lemma_flat_offset_nonneg(dims: Seq<usize>, index: Seq<usize>)
    ensures
        flat_offset(dims, index) >= 0,
{
    lemma_flat_offset_mono(dims, index, 0);
    assert(flat_offset(dims, index.take(0)) == 0);
}

/// A shape of positive extents has a positive cell count.
proof fn lemma_dims_product_pos(dims: Seq<usize>)
    requires
        forall|k: int| 0 <= k < dims.len() ==> dims[k] >= 1,
    ensures
        dims_product(dims) >= 1,
    decreases dims.len(),
{
    if dims.len() > 0 {
        lemma_dims_product_pos(dims.drop_last());
        assert(dims_product(dims.drop_last()) * (dims.last() as nat) >= 1) by (nonlinear_arith)
            requires
                dims_product(dims.drop_last()) >= 1,
                dims.last() >= 1,
        ;
    }
}

/// An in-shape index of full length addresses a cell inside the flat array:
/// its offset is below the product of the extents.
pub proof fn lemma_flat_offset_in_bounds(dims: Seq<usize>, index: Seq<usize>)
    requires
        index.len() == dims.len(),
        forall|k: int| 0 <= k < index.len() ==> index[k] < dims[k],
    ensures
        0 <= flat_offset(dims, index) < dims_product(dims),
    decreases index.len(),
{
    lemma_flat_offset_nonneg(dims, index);
    if index.len() == 0 {
    } else {
        let n = index.len() as int;
        let dp = dims.drop_last();
        let ip = index.drop_last();
        lemma_flat_offset_in_bounds(dp, ip);
        assert(forall|k: int| 0 <= k < dp.len() ==> dp[k] >= 1);
        lemma_dims_product_pos(dp);
        let pp = dims_product(dp) as int;
        let sl = dims.last() as int;
        if n == 1 {
            assert(flat_offset(dims, index) == index[0]);
            assert(dims_product(dims) == pp * sl);
            assert(pp * sl >= sl) by (nonlinear_arith)
                requires
                    pp >= 1,
                    sl >= 0,
            ;
        } else {
            let il = index.last() as int;
            let sprev = dims[n - 2] as int;
            assert(flat_offset(dims, index) == flat_offset(dp, ip) + il * sprev) by {
                lemma_flat_offset_shape_prefix(dims, ip);
            }
            // the previous extent divides into the prefix cell count
            assert(pp >= sprev) by {
                assert(pp == dims_product(dp.drop_last()) * (dp.last() as int));
                assert(dp.last() == dims[n - 2]);
                lemma_dims_product_pos(dp.drop_last());
                assert(dims_product(dp.drop_last()) * (dp.last() as int) >= dp.last() as int)
                    by (nonlinear_arith)
                    requires
                        dims_product(dp.drop_last()) >= 1,
                        dp.last() as int >= 0,
                ;
            }
            assert(flat_offset(dp, ip) + il * sprev < pp * sl) by (nonlinear_arith)
                requires
                    flat_offset(dp, ip) < pp,
                    0 <= il < sl,
                    0 <= sprev <= pp,
            ;
            assert(dims_product(dims) == pp * sl);
        }
    }
}

/// The offset of an index only reads extents before the index's last
/// component, so a longer shape with the same front gives the same offset.
proof fn lemma_flat_offset_shape_prefix(dims: Seq<usize>, index: Seq<usize>)
    requires
        index.len() < dims.len(),
    ensures
        flat_offset(dims.drop_last(), index) == flat_offset(dims, index),
    decreases index.len(),
{
    if index.len() > 1 {
        lemma_flat_offset_shape_prefix(dims, index.drop_last());
    }
}

/// Turns a multi-dimensional `index` into the flat offset within a shape.
///
/// The offset is `index[0] + sum over i >= 1 of index[i] * shape[i - 1]`.
/// The call fails with `IndexOutOfBounds` when the index has more components
/// than the shape has extents, when any component reaches or exceeds its
/// extent, or when the offset does not fit in `usize`.
pub fn calculate_index(shape: &[usize], index: &[usize]) -> (r: Result<usize, SpaceError>)
    ensures
        r is Ok <==> index_in_shape(shape@, index@) && flat_offset(shape@, index@) <= usize::MAX,
        r is Ok ==> r->Ok_0 == flat_offset(shape@, index@),
        r is Err ==> r->Err_0 == SpaceError::IndexOutOfBounds,
{
    if index.len() > shape.len() {
        return Err(SpaceError::IndexOutOfBounds);
    }
    let mut k: usize = 0;
    while k < index.len()
        invariant
            k <= index.len() <= shape.len(),
            forall|j: int| 0 <= j < k ==> index@[j] < shape@[j],
        decreases index.len() - k,
    {
        if index[k] >= shape[k] {
            return Err(SpaceError::IndexOutOfBounds);
        }
        k = k + 1;
    }
    if index.len() == 0 {
        return Ok(0);
    }
    let mut out: usize = index[0];
    assert(index@.take(1) =~= seq![index@[0]]);
    assert(out == flat_offset(shape@, index@.take(1)));
    let mut i: usize = 1;
    while i < index.len()
        invariant
            1 <= i <= index.len() <= shape.len(),
            index_in_shape(shape@, index@),
            out == flat_offset(shape@, index@.take(i as int)),
        decreases index.len() - i,
    {
        let term = match index[i].checked_mul(shape[i - 1]) {
            Some(t) => t,
            None => {
                proof {
                    lemma_offset_exceeds_via_term(shape@, index@, i as int);
                }
                return Err(SpaceError::IndexOutOfBounds);
            },
        };
        let next = match out.checked_add(term) {
            Some(n) => n,
            None => {
                proof {
                    lemma_offset_exceeds_via_prefix(shape@, index@, i as int);
                }
                return Err(SpaceError::IndexOutOfBounds);
            },
        };
        proof {
            let p = index@.take(i + 1);
            assert(p.drop_last() =~= index@.take(i as int));
        }
        out = next;
        i = i + 1;
    }
    proof {
        assert(index@.take(index@.len() as int) =~= index@);
    }
    Ok(out)
}

/// If one scaled term already exceeds `usize::MAX`, so does the whole offset.
proof fn lemma_offset_exceeds_via_term(dims: Seq<usize>, index: Seq<usize>, i: int)
    requires
        1 <= i < index.len(),
        index.len() <= dims.len(),
        index[i] * dims[i - 1] > usize::MAX,
    ensures
        flat_offset(dims, index) > usize::MAX,
{
    let p = index.take(i + 1);
    assert(p.drop_last() =~= index.take(i));
    assert(flat_offset(dims, p) == flat_offset(dims, index.take(i)) + index[i] * dims[i - 1]);
    lemma_flat_offset_nonneg(dims, index.take(i));
    lemma_flat_offset_mono(dims, index, i + 1);
}

/// If a partial sum of the offset already exceeds `usize::MAX`, so does the
/// whole offset.
proof fn lemma_offset_exceeds_via_prefix(dims: Seq<usize>, index: Seq<usize>, i: int)
    requires
        1 <= i < index.len(),
        index.len() <= dims.len(),
        flat_offset(dims, index.take(i)) + index[i] * dims[i - 1] > usize::MAX,
    ensures
        flat_offset(dims, index) > usize::MAX,
{
    let p = index.take(i + 1);
    assert(p.drop_last() =~= index.take(i));
    assert(flat_offset(dims, p) == flat_offset(dims, index.take(i)) + index[i] * dims[i - 1]);
    lemma_flat_offset_mono(dims, index, i + 1);
}

/// A shape with a zero extent has no cells.
proof fn lemma_dims_product_zero(dims: Seq<usize>, k: int)
    requires
        0 <= k < dims.len(),
        dims[k] == 0,
    ensures
        dims_product(dims) == 0,
    decreases dims.len(),
{
    if k == dims.len() - 1 {
        assert(dims.last() == 0);
        assert(dims_product(dims.drop_last()) * (0 as nat) == 0) by (nonlinear_arith);
    } else {
        assert(dims.drop_last()[k] == dims[k]);
        lemma_dims_product_zero(dims.drop_last(), k);
        assert((0 as nat) * (dims.last() as nat) == 0) by (nonlinear_arith);
    }
}

/// Appending extents of at least one never shrinks the cell count.
proof fn lemma_dims_product_prefix(dims: Seq<usize>, m: int)
    requires
        0 <= m <= dims.len(),
        forall|k: int| 0 <= k < dims.len() ==> dims[k] >= 1,
    ensures
        dims_product(dims.take(m)) <= dims_product(dims),
    decreases dims.len() - m,
{
    if m == dims.len() {
        assert(dims.take(m) =~= dims);
    } else {
        lemma_dims_product_prefix(dims, m + 1);
        let p = dims.take(m + 1);
        assert(p.drop_last() =~= dims.take(m));
        assert(dims_product(p.drop_last()) * (p.last() as nat) >= dims_product(p.drop_last()))
            by (nonlinear_arith)
            requires
                p.last() >= 1,
        ;
    }
}

/// Cell count of a shape, or `None` when it does not fit in `usize`.
pub fn shape_cell_count(dims: &Vec<usize>) -> (r: Option<usize>)
    ensures
        r is Some ==> r->0 == dims_product(dims@),
        r is None ==> dims_product(dims@) > usize::MAX,
{
    let mut k: usize = 0;
    while k < dims.len()
        invariant
            k <= dims.len(),
            forall|j: int| 0 <= j < k ==> dims@[j] >= 1,
        decreases dims.len() - k,
    {
        if dims[k] == 0 {
            proof {
                lemma_dims_product_zero(dims@, k as int);
            }
            return Some(0);
        }
        k = k + 1;
    }
    let mut product: usize = 1;
    let mut i: usize = 0;
    assert(dims@.take(0) =~= Seq::<usize>::empty());
    while i < dims.len()
        invariant
            i <= dims.len(),
            forall|j: int| 0 <= j < dims@.len() ==> dims@[j] >= 1,
            product == dims_product(dims@.take(i as int)),
            product >= 1,
        decreases dims.len() - i,
    {
        proof {
            let p = dims@.take(i + 1);
            assert(p.drop_last() =~= dims@.take(i as int));
        }
        product = match product.checked_mul(dims[i]) {
            Some(p) => {
                assert(p >= 1) by (nonlinear_arith)
                    requires
                        p == product * dims@[i as int],
                        product >= 1,
                        dims@[i as int] >= 1,
                ;
                p
            },
            None => {
                proof {
                    lemma_dims_product_prefix(dims@, i + 1);
                }
                return None;
            },
        };
        i = i + 1;
    }
    proof {
        assert(dims@.take(dims@.len() as int) =~= dims@);
    }
    Some(product)
}

/// A value of one dimension: either discrete or continuous. A continuous
/// value carries the bit pattern of a binary32 number.
#[derive(Debug, PartialEq, Eq, Structural, Clone, Copy)]
pub enum DimensionValue {
    INTEGER(i32),
    FLOAT(u32),
}

impl DimensionValue {
    /// True when both values are of the same variant; the payloads are
    /// ignored.
    pub fn matches(&self, value: &DimensionValue) -> (r: bool)
        ensures
            r == (self is INTEGER <==> value is INTEGER),
    {
        match self {
            Self::INTEGER(_) => match value {
                Self::INTEGER(_) => true,
                Self::FLOAT(_) => false,
            },
            Self::FLOAT(_) => match value {
                Self::INTEGER(_) => false,
                Self::FLOAT(_) => true,
            },
        }
    }

    /// The discrete payload; the caller must already know the variant.
    pub fn expect_integer(&self) -> (r: i32)
        requires
            self is INTEGER,
        ensures
            r == self->INTEGER_0,
    {
        match self {
            Self::INTEGER(value) => *value,
            Self::FLOAT(_) => unreached(),
        }
    }

    /// The continuous payload, as a bit pattern; the caller must already know
    /// the variant.
    pub fn expect_float(&self) -> (r: u32)
        requires
            self is FLOAT,
        ensures
            r == self->FLOAT_0,
    {
        match self {
            Self::FLOAT(value) => *value,
            Self::INTEGER(_) => unreached(),
        }
    }
}

impl From<i32> for DimensionValue {
    fn from(value: i32) -> (r: Self) {
        Self::INTEGER(value)
    }
}

impl vstd::std_specs::convert::FromSpecImpl<i32> for DimensionValue {
    open spec fn obeys_from_spec() -> bool {
        true
    }

    open spec fn from_spec(value: i32) -> Self {
        Self::INTEGER(value)
    }
}

/// The inclusive lower and upper bound of one dimension. A continuous bound
/// carries the bit pattern of a binary32 number.
#[derive(Debug, PartialEq, Eq, Structural, Clone, Copy)]
pub enum DimensionBoundaries {
    INTEGER(i32, i32),
    FLOAT(u32, u32),
}

/// A boundary that can be drawn from: the bounds are ordered, and continuous
/// bounds are moreover finite.
pub open spec fn spec_sampleable(b: DimensionBoundaries) -> bool {
    match b {
        DimensionBoundaries::INTEGER(min, max) => min <= max,
        DimensionBoundaries::FLOAT(min, max) => f32_is_finite(min) && f32_is_finite(max)
            && f32_le(min, max),
    }
}

/// Containment of a value in a boundary: the variants must agree and the
/// payload must lie within the inclusive bounds. A continuous bound never
/// contains a discrete value nor the other way round, and a NaN bound or
/// value contains or is contained in nothing.
pub open spec fn spec_contains(b: DimensionBoundaries, v: DimensionValue) -> bool {
    match b {
        DimensionBoundaries::INTEGER(min, max) => match v {
            DimensionValue::INTEGER(val) => min <= val && val <= max,
            DimensionValue::FLOAT(_) => false,
        },
        DimensionBoundaries::FLOAT(min, max) => match v {
            DimensionValue::INTEGER(_) => false,
            DimensionValue::FLOAT(val) => f32_le(min, val) && f32_le(val, max),
        },
    }
}

impl DimensionBoundaries {
    /// Draws one value within the bounds from the thread-local generator.
    /// A discrete bound draws each integer of the range with equal
    /// probability; a continuous bound draws each representable binary32
    /// number of the range with equal probability.
    pub fn sample(&self) -> (r: DimensionValue)
        requires
            spec_sampleable(*self),
        ensures
            spec_contains(*self, r),
    {
        match self {
            Self::INTEGER(min, max) => DimensionValue::INTEGER(
                entropy_integer_between(*min, *max),
            ),
            Self::FLOAT(min, max) => {
                proof {
                    lemma_finite_key_range(*min);
                    lemma_finite_key_range(*max);
                }
                let kmin = key_of_bits(*min);
                let kmax = key_of_bits(*max);
                let offset = entropy_u64_between(0, (kmax - kmin) as u64);
                DimensionValue::FLOAT(bits_of_key(kmin + (offset as i64)))
            },
        }
    }

    /// Draws one value within the bounds from the given seeded generator; see
    /// `sample` for the distribution.
    pub fn sample_with(&self, rng: &mut rand::rngs::StdRng) -> (r: DimensionValue)
        requires
            spec_sampleable(*self),
        ensures
            spec_contains(*self, r),
    {
        match self {
            Self::INTEGER(min, max) => DimensionValue::INTEGER(
                uniform_integer_between(rng, *min, *max),
            ),
            Self::FLOAT(min, max) => {
                proof {
                    lemma_finite_key_range(*min);
                    lemma_finite_key_range(*max);
                }
                let kmin = key_of_bits(*min);
                let kmax = key_of_bits(*max);
                let offset = uniform_u64_between(rng, 0, (kmax - kmin) as u64);
                DimensionValue::FLOAT(bits_of_key(kmin + (offset as i64)))
            },
        }
    }

    /// True when both boundaries are of the same variant; the bound payloads
    /// are ignored.
    pub fn matches(&self, value: &DimensionBoundaries) -> (r: bool)
        ensures
            r == (self is INTEGER <==> value is INTEGER),
    {
        match self {
            Self::INTEGER(_, _) => match value {
                Self::INTEGER(_, _) => true,
                Self::FLOAT(_, _) => false,
            },
            Self::FLOAT(_, _) => match value {
                Self::INTEGER(_, _) => false,
                Self::FLOAT(_, _) => true,
            },
        }
    }

    /// True when the value is of the matching variant and lies within the
    /// inclusive bounds.
    pub fn contains(&self, value: &DimensionValue) -> (r: bool)
        ensures
            r == spec_contains(*self, *value),
    {
        match self {
            Self::INTEGER(min, max) => match value {
                DimensionValue::INTEGER(val) => *min <= *val && *val <= *max,
                DimensionValue::FLOAT(_) => false,
            },
            Self::FLOAT(min, max) => match value {
                DimensionValue::INTEGER(_) => false,
                DimensionValue::FLOAT(val) => le_bits(*min, *val) && le_bits(*val, *max),
            },
        }
    }

    /// The discrete bounds; the caller must already know the variant.
    pub fn expect_integer(&self) -> (r: (i32, i32))
        requires
            self is INTEGER,
        ensures
            r.0 == self->INTEGER_0,
            r.1 == self->INTEGER_1,
    {
        match self {
            Self::INTEGER(start, end) => (*start, *end),
            Self::FLOAT(_, _) => unreached(),
        }
    }

    /// The continuous bounds, as bit patterns; the caller must already know
    /// the variant.
    pub fn expect_float(&self) -> (r: (u32, u32))
        requires
            self is FLOAT,
        ensures
            r.0 == self->FLOAT_0,
            r.1 == self->FLOAT_1,
    {
        match self {
            Self::FLOAT(start, end) => (*start, *end),
            Self::INTEGER(_, _) => unreached(),
        }
    }
}

impl DimensionBoundaries {
    /// A discrete boundary over an inclusive range given in either order: the
    /// bounds are normalized so that the smaller one comes first.
    pub fn integer_range(start: i32, end: i32) -> (r: Self)
        ensures
            r == (if start <= end {
                DimensionBoundaries::INTEGER(start, end)
            } else {
                DimensionBoundaries::INTEGER(end, start)
            }),
    {
        if start <= end {
            Self::INTEGER(start, end)
        } else {
            Self::INTEGER(end, start)
        }
    }
}

impl From<i32> for DimensionBoundaries {
    fn from(value: i32) -> (r: Self) {
        if value < 0 {
            Self::INTEGER(value, 0)
        } else {
            Self::INTEGER(0, value)
        }
    }
}

impl vstd::std_specs::convert::FromSpecImpl<i32> for DimensionBoundaries {
    open spec fn obeys_from_spec() -> bool {
        true
    }

    open spec fn from_spec(value: i32) -> Self {
        if value < 0 {
            Self::INTEGER(value, 0)
        } else {
            Self::INTEGER(0, value)
        }
    }
}

/// A vector holding `count` copies of one value.
fn repeated<T: Copy>(value: T, count: usize) -> (r: Vec<T>)
    ensures
        r@.len() == count,
        forall|i: int| 0 <= i < count ==> r@[i] == value,
{
    let mut out: Vec<T> = Vec::new();
    let mut n: usize = 0;
    while n < count
        invariant
            n <= count,
            out@.len() == n,
            forall|i: int| 0 <= i < n ==> out@[i] == value,
        decreases count - n,
    {
        out.push(value);
        n = n + 1;
    }
    out
}

/// An owned copy of a shape.
pub(crate) fn copied_dims(a: &Vec<usize>) -> (r: Vec<usize>)
    ensures
        r@ == a@,
{
    let mut out: Vec<usize> = Vec::new();
    let mut k: usize = 0;
    while k < a.len()
        invariant
            k <= a.len(),
            out@ =~= a@.take(k as int),
        decreases a.len() - k,
    {
        out.push(a[k]);
        k = k + 1;
    }
    proof {
        assert(a@.take(a@.len() as int) =~= a@);
    }
    out
}

/// Element-wise equality of two shapes.
fn dims_equal(a: &Vec<usize>, b: &Vec<usize>) -> (r: bool)
    ensures
        r == (a@ == b@),
{
    if a.len() != b.len() {
        proof {
            assert(a@.len() != b@.len());
        }
        return false;
    }
    let mut k: usize = 0;
    while k < a.len()
        invariant
            k <= a.len(),
            a@.len() == b@.len(),
            forall|j: int| 0 <= j < k ==> a@[j] == b@[j],
        decreases a.len() - k,
    {
        if a[k] != b[k] {
            return false;
        }
        k = k + 1;
    }
    proof {
        assert(a@ =~= b@);
    }
    true
}

/// Defines which positions exist: a shaped flat array of per-cell inclusive
/// boundaries.
#[derive(Debug, PartialEq, Clone)]
pub struct Space {
    boundaries: Vec<DimensionBoundaries>,
    dimensions: Vec<usize>,
}

/// Shape-and-variant compatibility of two cell sequences: every pair up to
/// the shorter length is of the same variant.
pub open spec fn all_boundaries_match(a: Seq<DimensionBoundaries>, b: Seq<DimensionBoundaries>) -> bool {
    forall|i: int|
        0 <= i < a.len() && i < b.len() ==> ((a[i] is INTEGER) <==> (b[i] is INTEGER))
}

/// Every boundary cell contains the paired value cell, up to the shorter
/// length.
pub open spec fn all_cells_contained(b: Seq<DimensionBoundaries>, v: Seq<DimensionValue>) -> bool {
    forall|i: int| 0 <= i < b.len() && i < v.len() ==> spec_contains(b[i], v[i])
}

impl Space {
    /// The flat cell sequence.
    pub closed spec fn spec_boundaries(self) -> Seq<DimensionBoundaries> {
        self.boundaries@
    }

    /// The shape.
    pub closed spec fn spec_dimensions(self) -> Seq<usize> {
        self.dimensions@
    }

    /// Shape invariant: the cell count equals the product of the extents.
    pub open spec fn wf(self) -> bool {
        dims_product(self.spec_dimensions()) == self.spec_boundaries().len()
    }

    /// A space from a flat cell vector and a shape; fails if and only if the
    /// product of the extents differs from the number of cells.
    pub fn new(dimension_boundaries: Vec<DimensionBoundaries>, dimensions: Vec<usize>) -> (r:
        Result<Self, SpaceError>)
        ensures
            r is Ok <==> dims_product(dimensions@) == dimension_boundaries@.len(),
            r is Ok ==> r->Ok_0.spec_boundaries() == dimension_boundaries@
                && r->Ok_0.spec_dimensions() == dimensions@ && r->Ok_0.wf(),
            r is Err ==> r->Err_0 == SpaceError::GivenDimensionsDoNotMatch,
    {
        let cells = dimension_boundaries.len();
        match shape_cell_count(&dimensions) {
            Some(count) => {
                if count == cells {
                    Ok(Self { boundaries: dimension_boundaries, dimensions })
                } else {
                    Err(SpaceError::GivenDimensionsDoNotMatch)
                }
            },
            None => Err(SpaceError::GivenDimensionsDoNotMatch),
        }
    }

    /// A space of the given shape with every cell equal to
    /// `dimension_boundaries`.
    pub fn all(dimension_boundaries: DimensionBoundaries, dimensions: Vec<usize>) -> (r: Self)
        requires
            dims_product(dimensions@) <= usize::MAX,
        ensures
            r.spec_dimensions() == dimensions@,
            r.spec_boundaries().len() == dims_product(dimensions@),
            forall|i: int| 0 <= i < r.spec_boundaries().len() ==> r.spec_boundaries()[i]
                == dimension_boundaries,
            r.wf(),
    {
        let count = match shape_cell_count(&dimensions) {
            Some(c) => c,
            None => unreached(),
        };
        Self { boundaries: repeated(dimension_boundaries, count), dimensions }
    }

    /// A one-dimensional space over the given cells.
    pub fn simple(dimension_boundaries: Vec<DimensionBoundaries>) -> (r: Self)
        ensures
            r.spec_boundaries() == dimension_boundaries@,
            r.spec_dimensions() =~= seq![dimension_boundaries@.len() as usize],
            r.wf(),
    {
        let length = dimension_boundaries.len();
        let mut dimensions: Vec<usize> = Vec::new();
        dimensions.push(length);
        proof {
            assert(dimensions@.drop_last() =~= Seq::<usize>::empty());
            assert(dims_product(Seq::<usize>::empty()) == 1);
            assert(dims_product(dimensions@) == dims_product(dimensions@.drop_last()) * (
            dimensions@.last() as nat));
        }
        Self { boundaries: dimension_boundaries, dimensions }
    }

    /// A one-dimensional space of `times` equal cells.
    pub fn simple_all(dimension_boundaries: DimensionBoundaries, times: usize) -> (r: Self)
        ensures
            r.spec_dimensions() =~= seq![times],
            r.spec_boundaries().len() == times,
            forall|i: int| 0 <= i < times ==> r.spec_boundaries()[i] == dimension_boundaries,
            r.wf(),
    {
        let mut dimensions: Vec<usize> = Vec::new();
        dimensions.push(times);
        proof {
            assert(dimensions@.drop_last() =~= Seq::<usize>::empty());
            assert(dims_product(Seq::<usize>::empty()) == 1);
            assert(dims_product(dimensions@) == dims_product(dimensions@.drop_last()) * (
            dimensions@.last() as nat));
        }
        Self { boundaries: repeated(dimension_boundaries, times), dimensions }
    }

    /// The shape.
    pub fn dimensions(&self) -> (r: &Vec<usize>)
        ensures
            r@ == self.spec_dimensions(),
    {
        &self.dimensions
    }

    /// The boundary cell addressed by a full multi-dimensional index.
    pub fn get_boundary(&self, index: &[usize]) -> (r: DimensionBoundaries)
        requires
            self.wf(),
            index@.len() == self.spec_dimensions().len(),
            forall|k: int| 0 <= k < index@.len() ==> index@[k] < self.spec_dimensions()[k],
        ensures
            r == self.spec_boundaries()[flat_offset(self.spec_dimensions(), index@)],
    {
        let cells = self.boundaries.len();
        proof {
            lemma_flat_offset_in_bounds(self.spec_dimensions(), index@);
            assert(flat_offset(self.spec_dimensions(), index@) < cells);
        }
        match calculate_index(self.dimensions.as_slice(), index) {
            Ok(flat) => self.boundaries[flat],
            Err(_) => unreached(),
        }
    }

    /// Overwrites the boundary cell addressed by a full multi-dimensional
    /// index.
    pub fn set_boundary(&mut self, index: &[usize], boundary: DimensionBoundaries)
        requires
            old(self).wf(),
            index@.len() == old(self).spec_dimensions().len(),
            forall|k: int| 0 <= k < index@.len() ==> index@[k] < old(self).spec_dimensions()[k],
        ensures
            final(self).spec_dimensions() == old(self).spec_dimensions(),
            final(self).spec_boundaries() == old(self).spec_boundaries().update(
                flat_offset(old(self).spec_dimensions(), index@),
                boundary,
            ),
            final(self).wf(),
    {
        let cells = self.boundaries.len();
        proof {
            lemma_flat_offset_in_bounds(self.spec_dimensions(), index@);
            assert(flat_offset(self.spec_dimensions(), index@) < cells);
        }
        match calculate_index(self.dimensions.as_slice(), index) {
            Ok(flat) => {
                self.boundaries.set(flat, boundary);
            },
            Err(_) => unreached(),
        }
    }

    /// All cells in flat storage order.
    pub fn get_boundaries(&self) -> (r: &[DimensionBoundaries])
        ensures
            r@ == self.spec_boundaries(),
    {
        self.boundaries.as_slice()
    }

    /// The cell at a flat offset.
    pub(crate) fn flat_get(&self, i: usize) -> (r: DimensionBoundaries)
        requires
            i < self.spec_boundaries().len(),
        ensures
            r == self.spec_boundaries()[i as int],
    {
        self.boundaries[i]
    }

    /// Overwrites the cell at a flat offset.
    pub(crate) fn flat_set(&mut self, i: usize, boundary: DimensionBoundaries)
        requires
            i < old(self).spec_boundaries().len(),
        ensures
            final(self).spec_dimensions() == old(self).spec_dimensions(),
            final(self).spec_boundaries() == old(self).spec_boundaries().update(
                i as int,
                boundary,
            ),
    {
        self.boundaries.set(i, boundary);
    }

    /// Draws a position from this space with the thread-local generator:
    /// every cell is sampled independently, in flat storage order, and the
    /// shape carries over unchanged.
    pub fn sample(&self) -> (r: Position)
        requires
            forall|i: int| 0 <= i < self.spec_boundaries().len() ==> spec_sampleable(
                self.spec_boundaries()[i],
            ),
        ensures
            r.spec_dimensions() == self.spec_dimensions(),
            r.spec_values().len() == self.spec_boundaries().len(),
            all_cells_contained(self.spec_boundaries(), r.spec_values()),
            self.wf() ==> r.wf(),
    {
        let mut values: Vec<DimensionValue> = Vec::new();
        let mut k: usize = 0;
        while k < self.boundaries.len()
            invariant
                k <= self.spec_boundaries().len(),
                values@.len() == k,
                forall|i: int| 0 <= i < self.spec_boundaries().len() ==> spec_sampleable(
                    self.spec_boundaries()[i],
                ),
                forall|j: int| 0 <= j < k ==> spec_contains(
                    self.spec_boundaries()[j],
                    values@[j],
                ),
            decreases self.spec_boundaries().len() - k,
        {
            values.push(self.boundaries[k].sample());
            k = k + 1;
        }
        Position { values, dimensions: copied_dims(&self.dimensions) }
    }

    /// Draws a position from this space with the given seeded generator:
    /// every cell is sampled independently, in flat storage order, and the
    /// shape carries over unchanged.
    pub fn sample_with(&self, rng: &mut rand::rngs::StdRng) -> (r: Position)
        requires
            forall|i: int| 0 <= i < self.spec_boundaries().len() ==> spec_sampleable(
                self.spec_boundaries()[i],
            ),
        ensures
            r.spec_dimensions() == self.spec_dimensions(),
            r.spec_values().len() == self.spec_boundaries().len(),
            all_cells_contained(self.spec_boundaries(), r.spec_values()),
            self.wf() ==> r.wf(),
    {
        let mut values: Vec<DimensionValue> = Vec::new();
        let mut k: usize = 0;
        while k < self.boundaries.len()
            invariant
                k <= self.spec_boundaries().len(),
                values@.len() == k,
                forall|i: int| 0 <= i < self.spec_boundaries().len() ==> spec_sampleable(
                    self.spec_boundaries()[i],
                ),
                forall|j: int| 0 <= j < k ==> spec_contains(
                    self.spec_boundaries()[j],
                    values@[j],
                ),
            decreases self.spec_boundaries().len() - k,
        {
            values.push(self.boundaries[k].sample_with(rng));
            k = k + 1;
        }
        Position { values, dimensions: copied_dims(&self.dimensions) }
    }

    /// True when the shapes are equal and every pair of cells is of the same
    /// variant.
    pub fn matches(&self, other: &Space) -> (r: bool)
        ensures
            r == (self.spec_dimensions() == other.spec_dimensions() && all_boundaries_match(
                self.spec_boundaries(),
                other.spec_boundaries(),
            )),
    {
        if !dims_equal(&self.dimensions, &other.dimensions) {
            return false;
        }
        let shorter = if self.boundaries.len() <= other.boundaries.len() {
            self.boundaries.len()
        } else {
            other.boundaries.len()
        };
        let mut k: usize = 0;
        while k < shorter
            invariant
                k <= shorter,
                shorter <= self.spec_boundaries().len(),
                shorter <= other.spec_boundaries().len(),
                shorter == self.spec_boundaries().len() || shorter == other.spec_boundaries().len(),
                forall|j: int| 0 <= j < k ==> ((self.spec_boundaries()[j] is INTEGER)
                    <==> (other.spec_boundaries()[j] is INTEGER)),
            decreases shorter - k,
        {
            if !self.boundaries[k].matches(&other.boundaries[k]) {
                return false;
            }
            k = k + 1;
        }
        true
    }

    /// True when the shapes are equal and every boundary cell contains the
    /// paired value cell of the position.
    pub fn contains(&self, other: &Position) -> (r: bool)
        ensures
            r == (self.spec_dimensions() == other.spec_dimensions() && all_cells_contained(
                self.spec_boundaries(),
                other.spec_values(),
            )),
    {
        if !dims_equal(&self.dimensions, other.dimensions()) {
            return false;
        }
        let values = other.get_values();
        let shorter = if self.boundaries.len() <= values.len() {
            self.boundaries.len()
        } else {
            values.len()
        };
        let mut k: usize = 0;
        while k < shorter
            invariant
                values@ == other.spec_values(),
                k <= shorter,
                shorter <= self.spec_boundaries().len(),
                shorter <= other.spec_values().len(),
                shorter == self.spec_boundaries().len() || shorter == other.spec_values().len(),
                forall|j: int| 0 <= j < k ==> spec_contains(
                    self.spec_boundaries()[j],
                    other.spec_values()[j],
                ),
            decreases shorter - k,
        {
            if !self.boundaries[k].contains(&values[k]) {
                return false;
            }
            k = k + 1;
        }
        true
    }
}

/// One state or position inside a space: a shaped flat array of per-cell
/// values.
#[derive(Debug, PartialEq, Clone)]
pub struct Position {
    values: Vec<DimensionValue>,
    dimensions: Vec<usize>,
}

impl Position {
    /// The flat cell sequence.
    pub closed spec fn spec_values(self) -> Seq<DimensionValue> {
        self.values@
    }

    /// The shape.
    pub closed spec fn spec_dimensions(self) -> Seq<usize> {
        self.dimensions@
    }

    /// Shape invariant: the cell count equals the product of the extents.
    pub open spec fn wf(self) -> bool {
        dims_product(self.spec_dimensions()) == self.spec_values().len()
    }

    /// A position from a flat cell vector and a shape; fails if and only if
    /// the product of the extents differs from the number of cells.
    pub fn new(dimension_values: Vec<DimensionValue>, dimensions: Vec<usize>) -> (r: Result<
        Self,
        SpaceError,
    >)
        ensures
            r is Ok <==> dims_product(dimensions@) == dimension_values@.len(),
            r is Ok ==> r->Ok_0.spec_values() == dimension_values@ && r->Ok_0.spec_dimensions()
                == dimensions@ && r->Ok_0.wf(),
            r is Err ==> r->Err_0 == SpaceError::GivenDimensionsDoNotMatch,
    {
        let cells = dimension_values.len();
        match shape_cell_count(&dimensions) {
            Some(count) => {
                if count == cells {
                    Ok(Self { values: dimension_values, dimensions })
                } else {
                    Err(SpaceError::GivenDimensionsDoNotMatch)
                }
            },
            None => Err(SpaceError::GivenDimensionsDoNotMatch),
        }
    }

    /// A position of the given shape with every cell equal to
    /// `dimension_value`.
    pub fn all(dimension_value: DimensionValue, dimensions: Vec<usize>) -> (r: Self)
        requires
            dims_product(dimensions@) <= usize::MAX,
        ensures
            r.spec_dimensions() == dimensions@,
            r.spec_values().len() == dims_product(dimensions@),
            forall|i: int| 0 <= i < r.spec_values().len() ==> r.spec_values()[i] == dimension_value,
            r.wf(),
    {
        let count = match shape_cell_count(&dimensions) {
            Some(c) => c,
            None => unreached(),
        };
        Self { values: repeated(dimension_value, count), dimensions }
    }

    /// A one-dimensional position over the given cells.
    pub fn simple(dimension_values: Vec<DimensionValue>) -> (r: Self)
        ensures
            r.spec_values() == dimension_values@,
            r.spec_dimensions() =~= seq![dimension_values@.len() as usize],
            r.wf(),
    {
        let length = dimension_values.len();
        let mut dimensions: Vec<usize> = Vec::new();
        dimensions.push(length);
        proof {
            assert(dimensions@.drop_last() =~= Seq::<usize>::empty());
            assert(dims_product(Seq::<usize>::empty()) == 1);
            assert(dims_product(dimensions@) == dims_product(dimensions@.drop_last()) * (
            dimensions@.last() as nat));
        }
        Self { values: dimension_values, dimensions }
    }

    /// A one-dimensional position of `times` equal cells.
    pub fn simple_all(dimension_value: DimensionValue, times: usize) -> (r: Self)
        ensures
            r.spec_dimensions() =~= seq![times],
            r.spec_values().len() == times,
            forall|i: int| 0 <= i < times ==> r.spec_values()[i] == dimension_value,
            r.wf(),
    {
        let mut dimensions: Vec<usize> = Vec::new();
        dimensions.push(times);
        proof {
            assert(dimensions@.drop_last() =~= Seq::<usize>::empty());
            assert(dims_product(Seq::<usize>::empty()) == 1);
            assert(dims_product(dimensions@) == dims_product(dimensions@.drop_last()) * (
            dimensions@.last() as nat));
        }
        Self { values: repeated(dimension_value, times), dimensions }
    }

    /// The shape.
    pub fn dimensions(&self) -> (r: &Vec<usize>)
        ensures
            r@ == self.spec_dimensions(),
    {
        &self.dimensions
    }

    /// True when the shapes are equal and every pair of cells is of the same
    /// variant.
    pub fn matches(&self, other: &Position) -> (r: bool)
        ensures
            r == (self.spec_dimensions() == other.spec_dimensions() && all_values_match(
                self.spec_values(),
                other.spec_values(),
            )),
    {
        if !dims_equal(&self.dimensions, &other.dimensions) {
            return false;
        }
        let shorter = if self.values.len() <= other.values.len() {
            self.values.len()
        } else {
            other.values.len()
        };
        let mut k: usize = 0;
        while k < shorter
            invariant
                k <= shorter,
                shorter <= self.spec_values().len(),
                shorter <= other.spec_values().len(),
                shorter == self.spec_values().len() || shorter == other.spec_values().len(),
                forall|j: int| 0 <= j < k ==> ((self.spec_values()[j] is INTEGER)
                    <==> (other.spec_values()[j] is INTEGER)),
            decreases shorter - k,
        {
            if !self.values[k].matches(&other.values[k]) {
                return false;
            }
            k = k + 1;
        }
        true
    }

    /// The value cell addressed by a full multi-dimensional index.
    pub fn get_value(&self, index: &[usize]) -> (r: DimensionValue)
        requires
            self.wf(),
            index@.len() == self.spec_dimensions().len(),
            forall|k: int| 0 <= k < index@.len() ==> index@[k] < self.spec_dimensions()[k],
        ensures
            r == self.spec_values()[flat_offset(self.spec_dimensions(), index@)],
    {
        let cells = self.values.len();
        proof {
            lemma_flat_offset_in_bounds(self.spec_dimensions(), index@);
            assert(flat_offset(self.spec_dimensions(), index@) < cells);
        }
        match calculate_index(self.dimensions.as_slice(), index) {
            Ok(flat) => self.values[flat],
            Err(_) => unreached(),
        }
    }

    /// Overwrites the value cell addressed by a full multi-dimensional index.
    pub fn set_value(&mut self, index: &[usize], value: DimensionValue)
        requires
            old(self).wf(),
            index@.len() == old(self).spec_dimensions().len(),
            forall|k: int| 0 <= k < index@.len() ==> index@[k] < old(self).spec_dimensions()[k],
        ensures
            final(self).spec_dimensions() == old(self).spec_dimensions(),
            final(self).spec_values() == old(self).spec_values().update(
                flat_offset(old(self).spec_dimensions(), index@),
                value,
            ),
            final(self).wf(),
    {
        let cells = self.values.len();
        proof {
            lemma_flat_offset_in_bounds(self.spec_dimensions(), index@);
            assert(flat_offset(self.spec_dimensions(), index@) < cells);
        }
        match calculate_index(self.dimensions.as_slice(), index) {
            Ok(flat) => {
                self.values.set(flat, value);
            },
            Err(_) => unreached(),
        }
    }

    /// All cells in flat storage order.
    pub fn get_values(&self) -> (r: &[DimensionValue])
        ensures
            r@ == self.spec_values(),
    {
        self.values.as_slice()
    }

    /// The cell at a flat offset.
    pub(crate) fn flat_get(&self, i: usize) -> (r: DimensionValue)
        requires
            i < self.spec_values().len(),
        ensures
            r == self.spec_values()[i as int],
    {
        self.values[i]
    }

    /// Overwrites the cell at a flat offset.
    pub(crate) fn flat_set(&mut self, i: usize, value: DimensionValue)
        requires
            i < old(self).spec_values().len(),
        ensures
            final(self).spec_dimensions() == old(self).spec_dimensions(),
            final(self).spec_values() == old(self).spec_values().update(i as int, value),
    {
        self.values.set(i, value);
    }
}

/// Variant compatibility of two value sequences, up to the shorter length.
pub open spec fn all_values_match(a: Seq<DimensionValue>, b: Seq<DimensionValue>) -> bool {
    forall|i: int|
        0 <= i < a.len() && i < b.len() ==> ((a[i] is INTEGER) <==> (b[i] is INTEGER))
}

} // verus!
