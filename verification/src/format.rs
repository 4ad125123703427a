//! A named-path index over one flat space: every registered key owns a
//! contiguous, disjoint sub-range of the flat cell array.
//!
//! Keys are appended one after the other; each new key's region starts where
//! the previous regions end, so regions never overlap. A `Format` and the
//! `Space` or `Position` it addresses are linked only by the convention that
//! the flat cell count equals the format's total length.

use vstd::prelude::*;

use crate::space::{
    calculate_index, copied_dims, dims_product, flat_offset, index_in_shape, shape_cell_count,
    DimensionBoundaries, DimensionValue, Position, Space, SpaceError,
};

verus! {

/// A multi-dimensional index that addresses a cell within a sub-range of the
/// given shape: in shape, with a flat offset below the shape's cell count.
pub open spec fn spec_sub_index_ok(shape: Seq<usize>, index: Seq<usize>) -> bool {
    index_in_shape(shape, index) && flat_offset(shape, index) < dims_product(shape)
}

/// Errors of format registration and of format-mediated access.
#[derive(Debug, Eq, PartialEq, Clone)]
pub enum FormatError {
    KeyAlreadyExistsInFormat(String),
    KeyNotFoundInFormat(String),
    SpaceCreationError(SpaceError),
    PositionCreationError(SpaceError),
    GivenSpaceDoesNotFit { needed: usize, given: usize },
    SpaceIndexError(SpaceError),
    PositionIndexError(SpaceError),
}

/// One registered sub-range: where it starts, its shape, and its cell count.
struct SubFormat {
    offset: usize,
    shape: Vec<usize>,
    length: usize,
}

/// Total cell count of the first `m` entries.
spec fn prefix_length(entries: Seq<(String, SubFormat)>, m: int) -> int
    decreases m,
{
    if m <= 0 {
        0
    } else {
        prefix_length(entries, m - 1) + entries[m - 1].1.length
    }
}

/// Prefix cell counts never shrink as entries are added.
proof fn lemma_prefix_length_mono(entries: Seq<(String, SubFormat)>, i: int, j: int)
    requires
        0 <= i <= j,
    ensures
        prefix_length(entries, i) <= prefix_length(entries, j),
    decreases j - i,
{
    if i < j {
        lemma_prefix_length_mono(entries, i, j - 1);
    }
}

/// Prefix cell counts only read the entries before the cut.
proof fn lemma_prefix_length_push(
    entries: Seq<(String, SubFormat)>,
    entry: (String, SubFormat),
    m: int,
)
    requires
        0 <= m <= entries.len(),
    ensures
        prefix_length(entries.push(entry), m) == prefix_length(entries, m),
    decreases m,
{
    if m > 0 {
        lemma_prefix_length_push(entries, entry, m - 1);
    }
}

/// Every key registered in `old_fmt` is registered in `new_fmt` with the
/// same sub-range and shape.
pub open spec fn keeps_registered(old_fmt: Format, new_fmt: Format) -> bool {
    forall|k: Seq<char>| #![trigger old_fmt.spec_contains_key(k)]
        old_fmt.spec_contains_key(k) ==> {
            &&& new_fmt.spec_contains_key(k)
            &&& new_fmt.spec_offset_of(k) == old_fmt.spec_offset_of(k)
            &&& new_fmt.spec_shape_of(k) == old_fmt.spec_shape_of(k)
            &&& new_fmt.spec_sublength_of(k) == old_fmt.spec_sublength_of(k)
        }
}

/// Maps hierarchical string keys to disjoint contiguous sub-ranges of one
/// flat `Space` or `Position`.
pub struct Format {
    entries: Vec<(String, SubFormat)>,
    length: usize,
}

impl Format {
    /// The registered keys, in registration order.
    pub closed spec fn spec_keys(self) -> Seq<Seq<char>> {
        Seq::new(self.entries@.len(), |i: int| self.entries@[i].0@)
    }

    /// Whether a key has been registered.
    pub open spec fn spec_contains_key(self, key: Seq<char>) -> bool {
        self.spec_keys().contains(key)
    }

    /// The total cell count of all registered sub-ranges.
    pub closed spec fn spec_length(self) -> usize {
        self.length
    }

    /// The position of a registered key among the entries.
    spec fn spec_key_index(self, key: Seq<char>) -> int {
        choose|i: int| 0 <= i < self.entries@.len() && self.entries@[i].0@ == key
    }

    /// Where a registered key's sub-range starts.
    pub closed spec fn spec_offset_of(self, key: Seq<char>) -> usize {
        self.entries@[self.spec_key_index(key)].1.offset
    }

    /// The shape registered for a key.
    pub closed spec fn spec_shape_of(self, key: Seq<char>) -> Seq<usize> {
        self.entries@[self.spec_key_index(key)].1.shape@
    }

    /// The cell count of a registered key's sub-range.
    pub closed spec fn spec_sublength_of(self, key: Seq<char>) -> usize {
        self.entries@[self.spec_key_index(key)].1.length
    }

    /// Internal consistency: each entry's cell count is the product of its
    /// shape, the entries tile the range `[0, length)` back to back in
    /// registration order, and no key occurs twice.
    pub closed spec fn wf(self) -> bool {
        &&& forall|i: int| 0 <= i < self.entries@.len() ==> (#[trigger] self.entries@[i]).1.length
            == dims_product(self.entries@[i].1.shape@)
        &&& forall|i: int| 0 <= i < self.entries@.len() ==> (#[trigger] self.entries@[i]).1.offset
            == prefix_length(self.entries@, i)
        &&& self.length == prefix_length(self.entries@, self.entries@.len() as int)
        &&& forall|i: int, j: int| 0 <= i < j < self.entries@.len() ==> self.entries@[i].0@
            != self.entries@[j].0@
    }

    /// The entry holding a key is the one the key's accessors read.
    proof fn lemma_entry_lookup(self, i: int)
        requires
            self.wf(),
            0 <= i < self.entries@.len(),
        ensures
            self.spec_contains_key(self.entries@[i].0@),
            self.spec_key_index(self.entries@[i].0@) == i,
    {
        let key = self.entries@[i].0@;
        assert(self.spec_keys()[i] == key);
        assert(self.spec_keys().contains(key));
        let j = self.spec_key_index(key);
        assert(exists|m: int| 0 <= m < self.entries@.len() && self.entries@[m].0@ == key);
        assert(0 <= j < self.entries@.len() && self.entries@[j].0@ == key);
    }

    /// A registered key's sub-range lies inside `[0, length)`, and its cell
    /// count is the product of its shape.
    pub proof fn lemma_sub_range(self, key: Seq<char>)
        requires
            self.wf(),
            self.spec_contains_key(key),
        ensures
            self.spec_sublength_of(key) == dims_product(self.spec_shape_of(key)),
            self.spec_offset_of(key) + self.spec_sublength_of(key) <= self.spec_length(),
    {
        let w = choose|m: int| 0 <= m < self.spec_keys().len() && self.spec_keys()[m] == key;
        assert(self.entries@[w].0@ == key);
        let i = self.spec_key_index(key);
        assert(0 <= i < self.entries@.len() && self.entries@[i].0@ == key);
        assert(self.spec_offset_of(key) + self.spec_sublength_of(key) == prefix_length(
            self.entries@,
            i + 1,
        ));
        lemma_prefix_length_mono(self.entries@, i + 1, self.entries@.len() as int);
    }

    /// The entry index of a key, or `None` when the key is not registered.
    fn find_entry(&self, key: &String) -> (r: Option<usize>)
        requires
            self.wf(),
        ensures
            match r {
                Some(i) => self.spec_contains_key(key@) && i < self.entries@.len()
                    && self.entries@[i as int].0@ == key@ && self.spec_key_index(key@) == i,
                None => !self.spec_contains_key(key@),
            },
    {
        let mut i: usize = 0;
        while i < self.entries.len()
            invariant
                self.wf(),
                i <= self.entries@.len(),
                forall|j: int| 0 <= j < i ==> self.entries@[j].0@ != key@,
            decreases self.entries@.len() - i,
        {
            if self.entries[i].0 == *key {
                proof {
                    self.lemma_entry_lookup(i as int);
                }
                return Some(i);
            }
            i = i + 1;
        }
        proof {
            assert forall|m: int| 0 <= m < self.spec_keys().len() implies self.spec_keys()[m]
                != key@ by {
                assert(self.entries@[m].0@ != key@);
            }
        }
        None
    }

    /// Registers `key` for a fresh sub-range of `shape` at the end of the
    /// current range; fails if and only if the key is already registered, and
    /// then changes nothing.
    #[verifier::rlimit(50)]
    pub fn add(&mut self, key: String, shape: Vec<usize>) -> (r: Result<(), FormatError>)
        requires
            old(self).wf(),
            old(self).spec_length() + dims_product(shape@) <= usize::MAX,
        ensures
            final(self).wf(),
            r is Ok <==> !old(self).spec_contains_key(key@),
            r is Err ==> *final(self) == *old(self) && (r->Err_0 matches
            FormatError::KeyAlreadyExistsInFormat(k) && k@ == key@),
            r is Ok ==> {
                &&& final(self).spec_keys() == old(self).spec_keys().push(key@)
                &&& final(self).spec_contains_key(key@)
                &&& final(self).spec_offset_of(key@) == old(self).spec_length()
                &&& final(self).spec_shape_of(key@) == shape@
                &&& final(self).spec_sublength_of(key@) == dims_product(shape@)
                &&& final(self).spec_length() == old(self).spec_length() + dims_product(shape@)
            },
            r is Ok ==> keeps_registered(*old(self), *final(self)),
    {
        match self.find_entry(&key) {
            Some(_) => Err(FormatError::KeyAlreadyExistsInFormat(key)),
            None => {
                let sub_length = match shape_cell_count(&shape) {
                    Some(c) => c,
                    None => unreached(),
                };
                let ghost old_entries = self.entries@;
                let ghost old_self = *self;
                let sub = SubFormat { offset: self.length, shape, length: sub_length };
                self.entries.push((key, sub));
                self.length = self.length + sub_length;
                proof {
                    let n = old_entries.len() as int;
                    assert forall|m: int| 0 <= m <= n implies prefix_length(self.entries@, m)
                        == prefix_length(old_entries, m) by {
                        lemma_prefix_length_push(old_entries, self.entries@[n], m);
                    }
                    assert forall|j: int| 0 <= j < n implies self.entries@[j].0@ != key@ by {
                        assert(old_self.spec_keys()[j] == old_entries[j].0@);
                        if old_entries[j].0@ == key@ {
                            assert(old_self.spec_keys().contains(key@));
                        }
                    }
                    assert forall|i: int| 0 <= i < self.entries@.len() implies (
                    #[trigger] self.entries@[i]).1.offset == prefix_length(self.entries@, i) by {
                        if i < n {
                            assert(self.entries@[i] == old_entries[i]);
                        } else {
                            assert(self.entries@[i].1.offset == old_self.length);
                        }
                    }
                    assert(prefix_length(self.entries@, n + 1) == prefix_length(self.entries@, n)
                        + self.entries@[n].1.length);
                    assert(self.wf());
                    assert(final(self).spec_keys() =~= old_self.spec_keys().push(key@));
                    self.lemma_entry_lookup(n);
                    assert(keeps_registered(old_self, *self)) by {
                        assert forall|k: Seq<char>| #![trigger old_self.spec_contains_key(k)]
                            old_self.spec_contains_key(k) implies {
                            &&& (*self).spec_contains_key(k)
                            &&& #[trigger] (*self).spec_offset_of(k) == old_self.spec_offset_of(k)
                            &&& (*self).spec_shape_of(k) == old_self.spec_shape_of(k)
                            &&& (*self).spec_sublength_of(k) == old_self.spec_sublength_of(k)
                        } by {
                            assert(old_self.spec_keys().contains(k));
                            let w = choose|m: int|
                                0 <= m < old_self.spec_keys().len() && old_self.spec_keys()[m]
                                    == k;
                            assert(old_entries[w].0@ == k);
                            old_self.lemma_entry_lookup(w);
                            self.lemma_entry_lookup(w);
                            assert(self.entries@[w] == old_entries[w]);
                        }
                    }
                }
                Ok(())
            },
        }
    }

    /// Whether a key has been registered.
    pub fn contains(&self, key: &String) -> (r: bool)
        requires
            self.wf(),
        ensures
            r == self.spec_contains_key(key@),
    {
        self.find_entry(key).is_some()
    }

    /// The shape registered for a key, or `None` when the key is not
    /// registered.
    pub fn shape_of(&self, key: &String) -> (r: Option<&Vec<usize>>)
        requires
            self.wf(),
        ensures
            r is Some <==> self.spec_contains_key(key@),
            r is Some ==> r->0@ == self.spec_shape_of(key@),
    {
        match self.find_entry(key) {
            Some(i) => Some(&self.entries[i].1.shape),
            None => None,
        }
    }

    /// The registered keys, in registration order.
    pub fn keys(&self) -> (r: Vec<String>)
        ensures
            r@.len() == self.spec_keys().len(),
            forall|i: int| 0 <= i < r@.len() ==> r@[i]@ == self.spec_keys()[i],
    {
        let mut out: Vec<String> = Vec::new();
        let mut i: usize = 0;
        while i < self.entries.len()
            invariant
                i <= self.entries@.len(),
                out@.len() == i,
                forall|j: int| 0 <= j < i ==> out@[j]@ == self.entries@[j].0@,
            decreases self.entries@.len() - i,
        {
            out.push(self.entries[i].0.clone());
            i = i + 1;
        }
        out
    }

    /// A space of the format's total length, every cell filled with the
    /// placeholder boundary `INTEGER(0, 0)`; callers are expected to
    /// overwrite every registered region before sampling from it.
    pub fn new_space(&self) -> (r: Space)
        ensures
            r.spec_dimensions() =~= seq![self.spec_length()],
            r.spec_boundaries().len() == self.spec_length(),
            forall|i: int| 0 <= i < r.spec_boundaries().len() ==> r.spec_boundaries()[i]
                == DimensionBoundaries::INTEGER(0, 0),
            r.wf(),
    {
        Space::simple_all(DimensionBoundaries::INTEGER(0, 0), self.length)
    }
}

/// The cells of `space` from `offset` on, `length` of them, in order.
fn copy_boundary_range(space: &Space, offset: usize, length: usize) -> (r: Vec<
    DimensionBoundaries,
>)
    requires
        offset + length <= usize::MAX,
        offset + length <= space.spec_boundaries().len(),
    ensures
        r@ == space.spec_boundaries().subrange(offset as int, offset + length),
{
    let mut cells: Vec<DimensionBoundaries> = Vec::new();
    let mut j: usize = 0;
    while j < length
        invariant
            j <= length,
            offset + length <= usize::MAX,
            offset + length <= space.spec_boundaries().len(),
            cells@.len() == j,
            forall|m: int| 0 <= m < j ==> cells@[m] == space.spec_boundaries()[offset + m],
        decreases length - j,
    {
        cells.push(space.flat_get(offset + j));
        j = j + 1;
    }
    proof {
        assert(cells@ =~= space.spec_boundaries().subrange(offset as int, offset + length));
    }
    cells
}

/// The cells of `position` from `offset` on, `length` of them, in order.
fn copy_value_range(position: &Position, offset: usize, length: usize) -> (r: Vec<DimensionValue>)
    requires
        offset + length <= usize::MAX,
        offset + length <= position.spec_values().len(),
    ensures
        r@ == position.spec_values().subrange(offset as int, offset + length),
{
    let mut cells: Vec<DimensionValue> = Vec::new();
    let mut j: usize = 0;
    while j < length
        invariant
            j <= length,
            offset + length <= usize::MAX,
            offset + length <= position.spec_values().len(),
            cells@.len() == j,
            forall|m: int| 0 <= m < j ==> cells@[m] == position.spec_values()[offset + m],
        decreases length - j,
    {
        cells.push(position.flat_get(offset + j));
        j = j + 1;
    }
    proof {
        assert(cells@ =~= position.spec_values().subrange(offset as int, offset + length));
    }
    cells
}

impl Format {
    /// The sub-space registered for `key`, copied out of `space`: its cells
    /// are the key's sub-range, its shape the registered one. Fails if and
    /// only if the key is not registered.
    pub fn get_subspace(&self, space: &Space, key: &String) -> (r: Result<Space, FormatError>)
        requires
            self.wf(),
            space.spec_boundaries().len() == self.spec_length(),
        ensures
            r is Ok <==> self.spec_contains_key(key@),
            r is Ok ==> r->Ok_0.spec_boundaries() == space.spec_boundaries().subrange(
                self.spec_offset_of(key@) as int,
                self.spec_offset_of(key@) + self.spec_sublength_of(key@),
            ) && r->Ok_0.spec_dimensions() == self.spec_shape_of(key@) && r->Ok_0.wf(),
            r is Err ==> (r->Err_0 matches FormatError::KeyNotFoundInFormat(k) && k@ == key@),
    {
        match self.find_entry(key) {
            Some(i) => {
                proof {
                    self.lemma_sub_range(key@);
                }
                let offset = self.entries[i].1.offset;
                let length = self.entries[i].1.length;
                let cells = copy_boundary_range(space, offset, length);
                match Space::new(cells, copied_dims(&self.entries[i].1.shape)) {
                    Ok(sub) => Ok(sub),
                    Err(_) => unreached(),
                }
            },
            None => Err(FormatError::KeyNotFoundInFormat(key.clone())),
        }
    }

    /// Overwrites the sub-range registered for `key` in `space` with the
    /// cells of `subspace`, in order. Fails with `KeyNotFoundInFormat` for an
    /// unregistered key and with `GivenSpaceDoesNotFit` when the given cell
    /// count differs from the registered one, citing both counts; on failure
    /// the space is unchanged, and its shape never changes.
    pub fn set_subspace(&self, space: &mut Space, key: &String, subspace: Space) -> (r: Result<
        (),
        FormatError,
    >)
        requires
            self.wf(),
            old(space).spec_boundaries().len() == self.spec_length(),
        ensures
            final(space).spec_dimensions() == old(space).spec_dimensions(),
            final(space).spec_boundaries().len() == old(space).spec_boundaries().len(),
            r is Ok <==> self.spec_contains_key(key@) && subspace.spec_boundaries().len()
                == self.spec_sublength_of(key@),
            !self.spec_contains_key(key@) ==> (r->Err_0 matches FormatError::KeyNotFoundInFormat(k)
                && k@ == key@),
            self.spec_contains_key(key@) && subspace.spec_boundaries().len()
                != self.spec_sublength_of(key@) ==> (r->Err_0 matches
            FormatError::GivenSpaceDoesNotFit { needed, given } && needed
                == self.spec_sublength_of(key@) && given == subspace.spec_boundaries().len()),
            r is Err ==> final(space).spec_boundaries() == old(space).spec_boundaries(),
            r is Ok ==> forall|j: int|
                0 <= j < final(space).spec_boundaries().len()
                    ==> #[trigger] final(space).spec_boundaries()[j] == (
                if self.spec_offset_of(key@) <= j < self.spec_offset_of(key@)
                    + self.spec_sublength_of(key@) {
                    subspace.spec_boundaries()[j - self.spec_offset_of(key@)]
                } else {
                    old(space).spec_boundaries()[j]
                }),
    {
        match self.find_entry(key) {
            Some(i) => {
                proof {
                    self.lemma_sub_range(key@);
                }
                let offset = self.entries[i].1.offset;
                let length = self.entries[i].1.length;
                if subspace.get_boundaries().len() == length {
                    let mut j: usize = 0;
                    while j < length
                        invariant
                            j <= length,
                            offset + length <= usize::MAX,
                        offset + length <= space.spec_boundaries().len(),
                            subspace.spec_boundaries().len() == length,
                            space.spec_boundaries().len() == old(space).spec_boundaries().len(),
                            space.spec_dimensions() == old(space).spec_dimensions(),
                            forall|m: int|
                                0 <= m < space.spec_boundaries().len()
                                    ==> #[trigger] space.spec_boundaries()[m] == (
                                if offset <= m < offset + j {
                                    subspace.spec_boundaries()[m - offset]
                                } else {
                                    old(space).spec_boundaries()[m]
                                }),
                        decreases length - j,
                    {
                        space.flat_set(offset + j, subspace.flat_get(j));
                        j = j + 1;
                    }
                    Ok(())
                } else {
                    Err(
                        FormatError::GivenSpaceDoesNotFit {
                            needed: length,
                            given: subspace.get_boundaries().len(),
                        },
                    )
                }
            },
            None => Err(FormatError::KeyNotFoundInFormat(key.clone())),
        }
    }

    /// The boundary cell of `key`'s sub-range addressed by an index local to
    /// the registered shape. Fails with `KeyNotFoundInFormat` for an
    /// unregistered key and with a wrapped `IndexOutOfBounds` for an index
    /// that does not address a cell of the sub-range.
    pub fn get_boundaries(&self, space: &Space, key: &String, index: &[usize]) -> (r: Result<
        DimensionBoundaries,
        FormatError,
    >)
        requires
            self.wf(),
            space.spec_boundaries().len() == self.spec_length(),
        ensures
            r is Ok <==> self.spec_contains_key(key@) && spec_sub_index_ok(
                self.spec_shape_of(key@),
                index@,
            ),
            r is Ok ==> r->Ok_0 == space.spec_boundaries()[self.spec_offset_of(key@)
                + flat_offset(self.spec_shape_of(key@), index@)],
            !self.spec_contains_key(key@) ==> (r->Err_0 matches FormatError::KeyNotFoundInFormat(k)
                && k@ == key@),
            self.spec_contains_key(key@) && !spec_sub_index_ok(self.spec_shape_of(key@), index@)
                ==> r->Err_0 == FormatError::SpaceIndexError(SpaceError::IndexOutOfBounds),
    {
        match self.find_entry(key) {
            Some(i) => {
                proof {
                    self.lemma_sub_range(key@);
                }
                match calculate_index(self.entries[i].1.shape.as_slice(), index) {
                    Ok(ci) => {
                        if ci < self.entries[i].1.length {
                            Ok(space.flat_get(self.entries[i].1.offset + ci))
                        } else {
                            Err(FormatError::SpaceIndexError(SpaceError::IndexOutOfBounds))
                        }
                    },
                    Err(e) => Err(FormatError::SpaceIndexError(e)),
                }
            },
            None => Err(FormatError::KeyNotFoundInFormat(key.clone())),
        }
    }

    /// Overwrites one boundary cell of `key`'s sub-range, addressed by an
    /// index local to the registered shape; the same failures as
    /// `get_boundaries`, and on failure the space is unchanged.
    pub fn set_boundaries(
        &self,
        space: &mut Space,
        key: &String,
        index: &[usize],
        boundaries: DimensionBoundaries,
    ) -> (r: Result<(), FormatError>)
        requires
            self.wf(),
            old(space).spec_boundaries().len() == self.spec_length(),
        ensures
            final(space).spec_dimensions() == old(space).spec_dimensions(),
            r is Ok <==> self.spec_contains_key(key@) && spec_sub_index_ok(
                self.spec_shape_of(key@),
                index@,
            ),
            r is Ok ==> final(space).spec_boundaries() == old(space).spec_boundaries().update(
                self.spec_offset_of(key@) + flat_offset(self.spec_shape_of(key@), index@),
                boundaries,
            ),
            r is Err ==> final(space).spec_boundaries() == old(space).spec_boundaries(),
            !self.spec_contains_key(key@) ==> (r->Err_0 matches FormatError::KeyNotFoundInFormat(k)
                && k@ == key@),
            self.spec_contains_key(key@) && !spec_sub_index_ok(self.spec_shape_of(key@), index@)
                ==> r->Err_0 == FormatError::SpaceIndexError(SpaceError::IndexOutOfBounds),
    {
        match self.find_entry(key) {
            Some(i) => {
                proof {
                    self.lemma_sub_range(key@);
                }
                match calculate_index(self.entries[i].1.shape.as_slice(), index) {
                    Ok(ci) => {
                        if ci < self.entries[i].1.length {
                            space.flat_set(self.entries[i].1.offset + ci, boundaries);
                            Ok(())
                        } else {
                            Err(FormatError::SpaceIndexError(SpaceError::IndexOutOfBounds))
                        }
                    },
                    Err(e) => Err(FormatError::SpaceIndexError(e)),
                }
            },
            None => Err(FormatError::KeyNotFoundInFormat(key.clone())),
        }
    }

    /// The sub-position registered for `key`, copied out of `position`; the
    /// counterpart of `get_subspace` for positions.
    pub fn get_subposition(&self, position: &Position, key: &String) -> (r: Result<
        Position,
        FormatError,
    >)
        requires
            self.wf(),
            position.spec_values().len() == self.spec_length(),
        ensures
            r is Ok <==> self.spec_contains_key(key@),
            r is Ok ==> r->Ok_0.spec_values() == position.spec_values().subrange(
                self.spec_offset_of(key@) as int,
                self.spec_offset_of(key@) + self.spec_sublength_of(key@),
            ) && r->Ok_0.spec_dimensions() == self.spec_shape_of(key@) && r->Ok_0.wf(),
            r is Err ==> (r->Err_0 matches FormatError::KeyNotFoundInFormat(k) && k@ == key@),
    {
        match self.find_entry(key) {
            Some(i) => {
                proof {
                    self.lemma_sub_range(key@);
                }
                let offset = self.entries[i].1.offset;
                let length = self.entries[i].1.length;
                let cells = copy_value_range(position, offset, length);
                match Position::new(cells, copied_dims(&self.entries[i].1.shape)) {
                    Ok(sub) => Ok(sub),
                    Err(_) => unreached(),
                }
            },
            None => Err(FormatError::KeyNotFoundInFormat(key.clone())),
        }
    }

    /// Overwrites the sub-range registered for `key` in `position` with the
    /// cells of `subposition`; the counterpart of `set_subspace` for
    /// positions.
    pub fn set_subposition(
        &self,
        position: &mut Position,
        key: &String,
        subposition: Position,
    ) -> (r: Result<(), FormatError>)
        requires
            self.wf(),
            old(position).spec_values().len() == self.spec_length(),
        ensures
            final(position).spec_dimensions() == old(position).spec_dimensions(),
            final(position).spec_values().len() == old(position).spec_values().len(),
            r is Ok <==> self.spec_contains_key(key@) && subposition.spec_values().len()
                == self.spec_sublength_of(key@),
            !self.spec_contains_key(key@) ==> (r->Err_0 matches FormatError::KeyNotFoundInFormat(k)
                && k@ == key@),
            self.spec_contains_key(key@) && subposition.spec_values().len()
                != self.spec_sublength_of(key@) ==> (r->Err_0 matches
            FormatError::GivenSpaceDoesNotFit { needed, given } && needed
                == self.spec_sublength_of(key@) && given == subposition.spec_values().len()),
            r is Err ==> final(position).spec_values() == old(position).spec_values(),
            r is Ok ==> forall|j: int|
                0 <= j < final(position).spec_values().len()
                    ==> #[trigger] final(position).spec_values()[j] == (
                if self.spec_offset_of(key@) <= j < self.spec_offset_of(key@)
                    + self.spec_sublength_of(key@) {
                    subposition.spec_values()[j - self.spec_offset_of(key@)]
                } else {
                    old(position).spec_values()[j]
                }),
    {
        match self.find_entry(key) {
            Some(i) => {
                proof {
                    self.lemma_sub_range(key@);
                }
                let offset = self.entries[i].1.offset;
                let length = self.entries[i].1.length;
                if subposition.get_values().len() == length {
                    let mut j: usize = 0;
                    while j < length
                        invariant
                            j <= length,
                            offset + length <= usize::MAX,
                        offset + length <= position.spec_values().len(),
                            subposition.spec_values().len() == length,
                            position.spec_values().len() == old(position).spec_values().len(),
                            position.spec_dimensions() == old(position).spec_dimensions(),
                            forall|m: int|
                                0 <= m < position.spec_values().len()
                                    ==> #[trigger] position.spec_values()[m] == (
                                if offset <= m < offset + j {
                                    subposition.spec_values()[m - offset]
                                } else {
                                    old(position).spec_values()[m]
                                }),
                        decreases length - j,
                    {
                        position.flat_set(offset + j, subposition.flat_get(j));
                        j = j + 1;
                    }
                    Ok(())
                } else {
                    Err(
                        FormatError::GivenSpaceDoesNotFit {
                            needed: length,
                            given: subposition.get_values().len(),
                        },
                    )
                }
            },
            None => Err(FormatError::KeyNotFoundInFormat(key.clone())),
        }
    }

    /// The value cell of `key`'s sub-range addressed by an index local to the
    /// registered shape; the counterpart of `get_boundaries` for positions.
    pub fn get_value(&self, position: &Position, key: &String, index: &[usize]) -> (r: Result<
        DimensionValue,
        FormatError,
    >)
        requires
            self.wf(),
            position.spec_values().len() == self.spec_length(),
        ensures
            r is Ok <==> self.spec_contains_key(key@) && spec_sub_index_ok(
                self.spec_shape_of(key@),
                index@,
            ),
            r is Ok ==> r->Ok_0 == position.spec_values()[self.spec_offset_of(key@) + flat_offset(
                self.spec_shape_of(key@),
                index@,
            )],
            !self.spec_contains_key(key@) ==> (r->Err_0 matches FormatError::KeyNotFoundInFormat(k)
                && k@ == key@),
            self.spec_contains_key(key@) && !spec_sub_index_ok(self.spec_shape_of(key@), index@)
                ==> r->Err_0 == FormatError::PositionIndexError(SpaceError::IndexOutOfBounds),
    {
        match self.find_entry(key) {
            Some(i) => {
                proof {
                    self.lemma_sub_range(key@);
                }
                match calculate_index(self.entries[i].1.shape.as_slice(), index) {
                    Ok(ci) => {
                        if ci < self.entries[i].1.length {
                            Ok(position.flat_get(self.entries[i].1.offset + ci))
                        } else {
                            Err(FormatError::PositionIndexError(SpaceError::IndexOutOfBounds))
                        }
                    },
                    Err(e) => Err(FormatError::PositionIndexError(e)),
                }
            },
            None => Err(FormatError::KeyNotFoundInFormat(key.clone())),
        }
    }

    /// Overwrites one value cell of `key`'s sub-range, addressed by an index
    /// local to the registered shape; the counterpart of `set_boundaries` for
    /// positions.
    pub fn set_value(
        &self,
        position: &mut Position,
        key: &String,
        index: &[usize],
        value: DimensionValue,
    ) -> (r: Result<(), FormatError>)
        requires
            self.wf(),
            old(position).spec_values().len() == self.spec_length(),
        ensures
            final(position).spec_dimensions() == old(position).spec_dimensions(),
            r is Ok <==> self.spec_contains_key(key@) && spec_sub_index_ok(
                self.spec_shape_of(key@),
                index@,
            ),
            r is Ok ==> final(position).spec_values() == old(position).spec_values().update(
                self.spec_offset_of(key@) + flat_offset(self.spec_shape_of(key@), index@),
                value,
            ),
            r is Err ==> final(position).spec_values() == old(position).spec_values(),
            !self.spec_contains_key(key@) ==> (r->Err_0 matches FormatError::KeyNotFoundInFormat(k)
                && k@ == key@),
            self.spec_contains_key(key@) && !spec_sub_index_ok(self.spec_shape_of(key@), index@)
                ==> r->Err_0 == FormatError::PositionIndexError(SpaceError::IndexOutOfBounds),
    {
        match self.find_entry(key) {
            Some(i) => {
                proof {
                    self.lemma_sub_range(key@);
                }
                match calculate_index(self.entries[i].1.shape.as_slice(), index) {
                    Ok(ci) => {
                        if ci < self.entries[i].1.length {
                            position.flat_set(self.entries[i].1.offset + ci, value);
                            Ok(())
                        } else {
                            Err(FormatError::PositionIndexError(SpaceError::IndexOutOfBounds))
                        }
                    },
                    Err(e) => Err(FormatError::PositionIndexError(e)),
                }
            },
            None => Err(FormatError::KeyNotFoundInFormat(key.clone())),
        }
    }
}

/// Two different registered keys own disjoint sub-ranges.
pub proof fn lemma_distinct_keys_disjoint(fmt: Format, k1: Seq<char>, k2: Seq<char>)
    requires
        fmt.wf(),
        fmt.spec_contains_key(k1),
        fmt.spec_contains_key(k2),
        k1 != k2,
    ensures
        fmt.spec_offset_of(k1) + fmt.spec_sublength_of(k1) <= fmt.spec_offset_of(k2)
            || fmt.spec_offset_of(k2) + fmt.spec_sublength_of(k2) <= fmt.spec_offset_of(k1),
{
    let w1 = choose|m: int| 0 <= m < fmt.spec_keys().len() && fmt.spec_keys()[m] == k1;
    let w2 = choose|m: int| 0 <= m < fmt.spec_keys().len() && fmt.spec_keys()[m] == k2;
    assert(fmt.entries@[w1].0@ == k1);
    assert(fmt.entries@[w2].0@ == k2);
    fmt.lemma_entry_lookup(w1);
    fmt.lemma_entry_lookup(w2);
    if w1 < w2 {
        lemma_prefix_length_mono(fmt.entries@, w1 + 1, w2);
    } else {
        lemma_prefix_length_mono(fmt.entries@, w2 + 1, w1);
    }
}

/// Round trip through a format: after a fitting sub-range has been written
/// for a key, reading the key back yields exactly the written cells, every
/// cell outside the key's sub-range is unchanged, and in particular the whole
/// sub-range of every other registered key is unchanged.
///
/// `before` and `after` are the flat cells of the space or position before
/// and after the write, and `sub` the written cells; the premise on `after`
/// is what `set_subspace` and `set_subposition` ensure, and the first
/// conclusion is what `get_subspace` and `get_subposition` return.
pub proof fn lemma_sub_range_round_trip<T>(
    fmt: Format,
    key: Seq<char>,
    before: Seq<T>,
    after: Seq<T>,
    sub: Seq<T>,
)
    requires
        fmt.wf(),
        fmt.spec_contains_key(key),
        before.len() == fmt.spec_length(),
        after.len() == before.len(),
        sub.len() == fmt.spec_sublength_of(key),
        forall|j: int|
            0 <= j < after.len() ==> #[trigger] after[j] == (if fmt.spec_offset_of(key) <= j
                < fmt.spec_offset_of(key) + fmt.spec_sublength_of(key) {
                sub[j - fmt.spec_offset_of(key)]
            } else {
                before[j]
            }),
    ensures
        after.subrange(
            fmt.spec_offset_of(key) as int,
            fmt.spec_offset_of(key) + fmt.spec_sublength_of(key),
        ) == sub,
        forall|j: int|
            0 <= j < after.len() && !(fmt.spec_offset_of(key) <= j < fmt.spec_offset_of(key)
                + fmt.spec_sublength_of(key)) ==> #[trigger] after[j] == before[j],
        forall|k2: Seq<char>| #![trigger fmt.spec_offset_of(k2)]
            fmt.spec_contains_key(k2) && k2 != key ==> after.subrange(
                fmt.spec_offset_of(k2) as int,
                fmt.spec_offset_of(k2) + fmt.spec_sublength_of(k2),
            ) == before.subrange(
                fmt.spec_offset_of(k2) as int,
                fmt.spec_offset_of(k2) + fmt.spec_sublength_of(k2),
            ),
{
    fmt.lemma_sub_range(key);
    assert(after.subrange(
        fmt.spec_offset_of(key) as int,
        fmt.spec_offset_of(key) + fmt.spec_sublength_of(key),
    ) =~= sub);
    assert forall|k2: Seq<char>| #![trigger fmt.spec_offset_of(k2)]
        fmt.spec_contains_key(k2) && k2 != key implies after.subrange(
        fmt.spec_offset_of(k2) as int,
        fmt.spec_offset_of(k2) + fmt.spec_sublength_of(k2),
    ) == before.subrange(
        fmt.spec_offset_of(k2) as int,
        fmt.spec_offset_of(k2) + fmt.spec_sublength_of(k2),
    ) by {
        fmt.lemma_sub_range(k2);
        lemma_distinct_keys_disjoint(fmt, key, k2);
        assert(after.subrange(
            fmt.spec_offset_of(k2) as int,
            fmt.spec_offset_of(k2) + fmt.spec_sublength_of(k2),
        ) =~= before.subrange(
            fmt.spec_offset_of(k2) as int,
            fmt.spec_offset_of(k2) + fmt.spec_sublength_of(k2),
        ));
    }
}

impl Default for Format {
    /// An empty format: no keys, total length zero.
    fn default() -> (r: Self)
        ensures
            r.wf(),
            r.spec_length() == 0,
            r.spec_keys() =~= Seq::<Seq<char>>::empty(),
    {
        Format { entries: Vec::new(), length: 0 }
    }
}

} // verus!
