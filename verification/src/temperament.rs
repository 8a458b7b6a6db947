//! Regular temperaments as integer linear maps.
//!
//! The lattice algorithms a temperament needs - the saturation that puts a
//! mapping in canonical form, the kernels that give its commas, the reduction
//! of a comma basis - are another crate's; their results are handed to the
//! constructors here, which check everything a mapping must be and keep it.

use vstd::prelude::*;

use crate::accidental::ascending_spec;
use crate::error::{Dimensions, Error};
use crate::subgroup::{denominator, numerator, valid_basis, Subgroup};
use crate::vector::{
    apply, apply_exec, apply_fits, combination, dot, has_width, in_lattice, independent_rows, ints, neg, rows_of, zeros,
};

verus! {

/// Whether `m` is a mapping over a subgroup of `dim` primes: at least one row,
/// each with one entry per prime.
pub open spec fn well_formed_mapping(m: Seq<Seq<int>>, dim: nat) -> bool {
    m.len() >= 1 && has_width(m, dim)
}

/// Whether every row of `m` sends every comma of `commas` to zero.
pub open spec fn tempers_out(m: Seq<Seq<int>>, commas: Seq<Seq<int>>) -> bool {
    forall|i: int, c: int| 0 <= i < m.len() && 0 <= c < commas.len() ==> dot(#[trigger] m[i], #[trigger] commas[c]) == 0
}

/// Whether the mapping `m` sends the interval `v` to unison.
pub open spec fn tempers(m: Seq<Seq<int>>, v: Seq<int>) -> bool {
    apply(m, v) == zeros(m.len())
}

/// Whether `m` and `n` send the same intervals of `dim` primes to unison.
pub open spec fn same_kernel(m: Seq<Seq<int>>, n: Seq<Seq<int>>, dim: nat) -> bool {
    forall|v: Seq<int>|
        #![trigger tempers(m, v)]
        #![trigger tempers(n, v)]
        v.len() == dim ==> (tempers(m, v) <==> tempers(n, v))
}

/// `d` times `v`.
pub open spec fn multiple(v: Seq<int>, d: int) -> Seq<int> {
    Seq::new(v.len(), |i: int| d * v[i])
}

/// Whether some nonzero multiple of `v` is an integer combination of
/// `commas`: whether `v` lies in the rational span of the commas.
pub open spec fn rationally_spanned(v: Seq<int>, commas: Seq<Seq<int>>, dim: nat) -> bool {
    exists|d: int, c: Seq<int>|
        #![trigger combination(c, commas, dim), multiple(v, d)]
        d != 0 && c.len() == commas.len() && combination(c, commas, dim) == multiple(v, d)
}

/// The identity mapping of `dim` primes: just intonation.
pub open spec fn identity(dim: nat) -> Seq<Seq<int>> {
    Seq::new(dim, |i: int| Seq::new(dim, |j: int| if i == j { 1int } else { 0int }))
}

/// A regular temperament: a linear map from the interval vectors of a just
/// intonation subgroup to a free abelian group of lower rank.
///
/// The mapping matrix has one row per generator and one column per prime of
/// the subgroup, and is kept in the canonical form it was handed: saturated
/// and in Hermite normal form, so that two mappings describe the same
/// temperament exactly when they are equal.
#[derive(Debug, PartialEq, Eq)]
pub struct Temperament {
    mapping: Vec<Vec<i64>>,
    subgroup: Subgroup,
}

impl View for Temperament {
    type V = (Seq<Seq<int>>, Seq<u32>);

    closed spec fn view(&self) -> (Seq<Seq<int>>, Seq<u32>) {
        (rows_of(self.mapping@), self.subgroup@)
    }
}

/// A copy of a matrix.
pub fn copy_matrix(m: &Vec<Vec<i64>>) -> (r: Vec<Vec<i64>>)
    ensures
        r.len() == m.len(),
        forall|i: int| 0 <= i < m.len() ==> (#[trigger] r@[i])@ == m@[i]@,
        rows_of(r@) == rows_of(m@),
{
    let mut r: Vec<Vec<i64>> = Vec::new();
    let mut i: usize = 0;
    while i < m.len()
        invariant
            i <= m.len(),
            r.len() == i,
            forall|t: int| 0 <= t < i ==> (#[trigger] r@[t])@ == m@[t]@,
        decreases m.len() - i,
    {
        r.push(crate::accidental::copy_vector(&m[i]));
        i = i + 1;
    }
    assert(rows_of(r@) =~= rows_of(m@));
    r
}

impl Clone for Temperament {
    fn clone(&self) -> (c: Self)
        ensures
            c@ == self@,
    {
        proof {
            use_type_invariant(self);
        }
        Temperament { mapping: copy_matrix(&self.mapping), subgroup: self.subgroup.clone() }
    }
}

/// The first row of `m` that does not have `width` entries, if any.
fn first_bad_row(m: &Vec<Vec<i64>>, width: usize) -> (r: Option<usize>)
    ensures
        r is None <==> has_width(rows_of(m@), width as nat),
        r matches Some(i) ==> i < m.len() && m@[i as int].len() != width && forall|t: int|
            0 <= t < i ==> (#[trigger] m@[t]).len() == width,
{
    let mut i: usize = 0;
    while i < m.len()
        invariant
            i <= m.len(),
            forall|t: int| 0 <= t < i ==> (#[trigger] m@[t]).len() == width,
        decreases m.len() - i,
    {
        if m[i].len() != width {
            proof {
                assert(rows_of(m@)[i as int] == ints(m@[i as int]@));
                assert(rows_of(m@)[i as int].len() != width);
            }
            return Some(i);
        }
        i = i + 1;
    }
    proof {
        assert forall|t: int| 0 <= t < rows_of(m@).len() implies (#[trigger] rows_of(m@)[t]).len() == width by {
            assert(rows_of(m@)[t] == ints(m@[t]@));
        }
    }
    None
}

impl Temperament {
    #[verifier::type_invariant]
    spec fn inv(self) -> bool {
        well_formed_mapping(rows_of(self.mapping@), self.subgroup@.len()) && valid_basis(self.subgroup@)
    }

    /// Builds a temperament from a mapping matrix over `subgroup` (rows =
    /// generators, columns = primes), given `canonical`, the mapping's
    /// canonical form: saturated and in Hermite normal form, so that the
    /// result does not depend on which basis of generators the input happened
    /// to use.
    ///
    /// # Errors
    /// Returns [`Dimensions::EmptyMapping`] if the mapping has no rows, and
    /// [`Dimensions::MappingRow`] for the first row without one entry per prime.
    pub fn from_mapping(mapping: &Vec<Vec<i64>>, subgroup: &Subgroup, canonical: Vec<Vec<i64>>) -> (r: Result<
        Temperament,
        Error,
    >)
        requires
            well_formed_mapping(rows_of(mapping@), subgroup@.len()) ==> well_formed_mapping(
                rows_of(canonical@),
                subgroup@.len(),
            ) && same_kernel(rows_of(canonical@), rows_of(mapping@), subgroup@.len()) && independent_rows(
                rows_of(canonical@),
                subgroup@.len(),
            ),
        ensures
            r is Ok <==> well_formed_mapping(rows_of(mapping@), subgroup@.len()),
            mapping.len() == 0 ==> r == Err::<Temperament, Error>(Error::InvalidDimensions(Dimensions::EmptyMapping)),
            r matches Ok(t) ==> t@ == (rows_of(canonical@), subgroup@),
            r matches Ok(t) ==> same_kernel(t@.0, rows_of(mapping@), subgroup@.len()) && independent_rows(
                t@.0,
                subgroup@.len(),
            ),
            mapping.len() >= 1 ==> (r matches Err(e) ==> exists|k: int|
                0 <= k < mapping.len() && (#[trigger] mapping@[k]).len() != subgroup@.len() && (forall|t: int|
                    0 <= t < k ==> (#[trigger] mapping@[t]).len() == subgroup@.len()) && e == Error::InvalidDimensions(
                    Dimensions::MappingRow { found: mapping@[k].len(), expected: subgroup@.len() as usize },
                )),
    {
        let dim = subgroup.dim();
        if mapping.len() == 0 {
            return Err(Error::InvalidDimensions(Dimensions::EmptyMapping));
        }
        match first_bad_row(mapping, dim) {
            Some(i) => {
                proof {
                    assert(mapping@[i as int].len() != subgroup@.len());
                }
                return Err(Error::InvalidDimensions(Dimensions::MappingRow { found: mapping[i].len(), expected: dim }));
            },
            None => {},
        }
        Ok(Temperament { mapping: canonical, subgroup: subgroup.clone() })
    }

    /// Builds the temperament over `subgroup` obtained by tempering out the
    /// given commas, given `mapping`, a basis of the intervals of notation
    /// that send every comma to zero (the left kernel of the commas as
    /// columns), and `canonical`, its canonical form.
    ///
    /// # Errors
    /// Returns [`Dimensions::NoCommas`] if there are no commas,
    /// [`Dimensions::Comma`] for the first comma without one entry per prime,
    /// and [`Dimensions::RankZero`] if the commas span the whole space.
    pub fn from_commas(
        commas: &Vec<Vec<i64>>,
        subgroup: &Subgroup,
        mapping: Vec<Vec<i64>>,
        canonical: Vec<Vec<i64>>,
    ) -> (r: Result<Temperament, Error>)
        requires
            commas.len() >= 1 && has_width(rows_of(commas@), subgroup@.len()) ==> has_width(rows_of(mapping@), subgroup@.len())
                && tempers_out(rows_of(mapping@), rows_of(commas@)) && (forall|v: Seq<int>|
                v.len() == subgroup@.len() && #[trigger] tempers(rows_of(mapping@), v) ==> rationally_spanned(
                    v,
                    rows_of(commas@),
                    subgroup@.len(),
                )) && (mapping.len() >= 1 ==> well_formed_mapping(rows_of(canonical@), subgroup@.len()) && tempers_out(
                rows_of(canonical@),
                rows_of(commas@),
            ) && same_kernel(rows_of(canonical@), rows_of(mapping@), subgroup@.len()) && independent_rows(
                rows_of(canonical@),
                subgroup@.len(),
            )),
        ensures
            r is Ok <==> commas.len() >= 1 && has_width(rows_of(commas@), subgroup@.len()) && mapping.len() >= 1,
            commas.len() == 0 ==> r == Err::<Temperament, Error>(Error::InvalidDimensions(Dimensions::NoCommas)),
            commas.len() >= 1 && has_width(rows_of(commas@), subgroup@.len()) && mapping.len() == 0 ==> r == Err::<
                Temperament,
                Error,
            >(Error::InvalidDimensions(Dimensions::RankZero)),
            r matches Ok(t) ==> t@ == (rows_of(canonical@), subgroup@) && tempers_out(t@.0, rows_of(commas@)),
            r matches Ok(t) ==> independent_rows(t@.0, subgroup@.len()) && forall|v: Seq<int>|
                v.len() == subgroup@.len() && #[trigger] tempers(t@.0, v) ==> rationally_spanned(
                    v,
                    rows_of(commas@),
                    subgroup@.len(),
                ),
            commas.len() >= 1 && !has_width(rows_of(commas@), subgroup@.len()) ==> (r matches Err(e) ==> exists|k: int|
                0 <= k < commas.len() && (#[trigger] commas@[k]).len() != subgroup@.len() && (forall|t: int|
                    0 <= t < k ==> (#[trigger] commas@[t]).len() == subgroup@.len()) && e == Error::InvalidDimensions(
                    Dimensions::Comma { found: commas@[k].len(), expected: subgroup@.len() as usize },
                )),
    {
        let dim = subgroup.dim();
        if commas.len() == 0 {
            return Err(Error::InvalidDimensions(Dimensions::NoCommas));
        }
        match first_bad_row(commas, dim) {
            Some(i) => {
                proof {
                    assert(commas@[i as int].len() != subgroup@.len());
                }
                return Err(Error::InvalidDimensions(Dimensions::Comma { found: commas[i].len(), expected: dim }));
            },
            None => {},
        }
        if mapping.len() == 0 {
            return Err(Error::InvalidDimensions(Dimensions::RankZero));
        }
        Temperament::from_mapping(&mapping, subgroup, canonical)
    }

    /// The temperament of `subgroup` that tempers nothing out: just
    /// intonation, mapping every prime to a generator of its own.
    pub fn from_ji(subgroup: &Subgroup) -> (t: Temperament)
        ensures
            t@ == (identity(subgroup@.len()), subgroup@),
    {
        let dim = subgroup.dim();
        let mut mapping: Vec<Vec<i64>> = Vec::new();
        let mut i: usize = 0;
        while i < dim
            invariant
                i <= dim,
                mapping.len() == i,
                forall|a: int| 0 <= a < i ==> (#[trigger] mapping@[a]).len() == dim,
                forall|a: int, b: int| 0 <= a < i && 0 <= b < dim ==> #[trigger] mapping@[a]@[b] == if a == b { 1i64 } else { 0i64 },
            decreases dim - i,
        {
            let mut row: Vec<i64> = Vec::new();
            let mut j: usize = 0;
            while j < dim
                invariant
                    j <= dim,
                    i < dim,
                    row.len() == j,
                    forall|b: int| 0 <= b < j ==> #[trigger] row@[b] == if i == b { 1i64 } else { 0i64 },
                decreases dim - j,
            {
                row.push(if i == j { 1 } else { 0 });
                j = j + 1;
            }
            mapping.push(row);
            i = i + 1;
        }
        proof {
            assert(rows_of(mapping@) =~= identity(dim as nat)) by {
                assert forall|a: int| 0 <= a < dim implies #[trigger] rows_of(mapping@)[a] =~= identity(dim as nat)[a] by {}
            }
        }
        Temperament { mapping, subgroup: subgroup.clone() }
    }

    /// The canonical mapping matrix (rows = generators, columns = primes of
    /// [`Self::subgroup`]).
    pub fn mapping(&self) -> (m: &Vec<Vec<i64>>)
        ensures
            rows_of(m@) == self@.0,
            well_formed_mapping(self@.0, self@.1.len()),
            valid_basis(self@.1),
    {
        proof {
            use_type_invariant(self);
        }
        &self.mapping
    }

    /// The just intonation subgroup being tempered.
    pub fn subgroup(&self) -> (s: &Subgroup)
        ensures
            s@ == self@.1,
            well_formed_mapping(self@.0, self@.1.len()),
    {
        proof {
            use_type_invariant(self);
        }
        &self.subgroup
    }

    /// The rank of the temperament: the number of generators.
    pub fn rank(&self) -> (r: usize)
        ensures
            r == self@.0.len(),
            well_formed_mapping(self@.0, self@.1.len()),
            valid_basis(self@.1),
    {
        proof {
            use_type_invariant(self);
        }
        self.mapping.len()
    }

    /// The number of primes of the subgroup being tempered: the length of the
    /// interval vectors this temperament maps.
    pub fn dim(&self) -> (d: usize)
        ensures
            d == self@.1.len(),
            well_formed_mapping(self@.0, self@.1.len()),
            valid_basis(self@.1),
    {
        proof {
            use_type_invariant(self);
        }
        self.subgroup.dim()
    }

    /// Applies the mapping to an interval, returning its tempered
    /// representation as a vector of generator counts.
    ///
    /// # Errors
    /// Returns [`Dimensions::Interval`] if `interval` does not have one entry
    /// per prime.
    pub fn map(&self, interval: &Vec<i64>) -> (r: Result<Vec<i64>, Error>)
        requires
            interval.len() == self@.1.len() ==> apply_fits(self@.0, ints(interval@)),
        ensures
            r is Ok <==> interval.len() == self@.1.len(),
            r matches Ok(v) ==> ints(v@) == apply(self@.0, ints(interval@)),
            r matches Err(e) ==> e == Error::InvalidDimensions(
                Dimensions::Interval { found: interval.len(), expected: self@.1.len() as usize },
            ),
    {
        proof {
            use_type_invariant(self);
        }
        let dim = self.subgroup.dim();
        if interval.len() != dim {
            return Err(Error::InvalidDimensions(Dimensions::Interval { found: interval.len(), expected: dim }));
        }
        proof {
            assert forall|i: int| 0 <= i < self.mapping.len() implies (#[trigger] self.mapping@[i]).len() <= interval.len() by {
                assert(rows_of(self.mapping@)[i] == ints(self.mapping@[i]@));
            }
        }
        Ok(apply_exec(&self.mapping, interval))
    }

    /// Applies the mapping to each of `intervals`.
    ///
    /// # Errors
    /// Returns [`Dimensions::Interval`] for the first interval without one
    /// entry per prime.
    pub fn map_all(&self, intervals: &Vec<Vec<i64>>) -> (r: Result<Vec<Vec<i64>>, Error>)
        requires
            forall|k: int|
                0 <= k < intervals.len() && (#[trigger] intervals@[k]).len() == self@.1.len() ==> apply_fits(
                    self@.0,
                    ints(intervals@[k]@),
                ),
        ensures
            r is Ok <==> has_width(rows_of(intervals@), self@.1.len()),
            r matches Ok(images) ==> images.len() == intervals.len() && forall|k: int|
                0 <= k < intervals.len() ==> ints((#[trigger] images@[k])@) == apply(self@.0, ints(intervals@[k]@)),
            r matches Err(e) ==> exists|k: int|
                0 <= k < intervals.len() && (#[trigger] intervals@[k]).len() != self@.1.len() && (forall|t: int|
                    0 <= t < k ==> (#[trigger] intervals@[t]).len() == self@.1.len()) && e == Error::InvalidDimensions(
                    Dimensions::Interval { found: intervals@[k].len(), expected: self@.1.len() as usize },
                ),
    {
        let mut images: Vec<Vec<i64>> = Vec::new();
        let mut k: usize = 0;
        while k < intervals.len()
            invariant
                k <= intervals.len(),
                images.len() == k,
                forall|t: int|
                    0 <= t < intervals.len() && (#[trigger] intervals@[t]).len() == self@.1.len() ==> apply_fits(
                        self@.0,
                        ints(intervals@[t]@),
                    ),
                forall|t: int| 0 <= t < k ==> (#[trigger] intervals@[t]).len() == self@.1.len(),
                forall|t: int| 0 <= t < k ==> ints((#[trigger] images@[t])@) == apply(self@.0, ints(intervals@[t]@)),
            decreases intervals.len() - k,
        {
            match self.map(&intervals[k]) {
                Ok(image) => {
                    images.push(image);
                },
                Err(e) => {
                    proof {
                        assert(rows_of(intervals@)[k as int] == ints(intervals@[k as int]@));
                        assert(intervals@[k as int].len() != self@.1.len());
                    }
                    return Err(e);
                },
            }
            k = k + 1;
        }
        proof {
            assert forall|t: int| 0 <= t < rows_of(intervals@).len() implies (#[trigger] rows_of(intervals@)[t]).len()
                == self@.1.len() by {
                assert(rows_of(intervals@)[t] == ints(intervals@[t]@));
            }
        }
        Ok(images)
    }

    /// A basis for the lattice of commas tempered out by this temperament,
    /// given `columns`, the right kernel of the mapping with one comma per
    /// column. This is whatever basis falls out of the kernel computation and
    /// is usually not musically sensible on its own; see
    /// [`Self::reduced_comma_basis`].
    pub fn comma_basis(&self, columns: &Vec<Vec<i64>>) -> (r: Result<Vec<Vec<i64>>, Error>)
        requires
            columns.len() == self@.1.len(),
            columns.len() >= 1 ==> has_width(rows_of(columns@), columns@[0].len() as nat),
            columns.len() >= 1 ==> forall|j: int|
                0 <= j < columns@[0].len() ==> apply(self@.0, crate::vector::column(rows_of(columns@), j)) == zeros(
                    self@.0.len(),
                ),
        ensures
            r matches Ok(commas) ==> commas.len() == (if columns.len() >= 1 { columns@[0].len() } else { 0 })
                && forall|j: int|
                0 <= j < commas.len() ==> (#[trigger] commas@[j])@.len() == self@.1.len() && forall|i: int|
                    0 <= i < self@.1.len() ==> commas@[j]@[i] == columns@[i]@[j],
            r matches Ok(commas) ==> forall|j: int|
                0 <= j < commas.len() ==> apply(self@.0, ints((#[trigger] commas@[j])@)) == zeros(self@.0.len()),
            r is Ok,
    {
        proof {
            use_type_invariant(self);
        }
        let width = if columns.len() == 0 { 0 } else { columns[0].len() };
        proof {
            assert forall|i: int| 0 <= i < columns.len() implies (#[trigger] columns@[i]).len() == width by {
                assert(rows_of(columns@)[i] == ints(columns@[i]@));
            }
        }
        let commas = crate::vector::transpose(columns, width);
        proof {
            assert forall|j: int| 0 <= j < commas.len() implies apply(self@.0, ints((#[trigger] commas@[j])@)) == zeros(
                self@.0.len(),
            ) by {
                assert(ints(commas@[j]@) =~= crate::vector::column(rows_of(columns@), j));
            }
        }
        Ok(commas)
    }

    /// The comma basis turned the right way round: each comma of `reduced`, a
    /// basis of the comma lattice reduced to small commas, is normalised to be
    /// greater than unison.
    ///
    /// # Errors
    /// Returns [`Dimensions::Comma`] for the first comma without one entry per
    /// prime.
    pub fn reduced_comma_basis(&self, reduced: &Vec<Vec<i64>>) -> (r: Result<Vec<Vec<i64>>, Error>)
        requires
            forall|j: int|
                0 <= j < reduced.len() && (#[trigger] reduced@[j]).len() == self@.1.len() ==> forall|i: int|
                    0 <= i < reduced@[j].len() ==> reduced@[j]@[i] > i64::MIN,
            has_width(rows_of(reduced@), self@.1.len()) ==> (forall|j: int|
                0 <= j < reduced.len() ==> tempers(self@.0, #[trigger] rows_of(reduced@)[j])) && forall|v: Seq<int>|
                v.len() == self@.1.len() && #[trigger] tempers(self@.0, v) ==> in_lattice(v, rows_of(reduced@), self@.1.len()),
        ensures
            r is Ok <==> has_width(rows_of(reduced@), self@.1.len()),
            r matches Ok(commas) ==> (forall|j: int|
                0 <= j < commas.len() ==> tempers(self@.0, #[trigger] rows_of(commas@)[j])) && forall|v: Seq<int>|
                v.len() == self@.1.len() && #[trigger] tempers(self@.0, v) ==> in_lattice(v, rows_of(commas@), self@.1.len()),
            r matches Ok(commas) ==> commas.len() == reduced.len() && forall|j: int|
                0 <= j < commas.len() ==> ints((#[trigger] commas@[j])@) == ascending_spec(ints(reduced@[j]@), self@.1),
            r matches Err(e) ==> exists|k: int|
                0 <= k < reduced.len() && (#[trigger] reduced@[k]).len() != self@.1.len() && (forall|t: int|
                    0 <= t < k ==> (#[trigger] reduced@[t]).len() == self@.1.len()) && e == Error::InvalidDimensions(
                    Dimensions::Comma { found: reduced@[k].len(), expected: self@.1.len() as usize },
                ),
    {
        proof {
            use_type_invariant(self);
        }
        let dim = self.subgroup.dim();
        let mut commas: Vec<Vec<i64>> = Vec::new();
        let mut j: usize = 0;
        while j < reduced.len()
            invariant
                j <= reduced.len(),
                dim == self@.1.len(),
                commas.len() == j,
                forall|t: int|
                    0 <= t < reduced.len() && (#[trigger] reduced@[t]).len() == self@.1.len() ==> forall|i: int|
                        0 <= i < reduced@[t].len() ==> reduced@[t]@[i] > i64::MIN,
                forall|t: int| 0 <= t < j ==> (#[trigger] reduced@[t]).len() == dim,
                forall|t: int| 0 <= t < j ==> ints((#[trigger] commas@[t])@) == ascending_spec(ints(reduced@[t]@), self@.1),
            decreases reduced.len() - j,
        {
            let comma = &reduced[j];
            if comma.len() != dim {
                proof {
                    assert(rows_of(reduced@)[j as int] == ints(reduced@[j as int]@));
                    assert(reduced@[j as int].len() != self@.1.len());
                }
                return Err(Error::InvalidDimensions(Dimensions::Comma { found: comma.len(), expected: dim }));
            }
            let descending = self.subgroup.is_descending(comma);
            let mut turned: Vec<i64> = Vec::new();
            let mut i: usize = 0;
            while i < comma.len()
                invariant
                    i <= comma.len(),
                    turned.len() == i,
                    forall|t: int| 0 <= t < comma.len() ==> comma@[t] > i64::MIN,
                    forall|t: int| 0 <= t < i ==> turned@[t] == if descending { -comma@[t] } else { comma@[t] as int },
                decreases comma.len() - i,
            {
                turned.push(if descending { 0 - comma[i] } else { comma[i] });
                i = i + 1;
            }
            proof {
                if descending {
                    assert(ints(turned@) =~= neg(ints(comma@)));
                } else {
                    assert(ints(turned@) =~= ints(comma@));
                }
            }
            commas.push(turned);
            j = j + 1;
        }
        proof {
            let m = self@.0;
            let rr = rows_of(reduced@);
            let oo = rows_of(commas@);
            assert forall|t: int| 0 <= t < rr.len() implies (#[trigger] rr[t]).len() == self@.1.len() by {
                assert(rr[t] == ints(reduced@[t]@));
            }
            assert forall|t: int| 0 <= t < rr.len() implies (#[trigger] rr[t]).len() == self@.1.len() && (oo[t] == rr[t]
                || oo[t] == neg(rr[t])) by {
                assert(rr[t] == ints(reduced@[t]@));
                assert(oo[t] == ints(commas@[t]@));
            }
            assert forall|t: int| 0 <= t < commas.len() implies tempers(m, #[trigger] oo[t]) by {
                assert(rr[t] == ints(reduced@[t]@));
                assert(oo[t] == ints(commas@[t]@));
                assert(tempers(m, rr[t]));
                assert forall|i: int| 0 <= i < m.len() implies (#[trigger] m[i]).len() == rr[t].len() by {}
                if oo[t] != rr[t] {
                    crate::vector::lemma_apply_neg(m, rr[t]);
                }
            }
            assert forall|v: Seq<int>| v.len() == self@.1.len() && #[trigger] tempers(m, v) implies in_lattice(
                v,
                oo,
                self@.1.len(),
            ) by {
                crate::vector::lemma_lattice_signs(v, rr, oo, self@.1.len());
            }
        }
        Ok(commas)
    }
}

} // verus!
