//! Notation systems as linear maps.
//!
//! A notation is its generators: the octave `2/1`, the fifth `3/2`, then one
//! accidental per prime worth keeping. Where they sit in the temperament fixes
//! the pitch of every written note and which written notes are the same pitch.
//!
//! The lattice algorithms a notation needs - solving for a spelling, the kernel
//! that gives its enharmonics, the closest vector that seeds a walk - belong to
//! another crate; their results are handed to the functions here, which state
//! exactly what they require of them and check everything else.

use vstd::prelude::*;

use crate::accidental::{
    accidental_of, accidental_shape, check_symbols, copy_vector, derive_accidentals, derived_at, has_accidental,
    just_nominals, just_spelling, symbol_codes, symbol_error, symbol_list, symbol_ok, Accidental, };
use crate::error::{Dimensions, Error, Unsupported};
use crate::spelling::{cost, cost_fits, degree_spec, spelling_cost, DEGREE_FIFTH, DEGREE_OCTAVE};
use crate::subgroup::{valid_basis, Subgroup};
use crate::walk::{
    cheapest, cheapest_of, in_box, lemma_box_costs_fit,
    lemma_cheapest_first, settled, walk_ready, walk_seed, walk_to,
};
use crate::temperament::{copy_matrix, identity, well_formed_mapping, Temperament};
use crate::vector::{
    add_scaled, apply, apply_fits, combination, combination_exec, combination_fits, difference, dot, dot_fits,
    dot_prefix, fits, has_width, images_of, ints, kills, lemma_apply_combination, lemma_combination_difference,
    lemma_combination_shift, lemma_dot_prefix_unit, lemma_left_inverse_solves, left_inverse, rows_of, unit, in_lattice, independent_rows, zeros,
};

verus! {

/// The octave `2/1` as an interval vector over `dim` primes.
pub open spec fn octave_vector(dim: nat) -> Seq<int> {
    unit(dim, 0)
}

/// The fifth `3/2` as an interval vector over `dim` primes.
pub open spec fn fifth_vector(dim: nat) -> Seq<int> {
    Seq::new(dim, |j: int| if j == 0 { -1int } else if j == 1 { 1int } else { 0int })
}

/// The interval vectors of `accidentals`.
pub open spec fn accidental_vectors(accidentals: Seq<Accidental>) -> Seq<Seq<int>> {
    accidentals.map_values(|a: Accidental| ints(a.vector@))
}

/// The symbols of `accidentals`.
pub open spec fn symbols_of(accidentals: Seq<Accidental>) -> Seq<(char, char)> {
    accidentals.map_values(|a: Accidental| a.symbols)
}

/// The generators of the notation over `dim` primes keeping `accidentals`:
/// the octave, the fifth, then the accidentals in order.
pub open spec fn generators_of(dim: nat, accidentals: Seq<Accidental>) -> Seq<Seq<int>> {
    seq![octave_vector(dim), fifth_vector(dim)] + accidental_vectors(accidentals)
}

/// Whether every accidental is an interval over `dim` primes.
pub open spec fn accidentals_fit(accidentals: Seq<Accidental>, dim: nat) -> bool {
    forall|k: int| 0 <= k < accidentals.len() ==> (#[trigger] accidentals[k]).vector@.len() == dim
}

/// The symbols of a list of symbol pairs, raising then lowering, in order.
pub open spec fn pair_list(pairs: Seq<(char, char)>) -> Seq<char> {
    Seq::new(2 * pairs.len(), |k: int| if k % 2 == 0 { pairs[k / 2].0 } else { pairs[k / 2].1 })
}

/// Whether every symbol of `pairs` is distinct and none is reserved for the
/// note names.
pub open spec fn symbols_distinct(pairs: Seq<(char, char)>) -> bool {
    forall|k: int| 0 <= k < 2 * pairs.len() ==> symbol_ok(pair_list(pairs), k)
}

/// What a notation is: its generators as interval vectors, the symbols of its
/// accidentals, what each generator maps to in the temperament, a left inverse
/// of those images (which is what shows that the generators reach every
/// pitch), a basis of its enharmonics, and the temperament, as its mapping and
/// the primes of its subgroup.
pub struct NotationView {
    pub generators: Seq<Seq<int>>,
    pub symbols: Seq<(char, char)>,
    pub images: Seq<Seq<int>>,
    pub inverse: Seq<Seq<int>>,
    pub enharmonics: Seq<Seq<int>>,
    pub mapping: Seq<Seq<int>>,
    pub basis: Seq<u32>,
}

/// Whether `v` is a notation: the octave and the fifth first, one symbol pair
/// per accidental, every image the temperament's mapping of its generator,
/// the generators reaching every pitch, and `rank - rank of the temperament`
/// enharmonics, each a written note the temperament calls a unison, together
/// a basis of all such notes: independent, and every one of them an integer
/// combination of the enharmonics.
pub open spec fn wf_view(v: NotationView) -> bool {
    let dim = v.basis.len();
    let trank = v.mapping.len();
    &&& valid_basis(v.basis)
    &&& well_formed_mapping(v.mapping, dim)
    &&& v.generators.len() == v.symbols.len() + 2
    &&& v.generators[0] == octave_vector(dim)
    &&& v.generators[1] == fifth_vector(dim)
    &&& has_width(v.generators, dim)
    &&& v.images == images_of(v.mapping, v.generators)
    &&& left_inverse(v.inverse, v.images, trank)
    &&& v.enharmonics.len() + trank == v.generators.len()
    &&& forall|e: int|
        0 <= e < v.enharmonics.len() ==> (#[trigger] v.enharmonics[e]).len() == v.generators.len() && kills(
            v.enharmonics[e],
            v.images,
            trank,
        )
    &&& independent_rows(v.enharmonics, v.generators.len())
    &&& forall|n: Seq<int>|
        n.len() == v.generators.len() && #[trigger] kills(n, v.images, trank) ==> in_lattice(
            n,
            v.enharmonics,
            v.generators.len(),
        )
    &&& symbols_distinct(v.symbols)
}

/// A notation system: a set of symbols, and what each one maps to in the
/// temperament.
///
/// Notation coordinates are counts of notational generators. The first two are
/// always the octave `2/1` and the fifth `3/2`, which together give the
/// nominals and the sharps and flats. Other coordinates count accidentals,
/// each raising or lowering by a small interval that is not a sharp.
#[derive(Debug)]
pub struct Notation {
    /// The octave, the fifth, then the accidentals, as interval vectors.
    generators: Vec<Vec<i64>>,
    /// The accidental symbols.
    accidentals: Vec<(char, char)>,
    /// What each generator maps to in the temperament, one per row.
    images: Vec<Vec<i64>>,
    /// One written note per generator of the temperament, spelling it.
    inverse: Vec<Vec<i64>>,
    /// A basis of the written notes that map to unison.
    enharmonics: Vec<Vec<i64>>,
    temperament: Temperament,
}

impl View for Notation {
    type V = NotationView;

    closed spec fn view(&self) -> NotationView {
        NotationView {
            generators: rows_of(self.generators@),
            symbols: self.accidentals@,
            images: rows_of(self.images@),
            inverse: rows_of(self.inverse@),
            enharmonics: rows_of(self.enharmonics@),
            mapping: self.temperament@.0,
            basis: self.temperament@.1,
        }
    }
}

/// A copy of a list of symbol pairs.
fn copy_pairs(pairs: &Vec<(char, char)>) -> (r: Vec<(char, char)>)
    ensures
        r@ == pairs@,
{
    let mut r: Vec<(char, char)> = Vec::new();
    let mut i: usize = 0;
    while i < pairs.len()
        invariant
            i <= pairs.len(),
            r@ == pairs@.subrange(0, i as int),
        decreases pairs.len() - i,
    {
        r.push(pairs[i]);
        i = i + 1;
        assert(r@ =~= pairs@.subrange(0, i as int));
    }
    assert(r@ =~= pairs@);
    r
}

impl Clone for Notation {
    fn clone(&self) -> (c: Self)
        ensures
            c@ == self@,
    {
        proof {
            use_type_invariant(self);
        }
        Notation {
            generators: copy_matrix(&self.generators),
            accidentals: copy_pairs(&self.accidentals),
            images: copy_matrix(&self.images),
            inverse: copy_matrix(&self.inverse),
            enharmonics: copy_matrix(&self.enharmonics),
            temperament: self.temperament.clone(),
        }
    }
}

/// A notation of an equal temperament always has enharmonics: it is free on
/// its octave, its fifth and its accidentals, so it can never close the
/// circle of fifths.
pub proof fn lemma_equal_temperament_has_enharmonics(v: NotationView)
    requires
        wf_view(v),
        v.mapping.len() == 1,
    ensures
        v.enharmonics.len() == v.generators.len() - 1,
        v.enharmonics.len() >= 1,
{
}

/// Spelling is a bijection exactly when the notation has as many coordinates
/// as the temperament has generators: then there are no enharmonics.
pub proof fn lemma_bijection_has_no_enharmonics(v: NotationView)
    requires
        wf_view(v),
    ensures
        v.enharmonics.len() == 0 <==> v.generators.len() == v.mapping.len(),
{
}

/// Every enharmonic of a notation is a written note other than the empty
/// one.
pub proof fn lemma_enharmonics_nonzero(v: NotationView, e: int)
    requires
        wf_view(v),
        0 <= e < v.enharmonics.len(),
    ensures
        v.enharmonics[e] != zeros(v.generators.len()),
{
    let width = v.generators.len();
    let m = v.enharmonics;
    let u = unit(m.len(), e);
    assert forall|j: int| 0 <= j < width implies #[trigger] combination(u, m, width)[j] == m[e][j] by {
        let col = crate::vector::column(m, j);
        lemma_dot_single(u, col, e, m.len() as int);
        assert(col[e] == m[e][j]);
        let y = col[e];
        assert(1 * y == y);
    }
    if m[e] == zeros(width) {
        assert(combination(u, m, width) =~= zeros(width));
        assert(u == zeros(m.len()));
        assert(u[e] == 1);
    }
}

/// Spelling the spelled settles: read the spelling `s` of `x` back as the
/// just interval `j`, and spelling `j` again, with what the closest vector
/// search gives for the same seed, gives `s` back. The seed of an interval
/// depends on its pitch alone, and `j` sounds what `x` does.
pub proof fn lemma_spelling_the_spelled_settles(
    v: NotationView,
    x: Seq<int>,
    s: Seq<int>,
    j: Seq<int>,
    near: Option<Seq<int>>,
)
    requires
        wf_view(v),
        s == spelling_of(v, x, near),
        pitch_of(v, s) == apply(v.mapping, x),
        j == just_of(v, s),
        apply(v.mapping, j) == pitch_of(v, s),
    ensures
        spelling_of(v, j, near) == s,
{
    assert(seed_of(v, j) == seed_of(v, x));
}

/// Register does not change the spelling: where the walk for `x` moved by
/// `c` octaves starts `c` octaves from where the walk for `x` starts, as it
/// does where the closest vector search moves with the seed, the spelling
/// moves by `c` octaves and nothing else. Octaves cost nothing to write.
pub proof fn lemma_register_does_not_change_the_spelling(
    v: NotationView,
    x: Seq<int>,
    c: int,
    near: Option<Seq<int>>,
    moved_near: Option<Seq<int>>,
)
    requires
        wf_view(v),
        v.enharmonics.len() > 0,
        x.len() == v.basis.len(),
        walk_seed(seed_of(v, crate::walk::octave_shift(x, c)), moved_near) == crate::walk::octave_shift(
            walk_seed(seed_of(v, x), near),
            c,
        ),
    ensures
        spelling_of(v, crate::walk::octave_shift(x, c), moved_near) == crate::walk::octave_shift(
            spelling_of(v, x, near),
            c,
        ),
{
    let base = walk_seed(seed_of(v, x), near);
    assert(base.len() == v.generators.len());
    assert(walk_seed(base, None) == base);
    let moved = crate::walk::octave_shift(base, c);
    assert(walk_seed(moved, None) == moved);
    crate::walk::lemma_settled_ignores_the_register(v.enharmonics, base, c, RESPELL_WIDTH as int);
}

/// Register does not change the spelling of a notation without
/// enharmonics: spelling is then exact, and moving an interval by `c`
/// octaves moves its spelling by `c` octaves and nothing else.
pub proof fn lemma_register_does_not_change_an_exact_spelling(
    v: NotationView,
    x: Seq<int>,
    c: int,
    near: Option<Seq<int>>,
    moved_near: Option<Seq<int>>,
)
    requires
        wf_view(v),
        v.enharmonics.len() == 0,
        x.len() == v.basis.len(),
    ensures
        spelling_of(v, crate::walk::octave_shift(x, c), moved_near) == crate::walk::octave_shift(
            spelling_of(v, x, near),
            c,
        ),
{
    let dim = v.basis.len();
    let n = v.generators.len();
    let trank = v.mapping.len();
    let m = v.mapping;
    let u = unit(dim, 0);
    let moved = crate::walk::octave_shift(x, c);
    assert forall|i: int| 0 <= i < x.len() implies #[trigger] moved[i] == add_scaled(x, c, u)[i] by {
        if i == 0 {
            assert(c * 1 == c);
        } else {
            assert(c * 0 == 0);
        }
    }
    assert(moved =~= add_scaled(x, c, u));
    // The image of the octave.
    let oct = apply(m, u);
    assert(v.generators[0] == octave_vector(dim));
    assert(v.images[0] == oct);
    assert(apply(m, moved) =~= add_scaled(apply(m, x), c, oct)) by {
        assert forall|i: int| 0 <= i < trank implies #[trigger] apply(m, moved)[i] == add_scaled(apply(m, x), c, oct)[i] by {
            crate::vector::lemma_dot_prefix_linear_right(m[i], x, c, u, m[i].len() as int);
        }
    }
    let s1 = seed_of(v, moved);
    let s0 = seed_of(v, x);
    let s2 = crate::walk::octave_shift(s0, c);
    let un = unit(n, 0);
    assert forall|i: int| 0 <= i < s0.len() implies #[trigger] s2[i] == add_scaled(s0, c, un)[i] by {
        if i == 0 {
            assert(c * 1 == c);
        } else {
            assert(c * 0 == 0);
        }
    }
    assert(s2 =~= add_scaled(s0, c, un));
    crate::vector::lemma_left_inverse_solves(apply(m, moved), v.inverse, v.images, trank);
    crate::vector::lemma_left_inverse_solves(apply(m, x), v.inverse, v.images, trank);
    // The octave's own note has the octave's pitch.
    assert(combination(un, v.images, trank) =~= oct) by {
        assert forall|j: int| 0 <= j < trank implies #[trigger] combination(un, v.images, trank)[j] == oct[j] by {
            let col = crate::vector::column(v.images, j);
            lemma_dot_single(un, col, 0, n as int);
            assert(col[0] == v.images[0][j]);
            let y = col[0];
            assert(1 * y == y);
        }
    }
    crate::vector::lemma_combination_linear(s0, c, un, v.images, trank);
    let d = add_scaled(s1, -1, s2);
    crate::vector::lemma_combination_linear(s1, -1, s2, v.images, trank);
    assert(combination(d, v.images, trank) =~= zeros(trank));
    lemma_no_enharmonic_unisons(v, d);
    assert forall|i: int| 0 <= i < n implies s1[i] == s2[i] by {
        assert(d[i] == zeros(n)[i]);
    }
    assert(s1 =~= s2);
}

/// The identity mapping sends every interval to itself.
proof fn lemma_identity_keeps(dim: nat, x: Seq<int>)
    requires
        x.len() == dim,
    ensures
        apply(identity(dim), x) == x,
{
    let m = identity(dim);
    assert forall|i: int| 0 <= i < dim implies #[trigger] apply(m, x)[i] == x[i] by {
        assert forall|k: int| 0 <= k < dim && k != i implies m[i][k] * x[k] == 0 by {
            assert(m[i][k] == 0);
        }
        lemma_dot_single(m[i], x, i, dim as int);
        assert(m[i][i] == 1);
        let y = x[i];
        assert(1 * y == y);
    }
    assert(apply(m, x) =~= x);
}

/// Spelling in just intonation loses nothing: reading as just the spelling
/// `s` of an interval `x`, which sounds `x`, gives `x` back, as `j`.
pub proof fn lemma_just_spelling_round_trip(v: NotationView, x: Seq<int>, s: Seq<int>, j: Seq<int>)
    requires
        wf_view(v),
        v.mapping == identity(v.basis.len()),
        x.len() == v.basis.len(),
        j.len() == v.basis.len(),
        pitch_of(v, s) == apply(v.mapping, x),
        apply(v.mapping, j) == pitch_of(v, s),
    ensures
        j == x,
{
    lemma_identity_keeps(v.basis.len(), x);
    lemma_identity_keeps(v.basis.len(), j);
}

/// A unit vector can be mapped without overflow by a matrix of `i64` entries.
proof fn lemma_unit_apply_fits(m: Seq<Seq<int>>, dim: nat, index: int)
    requires
        0 <= index < dim,
        has_width(m, dim),
        forall|i: int, j: int| 0 <= i < m.len() && 0 <= j < dim ==> fits(#[trigger] m[i][j]),
    ensures
        apply_fits(m, unit(dim, index)),
        apply(m, unit(dim, index)) == Seq::new(m.len(), |i: int| m[i][index]),
{
    let u = unit(dim, index);
    assert forall|i: int| 0 <= i < m.len() implies dot_fits(#[trigger] m[i], u) by {
        assert forall|k: int| 0 <= k < m[i].len() implies fits(#[trigger] (m[i][k] * u[k])) && fits(
            dot_prefix(m[i], u, k + 1),
        ) by {
            assert(fits(m[i][k]));
            if k == index {
                assert(m[i][k] * u[k] == m[i][k]);
            } else {
                assert(m[i][k] * u[k] == 0);
            }
            lemma_dot_prefix_unit(m[i], u, index, k + 1);
            assert(fits(m[i][index]));
        }
    }
    assert forall|i: int| 0 <= i < m.len() implies #[trigger] apply(m, u)[i] == m[i][index] by {
        lemma_dot_prefix_unit(m[i], u, index, m[i].len() as int);
    }
    assert(apply(m, u) =~= Seq::new(m.len(), |i: int| m[i][index]));
}

/// The octave and the fifth as interval vectors over a subgroup of `dim`
/// primes. Every notation is generated by these two and its accidentals.
pub fn fifth_chain(dim: usize) -> (r: Vec<Vec<i64>>)
    requires
        dim >= 2,
    ensures
        rows_of(r@) == seq![octave_vector(dim as nat), fifth_vector(dim as nat)],
        r.len() == 2,
        r@[0].len() == dim && r@[1].len() == dim,
{
    let mut octave: Vec<i64> = Vec::new();
    let mut fifth: Vec<i64> = Vec::new();
    let mut j: usize = 0;
    while j < dim
        invariant
            j <= dim,
            octave.len() == j,
            fifth.len() == j,
            forall|t: int| 0 <= t < j ==> octave@[t] as int == octave_vector(dim as nat)[t],
            forall|t: int| 0 <= t < j ==> fifth@[t] as int == fifth_vector(dim as nat)[t],
        decreases dim - j,
    {
        octave.push(if j == 0 { 1 } else { 0 });
        fifth.push(if j == 0 { -1 } else if j == 1 { 1 } else { 0 });
        j = j + 1;
    }
    assert(ints(octave@) =~= octave_vector(dim as nat));
    assert(ints(fifth@) =~= fifth_vector(dim as nat));
    let mut r: Vec<Vec<i64>> = Vec::new();
    r.push(octave);
    r.push(fifth);
    assert(rows_of(r@) =~= seq![octave_vector(dim as nat), fifth_vector(dim as nat)]);
    r
}

/// The first accidental that is not an interval over `dim` primes, if any.
fn first_misfit(accidentals: &Vec<Accidental>, dim: usize) -> (r: Option<usize>)
    ensures
        r is None <==> accidentals_fit(accidentals@, dim as nat),
        r matches Some(k) ==> k < accidentals.len() && accidentals@[k as int].vector@.len() != dim && forall|t: int|
            0 <= t < k ==> (#[trigger] accidentals@[t]).vector@.len() == dim,
{
    let mut k: usize = 0;
    while k < accidentals.len()
        invariant
            k <= accidentals.len(),
            forall|t: int| 0 <= t < k ==> (#[trigger] accidentals@[t]).vector@.len() == dim,
        decreases accidentals.len() - k,
    {
        if accidentals[k].vector.len() != dim {
            return Some(k);
        }
        k = k + 1;
    }
    None
}

/// Whether the temperament `t` maps the fifth and every accidental without
/// overflow.
pub open spec fn images_fit(t: (Seq<Seq<int>>, Seq<u32>), accidentals: Seq<Accidental>) -> bool {
    &&& apply_fits(t.0, fifth_vector(t.1.len()))
    &&& forall|k: int|
        0 <= k < accidentals.len() && (#[trigger] accidentals[k]).vector@.len() == t.1.len() ==> apply_fits(
            t.0,
            ints(accidentals[k].vector@),
        )
}

/// Whether `inverse` and `enharmonics`, as the lattice algorithms hand them
/// back for the generators of the notation of `t` keeping `accidentals`, are
/// what they claim: a left inverse of the images of the generators, where
/// there is one, and then a basis of the written notes that map to unison, one
/// per generator beyond the rank of the temperament.
pub open spec fn lattice_results(
    t: (Seq<Seq<int>>, Seq<u32>),
    accidentals: Seq<Accidental>,
    inverse: Option<Seq<Seq<int>>>,
    enharmonics: Seq<Seq<int>>,
) -> bool {
    let generators = generators_of(t.1.len(), accidentals);
    let images = images_of(t.0, generators);
    accidentals_fit(accidentals, t.1.len()) ==> match inverse {
        Some(w) => {
            &&& left_inverse(w, images, t.0.len())
            &&& enharmonics.len() + t.0.len() == generators.len()
            &&& forall|e: int|
                0 <= e < enharmonics.len() ==> (#[trigger] enharmonics[e]).len() == generators.len() && kills(
                    enharmonics[e],
                    images,
                    t.0.len(),
                )
            &&& independent_rows(enharmonics, generators.len())
            &&& forall|n: Seq<int>|
                n.len() == generators.len() && #[trigger] kills(n, images, t.0.len()) ==> in_lattice(
                    n,
                    enharmonics,
                    generators.len(),
                )
        },
        None => true,
    }
}

/// The matrix `w` as a sequence of rows of integers, where there is one.
pub open spec fn rows_option(w: Option<Vec<Vec<i64>>>) -> Option<Seq<Seq<int>>> {
    match w {
        Some(m) => Some(rows_of(m@)),
        None => None,
    }
}

/// How many enharmonics either way [`Notation::respell`] walks.
pub const RESPELL_WIDTH: i64 = 2;

/// The pitch of notation coordinates `c`: what the temperament makes of them.
pub open spec fn pitch_of(v: NotationView, c: Seq<int>) -> Seq<int> {
    combination(c, v.images, v.mapping.len())
}

/// The just interval notation coordinates `c` literally read as: each
/// generator taken as the interval it is.
pub open spec fn just_of(v: NotationView, c: Seq<int>) -> Seq<int> {
    combination(c, v.generators, v.basis.len())
}

/// The notation coordinates the left inverse gives for the tempered image of
/// `interval`: one spelling of its pitch, before any search for a better one.
pub open spec fn seed_of(v: NotationView, interval: Seq<int>) -> Seq<int> {
    combination(apply(v.mapping, interval), v.inverse, v.generators.len())
}

/// The lattice vector `near` as a sequence of integers, where there is one.
pub open spec fn near_of(near: Option<Vec<i64>>) -> Option<Seq<int>> {
    match near {
        Some(n) => Some(ints(n@)),
        None => None,
    }
}

/// Whether `near`, as the closest vector search hands it back for
/// coordinates `c`, can be taken off them: the same length, and a written
/// note of the notation's that the temperament calls a unison.
pub open spec fn near_fits(v: NotationView, c: Seq<int>, near: Option<Vec<i64>>) -> bool {
    near matches Some(n) ==> n.len() == c.len() && kills(ints(n@), v.images, v.mapping.len())
}

/// Whether respelling coordinates `c` walking `width` either way from
/// `near` is asked for on inputs it takes: a `near` that fits them, and a
/// width that is not negative.
pub open spec fn respell_fits(v: NotationView, c: Seq<int>, width: int, near: Option<Vec<i64>>) -> bool {
    &&& near_fits(v, c, near)
    &&& 0 <= width
}

/// Whether respelling coordinates `c` walking `width` either way from `c`
/// less `near` can be computed in `i64`: trivially where there are no
/// enharmonics, else the seed and every step of the walk fit.
pub open spec fn respell_ready(v: NotationView, c: Seq<int>, width: int, near: Option<Vec<i64>>) -> bool {
    v.enharmonics.len() > 0 ==> walk_ready(c, near_of(near), v.enharmonics, width)
}

/// The spelling [`Notation::spell`] gives `interval`: where the walk settles
/// from its seed less `near`.
pub open spec fn spelling_of(v: NotationView, interval: Seq<int>, near: Option<Seq<int>>) -> Seq<int> {
    settled(v.enharmonics, seed_of(v, interval), near, RESPELL_WIDTH as int)
}

/// Every point of a walk along vectors the images send to zero has the pitch
/// of the point the walk started from.
proof fn lemma_walk_keeps_pitch(
    base: Seq<int>,
    lattice: Seq<Seq<int>>,
    steps: Seq<int>,
    k: int,
    images: Seq<Seq<int>>,
    trank: nat,
)
    requires
        0 <= k,
        k + steps.len() <= lattice.len(),
        base.len() <= images.len(),
        forall|i: int| 0 <= i < lattice.len() ==> (#[trigger] lattice[i]).len() == base.len() && kills(
            lattice[i],
            images,
            trank,
        ),
    ensures
        walk_to(base, lattice, steps, k).len() == base.len(),
        combination(walk_to(base, lattice, steps, k), images, trank) == combination(base, images, trank),
    decreases steps.len(),
{
    if steps.len() > 0 {
        let next = add_scaled(base, steps[0], lattice[k]);
        lemma_combination_shift(base, steps[0], lattice[k], images, trank);
        lemma_walk_keeps_pitch(next, lattice, steps.drop_first(), k + 1, images, trank);
    }
}

/// Every point of a box of enharmonics has the pitch of its base.
proof fn lemma_box_keeps_pitch(p: Seq<int>, base: Seq<int>, lattice: Seq<Seq<int>>, width: int, images: Seq<Seq<int>>, trank: nat)
    requires
        in_box(p, base, lattice, width, 0),
        base.len() <= images.len(),
        forall|i: int| 0 <= i < lattice.len() ==> (#[trigger] lattice[i]).len() == base.len() && kills(
            lattice[i],
            images,
            trank,
        ),
    ensures
        p.len() == base.len(),
        combination(p, images, trank) == combination(base, images, trank),
{
    let steps = choose|steps: Seq<int>|
        steps.len() == lattice.len() - 0 && (forall|i: int| 0 <= i < steps.len() ==> -width <= #[trigger] steps[i] <= width)
            && #[trigger] walk_to(base, lattice, steps, 0) == p;
    lemma_walk_keeps_pitch(base, lattice, steps, 0, images, trank);
}

/// The octave number of the note with notation coordinates `(0, 0, ..)`.
pub const CENTRE_OCTAVE: i64 = 5;

/// The nominal at position `i` of the fifth chain `F C G D A E B`.
pub open spec fn nominal_letter(i: int) -> char {
    if i == 0 {
        'F'
    } else if i == 1 {
        'C'
    } else if i == 2 {
        'G'
    } else if i == 3 {
        'D'
    } else if i == 4 {
        'A'
    } else if i == 5 {
        'E'
    } else {
        'B'
    }
}

/// The decimal digit `k`.
pub open spec fn digit_char(k: int) -> char {
    if k == 0 {
        '0'
    } else if k == 1 {
        '1'
    } else if k == 2 {
        '2'
    } else if k == 3 {
        '3'
    } else if k == 4 {
        '4'
    } else if k == 5 {
        '5'
    } else if k == 6 {
        '6'
    } else if k == 7 {
        '7'
    } else if k == 8 {
        '8'
    } else {
        '9'
    }
}

/// The decimal digits of `n`.
pub open spec fn digits(n: nat) -> Seq<char>
    decreases n,
{
    if n < 10 {
        seq![digit_char(n as int)]
    } else {
        digits(n / 10).push(digit_char((n % 10) as int))
    }
}

/// `n` written in decimal, with a minus sign where it is negative.
pub open spec fn decimal_text(n: int) -> Seq<char> {
    if n < 0 {
        seq!['-'] + digits((-n) as nat)
    } else {
        digits(n as nat)
    }
}

/// `count` marks of an accidental: its raising symbol `count` times, or its
/// lowering symbol `-count` times.
pub open spec fn mark_run(count: int, symbols: (char, char)) -> Seq<char> {
    if count < 0 {
        Seq::new((-count) as nat, |i: int| symbols.1)
    } else {
        Seq::new(count as nat, |i: int| symbols.0)
    }
}

/// The marks of the first `k` accidentals of coordinates `c`, in order.
pub open spec fn marks_text(c: Seq<int>, symbols: Seq<(char, char)>, k: int) -> Seq<char>
    decreases k,
{
    if k <= 0 {
        Seq::empty()
    } else {
        marks_text(c, symbols, k - 1) + mark_run(c[k + 1], symbols[k - 1])
    }
}

/// `n` copies of `c`.
pub open spec fn repeat(c: char, n: nat) -> Seq<char> {
    Seq::new(n, |i: int| c)
}

/// Notation coordinates `c` written as a note in scientific pitch notation,
/// read as an interval up from `C5`: the accidental marks, then the nominal
/// `(c[1] + 1) mod 7` along the fifth chain from `F`, then `(c[1] + 1) div 7`
/// sharps or flats, then the octave, moved from 5 by the seven letters of each
/// octave and the four of each fifth.
pub open spec fn note_text(v: NotationView, c: Seq<int>) -> Seq<char> {
    let f = c[1] + 1;
    let sharps = f / 7;
    let steps = 7 * c[0] + 4 * c[1];
    marks_text(c, v.symbols, v.symbols.len() as int).push(nominal_letter(f % 7)) + repeat(
        if sharps < 0 { 'b' } else { '#' },
        (if sharps < 0 { -sharps } else { sharps }) as nat,
    ) + decimal_text(CENTRE_OCTAVE + steps / 7)
}

/// Whether the octave and fifth coordinates of `c` can be written as a note
/// without overflow.
pub open spec fn note_fits(c: Seq<int>) -> bool {
    &&& fits(c[1] + 1)
    &&& fits(7 * c[0])
    &&& fits(4 * c[1])
    &&& fits(7 * c[0] + 4 * c[1])
}

/// Appends `c` to `s`: `String::push`.
#[verifier::external_body]
fn push_char(s: &mut String, c: char)
    ensures
        final(s)@ == old(s)@.push(c),
{
    s.push(c);
}

/// `a div 7` and `a mod 7`, rounding down.
fn div_mod_seven(a: i64) -> (r: (i64, i64))
    ensures
        r.0 == a / 7,
        r.1 == a % 7,
{
    if a == i64::MIN {
        proof {
            vstd::arithmetic::div_mod::lemma_fundamental_div_mod_converse(a as int, 7, -1317624576693539402, 6);
        }
        (-1317624576693539402, 6)
    } else if a >= 0 {
        (a / 7, a % 7)
    } else {
        let m: i64 = -(a + 1);
        let q: i64 = m / 7;
        let rem: i64 = m % 7;
        assert(a == 7 * (-q - 1) + (6 - rem)) by (nonlinear_arith)
            requires
                m == -(a + 1),
                q == m / 7,
                rem == m % 7,
                m >= 0,
        ;
        proof {
            vstd::arithmetic::div_mod::lemma_fundamental_div_mod_converse(a as int, 7, -q - 1, 6 - rem as int);
        }
        (-q - 1, 6 - rem)
    }
}

fn nominal_letter_exec(i: i64) -> (c: char)
    ensures
        c == nominal_letter(i as int),
{
    if i == 0 {
        'F'
    } else if i == 1 {
        'C'
    } else if i == 2 {
        'G'
    } else if i == 3 {
        'D'
    } else if i == 4 {
        'A'
    } else if i == 5 {
        'E'
    } else {
        'B'
    }
}

fn digit_char_exec(k: u64) -> (c: char)
    ensures
        c == digit_char(k as int),
{
    if k == 0 {
        '0'
    } else if k == 1 {
        '1'
    } else if k == 2 {
        '2'
    } else if k == 3 {
        '3'
    } else if k == 4 {
        '4'
    } else if k == 5 {
        '5'
    } else if k == 6 {
        '6'
    } else if k == 7 {
        '7'
    } else if k == 8 {
        '8'
    } else {
        '9'
    }
}

/// Appends `c` to `s` `n` times.
fn push_repeated(s: &mut String, c: char, n: u64)
    ensures
        final(s)@ == old(s)@ + repeat(c, n as nat),
{
    let mut j: u64 = 0;
    while j < n
        invariant
            j <= n,
            s@ == old(s)@ + repeat(c, j as nat),
        decreases n - j,
    {
        push_char(s, c);
        j = j + 1;
        assert(s@ =~= old(s)@ + repeat(c, j as nat));
    }
}

/// The magnitude of `x`.
fn magnitude(x: i64) -> (m: u64)
    ensures
        m == if x < 0 { -(x as int) } else { x as int },
{
    if x < 0 {
        if x == i64::MIN {
            0x8000_0000_0000_0000u64
        } else {
            (-x) as u64
        }
    } else {
        x as u64
    }
}

/// Appends the decimal digits of `n` to `s`.
fn push_digits(s: &mut String, n: u64)
    ensures
        final(s)@ == old(s)@ + digits(n as nat),
{
    let mut reversed: Vec<char> = Vec::new();
    let mut m: u64 = n;
    while m >= 10
        invariant
            digits(n as nat) == digits(m as nat) + Seq::new(reversed.len() as nat, |i: int| reversed@[reversed.len() - 1 - i]),
        decreases m,
    {
        let ghost before = reversed@;
        reversed.push(digit_char_exec(m % 10));
        proof {
            let r_old = Seq::new(before.len() as nat, |i: int| before[before.len() - 1 - i]);
            let r_new = Seq::new(reversed.len() as nat, |i: int| reversed@[reversed.len() - 1 - i]);
            assert(digits(m as nat) == digits((m / 10) as nat).push(digit_char((m % 10) as int)));
            assert(r_new =~= seq![digit_char((m % 10) as int)] + r_old);
            assert(digits(m as nat) + r_old =~= digits((m / 10) as nat) + r_new);
        }
        m = m / 10;
    }
    push_char(s, digit_char_exec(m));
    let mut i: usize = reversed.len();
    while i > 0
        invariant
            i <= reversed.len(),
            digits(n as nat) == seq![digit_char(m as int)] + Seq::new(reversed.len() as nat, |t: int| reversed@[reversed.len() - 1 - t]),
            s@ == old(s)@ + seq![digit_char(m as int)] + Seq::new((reversed.len() - i) as nat, |t: int| reversed@[reversed.len() - 1 - t]),
        decreases i,
    {
        i = i - 1;
        push_char(s, reversed[i]);
        assert(s@ =~= old(s)@ + seq![digit_char(m as int)] + Seq::new((reversed.len() - i) as nat, |t: int| reversed@[reversed.len() - 1 - t]));
    }
    assert(s@ =~= old(s)@ + digits(n as nat));
}

/// The way just intonation writes the prime at `j` of a subgroup of `dim`
/// primes whose generators are `g`: `2` as an octave, `3` as an octave and a
/// fifth, and any other prime as its own accidental `a`, which has exponent
/// `s = +-1` on the prime, on top of `-s * a[1]` fifths and
/// `-s * (a[0] + a[1])` octaves.
pub open spec fn just_row(g: Seq<Seq<int>>, j: int, dim: nat) -> Seq<int> {
    if j == 0 {
        unit(dim, 0)
    } else if j == 1 {
        Seq::new(dim, |t: int| if t < 2 { 1int } else { 0int })
    } else {
        let a = g[j];
        let s = a[j];
        Seq::new(dim, |t: int| if t == 0 { -s * (a[0] + a[1]) } else if t == 1 { -s * a[1] } else if t == j { s } else { 0int })
    }
}

/// A dot product with a vector that is zero but at `0`, `1` and `j`.
proof fn lemma_dot_sparse(c: Seq<int>, b: Seq<int>, j: int, k: int)
    requires
        2 <= j,
        0 <= k <= c.len(),
        k <= b.len(),
        forall|i: int| 0 <= i < k && i != 0 && i != 1 && i != j ==> c[i] == 0,
    ensures
        dot_prefix(c, b, k) == (if k > 0 { c[0] * b[0] } else { 0 }) + (if k > 1 { c[1] * b[1] } else { 0 }) + (if j < k {
            c[j] * b[j]
        } else {
            0
        }),
    decreases k,
{
    if k > 0 {
        lemma_dot_sparse(c, b, j, k - 1);
        if k - 1 != 0 && k - 1 != 1 && k - 1 != j {
            assert(c[k - 1] * b[k - 1] == 0) by (nonlinear_arith)
                requires
                    c[k - 1] == 0,
            ;
        }
    }
}

/// Whether `g` are the generators of just intonation over `dim` primes: the
/// octave, the fifth, and for every further prime an accidental of the shape
/// every derived accidental has.
pub open spec fn just_generators(g: Seq<Seq<int>>, dim: nat) -> bool {
    &&& dim >= 2
    &&& g.len() == dim
    &&& g[0] == octave_vector(dim)
    &&& g[1] == fifth_vector(dim)
    &&& has_width(g, dim)
    &&& forall|j: int| 2 <= j < dim ==> accidental_shape(#[trigger] g[j], j)
}

/// The just spelling of each prime combines the generators into that prime.
proof fn lemma_just_row_inverts(g: Seq<Seq<int>>, j: int, dim: nat)
    requires
        just_generators(g, dim),
        0 <= j < dim,
    ensures
        combination(just_row(g, j, dim), g, dim) == unit(dim, j),
{
    let c = just_row(g, j, dim);
    assert forall|t: int| 0 <= t < dim implies #[trigger] combination(c, g, dim)[t] == unit(dim, j)[t] by {
        let col = crate::vector::column(g, t);
        assert(col[0] == if t == 0 { 1int } else { 0int });
        assert(col[1] == if t == 0 { -1int } else if t == 1 { 1int } else { 0int });
        if j < 2 {
            lemma_dot_sparse(c, col, dim as int, dim as int);
        } else {
            let a = g[j];
            let s = a[j];
            assert(col[j] == a[t]);
            assert(accidental_shape(a, j));
            lemma_dot_sparse(c, col, j, dim as int);
            assert(s * s == 1) by (nonlinear_arith)
                requires
                    s == 1 || s == -1,
            ;
            if t == 0 {
                assert(c[0] * col[0] + c[1] * col[1] + c[j] * col[j] == 0) by (nonlinear_arith)
                    requires
                        c[0] == -s * (a[0] + a[1]),
                        c[1] == -s * a[1],
                        c[j] == s,
                        col[0] == 1,
                        col[1] == -1,
                        col[j] == a[0],
                ;
            } else if t == 1 {
                assert(c[0] * col[0] + c[1] * col[1] + c[j] * col[j] == 0) by (nonlinear_arith)
                    requires
                        c[1] == -s * a[1],
                        c[j] == s,
                        col[0] == 0,
                        col[1] == 1,
                        col[j] == a[1],
                ;
            } else if t == j {
                assert(c[j] * col[j] == s * s);
            } else {
                assert(col[j] == 0);
                assert(c[j] * col[j] == 0) by (nonlinear_arith)
                    requires
                        col[j] == 0,
                ;
            }
        }
    }
    assert(combination(c, g, dim) =~= unit(dim, j));
}

/// Just intonation maps every interval to itself, without overflow.
proof fn lemma_identity_apply(dim: nat, v: Seq<int>)
    requires
        v.len() == dim,
        forall|i: int| 0 <= i < dim ==> fits(#[trigger] v[i]),
    ensures
        apply_fits(identity(dim), v),
        apply(identity(dim), v) == v,
{
    let m = identity(dim);
    assert forall|i: int| 0 <= i < dim implies dot_fits(#[trigger] m[i], v) && dot(m[i], v) == v[i] by {
        assert forall|k: int| 0 <= k < m[i].len() implies fits(#[trigger] (m[i][k] * v[k])) && fits(
            dot_prefix(m[i], v, k + 1),
        ) by {
            if k == i {
                assert(m[i][k] * v[k] == v[k]);
            } else {
                assert(m[i][k] * v[k] == 0);
            }
            lemma_dot_unit_left(m[i], v, i, k + 1);
        }
        lemma_dot_unit_left(m[i], v, i, dim as int);
    }
    assert(apply(m, v) =~= v);
}

/// The dot product of a unit vector with `b` picks out one entry of `b`.
proof fn lemma_dot_unit_left(a: Seq<int>, b: Seq<int>, index: int, k: int)
    requires
        0 <= k <= a.len(),
        k <= b.len(),
        forall|i: int| 0 <= i < k ==> a[i] == if i == index { 1int } else { 0int },
    ensures
        dot_prefix(a, b, k) == if 0 <= index < k { b[index] } else { 0 },
    decreases k,
{
    if k > 0 {
        lemma_dot_unit_left(a, b, index, k - 1);
    }
}

/// A dot product with one term that can be nonzero is that term.
proof fn lemma_dot_single(a: Seq<int>, b: Seq<int>, t: int, k: int)
    requires
        forall|i: int| 0 <= i < k && i != t ==> a[i] * b[i] == 0,
    ensures
        dot_prefix(a, b, k) == if 0 <= t < k { a[t] * b[t] } else { 0 },
    decreases k,
{
    if k > 0 {
        lemma_dot_single(a, b, t, k - 1);
    }
}

/// The just generators are independent: the only written note of just
/// intonation at unison is the empty one.
proof fn lemma_just_kernel(g: Seq<Seq<int>>, dim: nat, n: Seq<int>)
    requires
        just_generators(g, dim),
        n.len() == dim,
        combination(n, g, dim) == zeros(dim),
    ensures
        n == zeros(dim),
{
    assert forall|t: int| 2 <= t < dim implies n[t] == 0 by {
        let col = crate::vector::column(g, t);
        assert forall|i: int| 0 <= i < dim && i != t implies n[i] * col[i] == 0 by {
            assert(col[i] == g[i][t]);
            if i >= 2 {
                assert(accidental_shape(g[i], i));
            }
        }
        lemma_dot_single(n, col, t, dim as int);
        assert(combination(n, g, dim)[t] == zeros(dim)[t]);
        assert(combination(n, g, dim)[t] == dot(n, col));
        assert(dot(n, col) == dot_prefix(n, col, dim as int));
        assert(accidental_shape(g[t], t));
        assert(col[t] == g[t][t]);
        let x = n[t];
        let y = col[t];
        assert(x * y == 0);
        assert(x == 0) by (nonlinear_arith)
            requires
                x * y == 0,
                y == 1 || y == -1,
        ;
    }
    let col1 = crate::vector::column(g, 1);
    assert forall|i: int| 0 <= i < dim && i != 1 implies n[i] * col1[i] == 0 by {
        assert(col1[i] == g[i][1]);
    }
    lemma_dot_single(n, col1, 1, dim as int);
    assert(combination(n, g, dim)[1] == zeros(dim)[1]);
    assert(combination(n, g, dim)[1] == dot(n, col1));
    assert(dot(n, col1) == dot_prefix(n, col1, dim as int));
    assert(col1[1] == g[1][1]);
    assert(g[1] == fifth_vector(dim));
    assert(n[1] == 0);
    let col0 = crate::vector::column(g, 0);
    assert forall|i: int| 0 <= i < dim && i != 0 implies n[i] * col0[i] == 0 by {
        assert(col0[i] == g[i][0]);
    }
    lemma_dot_single(n, col0, 0, dim as int);
    assert(combination(n, g, dim)[0] == zeros(dim)[0]);
    assert(combination(n, g, dim)[0] == dot(n, col0));
    assert(dot(n, col0) == dot_prefix(n, col0, dim as int));
    assert(g[0] == octave_vector(dim));
    assert(col0[0] == g[0][0]);
    assert(col0[0] == 1);
    assert(dot_prefix(n, col0, dim as int) == n[0] * col0[0]);
    let x0 = n[0];
    let y0 = col0[0];
    assert(x0 == 0) by (nonlinear_arith)
        requires
            x0 * y0 == 0,
            y0 == 1,
    ;
    assert forall|i: int| 0 <= i < dim implies n[i] == zeros(dim)[i] by {}
    assert(n =~= zeros(dim));
}

/// Just intonation maps its generators to themselves, and the just spellings
/// of the primes are a left inverse of them.
proof fn lemma_just_lattice(g: Seq<Seq<int>>, dim: nat, w: Seq<Seq<int>>)
    requires
        just_generators(g, dim),
        forall|k: int, i: int| 0 <= k < g.len() && 0 <= i < dim ==> fits(#[trigger] g[k][i]),
        w == Seq::new(dim, |j: int| just_row(g, j, dim)),
    ensures
        forall|k: int| 0 <= k < g.len() ==> apply_fits(identity(dim), #[trigger] g[k]),
        images_of(identity(dim), g) == g,
        left_inverse(w, images_of(identity(dim), g), dim),
{
    assert forall|k: int| 0 <= k < g.len() implies apply(identity(dim), #[trigger] g[k]) == g[k] && apply_fits(
        identity(dim),
        g[k],
    ) by {
        assert forall|i: int| 0 <= i < dim implies fits(#[trigger] g[k][i]) by {
            assert(fits(g[k][i]));
        }
        lemma_identity_apply(dim, g[k]);
    }
    assert(images_of(identity(dim), g) =~= g);
    assert forall|j: int| 0 <= j < dim implies (#[trigger] w[j]).len() == g.len() && combination(w[j], g, dim) == unit(
        dim,
        j,
    ) by {
        lemma_just_row_inverts(g, j, dim);
    }
}

/// The left inverse of the generators of just intonation: one just spelling
/// per prime.
fn just_inverse(accidentals: &Vec<Accidental>, dim: usize) -> (w: Vec<Vec<i64>>)
    requires
        accidentals.len() + 2 == dim,
        forall|k: int|
            0 <= k < accidentals.len() ==> accidental_shape(ints((#[trigger] accidentals@[k]).vector@), k + 2)
                && accidentals@[k].vector@.len() == dim,
    ensures
        rows_of(w@) == Seq::new(dim as nat, |j: int| just_row(generators_of(dim as nat, accidentals@), j, dim as nat)),
{
    let ghost g = generators_of(dim as nat, accidentals@);
    let mut w: Vec<Vec<i64>> = Vec::new();
    let mut j: usize = 0;
    while j < dim
        invariant
            j <= dim,
            w.len() == j,
            g == generators_of(dim as nat, accidentals@),
            accidentals.len() + 2 == dim,
            forall|k: int|
                0 <= k < accidentals.len() ==> accidental_shape(ints((#[trigger] accidentals@[k]).vector@), k + 2)
                    && accidentals@[k].vector@.len() == dim,
            forall|t: int| 0 <= t < j ==> rows_of(w@)[t] == just_row(g, t, dim as nat),
        decreases dim - j,
    {
        let mut row: Vec<i64> = Vec::new();
        if j < 2 {
            let mut t: usize = 0;
            while t < dim
                invariant
                    t <= dim,
                    j < 2,
                    row.len() == t,
                    forall|i: int| 0 <= i < t ==> row@[i] as int == just_row(g, j as int, dim as nat)[i],
                decreases dim - t,
            {
                row.push(if t == 0 || (j == 1 && t == 1) { 1 } else { 0 });
                t = t + 1;
            }
        } else {
            let a = &accidentals[j - 2].vector;
            proof {
                assert(g[j as int] == ints(a@));
                assert(accidental_shape(ints(a@), j as int));
            }
            let s = a[j];
            proof {
                assert(ints(a@)[0] == a@[0] && ints(a@)[1] == a@[1] && ints(a@)[j as int] == a@[j as int]);
            }
            let first: i64 = if s > 0 { -(a[0] + a[1]) } else { a[0] + a[1] };
            let second: i64 = if s > 0 { -a[1] } else { a[1] };
            let ghost row_spec = Seq::new(
                dim as nat,
                |t: int| if t == 0 { first as int } else if t == 1 { second as int } else if t == j { s as int } else { 0int },
            );
            proof {
                let x = a@[0] as int;
                let y = a@[1] as int;
                let z = s as int;
                assert(z == 1 || z == -1);
                assert(first as int == -z * (x + y)) by (nonlinear_arith)
                    requires
                        z == 1 || z == -1,
                        first as int == if z > 0 { -(x + y) } else { x + y },
                ;
                assert(second as int == -z * y) by (nonlinear_arith)
                    requires
                        z == 1 || z == -1,
                        second as int == if z > 0 { -y } else { y },
                ;
                assert(g[j as int][0] == x && g[j as int][1] == y && g[j as int][j as int] == z);
            }
            assert(just_row(g, j as int, dim as nat) =~= row_spec);
            let mut t: usize = 0;
            while t < dim
                invariant
                    t <= dim,
                    2 <= j < dim,
                    row.len() == t,
                    row_spec == Seq::new(
                        dim as nat,
                        |t: int| if t == 0 { first as int } else if t == 1 { second as int } else if t == j { s as int } else { 0int },
                    ),
                    just_row(g, j as int, dim as nat) == row_spec,
                    forall|i: int| 0 <= i < t ==> row@[i] as int == just_row(g, j as int, dim as nat)[i],
                decreases dim - t,
            {
                row.push(if t == 0 { first } else if t == 1 { second } else if t == j { s } else { 0 });
                t = t + 1;
            }
        }
        proof {
            assert(ints(row@) =~= just_row(g, j as int, dim as nat));
        }
        w.push(row);
        j = j + 1;
        proof {
            assert forall|t: int| 0 <= t < j implies rows_of(w@)[t] == just_row(g, t, dim as nat) by {
                if t == j - 1 {
                    assert(rows_of(w@)[t] == ints(w@[t]@));
                }
            }
        }
    }
    proof {
        assert(rows_of(w@) =~= Seq::new(dim as nat, |j: int| just_row(g, j, dim as nat)));
    }
    w
}

/// How many letters up each generator sits: seven for the octave, four for
/// the fifth, none for an accidental.
pub open spec fn generator_degree(k: int) -> int {
    if k == 0 {
        DEGREE_OCTAVE as int
    } else if k == 1 {
        DEGREE_FIFTH as int
    } else {
        0
    }
}

/// The images of the generators with their degrees beside them, so that one
/// solve finds a spelling of the right pitch at the right degree.
pub open spec fn with_degree_of(v: NotationView) -> Seq<Seq<int>> {
    Seq::new(v.images.len(), |k: int| v.images[k].push(generator_degree(k)))
}

/// The degree just intonation writes the prime at `index` on.
pub open spec fn just_degree(basis: Seq<u32>, index: int) -> int {
    degree_spec(just_spelling(accidental_of(basis, index), index))
}

/// What just intonation spends on writing the prime at `index`.
pub open spec fn just_cost(basis: Seq<u32>, index: int) -> int {
    cost(just_spelling(accidental_of(basis, index), index))
}

/// The tempered image of the prime at `index`, with the degree just
/// intonation writes it on beside it.
pub open spec fn nominal_target(v: NotationView, index: int) -> Seq<int> {
    apply(v.mapping, unit(v.basis.len(), index)).push(just_degree(v.basis, index))
}

/// Whether the lattice algorithms' answers for the primes on their nominals
/// are what they claim: `level` a basis of written notes of neither pitch nor
/// degree, each of `seeds` a spelling of its prime on its just nominal where
/// there is one, and each of `nears` a member of the lattice of `level` to
/// take off it.
pub open spec fn nominal_inputs(
    v: NotationView,
    level: Seq<Seq<int>>,
    seeds: Seq<Option<Vec<i64>>>,
    nears: Seq<Option<Vec<i64>>>,
) -> bool {
    let wd = with_degree_of(v);
    let width = v.mapping.len() + 1;
    &&& seeds.len() + 2 == v.basis.len()
    &&& nears.len() == seeds.len()
    &&& forall|e: int|
        0 <= e < level.len() ==> (#[trigger] level[e]).len() == v.generators.len() && kills(level[e], wd, width as nat)
    &&& forall|k: int|
        0 <= k < seeds.len() ==> (#[trigger] seeds[k] matches Some(s) ==> {
            &&& s.len() == v.generators.len()
            &&& (has_accidental(v.basis, k + 2) ==> combination(ints(s@), wd, width as nat) == nominal_target(v, k + 2))
            &&& nears[k] matches Some(n) ==> n.len() == s.len() && kills(ints(n@), wd, width as nat) && in_lattice(
                ints(n@),
                level,
                v.generators.len(),
            )
            &&& level.len() == 0 ==> nears[k] is None
        })
}

/// Whether the spelling of a prime on its nominal from `seed` less `near`
/// can be computed and costed in `i64`: where there is no `level` to walk,
/// the seed's cost fits; else the seed and every step of the walk fit.
pub open spec fn nominal_ready(level: Seq<Seq<int>>, seed: Vec<i64>, near: Option<Vec<i64>>) -> bool {
    if level.len() == 0 {
        cost_fits(ints(seed@))
    } else {
        walk_ready(ints(seed@), near_of(near), level, RESPELL_WIDTH as int)
    }
}

/// Whether every prime that has a seed has a spelling on its nominal that
/// can be computed and costed.
pub open spec fn nominals_ready(level: Seq<Seq<int>>, seeds: Seq<Option<Vec<i64>>>, nears: Seq<Option<Vec<i64>>>) -> bool {
    forall|k: int| 0 <= k < seeds.len() ==> (#[trigger] seeds[k] matches Some(s) ==> nominal_ready(level, s, nears[k]))
}

/// The spelling of a prime on its nominal where it has one: where the walk
/// along `level` settles from its seed less `near`.
pub open spec fn nominal_spelling_of(level: Seq<Seq<int>>, seed: Option<Vec<i64>>, near: Option<Vec<i64>>) -> Option<
    Seq<int>,
> {
    match seed {
        Some(s) => Some(settled(level, ints(s@), near_of(near), RESPELL_WIDTH as int)),
        None => None,
    }
}

/// What the spelling of a prime on its nominal costs, where it has one.
pub open spec fn nominal_cost_of(level: Seq<Seq<int>>, seed: Option<Vec<i64>>, near: Option<Vec<i64>>) -> Option<int> {
    match nominal_spelling_of(level, seed, near) {
        Some(p) => Some(cost(p)),
        None => None,
    }
}

/// The larger of `a` and `b`.
pub open spec fn max_int(a: int, b: int) -> int {
    if a > b {
        a
    } else {
        b
    }
}

/// Whether the prime at `k + 2` keeps its nominal: it has a spelling there,
/// costing no more than the larger of what just intonation spends on it and
/// what the notation's own spelling of it costs.
pub open spec fn keeps_nominal_at(
    v: NotationView,
    level: Seq<Seq<int>>,
    seeds: Seq<Option<Vec<i64>>>,
    nears: Seq<Option<Vec<i64>>>,
    prime_nears: Seq<Option<Vec<i64>>>,
    k: int,
) -> bool {
    match nominal_cost_of(level, seeds[k], nears[k]) {
        Some(c) => c <= max_int(
            just_cost(v.basis, k + 2),
            cost(spelling_of(v, unit(v.basis.len(), k + 2), near_of(prime_nears[k]))),
        ),
        None => false,
    }
}

/// Whether a prime fails to keep its nominal: no spelling on it, or one that
/// costs more than both what just intonation spends and what the notation's
/// own best spelling of the prime costs.
pub open spec fn prime_fails(nominal: Option<int>, best: int, just: int) -> bool {
    match nominal {
        None => true,
        Some(c) => c > (if best > just { best } else { just }),
    }
}

/// Whether the answers for spelling each prime are what they claim: one
/// `near` per prime, a unison fitting its seed, and none where there are no
/// enharmonics to walk; and the seed itself fits.
pub open spec fn prime_inputs(v: NotationView, nears: Seq<Option<Vec<i64>>>) -> bool {
    &&& nears.len() + 2 == v.basis.len()
    &&& forall|k: int|
        0 <= k < nears.len() ==> {
            &&& combination_fits(apply(v.mapping, unit(v.basis.len(), k + 2)), v.inverse, v.generators.len())
            &&& respell_fits(v, seed_of(v, unit(v.basis.len(), k + 2)), RESPELL_WIDTH as int, #[trigger] nears[k])
            &&& v.enharmonics.len() == 0 ==> nears[k] is None
        }
}

/// Whether the notation's own spelling of every prime beyond 3 can be
/// computed and costed in `i64`.
pub open spec fn primes_ready(v: NotationView, nears: Seq<Option<Vec<i64>>>) -> bool {
    forall|k: int|
        0 <= k < nears.len() ==> respell_ready(v, seed_of(v, unit(v.basis.len(), k + 2)), RESPELL_WIDTH as int, #[trigger] nears[k])
            && cost_fits(spelling_of(v, unit(v.basis.len(), k + 2), near_of(nears[k])))
}

/// Whether the prime at `k + 2` fails to keep its nominal.
pub open spec fn fails_at(
    v: NotationView,
    level: Seq<Seq<int>>,
    seeds: Seq<Option<Vec<i64>>>,
    nears: Seq<Option<Vec<i64>>>,
    prime_nears: Seq<Option<Vec<i64>>>,
    k: int,
) -> bool {
    prime_fails(
        nominal_cost_of(level, seeds[k], nears[k]),
        cost(spelling_of(v, unit(v.basis.len(), k + 2), near_of(prime_nears[k]))),
        just_cost(v.basis, k + 2),
    )
}

/// How many of the first `k` primes beyond 3 fail to keep their nominals.
pub open spec fn failure_count(
    v: NotationView,
    level: Seq<Seq<int>>,
    seeds: Seq<Option<Vec<i64>>>,
    nears: Seq<Option<Vec<i64>>>,
    prime_nears: Seq<Option<Vec<i64>>>,
    k: int,
) -> nat
    decreases k,
{
    if k <= 0 {
        0
    } else {
        failure_count(v, level, seeds, nears, prime_nears, k - 1) + if fails_at(v, level, seeds, nears, prime_nears, k - 1) {
            1nat
        } else {
            0nat
        }
    }
}

/// In a notation with as many coordinates as the temperament has generators,
/// only the empty written note is at unison.
proof fn lemma_no_enharmonic_unisons(v: NotationView, n: Seq<int>)
    requires
        wf_view(v),
        v.mapping.len() == v.generators.len(),
        n.len() == v.generators.len(),
        kills(n, v.images, v.mapping.len()),
    ensures
        n == zeros(v.generators.len()),
{
    let w = v.generators.len();
    assert(in_lattice(n, v.enharmonics, w));
    let c = choose|c: Seq<int>| c.len() == v.enharmonics.len() && #[trigger] combination(c, v.enharmonics, w) == n;
    assert(c.len() == 0);
    assert(combination(c, v.enharmonics, w) =~= zeros(w));
}

/// What a written note of neither pitch nor degree is, in a notation with
/// as many coordinates as the temperament has generators: the empty one.
proof fn lemma_no_level(v: NotationView, n: Seq<int>)
    requires
        wf_view(v),
        v.mapping.len() == v.generators.len(),
        n.len() == v.generators.len(),
        kills(n, with_degree_of(v), (v.mapping.len() + 1) as nat),
    ensures
        n == zeros(v.generators.len()),
{
    let trank = v.mapping.len();
    lemma_with_degree_split(v, n);
    assert(pitch_of(v, n).push(degree_spec(n)) == zeros((trank + 1) as nat));
    assert(pitch_of(v, n) =~= zeros((trank + 1) as nat).drop_last());
    assert(zeros((trank + 1) as nat).drop_last() =~= zeros(trank));
    assert(kills(n, v.images, trank));
    lemma_no_enharmonic_unisons(v, n);
}

/// In just intonation the only written note of a prime's pitch is its just
/// spelling.
proof fn lemma_just_seed(v: NotationView, s: Seq<int>, idx: int)
    requires
        wf_view(v),
        v.mapping == identity(v.basis.len()),
        just_generators(v.generators, v.basis.len()),
        2 <= idx < v.basis.len(),
        s.len() == v.generators.len(),
        pitch_of(v, s) == apply(v.mapping, unit(v.basis.len(), idx)),
    ensures
        s == just_row(v.generators, idx, v.basis.len()),
{
    let dim = v.basis.len();
    let g = v.generators;
    lemma_identity_keeps(dim, unit(dim, idx));
    assert forall|k: int| 0 <= k < g.len() implies #[trigger] v.images[k] == g[k] by {
        lemma_identity_keeps(dim, g[k]);
    }
    assert(v.images =~= g);
    let r = just_row(g, idx, dim);
    lemma_just_row_inverts(g, idx, dim);
    let d = add_scaled(s, -1, r);
    crate::vector::lemma_combination_linear(s, -1, r, g, dim);
    assert(combination(d, g, dim) =~= zeros(dim));
    lemma_no_enharmonic_unisons(v, d);
    assert forall|i: int| 0 <= i < dim implies s[i] == r[i] by {
        assert(d[i] == zeros(dim)[i]);
    }
    assert(s =~= r);
}

/// The marks of a written note with one mark at `idx`.
proof fn lemma_one_mark(r: Seq<int>, idx: int, k: int)
    requires
        2 <= idx < r.len(),
        k <= r.len(),
        forall|t: int| 2 <= t < r.len() && t != idx ==> r[t] == 0,
        r[idx] == 1 || r[idx] == -1,
    ensures
        crate::spelling::marks_prefix(r, k) == if idx < k { 1int } else { 0int },
    decreases k,
{
    if k > 2 {
        lemma_one_mark(r, idx, k - 1);
    }
}

/// The just spelling of a prime costs what just intonation spends on it.
proof fn lemma_just_row_cost(g: Seq<Seq<int>>, basis: Seq<u32>, idx: int)
    requires
        just_generators(g, basis.len()),
        2 <= idx < basis.len(),
        g[idx] == accidental_of(basis, idx),
    ensures
        cost(just_row(g, idx, basis.len())) == just_cost(basis, idx),
{
    let dim = basis.len();
    let r = just_row(g, idx, dim);
    let a = g[idx];
    assert(accidental_shape(a, idx));
    lemma_one_mark(r, idx, dim as int);
    let js = just_spelling(a, idx);
    assert(crate::spelling::marks_prefix(js, 2) == 0);
    assert(js[2] == 1);
    assert(crate::spelling::marks(js) == 1);
    assert(r[1] == js[1]);
}

/// A walk along lattice vectors that are all empty stays where it starts.
proof fn lemma_walk_empty_rows(base: Seq<int>, lattice: Seq<Seq<int>>, steps: Seq<int>, k: int)
    requires
        0 <= k,
        k + steps.len() <= lattice.len(),
        forall|i: int| 0 <= i < lattice.len() ==> #[trigger] lattice[i] == zeros(base.len()),
    ensures
        walk_to(base, lattice, steps, k) == base,
    decreases steps.len(),
{
    if steps.len() > 0 {
        assert(add_scaled(base, steps[0], lattice[k]) =~= base);
        lemma_walk_empty_rows(base, lattice, steps.drop_first(), k + 1);
    }
}

/// Where every lattice vector is empty, a walk settles where it starts.
proof fn lemma_settles_in_place(base: Seq<int>, lattice: Seq<Seq<int>>, near: Option<Seq<int>>, width: int)
    requires
        0 <= width,
        forall|i: int| 0 <= i < lattice.len() ==> #[trigger] lattice[i] == zeros(base.len()),
        near matches Some(n) ==> n == zeros(base.len()),
    ensures
        settled(lattice, base, near, width) == base,
{
    if lattice.len() > 0 {
        let seed = walk_seed(base, near);
        assert(seed =~= base);
        crate::walk::lemma_base_in_box(base, lattice, width);
        assert forall|q: Seq<int>| #[trigger] in_box(q, base, lattice, width, 0) implies q == base by {
            let steps = choose|steps: Seq<int>|
                steps.len() == lattice.len() - 0 && (forall|i: int| 0 <= i < steps.len() ==> -width <= #[trigger] steps[i] <= width)
                    && #[trigger] walk_to(base, lattice, steps, 0) == q;
            lemma_walk_empty_rows(base, lattice, steps, 0);
        }
        assert(crate::walk::is_best_of_box(base, base, lattice, width, None));
        let p = crate::walk::best_of_box(base, lattice, width, None);
        assert(crate::walk::is_best_of_box(p, base, lattice, width, None));
    }
}

/// Just intonation keeps its nominals: in the notation of just intonation,
/// every prime beyond 3 that the lattice algorithms hand a spelling at its
/// just degree is written on its nominal at exactly what just intonation
/// spends on it, so none fails.
#[verifier::spinoff_prover]
pub proof fn lemma_just_intonation_keeps_its_nominals(
    v: NotationView,
    level: Seq<Seq<int>>,
    seeds: Seq<Option<Vec<i64>>>,
    nears: Seq<Option<Vec<i64>>>,
    prime_nears: Seq<Option<Vec<i64>>>,
)
    requires
        wf_view(v),
        v.mapping == identity(v.basis.len()),
        just_generators(v.generators, v.basis.len()),
        forall|i: int|
            2 <= i < v.basis.len() ==> #[trigger] v.generators[i] == accidental_of(v.basis, i) && has_accidental(
                v.basis,
                i,
            ),
        nominal_inputs(v, level, seeds, nears),
        forall|k: int| 0 <= k < seeds.len() ==> (#[trigger] seeds[k]) is Some,
    ensures
        failure_count(v, level, seeds, nears, prime_nears, seeds.len() as int) == 0,
{
    assert forall|k: int| 0 <= k < seeds.len() implies !fails_at(v, level, seeds, nears, prime_nears, k) by {
        lemma_just_prime_keeps(v, level, seeds, nears, prime_nears, k);
    }
    lemma_no_failures(v, level, seeds, nears, prime_nears, seeds.len() as int);
}

/// No prime fails exactly when the count of those that do is zero.
proof fn lemma_failure_count_zero(
    v: NotationView,
    level: Seq<Seq<int>>,
    seeds: Seq<Option<Vec<i64>>>,
    nears: Seq<Option<Vec<i64>>>,
    prime_nears: Seq<Option<Vec<i64>>>,
    n: int,
)
    ensures
        failure_count(v, level, seeds, nears, prime_nears, n) == 0 <==> forall|k: int|
            0 <= k < n ==> !#[trigger] fails_at(v, level, seeds, nears, prime_nears, k),
    decreases n,
{
    if n > 0 {
        lemma_failure_count_zero(v, level, seeds, nears, prime_nears, n - 1);
        if failure_count(v, level, seeds, nears, prime_nears, n) == 0 {
            assert forall|k: int| 0 <= k < n implies !#[trigger] fails_at(v, level, seeds, nears, prime_nears, k) by {
                if k < n - 1 {
                    assert(failure_count(v, level, seeds, nears, prime_nears, n - 1) == 0);
                }
            }
        }
    }
}

proof fn lemma_no_failures(
    v: NotationView,
    level: Seq<Seq<int>>,
    seeds: Seq<Option<Vec<i64>>>,
    nears: Seq<Option<Vec<i64>>>,
    prime_nears: Seq<Option<Vec<i64>>>,
    n: int,
)
    requires
        forall|k: int| 0 <= k < n ==> !fails_at(v, level, seeds, nears, prime_nears, k),
    ensures
        failure_count(v, level, seeds, nears, prime_nears, n) == 0,
    decreases n,
{
    if n > 0 {
        lemma_no_failures(v, level, seeds, nears, prime_nears, n - 1);
    }
}

proof fn lemma_just_prime_keeps(
    v: NotationView,
    level: Seq<Seq<int>>,
    seeds: Seq<Option<Vec<i64>>>,
    nears: Seq<Option<Vec<i64>>>,
    prime_nears: Seq<Option<Vec<i64>>>,
    k: int,
)
    requires
        wf_view(v),
        v.mapping == identity(v.basis.len()),
        just_generators(v.generators, v.basis.len()),
        forall|i: int|
            2 <= i < v.basis.len() ==> #[trigger] v.generators[i] == accidental_of(v.basis, i) && has_accidental(
                v.basis,
                i,
            ),
        nominal_inputs(v, level, seeds, nears),
        forall|i: int| 0 <= i < seeds.len() ==> (#[trigger] seeds[i]) is Some,
        0 <= k < seeds.len(),
    ensures
        !fails_at(v, level, seeds, nears, prime_nears, k),
{
    let dim = v.basis.len();
    let idx = k + 2;
    let wd = with_degree_of(v);
    let trank = v.mapping.len();
    let seed = seeds[k]->Some_0;
    let x = ints(seed@);
    assert(seeds[k] matches Some(s) && s == seed);
    assert(v.generators[idx] == accidental_of(v.basis, idx) && has_accidental(v.basis, idx));
    assert(combination(x, wd, (trank + 1) as nat) == nominal_target(v, idx));
    lemma_with_degree_split(v, x);
    assert(pitch_of(v, x) =~= nominal_target(v, idx).drop_last());
    assert(nominal_target(v, idx).drop_last() =~= apply(v.mapping, unit(dim, idx)));
    lemma_just_seed(v, x, idx);
    assert forall|e: int| 0 <= e < level.len() implies #[trigger] level[e] == zeros(x.len()) by {
        lemma_no_level(v, level[e]);
    }
    match nears[k] {
        Some(n) => {
            crate::vector::lemma_ints_len(n@);
            lemma_no_level(v, ints(n@));
        },
        None => {},
    }
    lemma_settles_in_place(x, level, near_of(nears[k]), RESPELL_WIDTH as int);
    lemma_just_row_cost(v.generators, v.basis, idx);
    assert(nominal_cost_of(level, seeds[k], nears[k]) == Some(just_cost(v.basis, idx)));
}

/// How well a notation keeps its nominals: what each prime costs on its just
/// nominal, and how many primes fail to keep it.
#[derive(Debug, Clone, PartialEq, Eq)]
pub struct NominalVerdict {
    /// What each prime beyond 3 costs on its just nominal, where it can be
    /// written there at all.
    pub costs: Vec<Option<i64>>,
    /// How many primes fail to keep their nominals.
    pub failures: usize,
}

/// An optional `i64` as an optional integer.
pub open spec fn opt_int(o: Option<i64>) -> Option<int> {
    match o {
        Some(x) => Some(x as int),
        None => None,
    }
}

/// The combination of the images with degrees beside them is the pitch with
/// the degree beside it.
proof fn lemma_with_degree_split(v: NotationView, x: Seq<int>)
    requires
        wf_view(v),
        x.len() == v.generators.len(),
    ensures
        combination(x, with_degree_of(v), (v.mapping.len() + 1) as nat) == pitch_of(v, x).push(degree_spec(x)),
{
    let wd = with_degree_of(v);
    let trank = v.mapping.len();
    let left = combination(x, wd, (trank + 1) as nat);
    let right = pitch_of(v, x).push(degree_spec(x));
    assert forall|i: int| 0 <= i <= trank implies #[trigger] left[i] == right[i] by {
        if i < trank {
            assert(crate::vector::column(wd, i) =~= crate::vector::column(v.images, i)) by {
                assert forall|k: int| 0 <= k < wd.len() implies #[trigger] wd[k][i] == v.images[k][i] by {
                    assert(v.images[k].len() == trank);
                }
            }
        } else {
            let col = crate::vector::column(wd, i);
            assert forall|k: int| 0 <= k < col.len() implies #[trigger] col[k] == generator_degree(k) by {
                assert(v.images[k].len() == trank);
            }
            lemma_dot_sparse_right(x, col, x.len() as int);
        }
    }
    assert(left =~= right);
}

/// A dot product with a vector that is zero but at `0` and `1`.
proof fn lemma_dot_sparse_right(x: Seq<int>, b: Seq<int>, k: int)
    requires
        2 <= k <= x.len(),
        k <= b.len(),
        forall|i: int| 0 <= i < b.len() ==> b[i] == generator_degree(i),
    ensures
        dot_prefix(x, b, k) == DEGREE_OCTAVE * x[0] + DEGREE_FIFTH * x[1],
    decreases k,
{
    if k > 2 {
        lemma_dot_sparse_right(x, b, k - 1);
        assert(b[k - 1] == generator_degree(k - 1));
        assert(x[k - 1] * b[k - 1] == 0) by (nonlinear_arith)
            requires
                b[k - 1] == 0,
        ;
    } else {
        assert(b[0] == generator_degree(0));
        assert(b[1] == generator_degree(1));
        assert(dot_prefix(x, b, 0) == 0);
        assert(dot_prefix(x, b, 1) == x[0] * b[0]);
        assert(x[0] * b[0] == DEGREE_OCTAVE * x[0]) by (nonlinear_arith)
            requires
                b[0] == DEGREE_OCTAVE,
        ;
        assert(x[1] * b[1] == DEGREE_FIFTH * x[1]) by (nonlinear_arith)
            requires
                b[1] == DEGREE_FIFTH,
        ;
    }
}

/// The unit vector of length `dim` with a one at `index`.
fn unit_vector(dim: usize, index: usize) -> (u: Vec<i64>)
    ensures
        ints(u@) == unit(dim as nat, index as int),
        u.len() == dim,
{
    let mut u: Vec<i64> = Vec::new();
    let mut j: usize = 0;
    while j < dim
        invariant
            j <= dim,
            u.len() == j,
            forall|t: int| 0 <= t < j ==> u@[t] as int == unit(dim as nat, index as int)[t],
        decreases dim - j,
    {
        u.push(if j == index { 1 } else { 0 });
        j = j + 1;
    }
    assert(ints(u@) =~= unit(dim as nat, index as int));
    u
}

impl Notation {
    #[verifier::type_invariant]
    spec fn inv(self) -> bool {
        &&& wf_view(self@)
        &&& self.generators.len() == self.accidentals.len() + 2
    }

    /// Builds the notation of `temperament` with `accidentals` as its extra
    /// generators, given what the lattice algorithms make of their images:
    /// `inverse`, a left inverse of the images, or `None` where the integer
    /// system for one has no solution, and `enharmonics`, a basis of the left
    /// kernel of the images.
    ///
    /// # Errors
    /// Returns [`Unsupported::ReservedSymbol`] or [`Unsupported::RepeatedSymbol`]
    /// if two symbols collide or one is a character the note names use,
    /// [`Dimensions::Interval`] for the first accidental that is not an
    /// interval of the temperament's subgroup, and [`Unsupported::DoesNotReach`]
    /// if the generators do not reach every pitch of the temperament.
    pub fn from_accidentals(
        temperament: &Temperament,
        accidentals: &Vec<Accidental>,
        inverse: Option<Vec<Vec<i64>>>,
        enharmonics: Vec<Vec<i64>>,
    ) -> (r: Result<Notation, Error>)
        requires
            images_fit(temperament@, accidentals@),
            lattice_results(temperament@, accidentals@, rows_option(inverse), rows_of(enharmonics@)),
        ensures
            r is Ok <==> symbols_distinct(symbols_of(accidentals@)) && accidentals_fit(
                accidentals@,
                temperament@.1.len(),
            ) && inverse is Some,
            !symbols_distinct(symbols_of(accidentals@)) ==> (r matches Err(e) && exists|k: int|
                0 <= k < 2 * accidentals.len() && !symbol_ok(symbol_list(accidentals@), k) && (forall|j: int|
                    0 <= j < k ==> symbol_ok(symbol_list(accidentals@), j)) && e == symbol_error(
                    symbol_list(accidentals@),
                    k,
                )),
            symbols_distinct(symbols_of(accidentals@)) && !accidentals_fit(accidentals@, temperament@.1.len())
                ==> (r matches Err(e) && exists|k: int|
                0 <= k < accidentals.len() && accidentals@[k].vector@.len() != temperament@.1.len() && (forall|j: int|
                    0 <= j < k ==> (#[trigger] accidentals@[j]).vector@.len() == temperament@.1.len()) && e
                    == Error::InvalidDimensions(
                    Dimensions::Interval {
                        found: accidentals@[k].vector@.len() as usize,
                        expected: temperament@.1.len() as usize,
                    },
                )),
            symbols_distinct(symbols_of(accidentals@)) && accidentals_fit(accidentals@, temperament@.1.len())
                && inverse is None ==> r == Err::<Notation, Error>(Error::Unsupported(Unsupported::DoesNotReach)),
            r matches Ok(n) ==> {
                &&& n@.generators == generators_of(temperament@.1.len(), accidentals@)
                &&& n@.symbols == symbols_of(accidentals@)
                &&& n@.images == images_of(temperament@.0, n@.generators)
                &&& n@.inverse == rows_of(inverse.unwrap()@)
                &&& n@.enharmonics == rows_of(enharmonics@)
                &&& n@.mapping == temperament@.0
                &&& n@.basis == temperament@.1
                &&& wf_view(n@)
            },
    {
        let mapping = temperament.mapping();
        let dim = temperament.dim();
        let ghost t = temperament@;
        proof {
            assert(symbol_list(accidentals@) =~= pair_list(symbols_of(accidentals@)));
        }
        match check_symbols(accidentals) {
            Err(e) => {
                return Err(e);
            },
            Ok(()) => {},
        }
        match first_misfit(accidentals, dim) {
            Some(k) => {
                return Err(
                    Error::InvalidDimensions(
                        Dimensions::Interval { found: accidentals[k].vector.len(), expected: dim },
                    ),
                );
            },
            None => {},
        }
        let mut generators = fifth_chain(dim);
        let mut symbols: Vec<(char, char)> = Vec::new();
        let mut k: usize = 0;
        while k < accidentals.len()
            invariant
                k <= accidentals.len(),
                dim == t.1.len(),
                accidentals_fit(accidentals@, dim as nat),
                generators.len() == k + 2,
                symbols.len() == k,
                rows_of(generators@) == generators_of(dim as nat, accidentals@.subrange(0, k as int)),
                symbols@ == symbols_of(accidentals@.subrange(0, k as int)),
                forall|i: int| 0 <= i < generators.len() ==> (#[trigger] generators@[i]).len() == dim,
            decreases accidentals.len() - k,
        {
            let v = copy_vector(&accidentals[k].vector);
            let ghost before = rows_of(generators@);
            generators.push(v);
            symbols.push(accidentals[k].symbols);
            k = k + 1;
            proof {
                let prefix = accidentals@.subrange(0, k as int);
                let spec = generators_of(dim as nat, prefix);
                assert(spec.len() == k + 2);
                assert forall|i: int| 0 <= i < k + 2 implies #[trigger] rows_of(generators@)[i] == spec[i] by {
                    if i < k + 1 {
                        assert(rows_of(generators@)[i] == before[i]);
                        assert(generators_of(dim as nat, accidentals@.subrange(0, k - 1))[i] == spec[i]);
                    } else {
                        assert(rows_of(generators@)[i] == ints(v@));
                    }
                }
                assert(rows_of(generators@) =~= spec);
                assert(symbols@ =~= symbols_of(prefix));
            }
        }
        let ghost generators_spec = generators_of(dim as nat, accidentals@);
        proof {
            assert(accidentals@.subrange(0, accidentals.len() as int) =~= accidentals@);
            assert forall|i: int, j: int| 0 <= i < t.0.len() && 0 <= j < dim implies fits(#[trigger] t.0[i][j]) by {
                assert(rows_of(mapping@)[i] == ints(mapping@[i]@));
            }
            lemma_unit_apply_fits(t.0, dim as nat, 0);
            assert forall|i: int|
                0 <= i < generators.len() && (#[trigger] generators@[i]).len() == t.1.len() implies apply_fits(
                t.0,
                ints(generators@[i]@),
            ) by {
                assert(rows_of(generators@)[i] == ints(generators@[i]@));
                if i >= 2 {
                    assert(ints(generators@[i]@) == ints(accidentals@[i - 2].vector@));
                }
            }
        }
        let images = match temperament.map_all(&generators) {
            Ok(images) => images,
            Err(e) => {
                proof {
                    assert(has_width(rows_of(generators@), t.1.len())) by {
                        assert forall|i: int| 0 <= i < rows_of(generators@).len() implies (#[trigger] rows_of(
                            generators@,
                        )[i]).len() == t.1.len() by {
                            assert(rows_of(generators@)[i] == ints(generators@[i]@));
                        }
                    }
                }
                return Err(e);
            },
        };
        proof {
            assert(rows_of(images@) =~= images_of(t.0, generators_spec)) by {
                assert forall|i: int| 0 <= i < images.len() implies #[trigger] rows_of(images@)[i] == images_of(
                    t.0,
                    generators_spec,
                )[i] by {
                    assert(rows_of(generators@)[i] == ints(generators@[i]@));
                }
            }
        }
        match inverse {
            None => Err(Error::Unsupported(Unsupported::DoesNotReach)),
            Some(w) => {
                let copy = temperament.clone();
                proof {
                    assert(has_width(rows_of(generators@), dim as nat)) by {
                        assert forall|i: int| 0 <= i < rows_of(generators@).len() implies (#[trigger] rows_of(
                            generators@,
                        )[i]).len() == dim by {
                            assert(rows_of(generators@)[i] == ints(generators@[i]@));
                        }
                    }
                    assert(pair_list(symbols@) =~= symbol_list(accidentals@));
                }
                let n = Notation {
                    generators,
                    accidentals: symbols,
                    images,
                    inverse: w,
                    enharmonics,
                    temperament: copy,
                };
                Ok(n)
            },
        }
    }

    /// The notational generators as interval vectors, in the order their
    /// notation coordinates count them: the octave, the fifth, then the
    /// accidentals.
    pub fn generators(&self) -> (g: &Vec<Vec<i64>>)
        ensures
            rows_of(g@) == self@.generators,
            wf_view(self@),
    {
        proof {
            use_type_invariant(self);
        }
        &self.generators
    }

    /// A basis of the enharmonic lattice, in notation coordinates: the written
    /// notes the temperament calls a unison.
    ///
    /// This is the freedom the notation has over the temperament, so it has
    /// `rank() - temperament.rank()` members and is empty exactly when
    /// spelling is a bijection.
    pub fn enharmonics(&self) -> (e: &Vec<Vec<i64>>)
        ensures
            rows_of(e@) == self@.enharmonics,
            e.len() + self@.mapping.len() == self@.generators.len(),
            forall|k: int|
                0 <= k < e.len() ==> (#[trigger] e@[k]).len() == self@.generators.len() && kills(
                    ints(e@[k]@),
                    self@.images,
                    self@.mapping.len(),
                ) && ints(e@[k]@) != zeros(self@.generators.len()),
            independent_rows(self@.enharmonics, self@.generators.len()),
            forall|n: Seq<int>|
                n.len() == self@.generators.len() && #[trigger] kills(n, self@.images, self@.mapping.len()) ==> in_lattice(
                    n,
                    self@.enharmonics,
                    self@.generators.len(),
                ),
            wf_view(self@),
    {
        proof {
            use_type_invariant(self);
            assert forall|k: int| 0 <= k < self.enharmonics.len() implies (#[trigger] self.enharmonics@[k]).len()
                == self@.generators.len() && kills(ints(self.enharmonics@[k]@), self@.images, self@.mapping.len()) && ints(
                self.enharmonics@[k]@,
            ) != zeros(self@.generators.len()) by {
                assert(rows_of(self.enharmonics@)[k] == ints(self.enharmonics@[k]@));
                crate::vector::lemma_ints_len(self.enharmonics@[k]@);
                lemma_enharmonics_nonzero(self@, k);
            }
        }
        &self.enharmonics
    }

    /// The temperament being notated.
    pub fn temperament(&self) -> (t: &Temperament)
        ensures
            t@ == (self@.mapping, self@.basis),
            wf_view(self@),
    {
        proof {
            use_type_invariant(self);
        }
        &self.temperament
    }

    /// The just intonation subgroup of the temperament being notated.
    pub fn subgroup(&self) -> (s: &Subgroup)
        ensures
            s@ == self@.basis,
            wf_view(self@),
    {
        proof {
            use_type_invariant(self);
        }
        self.temperament.subgroup()
    }

    /// The number of notation coordinates.
    pub fn rank(&self) -> (r: usize)
        ensures
            r == self@.generators.len(),
            wf_view(self@),
    {
        proof {
            use_type_invariant(self);
        }
        self.generators.len()
    }

    /// The dimension of the subgroup being notated: the length of the
    /// interval vectors this notation spells.
    pub fn dim(&self) -> (d: usize)
        ensures
            d == self@.basis.len(),
            wf_view(self@),
    {
        proof {
            use_type_invariant(self);
        }
        self.temperament.dim()
    }

    /// Checks that `coordinates` has one entry per notation coordinate.
    fn check(&self, coordinates: &Vec<i64>) -> (r: Result<(), Error>)
        ensures
            r is Ok <==> coordinates.len() == self@.generators.len(),
            r matches Err(e) ==> e == Error::InvalidDimensions(
                Dimensions::Coordinates { found: coordinates.len(), expected: self@.generators.len() as usize },
            ),
    {
        if coordinates.len() != self.generators.len() {
            return Err(
                Error::InvalidDimensions(
                    Dimensions::Coordinates { found: coordinates.len(), expected: self.generators.len() },
                ),
            );
        }
        Ok(())
    }

    /// Maps notation coordinates to a pitch in the temperament.
    ///
    /// # Errors
    /// Returns [`Dimensions::Coordinates`] if `coordinates` does not have one
    /// entry per notation coordinate.
    pub fn pitch(&self, coordinates: &Vec<i64>) -> (r: Result<Vec<i64>, Error>)
        requires
            coordinates.len() == self@.generators.len() ==> combination_fits(
                ints(coordinates@),
                self@.images,
                self@.mapping.len(),
            ),
        ensures
            r is Ok <==> coordinates.len() == self@.generators.len(),
            r matches Ok(p) ==> ints(p@) == pitch_of(self@, ints(coordinates@)),
            r matches Err(e) ==> e == Error::InvalidDimensions(
                Dimensions::Coordinates { found: coordinates.len(), expected: self@.generators.len() as usize },
            ),
    {
        proof {
            use_type_invariant(self);
        }
        self.check(coordinates)?;
        let trank = self.temperament.rank();
        proof {
            assert forall|k: int| 0 <= k < self.images.len() implies (#[trigger] self.images@[k]).len() >= trank by {
                assert(rows_of(self.images@)[k] == ints(self.images@[k]@));
                assert(self@.images == images_of(self@.mapping, self@.generators));
                assert(self@.images.len() == self@.generators.len());
                assert(images_of(self@.mapping, self@.generators)[k] == apply(self@.mapping, self@.generators[k]));
                assert(self@.mapping == self.temperament@.0);
            }
            assert(rows_of(self.images@).len() == self.images.len());
        }
        Ok(combination_exec(coordinates, &self.images, trank))
    }

    /// Converts notation coordinates back to a just interval, reading each
    /// generator as the interval it is. Tempering that interval gives the
    /// pitch of the coordinates.
    ///
    /// This gives one just interval of the many the pitch could be read as.
    ///
    /// # Errors
    /// Returns [`Dimensions::Coordinates`] if `coordinates` does not have one
    /// entry per notation coordinate.
    pub fn to_just(&self, coordinates: &Vec<i64>) -> (r: Result<Vec<i64>, Error>)
        requires
            coordinates.len() == self@.generators.len() ==> combination_fits(
                ints(coordinates@),
                self@.generators,
                self@.basis.len(),
            ),
        ensures
            r is Ok <==> coordinates.len() == self@.generators.len(),
            r matches Ok(j) ==> ints(j@) == just_of(self@, ints(coordinates@)),
            r matches Ok(j) ==> apply(self@.mapping, ints(j@)) == pitch_of(self@, ints(coordinates@)),
            r matches Err(e) ==> e == Error::InvalidDimensions(
                Dimensions::Coordinates { found: coordinates.len(), expected: self@.generators.len() as usize },
            ),
    {
        proof {
            use_type_invariant(self);
        }
        self.check(coordinates)?;
        let dim = self.temperament.dim();
        proof {
            assert forall|k: int| 0 <= k < self.generators.len() implies (#[trigger] self.generators@[k]).len() >= dim by {
                assert(rows_of(self.generators@)[k] == ints(self.generators@[k]@));
            }
            lemma_apply_combination(self@.mapping, ints(coordinates@), self@.generators, dim as nat);
        }
        Ok(combination_exec(coordinates, &self.generators, dim))
    }

    /// One spelling of the pitch the temperament makes of `interval`: the
    /// left inverse applied to its tempered image. This is where a search for
    /// the best spelling starts.
    ///
    /// # Errors
    /// Returns [`Dimensions::Interval`] if `interval` does not have one entry
    /// per prime of the subgroup.
    pub fn spelling_seed(&self, interval: &Vec<i64>) -> (r: Result<Vec<i64>, Error>)
        requires
            interval.len() == self@.basis.len() ==> apply_fits(self@.mapping, ints(interval@)) && combination_fits(
                apply(self@.mapping, ints(interval@)),
                self@.inverse,
                self@.generators.len(),
            ),
        ensures
            r is Ok <==> interval.len() == self@.basis.len(),
            r matches Ok(s) ==> ints(s@) == seed_of(self@, ints(interval@)),
            r matches Ok(s) ==> s.len() == self@.generators.len() && pitch_of(self@, ints(s@)) == apply(
                self@.mapping,
                ints(interval@),
            ),
            r matches Err(e) ==> e == Error::InvalidDimensions(
                Dimensions::Interval { found: interval.len(), expected: self@.basis.len() as usize },
            ),
    {
        proof {
            use_type_invariant(self);
        }
        let target = self.temperament.map(interval)?;
        let rank = self.generators.len();
        proof {
            assert forall|k: int| 0 <= k < self.inverse.len() implies (#[trigger] self.inverse@[k]).len() >= rank by {
                assert(rows_of(self.inverse@)[k] == ints(self.inverse@[k]@));
            }
            lemma_left_inverse_solves(ints(target@), self@.inverse, self@.images, self@.mapping.len());
            assert(ints(target@).len() == target.len());
            assert(self@.inverse.len() == self@.mapping.len());
            assert(self@.images.len() == rank);
        }
        let seed = combination_exec(&target, &self.inverse, rank);
        proof {
            assert(ints(seed@).len() == seed.len());
        }
        Ok(seed)
    }

    /// [`respell`](Self::respell), walking `width` enharmonics either way:
    /// the `count` cheapest ways to write the pitch of `coordinates`, best
    /// first, found in the box of enharmonics around `coordinates` less
    /// `near`, the enharmonic closest to them. Every one has the pitch of
    /// `coordinates`.
    ///
    /// # Errors
    /// Returns [`Dimensions::Coordinates`] if `coordinates` does not have one
    /// entry per notation coordinate, and [`Error::Overflow`] where the walk leaves 64 bits.
    pub fn respell_within(&self, coordinates: &Vec<i64>, count: usize, width: i64, near: &Option<Vec<i64>>) -> (r:
        Result<Vec<Vec<i64>>, Error>)
        requires
            coordinates.len() == self@.generators.len() ==> respell_fits(self@, ints(coordinates@), width as int, *near),
        ensures
            r is Ok <==> coordinates.len() == self@.generators.len() && respell_ready(
                self@,
                ints(coordinates@),
                width as int,
                *near,
            ),
            r matches Ok(found) ==> self@.enharmonics.len() == 0 ==> found.len() == 1 && found@[0]@ == coordinates@,
            r matches Ok(found) ==> self@.enharmonics.len() > 0 ==> cheapest_of(
                found@,
                walk_seed(ints(coordinates@), near_of(*near)),
                self@.enharmonics,
                width as int,
                if count == 0 { 1 } else { count as nat },
                None,
            ),
            r matches Ok(found) ==> forall|i: int|
                0 <= i < found.len() ==> (#[trigger] found@[i]).len() == coordinates.len() && pitch_of(
                    self@,
                    ints(found@[i]@),
                ) == pitch_of(self@, ints(coordinates@)) && in_lattice(
                    difference(ints(found@[i]@), ints(coordinates@)),
                    self@.enharmonics,
                    self@.generators.len(),
                ),
            r matches Err(e) ==> e == if coordinates.len() != self@.generators.len() {
                Error::InvalidDimensions(
                    Dimensions::Coordinates { found: coordinates.len(), expected: self@.generators.len() as usize },
                )
            } else {
                Error::Overflow
            },
    {
        proof {
            use_type_invariant(self);
        }
        self.check(coordinates)?;
        proof {
            assert(near_of(*near) == match near { Some(n) => Some(ints(n@)), None => None });
            assert forall|i: int| 0 <= i < self.enharmonics.len() implies (#[trigger] self.enharmonics@[i]).len()
                == coordinates.len() by {
                assert(rows_of(self.enharmonics@)[i] == ints(self.enharmonics@[i]@));
            }
        }
        let found = match cheapest(coordinates, &self.enharmonics, width, count, near) {
            Some(found) => found,
            None => {
                return Err(Error::Overflow);
            },
        };
        proof {
            let v = self@;
            let c = ints(coordinates@);
            let base = walk_seed(c, near_of(*near));
            let trank = v.mapping.len();
            match near {
                Some(n) => {
                    lemma_combination_difference(c, ints(n@), v.images, trank);
                },
                None => {},
            }
            assert(combination(base, v.images, trank) == combination(c, v.images, trank));
            if v.enharmonics.len() > 0 {
                assert forall|i: int| 0 <= i < found.len() implies (#[trigger] found@[i]).len() == coordinates.len()
                    && pitch_of(v, ints(found@[i]@)) == pitch_of(v, c) by {
                    lemma_box_keeps_pitch(ints(found@[i]@), base, v.enharmonics, width as int, v.images, trank);
                }
            } else {
                assert(ints(found@[0]@) == c);
            }
        }
        Ok(found)
    }

    /// The `count` cheapest ways to write the pitch of `coordinates`, best
    /// first, walking [`RESPELL_WIDTH`] enharmonics either way from
    /// `coordinates` less `near`, the enharmonic closest to them.
    ///
    /// # Errors
    /// Returns [`Dimensions::Coordinates`] if `coordinates` does not have one
    /// entry per notation coordinate, and [`Error::Overflow`] where the walk leaves 64 bits.
    pub fn respell(&self, coordinates: &Vec<i64>, count: usize, near: &Option<Vec<i64>>) -> (r: Result<
        Vec<Vec<i64>>,
        Error,
    >)
        requires
            coordinates.len() == self@.generators.len() ==> respell_fits(
                self@,
                ints(coordinates@),
                RESPELL_WIDTH as int,
                *near,
            ),
        ensures
            r is Ok <==> coordinates.len() == self@.generators.len() && respell_ready(
                self@,
                ints(coordinates@),
                RESPELL_WIDTH as int,
                *near,
            ),
            r matches Ok(found) ==> self@.enharmonics.len() == 0 ==> found.len() == 1 && found@[0]@ == coordinates@,
            r matches Ok(found) ==> self@.enharmonics.len() > 0 ==> cheapest_of(
                found@,
                walk_seed(ints(coordinates@), near_of(*near)),
                self@.enharmonics,
                RESPELL_WIDTH as int,
                if count == 0 { 1 } else { count as nat },
                None,
            ),
            r matches Ok(found) ==> forall|i: int|
                0 <= i < found.len() ==> (#[trigger] found@[i]).len() == coordinates.len() && pitch_of(
                    self@,
                    ints(found@[i]@),
                ) == pitch_of(self@, ints(coordinates@)) && in_lattice(
                    difference(ints(found@[i]@), ints(coordinates@)),
                    self@.enharmonics,
                    self@.generators.len(),
                ),
            r matches Err(e) ==> e == if coordinates.len() != self@.generators.len() {
                Error::InvalidDimensions(
                    Dimensions::Coordinates { found: coordinates.len(), expected: self@.generators.len() as usize },
                )
            } else {
                Error::Overflow
            },
    {
        self.respell_within(coordinates, count, RESPELL_WIDTH, near)
    }

    /// The simplest way to write a just interval: the cheapest spelling of
    /// the pitch the temperament makes of it, found walking [`RESPELL_WIDTH`]
    /// enharmonics either way from its [seed](Self::spelling_seed) less
    /// `near`, the enharmonic closest to the seed. The spelling has the pitch
    /// of the interval.
    ///
    /// # Errors
    /// Returns [`Dimensions::Interval`] if `interval` does not have one entry
    /// per prime of the subgroup, and [`Error::Overflow`] where the walk leaves 64 bits.
    pub fn spell(&self, interval: &Vec<i64>, near: &Option<Vec<i64>>) -> (r: Result<Vec<i64>, Error>)
        requires
            interval.len() == self@.basis.len() ==> apply_fits(self@.mapping, ints(interval@)) && combination_fits(
                apply(self@.mapping, ints(interval@)),
                self@.inverse,
                self@.generators.len(),
            ) && respell_fits(self@, seed_of(self@, ints(interval@)), RESPELL_WIDTH as int, *near),
        ensures
            r is Ok <==> interval.len() == self@.basis.len() && respell_ready(
                self@,
                seed_of(self@, ints(interval@)),
                RESPELL_WIDTH as int,
                *near,
            ),
            r matches Ok(s) ==> ints(s@) == spelling_of(self@, ints(interval@), near_of(*near)),
            r matches Ok(s) ==> s.len() == self@.generators.len() && pitch_of(self@, ints(s@)) == apply(
                self@.mapping,
                ints(interval@),
            ),
            r matches Ok(s) ==> self@.enharmonics.len() > 0 ==> cost_fits(ints(s@)),
            r matches Err(e) ==> e == if interval.len() != self@.basis.len() {
                Error::InvalidDimensions(
                    Dimensions::Interval { found: interval.len(), expected: self@.basis.len() as usize },
                )
            } else {
                Error::Overflow
            },
    {
        let seed = self.spelling_seed(interval)?;
        let mut found = match self.respell_within(&seed, 1, RESPELL_WIDTH, near) {
            Ok(found) => found,
            Err(e) => {
                return Err(e);
            },
        };
        proof {
            use_type_invariant(self);
            let base = walk_seed(ints(seed@), near_of(*near));
            if self@.enharmonics.len() > 0 {
                lemma_cheapest_first(found@, base, self@.enharmonics, RESPELL_WIDTH as int, 1, None);
                lemma_box_costs_fit(ints(found@[0]@), base, self@.enharmonics, RESPELL_WIDTH as int);
            }
        }
        let s = found.swap_remove(0);
        Ok(s)
    }


    /// Writes notation coordinates as a note in scientific pitch notation,
    /// such as `C5`, `Eb4`, `vE5`.
    ///
    /// The coordinates are read as an interval up from `C5`, so `(0, 0, ..)`
    /// is `C5` itself and `(0, 1, 0, ..)`, a fifth up, is `G5`. Accidentals
    /// come before the nominal and sharps and flats after it. The symbols are
    /// placeholders, since real microtonal accidentals are not in unicode.
    pub fn note(&self, coordinates: &Vec<i64>) -> (name: String)
        requires
            coordinates.len() == self@.generators.len(),
            note_fits(ints(coordinates@)),
        ensures
            name@ == note_text(self@, ints(coordinates@)),
    {
        proof {
            use_type_invariant(self);
        }
        let ghost c = ints(coordinates@);
        let mut name = String::new();
        let mut k: usize = 0;
        while k < self.accidentals.len()
            invariant
                k <= self.accidentals.len(),
                coordinates.len() == self.accidentals.len() + 2,
                c == ints(coordinates@),
                name@ == marks_text(c, self@.symbols, k as int),
            decreases self.accidentals.len() - k,
        {
            let count = coordinates[k + 2];
            let symbols = self.accidentals[k];
            let ghost before = name@;
            if count < 0 {
                push_repeated(&mut name, symbols.1, magnitude(count));
            } else {
                push_repeated(&mut name, symbols.0, magnitude(count));
            }
            k = k + 1;
            proof {
                assert(c[k as int + 1] == count);
                assert(name@ =~= marks_text(c, self@.symbols, k as int));
            }
        }
        let octaves = coordinates[0];
        let fifths = coordinates[1];
        let (sharps, position) = div_mod_seven(fifths + 1);
        push_char(&mut name, nominal_letter_exec(position));
        if sharps < 0 {
            push_repeated(&mut name, 'b', magnitude(sharps));
        } else {
            push_repeated(&mut name, '#', magnitude(sharps));
        }
        let steps = 7 * octaves + 4 * fifths;
        let (steps_down, _rest) = div_mod_seven(steps);
        let octave = CENTRE_OCTAVE + steps_down;
        if octave < 0 {
            push_char(&mut name, '-');
        }
        push_digits(&mut name, magnitude(octave));
        proof {
            assert(c[0] == octaves && c[1] == fifths);
            assert(name@ =~= note_text(self@, c));
        }
        name
    }


    /// Builds the notation of `subgroup` as just intonation, with an
    /// accidental for every prime beyond 3.
    ///
    /// Spelling is a bijection here: nothing is tempered out, so no two
    /// written notes are one pitch and there are no enharmonics.
    ///
    /// # Errors
    /// Returns [`Unsupported::NoAccidental`] if some prime has no accidental.
    pub fn from_ji(subgroup: &Subgroup) -> (r: Result<Notation, Error>)
        requires
            crate::accidental::fallbacks_ready(subgroup@),
        ensures
            r is Ok <==> forall|i: int| 2 <= i < subgroup@.len() ==> has_accidental(subgroup@, i),
            r matches Ok(n) ==> {
                &&& n@.mapping == identity(subgroup@.len())
                &&& n@.basis == subgroup@
                &&& n@.generators.len() == subgroup@.len()
                &&& n@.enharmonics.len() == 0
                &&& just_generators(n@.generators, subgroup@.len())
                &&& forall|k: int|
                    0 <= k < n@.symbols.len() ==> {
                        &&& #[trigger] n@.generators[k + 2] == accidental_of(subgroup@, k + 2)
                        &&& n@.symbols[k].0 as u32 as int == symbol_codes(subgroup@, k + 2).0
                        &&& n@.symbols[k].1 as u32 as int == symbol_codes(subgroup@, k + 2).1
                    }
                &&& wf_view(n@)
            },
            r matches Err(e) ==> exists|i: int|
                2 <= i < subgroup@.len() && !has_accidental(subgroup@, i) && (forall|k: int|
                    2 <= k < i ==> has_accidental(subgroup@, k)) && e == Error::Unsupported(
                    Unsupported::NoAccidental { prime: subgroup@[i] },
                ),
    {
        let accidentals = derive_accidentals(subgroup)?;
        let temperament = Temperament::from_ji(subgroup);
        let dim = subgroup.dim();
        let ghost t = temperament@;
        let ghost g = generators_of(dim as nat, accidentals@);
        proof {
            assert forall|k: int| 0 <= k < accidentals.len() implies accidental_shape(
                ints((#[trigger] accidentals@[k]).vector@),
                k + 2,
            ) && accidentals@[k].vector@.len() == dim by {
                assert(derived_at(subgroup@, accidentals@[k], k + 2));
            }
        }
        let inverse = just_inverse(&accidentals, dim);
        let enharmonics: Vec<Vec<i64>> = Vec::new();
        proof {
            assert(just_generators(g, dim as nat)) by {
                assert forall|j: int| 2 <= j < dim implies accidental_shape(#[trigger] g[j], j) by {
                    assert(g[j] == ints(accidentals@[j - 2].vector@));
                }
            }
            assert forall|k: int, i: int| 0 <= k < g.len() && 0 <= i < dim implies fits(#[trigger] g[k][i]) by {
                if k >= 2 {
                    assert(g[k] == ints(accidentals@[k - 2].vector@));
                    assert(g[k][i] == accidentals@[k - 2].vector@[i] as int);
                }
            }
            lemma_just_lattice(g, dim as nat, rows_of(inverse@));
            assert(images_fit(t, accidentals@)) by {
                assert(g[1] == fifth_vector(dim as nat));
                assert forall|k: int| 0 <= k < accidentals.len() && (#[trigger] accidentals@[k]).vector@.len() == dim
                    implies apply_fits(t.0, ints(accidentals@[k].vector@)) by {
                    assert(g[k + 2] == ints(accidentals@[k].vector@));
                }
            }
            assert(rows_of(enharmonics@) =~= Seq::<Seq<int>>::empty());
            let none = rows_of(enharmonics@);
            assert(none =~= Seq::<Seq<int>>::empty());
            assert forall|c: Seq<int>| c.len() == none.len() && #[trigger] combination(c, none, dim as nat) == zeros(
                dim as nat,
            ) implies c == zeros(none.len()) by {
                assert(c =~= zeros(none.len()));
            }
            assert forall|n: Seq<int>| n.len() == g.len() && #[trigger] kills(n, images_of(t.0, g), t.0.len()) implies in_lattice(
                n,
                none,
                g.len(),
            ) by {
                lemma_just_kernel(g, dim as nat, n);
                let c = Seq::<int>::empty();
                assert(combination(c, none, g.len()) =~= n);
            }
            assert(lattice_results(t, accidentals@, rows_option(Some(inverse)), rows_of(enharmonics@)));
        }
        proof {
            assert(pair_list(symbols_of(accidentals@)) =~= symbol_list(accidentals@));
        }
        let n = Notation::from_accidentals(&temperament, &accidentals, Some(inverse), enharmonics);
        proof {
            if n is Ok {
                let v = n->Ok_0@;
                assert forall|k: int| 0 <= k < v.symbols.len() implies #[trigger] v.generators[k + 2]
                    == accidental_of(subgroup@, k + 2) by {
                    assert(derived_at(subgroup@, accidentals@[k], k + 2));
                    assert(v.generators[k + 2] == ints(accidentals@[k].vector@));
                }
                assert forall|k: int| 0 <= k < v.symbols.len() implies (#[trigger] v.symbols[k]) == accidentals@[k].symbols by {}
                assert forall|k: int| 0 <= k < v.symbols.len() implies derived_at(subgroup@, #[trigger] accidentals@[k], k + 2) by {}
            }
        }
        n
    }


    /// The images of the generators with their degrees beside them: seven for
    /// the octave, four for the fifth, none for an accidental. Its left kernel
    /// is the written notes of neither pitch nor degree, and solving against
    /// it finds a spelling of a pitch at a given degree.
    pub fn with_degree(&self) -> (wd: Vec<Vec<i64>>)
        ensures
            rows_of(wd@) == with_degree_of(self@),
    {
        proof {
            use_type_invariant(self);
        }
        let mut wd: Vec<Vec<i64>> = Vec::new();
        let mut k: usize = 0;
        while k < self.images.len()
            invariant
                k <= self.images.len(),
                wd.len() == k,
                forall|t: int| 0 <= t < k ==> (#[trigger] rows_of(wd@)[t]) == with_degree_of(self@)[t],
            decreases self.images.len() - k,
        {
            let mut row = copy_vector(&self.images[k]);
            row.push(if k == 0 { DEGREE_OCTAVE } else if k == 1 { DEGREE_FIFTH } else { 0 });
            proof {
                assert(rows_of(self.images@)[k as int] == ints(self.images@[k as int]@));
                assert(ints(row@) =~= with_degree_of(self@)[k as int]);
            }
            let ghost before = wd@;
            wd.push(row);
            k = k + 1;
            proof {
                assert forall|t: int| 0 <= t < k implies (#[trigger] rows_of(wd@)[t]) == with_degree_of(self@)[t] by {
                    assert(rows_of(wd@)[t] == ints(wd@[t]@));
                    if t < k - 1 {
                        assert(wd@[t] == before[t]);
                        assert(rows_of(before)[t] == ints(before[t]@));
                    }
                }
            }
        }
        proof {
            assert(rows_of(wd@) =~= with_degree_of(self@));
        }
        wd
    }

    /// The cheapest way to write each prime beyond 3 on its just nominal: at
    /// the degree just intonation gives it, or `None` where `seeds` holds no
    /// spelling of its pitch at that degree.
    ///
    /// The degree is exact rather than modulo the seven nominals: a note ten
    /// sharps up an octave lower is not on the nominal, though its letter is.
    /// This asks for the prime on its letter, whatever [`spell`](Self::spell)
    /// would choose. `level` is a basis of the written notes of neither pitch
    /// nor degree; `seeds` are the solutions for each prime at its degree,
    /// `None` where the integer system has none, and `nears` the members of
    /// `level` closest to them. That `None` means no solution exists rests on
    /// whoever solved the system.
    ///
    /// # Errors
    /// Returns [`Unsupported::NoAccidental`] if some prime has no accidental,
    /// and [`Error::Overflow`] where a spelling on a nominal cannot be found
    /// and costed in 64 bits.
    pub fn nominal_spellings(
        &self,
        level: &Vec<Vec<i64>>,
        seeds: &Vec<Option<Vec<i64>>>,
        nears: &Vec<Option<Vec<i64>>>,
    ) -> (r: Result<Vec<Option<Vec<i64>>>, Error>)
        requires
            nominal_inputs(self@, rows_of(level@), seeds@, nears@),
        ensures
            r is Ok <==> (forall|i: int| 2 <= i < self@.basis.len() ==> has_accidental(self@.basis, i)) && nominals_ready(
                rows_of(level@),
                seeds@,
                nears@,
            ),
            r matches Err(e) ==> if forall|i: int| 2 <= i < self@.basis.len() ==> has_accidental(self@.basis, i) {
                e == Error::Overflow
            } else {
                exists|i: int|
                    2 <= i < self@.basis.len() && !has_accidental(self@.basis, i) && (forall|k: int|
                        2 <= k < i ==> has_accidental(self@.basis, k)) && e == Error::Unsupported(
                        Unsupported::NoAccidental { prime: self@.basis[i] },
                    )
            },
            r matches Ok(spellings) ==> spellings.len() == seeds.len() && forall|k: int|
                0 <= k < seeds.len() ==> {
                    &&& (#[trigger] spellings@[k] is Some <==> seeds@[k] is Some)
                    &&& spellings@[k] matches Some(x) ==> {
                        &&& Some(ints(x@)) == nominal_spelling_of(rows_of(level@), seeds@[k], nears@[k])
                        &&& x.len() == self@.generators.len()
                        &&& pitch_of(self@, ints(x@)) == apply(self@.mapping, unit(self@.basis.len(), k + 2))
                        &&& degree_spec(ints(x@)) == just_degree(self@.basis, k + 2)
                        &&& cost_fits(ints(x@))
                    }
                },
    {
        proof {
            use_type_invariant(self);
        }
        let _nominals = just_nominals(self.temperament.subgroup())?;
        let ghost v = self@;
        let ghost lv = rows_of(level@);
        let ghost wd = with_degree_of(v);
        let ghost trank = v.mapping.len();
        let mut spellings: Vec<Option<Vec<i64>>> = Vec::new();
        let mut k: usize = 0;
        while k < seeds.len()
            invariant
                v == self@,
                wf_view(v),
                lv == rows_of(level@),
                wd == with_degree_of(v),
                trank == v.mapping.len(),
                nominal_inputs(v, lv, seeds@, nears@),
                forall|i: int| 2 <= i < v.basis.len() ==> has_accidental(v.basis, i),
                k <= seeds.len(),
                spellings.len() == k,
                forall|t: int| 0 <= t < k ==> (#[trigger] seeds@[t] matches Some(s) ==> nominal_ready(lv, s, nears@[t])),
                forall|t: int|
                    0 <= t < k ==> {
                        &&& (#[trigger] spellings@[t] is Some <==> seeds@[t] is Some)
                        &&& spellings@[t] matches Some(x) ==> {
                            &&& Some(ints(x@)) == nominal_spelling_of(lv, seeds@[t], nears@[t])
                            &&& x.len() == v.generators.len()
                            &&& pitch_of(v, ints(x@)) == apply(v.mapping, unit(v.basis.len(), t + 2))
                            &&& degree_spec(ints(x@)) == just_degree(v.basis, t + 2)
                            &&& cost_fits(ints(x@))
                        }
                    },
            decreases seeds.len() - k,
        {
            match &seeds[k] {
                None => {
                    spellings.push(None);
                },
                Some(seed) => {
                    let near = &nears[k];
                    proof {
                        assert(seeds@[k as int] matches Some(s) && s == *seed);
                        assert(near_of(*near) == match near { Some(n) => Some(ints(n@)), None => None });
                        assert forall|i: int| 0 <= i < level.len() implies (#[trigger] level@[i]).len() == seed.len() by {
                            assert(lv[i] == ints(level@[i]@));
                        }
                    }
                    if level.len() == 0 && !crate::spelling::cost_fits_exec(seed) {
                        return Err(Error::Overflow);
                    }
                    let found = match cheapest(seed, level, RESPELL_WIDTH, 1, near) {
                        Some(found) => found,
                        None => {
                            return Err(Error::Overflow);
                        },
                    };
                    let ghost base = walk_seed(ints(seed@), near_of(*near));
                    proof {
                        if lv.len() > 0 {
                            lemma_cheapest_first(found@, base, lv, RESPELL_WIDTH as int, 1, None);
                            lemma_box_costs_fit(ints(found@[0]@), base, lv, RESPELL_WIDTH as int);
                            match near {
                                Some(n) => {
                                    lemma_combination_difference(ints(seed@), ints(n@), wd, (trank + 1) as nat);
                                },
                                None => {},
                            }
                            lemma_box_keeps_pitch(ints(found@[0]@), base, lv, RESPELL_WIDTH as int, wd, (trank + 1) as nat);
                        } else {
                            assert(ints(found@[0]@) == ints(seed@));
                        }
                        let x = ints(found@[0]@);
                        assert(combination(x, wd, (trank + 1) as nat) == nominal_target(v, k + 2));
                        lemma_with_degree_split(v, x);
                        assert(pitch_of(v, x).push(degree_spec(x)) == nominal_target(v, k + 2));
                        assert(pitch_of(v, x) =~= nominal_target(v, k + 2).drop_last());
                        assert(degree_spec(x) == nominal_target(v, k + 2).last());
                    }
                    spellings.push(Some(copy_vector(&found[0])));
                },
            }
            k = k + 1;
        }
        Ok(spellings)
    }


    /// What [`nominal_spellings`](Self::nominal_spellings) cost to read.
    ///
    /// # Errors
    /// Returns [`Unsupported::NoAccidental`] if some prime has no accidental,
    /// and [`Error::Overflow`] where a spelling cannot be found and costed in 64 bits.
    pub fn nominal_costs(
        &self,
        level: &Vec<Vec<i64>>,
        seeds: &Vec<Option<Vec<i64>>>,
        nears: &Vec<Option<Vec<i64>>>,
    ) -> (r: Result<Vec<Option<i64>>, Error>)
        requires
            nominal_inputs(self@, rows_of(level@), seeds@, nears@),
        ensures
            r is Ok <==> (forall|i: int| 2 <= i < self@.basis.len() ==> has_accidental(self@.basis, i)) && nominals_ready(
                rows_of(level@),
                seeds@,
                nears@,
            ),
            r matches Err(e) ==> if forall|i: int| 2 <= i < self@.basis.len() ==> has_accidental(self@.basis, i) {
                e == Error::Overflow
            } else {
                exists|i: int|
                    2 <= i < self@.basis.len() && !has_accidental(self@.basis, i) && (forall|k: int|
                        2 <= k < i ==> has_accidental(self@.basis, k)) && e == Error::Unsupported(
                        Unsupported::NoAccidental { prime: self@.basis[i] },
                    )
            },
            r matches Ok(costs) ==> costs.len() == seeds.len() && forall|k: int|
                0 <= k < seeds.len() ==> opt_int(#[trigger] costs@[k]) == nominal_cost_of(rows_of(level@), seeds@[k], nears@[k]),
    {
        let spellings = self.nominal_spellings(level, seeds, nears)?;
        let mut costs: Vec<Option<i64>> = Vec::new();
        let mut k: usize = 0;
        while k < spellings.len()
            invariant
                k <= spellings.len(),
                costs.len() == k,
                spellings.len() == seeds.len(),
                forall|t: int|
                    0 <= t < seeds.len() ==> {
                        &&& (#[trigger] spellings@[t] is Some <==> seeds@[t] is Some)
                        &&& spellings@[t] matches Some(x) ==> {
                            &&& Some(ints(x@)) == nominal_spelling_of(rows_of(level@), seeds@[t], nears@[t])
                            &&& cost_fits(ints(x@))
                        }
                    },
                forall|t: int| 0 <= t < k ==> opt_int(#[trigger] costs@[t]) == nominal_cost_of(rows_of(level@), seeds@[t], nears@[t]),
            decreases spellings.len() - k,
        {
            match &spellings[k] {
                None => {
                    costs.push(None);
                },
                Some(x) => {
                    let c = spelling_cost(x);
                    costs.push(Some(c));
                },
            }
            k = k + 1;
        }
        Ok(costs)
    }

    /// [`nominal_costs`](Self::nominal_costs), and how many primes fail to
    /// keep their nominals: a prime fails where it has no spelling on its
    /// nominal, or only one that costs more than both what just intonation
    /// spends on it and what this notation spends on its cheapest spelling of
    /// it. `prime_nears` are the enharmonics closest to the seeds of the
    /// primes themselves.
    ///
    /// # Errors
    /// Returns [`Unsupported::NoAccidental`] if some prime has no accidental,
    /// and [`Error::Overflow`] where a spelling cannot be found and costed in 64 bits.
    pub fn nominal_verdict(
        &self,
        level: &Vec<Vec<i64>>,
        seeds: &Vec<Option<Vec<i64>>>,
        nears: &Vec<Option<Vec<i64>>>,
        prime_nears: &Vec<Option<Vec<i64>>>,
    ) -> (r: Result<NominalVerdict, Error>)
        requires
            nominal_inputs(self@, rows_of(level@), seeds@, nears@),
            prime_inputs(self@, prime_nears@),
        ensures
            r is Ok <==> (forall|i: int| 2 <= i < self@.basis.len() ==> has_accidental(self@.basis, i)) && nominals_ready(
                rows_of(level@),
                seeds@,
                nears@,
            ) && primes_ready(self@, prime_nears@),
            r matches Err(e) ==> if forall|i: int| 2 <= i < self@.basis.len() ==> has_accidental(self@.basis, i) {
                e == Error::Overflow
            } else {
                exists|i: int|
                    2 <= i < self@.basis.len() && !has_accidental(self@.basis, i) && (forall|k: int|
                        2 <= k < i ==> has_accidental(self@.basis, k)) && e == Error::Unsupported(
                        Unsupported::NoAccidental { prime: self@.basis[i] },
                    )
            },
            r matches Ok(verdict) ==> verdict.costs.len() == seeds.len() && (forall|k: int|
                0 <= k < seeds.len() ==> opt_int(#[trigger] verdict.costs@[k]) == nominal_cost_of(
                    rows_of(level@),
                    seeds@[k],
                    nears@[k],
                )) && verdict.failures == failure_count(self@, rows_of(level@), seeds@, nears@, prime_nears@, seeds.len() as int),
    {
        proof {
            use_type_invariant(self);
        }
        let costs = self.nominal_costs(level, seeds, nears)?;
        let nominals = just_nominals(self.temperament.subgroup())?;
        let dim = self.temperament.dim();
        let ghost v = self@;
        let ghost lv = rows_of(level@);
        let m = self.temperament.mapping();
        proof {
            assert forall|i: int, j: int| 0 <= i < v.mapping.len() && 0 <= j < dim implies fits(#[trigger] v.mapping[i][j]) by {
                assert(rows_of(m@)[i] == ints(m@[i]@));
            }
        }
        let mut failures: usize = 0;
        let mut k: usize = 0;
        while k < prime_nears.len()
            invariant
                v == self@,
                wf_view(v),
                lv == rows_of(level@),
                dim == v.basis.len(),
                nominal_inputs(v, lv, seeds@, nears@),
                prime_inputs(v, prime_nears@),
                forall|i: int| 2 <= i < v.basis.len() ==> has_accidental(v.basis, i),
                nominals_ready(lv, seeds@, nears@),
                forall|t: int| 0 <= t < k ==> respell_ready(
                    v,
                    seed_of(v, unit(v.basis.len(), t + 2)),
                    RESPELL_WIDTH as int,
                    #[trigger] prime_nears@[t],
                ) && cost_fits(spelling_of(v, unit(v.basis.len(), t + 2), near_of(prime_nears@[t]))),
                forall|i: int, j: int| 0 <= i < v.mapping.len() && 0 <= j < dim ==> fits(#[trigger] v.mapping[i][j]),
                costs.len() == seeds.len(),
                forall|t: int| 0 <= t < seeds.len() ==> opt_int(#[trigger] costs@[t]) == nominal_cost_of(lv, seeds@[t], nears@[t]),
                nominals.len() + 2 == dim,
                forall|i: int|
                    0 <= i < nominals.len() ==> (#[trigger] nominals@[i]).cost == cost(
                        just_spelling(accidental_of(v.basis, i + 2), i + 2),
                    ),
                k <= prime_nears.len(),
                failures <= k,
                failures == failure_count(v, lv, seeds@, nears@, prime_nears@, k as int),
            decreases prime_nears.len() - k,
        {
            let prime = unit_vector(dim, k + 2);
            proof {
                lemma_unit_apply_fits(v.mapping, dim as nat, k + 2);
                assert(combination_fits(apply(v.mapping, unit(dim as nat, k + 2)), v.inverse, v.generators.len()));
                assert(respell_fits(v, seed_of(v, unit(dim as nat, k + 2)), RESPELL_WIDTH as int, prime_nears@[k as int]));
            }
            let spelled = match self.spell(&prime, &prime_nears[k]) {
                Ok(s) => s,
                Err(e) => {
                    return Err(e);
                },
            };
            if !crate::spelling::cost_fits_exec(&spelled) {
                return Err(Error::Overflow);
            }
            let best = spelling_cost(&spelled);
            let just = nominals[k].cost;
            let fails = match costs[k] {
                None => true,
                Some(c) => c > if best > just { best } else { just },
            };
            proof {
                assert(just == just_cost(v.basis, k + 2));
                assert(best == cost(spelling_of(v, unit(dim as nat, k + 2), near_of(prime_nears@[k as int]))));
                assert(opt_int(costs@[k as int]) == nominal_cost_of(lv, seeds@[k as int], nears@[k as int]));
                assert(fails == fails_at(v, lv, seeds@, nears@, prime_nears@, k as int));
            }
            if fails {
                failures = failures + 1;
            }
            k = k + 1;
        }
        Ok(NominalVerdict { costs, failures })
    }

    /// Whether every prime beyond 3 can be written on the nominal just
    /// intonation gives it, at a cost no worse than either just intonation
    /// spends on it or this notation spends on its cheapest spelling of it.
    ///
    /// # Errors
    /// Returns [`Unsupported::NoAccidental`] if some prime has no accidental,
    /// and [`Error::Overflow`] where a spelling cannot be found and costed in 64 bits.
    pub fn keeps_nominals(
        &self,
        level: &Vec<Vec<i64>>,
        seeds: &Vec<Option<Vec<i64>>>,
        nears: &Vec<Option<Vec<i64>>>,
        prime_nears: &Vec<Option<Vec<i64>>>,
    ) -> (r: Result<bool, Error>)
        requires
            nominal_inputs(self@, rows_of(level@), seeds@, nears@),
            prime_inputs(self@, prime_nears@),
        ensures
            r is Ok <==> (forall|i: int| 2 <= i < self@.basis.len() ==> has_accidental(self@.basis, i)) && nominals_ready(
                rows_of(level@),
                seeds@,
                nears@,
            ) && primes_ready(self@, prime_nears@),
            r matches Err(e) ==> if forall|i: int| 2 <= i < self@.basis.len() ==> has_accidental(self@.basis, i) {
                e == Error::Overflow
            } else {
                exists|i: int|
                    2 <= i < self@.basis.len() && !has_accidental(self@.basis, i) && (forall|k: int|
                        2 <= k < i ==> has_accidental(self@.basis, k)) && e == Error::Unsupported(
                        Unsupported::NoAccidental { prime: self@.basis[i] },
                    )
            },
            r matches Ok(b) ==> b == (failure_count(self@, rows_of(level@), seeds@, nears@, prime_nears@, seeds.len() as int) == 0),
            r matches Ok(b) ==> (b <==> forall|k: int|
                0 <= k < seeds.len() ==> #[trigger] keeps_nominal_at(self@, rows_of(level@), seeds@, nears@, prime_nears@, k)),
    {
        let verdict = self.nominal_verdict(level, seeds, nears, prime_nears)?;
        proof {
            lemma_failure_count_zero(self@, rows_of(level@), seeds@, nears@, prime_nears@, seeds.len() as int);
            assert forall|k: int| 0 <= k < seeds.len() implies #[trigger] keeps_nominal_at(
                self@,
                rows_of(level@),
                seeds@,
                nears@,
                prime_nears@,
                k,
            ) == !fails_at(self@, rows_of(level@), seeds@, nears@, prime_nears@, k) by {}
            let lv = rows_of(level@);
            if verdict.failures == 0 {
                assert forall|k: int| 0 <= k < seeds.len() implies #[trigger] keeps_nominal_at(
                    self@,
                    lv,
                    seeds@,
                    nears@,
                    prime_nears@,
                    k,
                ) by {
                    assert(!fails_at(self@, lv, seeds@, nears@, prime_nears@, k));
                }
            } else {
                let k = choose|k: int| 0 <= k < seeds.len() && #[trigger] fails_at(self@, lv, seeds@, nears@, prime_nears@, k);
                assert(!keeps_nominal_at(self@, lv, seeds@, nears@, prime_nears@, k));
            }
        }
        Ok(verdict.failures == 0)
    }

}

} // verus!
