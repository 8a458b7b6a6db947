//! Accidentals: one small interval per prime beyond 3, derived from the
//! subgroup, with the symbols that print it.

use vstd::prelude::*;

use crate::error::{Error, Unsupported};
use crate::spelling::{abs, cost, degree_spec, COST_FIFTH, COST_MARK, DEGREE_FIFTH, DEGREE_OCTAVE, NOMINAL_CENTRE};
use crate::subgroup::{
    denominator, down_part, lemma_power_positive, numerator, power, up_part, valid_basis, Subgroup,
};
use crate::vector::{ints, neg};

verus! {

/// How far up and down the fifth chain to look for an accidental.
pub const MAX_FIFTH_OFFSET: i64 = 12;

/// The offsets along the fifth chain in the order they are tried:
/// `0, 1, -1, 2, -2, ..`.
pub open spec fn offset_at(j: int) -> int {
    if j == 0 {
        0
    } else if j % 2 == 1 {
        (j + 1) / 2
    } else {
        -(j / 2)
    }
}

/// The number of offsets tried: `0` and then `1..=12` each way.
pub open spec fn offset_count() -> int {
    2 * MAX_FIFTH_OFFSET + 1
}

/// The prime at `index` shifted by `offset` fifths and `octaves` octaves, as
/// an interval vector of length `dim`.
pub open spec fn candidate(dim: nat, index: int, offset: int, octaves: int) -> Seq<int> {
    Seq::new(dim, |i: int| if i == 0 { octaves } else if i == 1 { offset } else if i == index { 1int } else { 0int })
}

/// Whether a ratio `n / d` lies strictly within half an octave of unison.
pub open spec fn half_octave(n: int, d: int) -> bool {
    2 * n * n > d * d && 2 * d * d > n * n
}

/// Whether a ratio `n / d` lies strictly within half an apotome of unison:
/// its square lies strictly between `2048/2187` and `2187/2048`. That is
/// `MAX_ACCIDENTAL_CENTS`, `1200 * log2(sqrt(2187/2048))`, about 56.8 cents.
pub open spec fn half_apotome(n: int, d: int) -> bool {
    2048 * n * n < 2187 * d * d && 2048 * d * d < 2187 * n * n
}

/// `v`, turned round if it is a descending interval.
pub open spec fn ascending_spec(v: Seq<int>, basis: Seq<u32>) -> Seq<int> {
    if numerator(v, basis) < denominator(v, basis) {
        neg(v)
    } else {
        v
    }
}

/// Whether the candidate at offset position `j` reduced by `octaves` octaves
/// is the accidental of the prime at `index`: it lies within half an octave,
/// within half an apotome, and no earlier offset gives anything that does.
pub open spec fn first_fit(basis: Seq<u32>, index: int, j: int, octaves: int) -> bool {
    let c = candidate(basis.len(), index, offset_at(j), octaves);
    &&& 0 <= j < offset_count()
    &&& half_octave(numerator(c, basis), denominator(c, basis))
    &&& half_apotome(numerator(c, basis), denominator(c, basis))
    &&& forall|j2: int, x2: int|
        0 <= j2 < j ==> {
            let c2 = #[trigger] candidate(basis.len(), index, offset_at(j2), x2);
            half_octave(numerator(c2, basis), denominator(c2, basis)) ==> !half_apotome(
                numerator(c2, basis),
                denominator(c2, basis),
            )
        }
}

/// Whether the prime at `index` has an accidental.
pub open spec fn has_accidental(basis: Seq<u32>, index: int) -> bool {
    exists|j: int, x: int| first_fit(basis, index, j, x)
}

/// The accidental of the prime at `index`: the first offset along the fifth
/// chain, `0, 1, -1, 2, -2, .. 12, -12`, that octave-reduced lands within half
/// an apotome of unison, as an ascending interval.
pub open spec fn accidental_of(basis: Seq<u32>, index: int) -> Seq<int> {
    let (j, x) = choose|j: int, x: int| first_fit(basis, index, j, x);
    ascending_spec(candidate(basis.len(), index, offset_at(j), x), basis)
}

/// The shape every derived accidental has: a stretch of octaves and of the
/// fifth chain, and one step of its own prime either way.
pub open spec fn accidental_shape(a: Seq<int>, index: int) -> bool {
    &&& 2 <= index < a.len()
    &&& -0x40_0000_0000_0000 <= a[0] <= 0x40_0000_0000_0000
    &&& -MAX_FIFTH_OFFSET <= a[1] <= MAX_FIFTH_OFFSET
    &&& a[index] == 1 || a[index] == -1
    &&& forall|i: int| 2 <= i < a.len() && i != index ==> a[i] == 0
}

/// The numerator of a candidate before octave reduction: the prime and any
/// threes it is shifted up by.
pub open spec fn base_up(p: int, offset: int) -> int {
    p * power(3, if offset > 0 { offset as nat } else { 0 })
}

/// The denominator of a candidate before octave reduction: any threes it is
/// shifted down by.
pub open spec fn base_down(offset: int) -> int {
    power(3, if offset < 0 { (-offset) as nat } else { 0 })
}

/// `n` raised by `x` octaves where `x` is positive.
pub open spec fn scale_up(n: int, x: int) -> int {
    n * power(2, if x > 0 { x as nat } else { 0 })
}

/// `d` raised by `-x` octaves where `x` is negative.
pub open spec fn scale_down(d: int, x: int) -> int {
    d * power(2, if x < 0 { (-x) as nat } else { 0 })
}

proof fn lemma_parts_zeros(v: Seq<int>, basis: Seq<u32>, a: int, k: int)
    requires
        0 <= a <= k <= v.len(),
        k <= basis.len(),
        forall|i: int| a <= i < k ==> v[i] == 0,
    ensures
        up_part(v, basis, k) == up_part(v, basis, a),
        down_part(v, basis, k) == down_part(v, basis, a),
    decreases k,
{
    if a < k {
        lemma_parts_zeros(v, basis, a, k - 1);
        assert(power(basis[k - 1] as int, 0) == 1);
    }
}

/// The numerator and denominator of a candidate.
proof fn lemma_candidate_ratio(basis: Seq<u32>, index: int, offset: int, x: int)
    requires
        valid_basis(basis),
        2 <= index < basis.len(),
    ensures
        numerator(candidate(basis.len(), index, offset, x), basis) == scale_up(base_up(basis[index] as int, offset), x),
        denominator(candidate(basis.len(), index, offset, x), basis) == scale_down(base_down(offset), x),
{
    let c = candidate(basis.len(), index, offset, x);
    let n = basis.len() as int;
    lemma_parts_zeros(c, basis, index + 1, n);
    lemma_parts_zeros(c, basis, 2, index);
    assert(power(basis[index] as int, 1) == basis[index] as int) by {
        assert(power(basis[index] as int, 0) == 1);
    }
    assert(power(basis[index] as int, 0) == 1);
    assert(c[0] == x && c[1] == offset && c[index] == 1);
    let e2u: nat = if x > 0 { x as nat } else { 0 };
    let e3u: nat = if offset > 0 { offset as nat } else { 0 };
    assert(up_part(c, basis, 2) == power(2, e2u) * power(3, e3u)) by {
        assert(up_part(c, basis, 0) == 1);
        assert(up_part(c, basis, 1) == 1 * power(2, e2u));
    }
    assert(up_part(c, basis, index + 1) == up_part(c, basis, index) * basis[index] as int);
    let p = basis[index] as int;
    assert(power(2, e2u) * power(3, e3u) * p == p * power(3, e3u) * power(2, e2u)) by (nonlinear_arith);
    let e2d: nat = if x < 0 { (-x) as nat } else { 0 };
    let e3d: nat = if offset < 0 { (-offset) as nat } else { 0 };
    assert(down_part(c, basis, 2) == power(2, e2d) * power(3, e3d)) by {
        assert(down_part(c, basis, 0) == 1);
        assert(down_part(c, basis, 1) == 1 * power(2, e2d));
    }
    assert(down_part(c, basis, index + 1) == down_part(c, basis, index) * 1);
    assert(power(2, e2d) * power(3, e3d) == power(3, e3d) * power(2, e2d)) by (nonlinear_arith);
}

/// There is no square root of two among the rationals.
proof fn lemma_no_sqrt2(n: int, d: int)
    requires
        n >= 1,
        d >= 0,
    ensures
        d * d != 2 * n * n,
    decreases n,
{
    if d * d == 2 * n * n {
        let m = d / 2;
        let r = d % 2;
        assert(d == 2 * m + r && 0 <= r < 2);
        if r == 1 {
            assert(d * d == 4 * m * m + 4 * m + 1) by (nonlinear_arith)
                requires d == 2 * m + 1;
            let t = n * n - 2 * m * m - 2 * m;
            assert(1 == 2 * t) by (nonlinear_arith)
                requires d * d == 4 * m * m + 4 * m + 1, d * d == 2 * n * n, t == n * n - 2 * m * m - 2 * m;
        } else {
            assert(n * n == 2 * m * m) by (nonlinear_arith)
                requires d == 2 * m, d * d == 2 * n * n;
            assert(m >= 1 && m < n) by (nonlinear_arith)
                requires n * n == 2 * m * m, n >= 1, m >= 0;
            lemma_no_sqrt2(m, n);
        }
    }
}

/// Moving up an octave doubles the numerator, or halves the denominator.
proof fn lemma_octave_step(n0: int, d0: int, y: int)
    requires
        n0 >= 1,
        d0 >= 1,
    ensures
        (y >= 0 && scale_up(n0, y + 1) == 2 * scale_up(n0, y) && scale_down(d0, y + 1) == scale_down(d0, y))
            || (y < 0 && scale_up(n0, y + 1) == scale_up(n0, y) && scale_down(d0, y) == 2 * scale_down(d0, y + 1)),
        scale_up(n0, y) >= 1,
        scale_down(d0, y) >= 1,
{
    let eu: nat = if y > 0 { y as nat } else { 0 };
    let ed: nat = if y < 0 { (-y) as nat } else { 0 };
    lemma_power_positive(2, eu);
    lemma_power_positive(2, ed);
    assert(scale_up(n0, y) >= 1) by (nonlinear_arith)
        requires scale_up(n0, y) == n0 * power(2, eu), n0 >= 1, power(2, eu) >= 1;
    assert(scale_down(d0, y) >= 1) by (nonlinear_arith)
        requires scale_down(d0, y) == d0 * power(2, ed), d0 >= 1, power(2, ed) >= 1;
    if y >= 0 {
        assert(power(2, (eu + 1) as nat) == 2 * power(2, eu));
        assert(n0 * power(2, (eu + 1) as nat) == 2 * (n0 * power(2, eu))) by (nonlinear_arith)
            requires power(2, (eu + 1) as nat) == 2 * power(2, eu);
    } else {
        let e1: nat = (-(y + 1)) as nat;
        assert(ed == e1 + 1);
        assert(power(2, ed) == 2 * power(2, e1));
        assert(d0 * power(2, ed) == 2 * (d0 * power(2, e1))) by (nonlinear_arith)
            requires power(2, ed) == 2 * power(2, e1);
    }
}

/// Above an octave reduction that lands within half an octave, every higher
/// one is more than half an octave up.
proof fn lemma_above_half_octave(n0: int, d0: int, x: int, y: int)
    requires
        n0 >= 1,
        d0 >= 1,
        x < y,
        2 * scale_up(n0, x) * scale_up(n0, x) > scale_down(d0, x) * scale_down(d0, x),
    ensures
        scale_up(n0, y) * scale_up(n0, y) > 2 * scale_down(d0, y) * scale_down(d0, y),
    decreases y - x,
{
    lemma_octave_step(n0, d0, y - 1);
    let n = scale_up(n0, y - 1);
    let d = scale_down(d0, y - 1);
    let n1 = scale_up(n0, y);
    let d1 = scale_down(d0, y);
    if y - 1 == x {
        if y - 1 >= 0 {
            assert(n1 * n1 > 2 * d1 * d1) by (nonlinear_arith)
                requires n1 == 2 * n, d1 == d, 2 * n * n > d * d;
        } else {
            assert(n1 * n1 > 2 * d1 * d1) by (nonlinear_arith)
                requires n1 == n, d == 2 * d1, 2 * n * n > d * d;
        }
    } else {
        lemma_above_half_octave(n0, d0, x, y - 1);
        if y - 1 >= 0 {
            assert(n1 * n1 > 2 * d1 * d1) by (nonlinear_arith)
                requires n1 == 2 * n, d1 == d, n * n > 2 * d * d, d >= 1;
        } else {
            assert(n1 * n1 > 2 * d1 * d1) by (nonlinear_arith)
                requires n1 == n, d == 2 * d1, n * n > 2 * d * d, d1 >= 1;
        }
    }
}

/// Below an octave reduction that lands within half an octave, every lower
/// one is more than half an octave down.
proof fn lemma_below_half_octave(n0: int, d0: int, x: int, y: int)
    requires
        n0 >= 1,
        d0 >= 1,
        y < x,
        2 * scale_down(d0, x) * scale_down(d0, x) > scale_up(n0, x) * scale_up(n0, x),
    ensures
        scale_down(d0, y) * scale_down(d0, y) > 2 * scale_up(n0, y) * scale_up(n0, y),
    decreases x - y,
{
    lemma_octave_step(n0, d0, y);
    let n = scale_up(n0, y);
    let d = scale_down(d0, y);
    let n1 = scale_up(n0, y + 1);
    let d1 = scale_down(d0, y + 1);
    if y + 1 == x {
        if y >= 0 {
            assert(d * d > 2 * n * n) by (nonlinear_arith)
                requires n1 == 2 * n, d1 == d, 2 * d1 * d1 > n1 * n1;
        } else {
            assert(d * d > 2 * n * n) by (nonlinear_arith)
                requires n1 == n, d == 2 * d1, 2 * d1 * d1 > n1 * n1;
        }
    } else {
        lemma_below_half_octave(n0, d0, x, y + 1);
        if y >= 0 {
            assert(d * d > 2 * n * n) by (nonlinear_arith)
                requires n1 == 2 * n, d1 == d, d1 * d1 > 2 * n1 * n1, n >= 1;
        } else {
            assert(d * d > 2 * n * n) by (nonlinear_arith)
                requires n1 == n, d == 2 * d1, d1 * d1 > 2 * n1 * n1, n >= 1;
        }
    }
}

/// Exactly one octave reduction lands within half an octave.
pub proof fn lemma_half_octave_unique(n0: int, d0: int, x: int, y: int)
    requires
        n0 >= 1,
        d0 >= 1,
        half_octave(scale_up(n0, x), scale_down(d0, x)),
        half_octave(scale_up(n0, y), scale_down(d0, y)),
    ensures
        x == y,
{
    if x < y {
        lemma_above_half_octave(n0, d0, x, y);
    } else if y < x {
        lemma_below_half_octave(n0, d0, x, y);
    }
}

proof fn lemma_power_exceeds(k: nat)
    ensures
        power(2, k) >= k + 1,
    decreases k,
{
    if k > 0 {
        lemma_power_exceeds((k - 1) as nat);
    }
}

/// Whether `n * n >= 2 * d * d`: `n / d` is at least half an octave up.
fn at_least_half_octave_up(n: u128, d: u128) -> (r: bool)
    requires
        n < 0x40_0000_0000_0000,
        d < 0x40_0000_0000_0000,
    ensures
        r == (n * n >= 2 * d * d),
{
    assert(n * n < 0x1_0000_0000_0000_0000_0000_0000_0000) by (nonlinear_arith)
        requires n < 0x40_0000_0000_0000;
    assert(d * d < 0x1_0000_0000_0000_0000_0000_0000_0000) by (nonlinear_arith)
        requires d < 0x40_0000_0000_0000;
    let nn = n * n;
    let dd = d * d;
    assert(2 * d * d == 2 * dd) by (nonlinear_arith)
        requires dd == d * d;
    nn >= 2 * dd
}

/// Whether `n / d` lies within half an apotome of unison.
fn within_half_apotome(n: u128, d: u128) -> (r: bool)
    requires
        n < 0x40_0000_0000_0000,
        d < 0x40_0000_0000_0000,
    ensures
        r == half_apotome(n as int, d as int),
{
    assert(n * n < 0x1_0000_0000_0000_0000_0000_0000_0000) by (nonlinear_arith)
        requires n < 0x40_0000_0000_0000;
    assert(d * d < 0x1_0000_0000_0000_0000_0000_0000_0000) by (nonlinear_arith)
        requires d < 0x40_0000_0000_0000;
    let nn = n * n;
    let dd = d * d;
    assert(2048 * n * n == 2048 * nn && 2187 * d * d == 2187 * dd && 2048 * d * d == 2048 * dd
        && 2187 * n * n == 2187 * nn) by (nonlinear_arith)
        requires nn == n * n, dd == d * d;
    2048 * nn < 2187 * dd && 2048 * dd < 2187 * nn
}

/// Reduces `n0 / d0` by octaves until it lies within half an octave of
/// unison, returning the reduced numerator and denominator and how many
/// octaves up that took.
fn reduce_by_octaves(n0: u128, d0: u128) -> (r: (u128, u128, i64))
    requires
        1 <= n0 < 0x10_0000_0000_0000,
        1 <= d0 < 0x10_0000_0000_0000,
    ensures
        r.0 == scale_up(n0 as int, r.2 as int),
        r.1 == scale_down(d0 as int, r.2 as int),
        half_octave(r.0 as int, r.1 as int),
        r.0 < 0x40_0000_0000_0000,
        r.1 < 0x40_0000_0000_0000,
        -0x40_0000_0000_0000 <= r.2 <= 0x40_0000_0000_0000,
{
    let mut n: u128 = n0;
    let mut d: u128 = d0;
    let mut x: i64 = 0;
    proof {
        assert(power(2, 0) == 1);
    }
    while at_least_half_octave_up(n, d)
        invariant
            1 <= n0 < 0x10_0000_0000_0000,
            1 <= d0 < 0x10_0000_0000_0000,
            -0x40_0000_0000_0000 <= x <= 0,
            n == n0,
            n == scale_up(n0 as int, x as int),
            d == scale_down(d0 as int, x as int),
            1 <= d < 0x20_0000_0000_0000,
            -x < d,
            x < 0 ==> d * d < 2 * n * n,
        decreases if d < 2 * n0 { 2 * n0 - d } else { 0 },
    {
        proof {
            lemma_octave_step(n0 as int, d0 as int, x - 1);
            assert(d < n) by (nonlinear_arith)
                requires n * n >= 2 * d * d, d >= 1, n >= 1;
            lemma_no_sqrt2(n as int, (2 * d) as int);
            assert((2 * d) * (2 * d) < 2 * n * n) by (nonlinear_arith)
                requires n * n >= 2 * d * d, (2 * d) * (2 * d) != 2 * n * n;
        }
        d = 2 * d;
        x = x - 1;
    }
    while at_least_half_octave_up(d, n)
        invariant
            1 <= n0 < 0x10_0000_0000_0000,
            1 <= d0 < 0x10_0000_0000_0000,
            -0x40_0000_0000_0000 <= x <= 0x40_0000_0000_0000,
            n == scale_up(n0 as int, x as int),
            d == scale_down(d0 as int, x as int),
            1 <= d < 0x20_0000_0000_0000,
            1 <= n < 0x40_0000_0000_0000,
            x >= 0 ==> x < n,
            n * n < 2 * d * d,
            x < 0 ==> d * d < 2 * n * n,
        decreases if n < 2 * d { 2 * d - n } else { 0 },
    {
        proof {
            lemma_octave_step(n0 as int, d0 as int, x as int);
            assert(n < d) by (nonlinear_arith)
                requires d * d >= 2 * n * n, d >= 1, n >= 1;
            lemma_no_sqrt2(n as int, d as int);
            assert((2 * n) * (2 * n) < 2 * d * d) by (nonlinear_arith)
                requires d * d >= 2 * n * n, d * d != 2 * n * n;
        }
        n = 2 * n;
        x = x + 1;
    }
    (n, d, x)
}

/// The offset at position `j` of the order `0, 1, -1, 2, -2, ..`.
fn offset_of(j: i64) -> (r: i64)
    requires
        0 <= j < 25,
    ensures
        r == offset_at(j as int),
        -12 <= r <= 12,
{
    if j == 0 {
        0
    } else if j % 2 == 1 {
        (j + 1) / 2
    } else {
        -(j / 2)
    }
}

proof fn lemma_power_three_twelve()
    ensures
        power(3, 12) == 531441,
{
    reveal_with_fuel(power, 13);
}

/// `3` to the power `e`.
fn power_of_three(e: i64) -> (r: u128)
    requires
        0 <= e <= 12,
    ensures
        r == power(3, e as nat),
        1 <= r <= 531441,
{
    let mut r: u128 = 1;
    let mut k: i64 = 0;
    proof {
        lemma_power_three_twelve();
    }
    while k < e
        invariant
            0 <= k <= e <= 12,
            r == power(3, k as nat),
            power(3, 12) == 531441,
        decreases e - k,
    {
        proof {
            crate::subgroup::lemma_power_monotone(3, (k + 1) as nat, 12);
        }
        r = r * 3;
        k = k + 1;
    }
    proof {
        crate::subgroup::lemma_power_monotone(3, k as nat, 12);
        lemma_power_positive(3, k as nat);
    }
    r
}

/// Finds the accidental of the prime at `index`: the position of its offset
/// in the order tried and its octave reduction.
fn find_accidental(subgroup: &Subgroup, index: usize) -> (r: Option<(i64, i64, bool)>)
    requires
        2 <= index < subgroup@.len(),
    ensures
        r is Some <==> has_accidental(subgroup@, index as int),
        r matches Some(t) ==> first_fit(subgroup@, index as int, t.0 as int, t.1 as int)
            && -0x40_0000_0000_0000 <= t.1 <= 0x40_0000_0000_0000 && 0 <= t.0 < 25
            && t.2 == (numerator(candidate(subgroup@.len(), index as int, offset_at(t.0 as int), t.1 as int), subgroup@)
                < denominator(candidate(subgroup@.len(), index as int, offset_at(t.0 as int), t.1 as int), subgroup@)),
{
    let basis = subgroup.basis();
    let p = basis[index];
    let ghost b = subgroup@;
    let mut j: i64 = 0;
    while j < 25
        invariant
            b == subgroup@,
            valid_basis(b),
            2 <= index < b.len(),
            p == b[index as int],
            0 <= j <= 25,
            forall|j2: int, x2: int|
                0 <= j2 < j ==> {
                    let c2 = #[trigger] candidate(b.len(), index as int, offset_at(j2), x2);
                    half_octave(numerator(c2, b), denominator(c2, b)) ==> !half_apotome(numerator(c2, b), denominator(c2, b))
                },
        decreases 25 - j,
    {
        let offset = offset_of(j);
        let up_threes = if offset > 0 { power_of_three(offset) } else { 1 };
        let down_threes = if offset < 0 { power_of_three(0 - offset) } else { 1 };
        proof {
            assert(power(3, 0) == 1);
            assert(up_threes == power(3, if offset > 0 { offset as nat } else { 0 }));
            assert(down_threes == base_down(offset as int));
            assert(p >= 1) by {
                assert(crate::subgroup::is_prime(b[index as int] as int));
            }
            assert(1 <= (p as u128) * up_threes < 0x10_0000_0000_0000) by (nonlinear_arith)
                requires p <= u32::MAX, 1 <= up_threes <= 531441, p >= 1;
        }
        let n0: u128 = (p as u128) * up_threes;
        let (n, d, x) = reduce_by_octaves(n0, down_threes);
        let ghost c = candidate(b.len(), index as int, offset as int, x as int);
        proof {
            lemma_candidate_ratio(b, index as int, offset as int, x as int);
            assert(n0 == base_up(p as int, offset as int));
        }
        if within_half_apotome(n, d) {
            proof {
                assert forall|j2: int, x2: int| 0 <= j2 < j implies {
                    let c2 = #[trigger] candidate(b.len(), index as int, offset_at(j2), x2);
                    half_octave(numerator(c2, b), denominator(c2, b)) ==> !half_apotome(numerator(c2, b), denominator(c2, b))
                } by {}
                assert(first_fit(b, index as int, j as int, x as int));
            }
            return Some((j, x, n < d));
        }
        proof {
            assert forall|j2: int, x2: int| 0 <= j2 < j + 1 implies {
                let c2 = #[trigger] candidate(b.len(), index as int, offset_at(j2), x2);
                half_octave(numerator(c2, b), denominator(c2, b)) ==> !half_apotome(numerator(c2, b), denominator(c2, b))
            } by {
                if j2 == j {
                    let c2 = candidate(b.len(), index as int, offset_at(j2), x2);
                    if half_octave(numerator(c2, b), denominator(c2, b)) {
                        lemma_candidate_ratio(b, index as int, offset as int, x2);
                        lemma_half_octave_unique(n0 as int, down_threes as int, x as int, x2);
                    }
                }
            }
        }
        j = j + 1;
    }
    proof {
        assert forall|j: int, x: int| !first_fit(b, index as int, j, x) by {
            if first_fit(b, index as int, j, x) {
                let c = candidate(b.len(), index as int, offset_at(j), x);
                assert(half_octave(numerator(c, b), denominator(c, b)));
            }
        }
    }
    None
}

/// `first_fit` pins down both the offset and the octave reduction.
proof fn lemma_first_fit_unique(basis: Seq<u32>, index: int, j: int, x: int, j2: int, x2: int)
    requires
        valid_basis(basis),
        2 <= index < basis.len(),
        first_fit(basis, index, j, x),
        first_fit(basis, index, j2, x2),
    ensures
        j == j2,
        x == x2,
{
    if j < j2 {
        let c = candidate(basis.len(), index, offset_at(j), x);
        assert(half_octave(numerator(c, basis), denominator(c, basis)));
    } else if j2 < j {
        let c = candidate(basis.len(), index, offset_at(j2), x2);
        assert(half_octave(numerator(c, basis), denominator(c, basis)));
    } else {
        let offset = offset_at(j);
        lemma_candidate_ratio(basis, index, offset, x);
        lemma_candidate_ratio(basis, index, offset, x2);
        let p = basis[index] as int;
        assert(crate::subgroup::is_prime(p));
        let eu: nat = if offset > 0 { offset as nat } else { 0 };
        let ed: nat = if offset < 0 { (-offset) as nat } else { 0 };
        lemma_power_positive(3, eu);
        lemma_power_positive(3, ed);
        assert(base_up(p, offset) >= 1) by (nonlinear_arith)
            requires base_up(p, offset) == p * power(3, eu), p >= 2, power(3, eu) >= 1;
        lemma_half_octave_unique(base_up(p, offset), base_down(offset), x, x2);
    }
}

/// Chooses the accidental for the prime at `index` of `subgroup`: the smallest
/// detour along the fifth chain that lands within half an apotome of the
/// prime.
///
/// The candidates are the prime shifted by `0, 1, -1, 2, -2, ..` fifths, up to
/// twelve each way, each reduced by octaves to within half an octave of
/// unison. The first one small enough wins, returned as an ascending interval.
/// This gives `81/80` for 5, `64/63` for 7 and `33/32` for 11.
///
/// # Errors
/// Returns [`Unsupported::NoAccidental`] if no offset gives a small enough
/// interval.
pub fn derive_accidental_vector(subgroup: &Subgroup, index: usize) -> (r: Result<Vec<i64>, Error>)
    requires
        2 <= index < subgroup@.len(),
    ensures
        r is Ok <==> has_accidental(subgroup@, index as int),
        r matches Ok(a) ==> ints(a@) == accidental_of(subgroup@, index as int) && accidental_shape(ints(a@), index as int)
            && a.len() == subgroup@.len(),
        r matches Err(e) ==> e == Error::Unsupported(Unsupported::NoAccidental { prime: subgroup@[index as int] }),
{
    let dim = subgroup.dim();
    match find_accidental(subgroup, index) {
        None => Err(Error::Unsupported(Unsupported::NoAccidental { prime: subgroup.basis()[index] })),
        Some((j, x, descending)) => {
            let offset = offset_of(j);
            let mut v: Vec<i64> = Vec::new();
            let mut i: usize = 0;
            let ghost c = candidate(dim as nat, index as int, offset as int, x as int);
            while i < dim
                invariant
                    i <= dim,
                    v.len() == i,
                    -0x40_0000_0000_0000 <= x <= 0x40_0000_0000_0000,
                    -12 <= offset <= 12,
                    c == candidate(dim as nat, index as int, offset as int, x as int),
                    forall|t: int| 0 <= t < i ==> v@[t] as int == if descending { -c[t] } else { c[t] },
                decreases dim - i,
            {
                let entry: i64 = if i == 0 {
                    x
                } else if i == 1 {
                    offset
                } else if i == index {
                    1
                } else {
                    0
                };
                v.push(if descending { 0 - entry } else { entry });
                i = i + 1;
            }
            proof {
                let b = subgroup@;
                let (j0, x0) = choose|j0: int, x0: int| first_fit(b, index as int, j0, x0);
                lemma_first_fit_unique(b, index as int, j as int, x as int, j0, x0);
                if descending {
                    assert(ints(v@) =~= neg(c));
                } else {
                    assert(ints(v@) =~= c);
                }
            }
            Ok(v)
        },
    }
}


/// An accidental, raising or lowering a note by a small interval.
#[derive(Debug)]
pub struct Accidental {
    /// The interval vector of the accidental.
    pub vector: Vec<i64>,
    /// The raising and lowering symbols.
    pub symbols: (char, char),
}

/// A copy of `v`.
pub fn copy_vector(v: &Vec<i64>) -> (r: Vec<i64>)
    ensures
        r@ == v@,
{
    let mut r: Vec<i64> = Vec::new();
    let mut i: usize = 0;
    while i < v.len()
        invariant
            i <= v.len(),
            r@ == v@.subrange(0, i as int),
        decreases v.len() - i,
    {
        r.push(v[i]);
        i = i + 1;
        assert(r@ =~= v@.subrange(0, i as int));
    }
    assert(r@ =~= v@);
    r
}

impl Clone for Accidental {
    fn clone(&self) -> (c: Self)
        ensures
            c.vector@ == self.vector@,
            c.symbols == self.symbols,
    {
        Accidental { vector: copy_vector(&self.vector), symbols: self.symbols }
    }
}

/// Turning an interval round swaps its numerator and denominator.
proof fn lemma_neg_parts(v: Seq<int>, basis: Seq<u32>, k: int)
    requires
        k <= v.len(),
    ensures
        up_part(neg(v), basis, k) == down_part(v, basis, k),
        down_part(neg(v), basis, k) == up_part(v, basis, k),
    decreases k,
{
    if k > 0 {
        lemma_neg_parts(v, basis, k - 1);
        assert(neg(v)[k - 1] == -v[k - 1]);
    }
}

/// Every derived accidental is small and ascending: its ratio lies within
/// half an apotome of unison, and its numerator is at least its denominator.
pub proof fn lemma_accidental_small_and_ascending(basis: Seq<u32>, index: int)
    requires
        2 <= index < basis.len(),
        has_accidental(basis, index),
    ensures
        half_apotome(numerator(accidental_of(basis, index), basis), denominator(accidental_of(basis, index), basis)),
        numerator(accidental_of(basis, index), basis) >= denominator(accidental_of(basis, index), basis),
{
    let (j, x) = choose|j: int, x: int| first_fit(basis, index, j, x);
    let c = candidate(basis.len(), index, offset_at(j), x);
    let n = numerator(c, basis);
    let d = denominator(c, basis);
    assert(half_apotome(n, d));
    if n < d {
        lemma_neg_parts(c, basis, c.len() as int);
        assert(accidental_of(basis, index) == neg(c));
        assert(neg(c).len() == c.len());
        assert(half_apotome(d, n));
    }
}

/// The raising and lowering symbols a prime has of its own. These exist only
/// so that notes can be printed legibly; real microtonal accidentals are not
/// in unicode.
pub open spec fn prime_symbols(p: u32) -> Option<(char, char)> {
    if p == 5 {
        Some(('^', 'v'))
    } else if p == 7 {
        Some(('>', '<'))
    } else if p == 11 {
        Some(('t', 'd'))
    } else if p == 13 {
        Some(('*', '%'))
    } else if p == 17 {
        Some(('/', '\\'))
    } else if p == 19 {
        Some((')', '('))
    } else {
        None
    }
}

/// The code points of the `n`th pair of arbitrary symbols for a prime with no
/// symbols of its own: five ASCII pairs, then twelve pairs of Greek letters
/// from `α`, then pairs of code points from `一` on, stepping over the
/// surrogates, which are no characters.
pub open spec fn fallback_codes(n: int) -> (int, int) {
    if n == 0 {
        (33, 63)
    } else if n == 1 {
        (91, 93)
    } else if n == 2 {
        (123, 125)
    } else if n == 3 {
        (43, 126)
    } else if n == 4 {
        (39, 44)
    } else if n < 17 {
        (0x3B1 + 2 * (n - 5), 0x3B1 + 2 * (n - 5) + 1)
    } else {
        let c = if n - 17 < 0x4500 { 0x4E00 + 2 * (n - 17) } else { 0x5600 + 2 * (n - 17) };
        (c, c + 1)
    }
}

/// How many arbitrary pairs there are: the run from the CJK ideographs on
/// steps over the surrogate code points, which are no characters, and ends
/// with the last code point of Unicode.
pub const FALLBACK_PAIRS: usize = 546065;

/// Whether there is an `n`th arbitrary pair.
pub open spec fn fallback_valid(n: int) -> bool {
    n < FALLBACK_PAIRS
}

/// Whether every prime that would take an arbitrary pair, once every prime
/// up to it has an accidental, finds one made of characters.
pub open spec fn fallbacks_ready(basis: Seq<u32>) -> bool {
    forall|i: int|
        2 <= i < basis.len() && (forall|k: int| 2 <= k <= i ==> has_accidental(basis, k)) && prime_symbols(basis[i])
            is None ==> fallback_valid(#[trigger] fallbacks_before(basis, i))
}

/// How many of the primes at `2..k` have no symbols of their own.
pub open spec fn fallbacks_before(basis: Seq<u32>, k: int) -> int
    decreases k,
{
    if k <= 2 {
        0
    } else {
        fallbacks_before(basis, k - 1) + if prime_symbols(basis[k - 1]) is None { 1int } else { 0int }
    }
}

/// The code points of the symbols of the prime at `index`.
pub open spec fn symbol_codes(basis: Seq<u32>, index: int) -> (int, int) {
    match prime_symbols(basis[index]) {
        Some(pair) => (pair.0 as u32 as int, pair.1 as u32 as int),
        None => fallback_codes(fallbacks_before(basis, index)),
    }
}

/// `char::from_u32` of std: the character with the given code point, where
/// that is a Unicode scalar value.
#[verifier::external_body]
fn char_from_u32(code: u32) -> (c: Option<char>)
    ensures
        (code < 0xD800 || (0xE000 <= code && code <= 0x10FFFF)) <==> c is Some,
        c matches Some(ch) ==> ch as u32 == code,
{
    char::from_u32(code)
}

/// Every prime of the table keeps its own symbols in whatever subgroup it
/// stands, raising symbol first: 5 is `^` up and `v` down, 7 is `>` and `<`,
/// 11 is `t` and `d`, 13 is `*` and `%`, 17 is `/` and `\`, 19 is `)` and
/// `(`. Any other prime takes the next arbitrary pair.
pub proof fn lemma_table_primes_keep_their_symbols(basis: Seq<u32>, index: int)
    requires
        0 <= index < basis.len(),
    ensures
        basis[index] == 5 ==> symbol_codes(basis, index) == ('^' as u32 as int, 'v' as u32 as int),
        basis[index] == 7 ==> symbol_codes(basis, index) == ('>' as u32 as int, '<' as u32 as int),
        basis[index] == 11 ==> symbol_codes(basis, index) == ('t' as u32 as int, 'd' as u32 as int),
        basis[index] == 13 ==> symbol_codes(basis, index) == ('*' as u32 as int, '%' as u32 as int),
        basis[index] == 17 ==> symbol_codes(basis, index) == ('/' as u32 as int, '\\' as u32 as int),
        basis[index] == 19 ==> symbol_codes(basis, index) == (')' as u32 as int, '(' as u32 as int),
        !(basis[index] == 5 || basis[index] == 7 || basis[index] == 11 || basis[index] == 13 || basis[index] == 17
            || basis[index] == 19) ==> symbol_codes(basis, index) == fallback_codes(fallbacks_before(basis, index)),
{
}

/// The `n`th pair of arbitrary symbols for a prime with no symbols of its own.
pub fn fallback_symbols(n: usize) -> (r: (char, char))
    requires
        fallback_valid(n as int),
    ensures
        r.0 as u32 as int == fallback_codes(n as int).0,
        r.1 as u32 as int == fallback_codes(n as int).1,
{
    if n == 0 {
        ('!', '?')
    } else if n == 1 {
        ('[', ']')
    } else if n == 2 {
        ('{', '}')
    } else if n == 3 {
        ('+', '~')
    } else if n == 4 {
        ('\'', ',')
    } else {
        let start: u32 = if n < 17 {
            0x3B1 + 2 * (n as u32 - 5)
        } else {
            let j: u32 = (n - 17) as u32;
            if j < 0x4500 {
                0x4E00 + 2 * j
            } else {
                0x5600 + 2 * j
            }
        };
        match (char_from_u32(start), char_from_u32(start + 1)) {
            (Some(up), Some(down)) => (up, down),
            _ => {
                assert(false);
                ('?', '?')
            },
        }
    }
}

/// The symbols a prime has of its own, if any.
fn symbols_of_prime(p: u32) -> (r: Option<(char, char)>)
    ensures
        r == prime_symbols(p),
{
    if p == 5 {
        Some(('^', 'v'))
    } else if p == 7 {
        Some(('>', '<'))
    } else if p == 11 {
        Some(('t', 'd'))
    } else if p == 13 {
        Some(('*', '%'))
    } else if p == 17 {
        Some(('/', '\\'))
    } else if p == 19 {
        Some((')', '('))
    } else {
        None
    }
}

/// Whether the prime at `index` of `accidentals`' subgroup got the accidental
/// and the symbols the subgroup derives.
pub open spec fn derived_at(basis: Seq<u32>, a: Accidental, index: int) -> bool {
    &&& ints(a.vector@) == accidental_of(basis, index)
    &&& accidental_shape(ints(a.vector@), index)
    &&& a.vector@.len() == basis.len()
    &&& a.symbols.0 as u32 as int == symbol_codes(basis, index).0
    &&& a.symbols.1 as u32 as int == symbol_codes(basis, index).1
}

/// Whether `c` is the code point of a character the note names use.
pub open spec fn reserved_code(c: int) -> bool {
    c == 70 || c == 67 || c == 71 || c == 68 || c == 65 || c == 69 || c == 66 || c == 35 || c == 98 || c == 45 || (48
        <= c <= 57)
}

/// Whether `c` is the code point of a symbol of the table of primes.
pub open spec fn table_code(c: int) -> bool {
    c == 94 || c == 118 || c == 62 || c == 60 || c == 116 || c == 100 || c == 42 || c == 37 || c == 47 || c == 92 || c
        == 41 || c == 40
}

proof fn lemma_reserved_code(c: char)
    ensures
        is_reserved(c) <==> reserved_code(c as u32 as int),
{
}

/// The symbols of the table of primes: two per prime, none reserved, none
/// shared between two primes.
proof fn lemma_table_codes(p: u32, q: u32)
    ensures
        prime_symbols(p) matches Some(a) ==> table_code(a.0 as u32 as int) && table_code(a.1 as u32 as int) && a.0
            != a.1,
        p != q ==> (prime_symbols(p) matches Some(a) ==> (prime_symbols(q) matches Some(b) ==> a.0 != b.0 && a.0
            != b.1 && a.1 != b.0 && a.1 != b.1)),
{
}

/// The arbitrary symbols: two per pair, none of the table's, none reserved,
/// none shared between two pairs.
proof fn lemma_fallback_codes(n: int, m: int)
    requires
        0 <= n < m <= FALLBACK_PAIRS,
    ensures
        !table_code(fallback_codes(n).0) && !table_code(fallback_codes(n).1),
        !reserved_code(fallback_codes(n).0) && !reserved_code(fallback_codes(n).1),
        fallback_codes(n).0 != fallback_codes(n).1,
        fallback_codes(n).0 != fallback_codes(m).0 && fallback_codes(n).0 != fallback_codes(m).1,
        fallback_codes(n).1 != fallback_codes(m).0 && fallback_codes(n).1 != fallback_codes(m).1,
{
}

/// Any two arbitrary pairs there are give four distinct characters, none of
/// them a symbol of the table of primes, nor one the note names use.
pub proof fn lemma_fallback_pairs_distinct(n: int, m: int)
    requires
        0 <= n < FALLBACK_PAIRS,
        0 <= m < FALLBACK_PAIRS,
        n != m,
    ensures
        !table_code(fallback_codes(n).0) && !table_code(fallback_codes(n).1),
        !reserved_code(fallback_codes(n).0) && !reserved_code(fallback_codes(n).1),
        fallback_codes(n).0 != fallback_codes(n).1,
        fallback_codes(n).0 != fallback_codes(m).0 && fallback_codes(n).0 != fallback_codes(m).1,
        fallback_codes(n).1 != fallback_codes(m).0 && fallback_codes(n).1 != fallback_codes(m).1,
{
    if n < m {
        lemma_fallback_codes(n, m);
    } else {
        lemma_fallback_codes(m, n);
        lemma_fallback_codes(n, n + 1);
    }
}

/// Each prime without symbols of its own takes the next arbitrary pair.
proof fn lemma_fallbacks_increase(basis: Seq<u32>, i: int, j: int)
    requires
        2 <= i < j,
        prime_symbols(basis[i]) is None,
    ensures
        0 <= fallbacks_before(basis, i) < fallbacks_before(basis, j),
    decreases j,
{
    lemma_fallbacks_nonnegative(basis, i);
    if j > i + 1 {
        lemma_fallbacks_increase(basis, i, j - 1);
    }
}

proof fn lemma_fallbacks_nonnegative(basis: Seq<u32>, k: int)
    ensures
        0 <= fallbacks_before(basis, k),
    decreases k,
{
    if k > 2 {
        lemma_fallbacks_nonnegative(basis, k - 1);
    }
}

/// The symbols of two primes of a subgroup are four distinct characters, and
/// none of them is one the note names use.
pub proof fn lemma_symbol_codes_distinct(basis: Seq<u32>, i: int, j: int)
    requires
        valid_basis(basis),
        2 <= i < j < basis.len(),
        fallbacks_before(basis, basis.len() as int) <= FALLBACK_PAIRS,
    ensures
        !reserved_code(symbol_codes(basis, i).0) && !reserved_code(symbol_codes(basis, i).1),
        symbol_codes(basis, i).0 != symbol_codes(basis, i).1,
        symbol_codes(basis, i).0 != symbol_codes(basis, j).0 && symbol_codes(basis, i).0 != symbol_codes(basis, j).1,
        symbol_codes(basis, i).1 != symbol_codes(basis, j).0 && symbol_codes(basis, i).1 != symbol_codes(basis, j).1,
{
    let p = basis[i];
    let q = basis[j];
    lemma_table_codes(p, q);
    lemma_table_codes(q, p);
    lemma_fallbacks_nonnegative(basis, i);
    lemma_fallbacks_nonnegative(basis, j);
    lemma_fallbacks_monotone(basis, j, basis.len() as int);
    if prime_symbols(q) is None {
        lemma_fallbacks_increase(basis, j, basis.len() as int);
    }
    match prime_symbols(p) {
        Some(a) => {
            match prime_symbols(q) {
                Some(b) => {},
                None => {
                    lemma_fallback_codes(fallbacks_before(basis, j), fallbacks_before(basis, j) + 1);
                },
            }
        },
        None => {
            lemma_fallbacks_increase(basis, i, j);
            lemma_fallback_codes(fallbacks_before(basis, i), fallbacks_before(basis, j));
            match prime_symbols(q) {
                Some(b) => {},
                None => {
                    lemma_fallback_codes(fallbacks_before(basis, j), fallbacks_before(basis, j) + 1);
                },
            }
        },
    }
}

/// The symbols of one prime: two distinct characters, neither reserved.
proof fn lemma_symbol_codes_own(basis: Seq<u32>, i: int)
    requires
        2 <= i < basis.len(),
        fallbacks_before(basis, basis.len() as int) <= FALLBACK_PAIRS,
    ensures
        !reserved_code(symbol_codes(basis, i).0) && !reserved_code(symbol_codes(basis, i).1),
        symbol_codes(basis, i).0 != symbol_codes(basis, i).1,
{
    lemma_table_codes(basis[i], basis[i]);
    lemma_fallbacks_nonnegative(basis, i);
    if prime_symbols(basis[i]) is None {
        lemma_fallbacks_increase(basis, i, basis.len() as int);
        lemma_fallback_codes(fallbacks_before(basis, i), fallbacks_before(basis, i) + 1);
    }
}

proof fn lemma_fallbacks_monotone(basis: Seq<u32>, i: int, j: int)
    requires
        i <= j,
    ensures
        fallbacks_before(basis, i) <= fallbacks_before(basis, j),
    decreases j,
{
    if j > i && j > 2 {
        lemma_fallbacks_monotone(basis, i, j - 1);
    }
}

/// Derives the default accidentals of a subgroup: one per prime beyond 3, in
/// order, each with the symbols of its prime or the next arbitrary pair.
///
/// # Errors
/// Returns [`Unsupported::NoAccidental`] for the first prime that has no
/// accidental.
pub fn derive_accidentals(subgroup: &Subgroup) -> (r: Result<Vec<Accidental>, Error>)
    requires
        fallbacks_ready(subgroup@),
    ensures
        r is Ok <==> forall|i: int| 2 <= i < subgroup@.len() ==> has_accidental(subgroup@, i),
        r matches Ok(v) ==> v.len() + 2 == subgroup@.len() && forall|i: int|
            0 <= i < v.len() ==> derived_at(subgroup@, #[trigger] v@[i], i + 2),
        r matches Ok(v) ==> forall|k: int| 0 <= k < 2 * v.len() ==> symbol_ok(symbol_list(v@), k),
        r matches Err(e) ==> exists|i: int|
            2 <= i < subgroup@.len() && !has_accidental(subgroup@, i) && (forall|k: int|
                2 <= k < i ==> has_accidental(subgroup@, k)) && e == Error::Unsupported(
                Unsupported::NoAccidental { prime: subgroup@[i] },
            ),
{
    let dim = subgroup.dim();
    let basis = subgroup.basis();
    let mut result: Vec<Accidental> = Vec::new();
    let mut fallbacks: usize = 0;
    let mut index: usize = 2;
    while index < dim
        invariant
            dim == subgroup@.len(),
            fallbacks_ready(subgroup@),
            fallbacks <= FALLBACK_PAIRS,
            basis@ == subgroup@,
            2 <= index <= dim,
            result.len() + 2 == index,
            fallbacks == fallbacks_before(subgroup@, index as int),
            fallbacks <= index,
            forall|k: int| 2 <= k < index ==> has_accidental(subgroup@, k),
            forall|i: int| 0 <= i < result.len() ==> derived_at(subgroup@, #[trigger] result@[i], i + 2),
        decreases dim - index,
    {
        let vector = match derive_accidental_vector(subgroup, index) {
            Ok(v) => v,
            Err(e) => {
                return Err(e);
            },
        };
        let symbols = match symbols_of_prime(basis[index]) {
            Some(pair) => pair,
            None => {
                proof {
                    assert(has_accidental(subgroup@, index as int));
                    assert(fallback_valid(fallbacks_before(subgroup@, index as int)));
                }
                fallbacks = fallbacks + 1;
                fallback_symbols(fallbacks - 1)
            },
        };
        result.push(Accidental { vector, symbols });
        index = index + 1;
    }
    proof {
        let list = symbol_list(result@);
        let b = subgroup@;
        assert forall|k: int| 0 <= k < 2 * result.len() implies symbol_ok(list, k) by {
            let a = result@[k / 2];
            assert(derived_at(b, a, k / 2 + 2));
            lemma_symbol_codes_own(b, k / 2 + 2);
            lemma_reserved_code(list[k]);
            assert forall|t: int| 0 <= t < k implies list[t] != list[k] by {
                let c = result@[t / 2];
                assert(derived_at(b, c, t / 2 + 2));
                if t / 2 < k / 2 {
                    lemma_symbol_codes_distinct(b, t / 2 + 2, k / 2 + 2);
                }
                assert(list[t] as u32 as int != list[k] as u32 as int);
            }
        }
    }
    Ok(result)
}

/// Whether the note names already use a character, for the nominals, sharps,
/// flats and octave digits.
pub open spec fn is_reserved(c: char) -> bool {
    c == 'F' || c == 'C' || c == 'G' || c == 'D' || c == 'A' || c == 'E' || c == 'B' || c == '#' || c == 'b'
        || c == '-' || ('0' <= c && c <= '9')
}

/// The symbols of `accidentals`, raising then lowering, in order.
pub open spec fn symbol_list(accidentals: Seq<Accidental>) -> Seq<char> {
    Seq::new(2 * accidentals.len(), |k: int| if k % 2 == 0 { accidentals[k / 2].symbols.0 } else { accidentals[k / 2].symbols.1 })
}

/// Whether the symbol at `k` of `symbols` is neither reserved nor a repeat of
/// an earlier one.
pub open spec fn symbol_ok(symbols: Seq<char>, k: int) -> bool {
    !is_reserved(symbols[k]) && forall|j: int| 0 <= j < k ==> symbols[j] != symbols[k]
}

/// What is wrong with the symbol at `k`.
pub open spec fn symbol_error(symbols: Seq<char>, k: int) -> Error {
    if is_reserved(symbols[k]) {
        Error::Unsupported(Unsupported::ReservedSymbol(symbols[k]))
    } else {
        Error::Unsupported(Unsupported::RepeatedSymbol(symbols[k]))
    }
}

fn is_reserved_exec(c: char) -> (r: bool)
    ensures
        r == is_reserved(c),
{
    c == 'F' || c == 'C' || c == 'G' || c == 'D' || c == 'A' || c == 'E' || c == 'B' || c == '#' || c == 'b'
        || c == '-' || ('0' <= c && c <= '9')
}

/// Checks that every symbol of `accidentals` is distinct, and that none of
/// them is a character the note names already use.
///
/// # Errors
/// Returns [`Unsupported::ReservedSymbol`] or [`Unsupported::RepeatedSymbol`]
/// for the first symbol, raising before lowering, that fails.
pub fn check_symbols(accidentals: &Vec<Accidental>) -> (r: Result<(), Error>)
    ensures
        r is Ok <==> forall|k: int| 0 <= k < 2 * accidentals.len() ==> symbol_ok(symbol_list(accidentals@), k),
        r matches Err(e) ==> exists|k: int|
            0 <= k < 2 * accidentals.len() && !symbol_ok(symbol_list(accidentals@), k) && (forall|j: int|
                0 <= j < k ==> symbol_ok(symbol_list(accidentals@), j)) && e == symbol_error(symbol_list(accidentals@), k),
{
    let ghost list = symbol_list(accidentals@);
    let mut symbols: Vec<char> = Vec::new();
    let mut i: usize = 0;
    while i < accidentals.len()
        invariant
            list == symbol_list(accidentals@),
            i <= accidentals.len(),
            symbols@ == list.subrange(0, 2 * i),
        decreases accidentals.len() - i,
    {
        symbols.push(accidentals[i].symbols.0);
        symbols.push(accidentals[i].symbols.1);
        i = i + 1;
        assert(symbols@ =~= list.subrange(0, 2 * i));
    }
    assert(symbols@ =~= list);
    let mut k: usize = 0;
    while k < symbols.len()
        invariant
            list == symbol_list(accidentals@),
            symbols@ == list,
            list.len() == 2 * accidentals.len(),
            k <= symbols.len(),
            forall|j: int| 0 <= j < k ==> symbol_ok(list, j),
        decreases symbols.len() - k,
    {
        let symbol = symbols[k];
        if is_reserved_exec(symbol) {
            proof {
                assert(!symbol_ok(list, k as int));
                assert(symbol_error(list, k as int) == Error::Unsupported(Unsupported::ReservedSymbol(symbol)));
                let kk = k as int;
                assert(0 <= kk < 2 * accidentals.len() && !symbol_ok(list, kk) && (forall|j: int|
                    0 <= j < kk ==> symbol_ok(list, j)) && Error::Unsupported(Unsupported::ReservedSymbol(symbol)) == symbol_error(list, kk));
            }
            return Err(Error::Unsupported(Unsupported::ReservedSymbol(symbol)));
        }
        let mut j: usize = 0;
        while j < k
            invariant
                symbols@ == list,
                j <= k < symbols.len(),
                symbol == list[k as int],
                !is_reserved(symbol),
                list.len() == 2 * accidentals.len(),
                list == symbol_list(accidentals@),
                forall|t: int| 0 <= t < k ==> symbol_ok(list, t),
                forall|t: int| 0 <= t < j ==> list[t] != symbol,
            decreases k - j,
        {
            if symbols[j] == symbol {
                proof {
                    assert(list[j as int] == list[k as int]);
                    assert(!symbol_ok(list, k as int));
                    assert(symbol_error(list, k as int) == Error::Unsupported(Unsupported::RepeatedSymbol(symbol)));
                    let kk = k as int;
                    assert(0 <= kk < 2 * accidentals.len() && !symbol_ok(list, kk) && (forall|t: int|
                        0 <= t < kk ==> symbol_ok(list, t)) && Error::Unsupported(Unsupported::RepeatedSymbol(symbol)) == symbol_error(list, kk));
                }
                return Err(Error::Unsupported(Unsupported::RepeatedSymbol(symbol)));
            }
            j = j + 1;
        }
        assert(symbol_ok(list, k as int));
        k = k + 1;
    }
    Ok(())
}

/// Where just intonation writes a prime: its degree, and what that costs.
#[derive(Debug, Clone, Copy)]
pub struct JustNominal {
    /// Letters up from the unison, seven to the octave.
    pub degree: i64,
    /// What the just spelling costs to read.
    pub cost: i64,
}

/// How just intonation writes the prime an accidental `a` belongs to: the
/// accidental has exponent `s = +-1` on the prime, so the prime is `s * a` less
/// `s * a[1]` threes and `s * a[0]` twos. That is the fifth coordinate
/// `-s * a[1]`, the octave coordinate `-s * (a[0] + a[1])` and one mark.
pub open spec fn just_spelling(a: Seq<int>, index: int) -> Seq<int> {
    let s = a[index];
    seq![-s * (a[0] + a[1]), -s * a[1], 1]
}


/// An accidental keeps the letter: its degree under the map that puts every
/// prime on its just nominal is zero. Seven octaves less eleven threes is
/// `2187/2048`, and every derived accidental is a stretch of octaves and
/// fifths corrected by its own prime.
pub proof fn lemma_accidentals_keep_the_letter(a: Seq<int>, index: int)
    requires
        accidental_shape(a, index),
    ensures
        (DEGREE_OCTAVE as int) * a[0] + ((DEGREE_OCTAVE as int) + (DEGREE_FIFTH as int)) * a[1]
            + a[index] * degree_spec(just_spelling(a, index)) == 0,
{
    let s = a[index];
    assert(s * s == 1);
    assert(s * (7 * (-s * (a[0] + a[1])) + 4 * (-s * a[1])) == -(s * s) * (7 * a[0] + 11 * a[1])) by (nonlinear_arith);
}

/// Where just intonation writes each prime beyond 3: the degree of its just
/// spelling, and what that spelling costs. Together with 7 for the octave and
/// 11 for the three, these degrees are a linear map from interval vectors to
/// degrees whose kernel holds every derived accidental.
///
/// # Errors
/// Returns [`Unsupported::NoAccidental`] if some prime has no accidental.
pub fn just_nominals(subgroup: &Subgroup) -> (r: Result<Vec<JustNominal>, Error>)
    ensures
        r is Ok <==> forall|i: int| 2 <= i < subgroup@.len() ==> has_accidental(subgroup@, i),
        r matches Ok(v) ==> v.len() + 2 == subgroup@.len() && forall|i: int|
            0 <= i < v.len() ==> {
                let acc = accidental_of(subgroup@, i + 2);
                &&& (#[trigger] v@[i]).degree == degree_spec(just_spelling(acc, i + 2))
                &&& v@[i].cost == cost(just_spelling(acc, i + 2))
            },
        r matches Err(e) ==> exists|i: int|
            2 <= i < subgroup@.len() && !has_accidental(subgroup@, i) && (forall|k: int|
                2 <= k < i ==> has_accidental(subgroup@, k)) && e == Error::Unsupported(
                Unsupported::NoAccidental { prime: subgroup@[i] },
            ),
{
    let dim = subgroup.dim();
    let mut result: Vec<JustNominal> = Vec::new();
    let mut index: usize = 2;
    while index < dim
        invariant
            dim == subgroup@.len(),
            2 <= index <= dim,
            result.len() + 2 == index,
            forall|k: int| 2 <= k < index ==> has_accidental(subgroup@, k),
            forall|i: int|
                0 <= i < result.len() ==> {
                    let acc = accidental_of(subgroup@, i + 2);
                        &&& (#[trigger] result@[i]).degree == degree_spec(just_spelling(acc, i + 2))
                    &&& result@[i].cost == cost(just_spelling(acc, i + 2))
                },
        decreases dim - index,
    {
        let a = match derive_accidental_vector(subgroup, index) {
            Ok(v) => v,
            Err(e) => {
                return Err(e);
            },
        };
        proof {
            assert(ints(a@)[0] == a@[0] && ints(a@)[1] == a@[1] && ints(a@)[index as int] == a@[index as int]);
        }
        let s = a[index];
        let octaves = if s > 0 { 0 - (a[0] + a[1]) } else { a[0] + a[1] };
        let fifths = if s > 0 { 0 - a[1] } else { a[1] };
        let spelling: Vec<i64> = vec![octaves, fifths, 1];
        let ghost js = just_spelling(ints(a@), index as int);
        proof {
            assert(js[0] == octaves as int && js[1] == fifths as int) by {
                assert(ints(a@)[index as int] == s as int);
                assert(ints(a@)[0] == a@[0] as int);
                assert(ints(a@)[1] == a@[1] as int);
                let si = s as int;
                let x0 = a@[0] as int;
                let x1 = a@[1] as int;
                assert(js[0] == -si * (x0 + x1) && js[1] == -si * x1);
                if s > 0 {
                    assert(si == 1);
                    assert(-si * (x0 + x1) == -(x0 + x1) && -si * x1 == -x1) by (nonlinear_arith)
                        requires si == 1;
                } else {
                    assert(si == -1);
                    assert(-si * (x0 + x1) == x0 + x1 && -si * x1 == x1) by (nonlinear_arith)
                        requires si == -1;
                }
            }
            assert(ints(spelling@) =~= js);
            assert(cost(js) == COST_MARK * 1 + COST_FIFTH * abs(js[1] - NOMINAL_CENTRE)) by {
                assert(crate::spelling::marks_prefix(js, 2) == 0);
                assert(crate::spelling::marks_prefix(js, 3) == 1);
            }
        }
        let degree = crate::spelling::degree(&spelling);
        let reading = crate::spelling::spelling_cost(&spelling);
        let ghost before = result@;
        result.push(JustNominal { degree, cost: reading });
        proof {
            assert(ints(a@) == accidental_of(subgroup@, index as int));
            assert forall|i: int| 0 <= i < result.len() implies {
                let acc = accidental_of(subgroup@, i + 2);
                &&& (#[trigger] result@[i]).degree == degree_spec(just_spelling(acc, i + 2))
                &&& result@[i].cost == cost(just_spelling(acc, i + 2))
            } by {
                if i < before.len() {
                    assert(result@[i] == before[i]);
                }
            }
            assert(accidental_shape(accidental_of(subgroup@, index as int), index as int));
        }
        index = index + 1;
        assert(accidental_shape(accidental_of(subgroup@, (index - 1) as int), (index - 1) as int));
    }
    Ok(result)
}

} // verus!
