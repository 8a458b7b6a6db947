//! The cheapest ways to write one pitch: a walk of a box of enharmonics
//! around a seed, ranked by what each written note costs to read.

use vstd::prelude::*;

use crate::ranking::{best_of, insert_ranked, key, key_lt, lemma_key_order, seq_lt_from, Key, Ranked};
use crate::spelling::{abs, cost, cost_fits, cost_fits_exec, spelling_break_ties, spelling_cost, ties};
use crate::vector::{
    add_scaled, all_fit, checked_subtract, combination, difference, in_lattice, ints, lemma_combination_linear,
    lemma_dot_prefix_terms_agree, lemma_dot_prefix_unit, rows_of, unit,
};

verus! {

/// Where taking `steps[i]` steps along `lattice[k + i]` from `base` ends.
pub open spec fn walk_to(base: Seq<int>, lattice: Seq<Seq<int>>, steps: Seq<int>, k: int) -> Seq<int>
    decreases steps.len(),
{
    if steps.len() == 0 {
        base
    } else {
        walk_to(add_scaled(base, steps[0], lattice[k]), lattice, steps.drop_first(), k + 1)
    }
}

/// Whether `p` is in the box of points `base + sum_{i >= k} s_i * lattice[i]`
/// with every `|s_i| <= width`.
pub open spec fn in_box(p: Seq<int>, base: Seq<int>, lattice: Seq<Seq<int>>, width: int, k: int) -> bool {
    exists|steps: Seq<int>|
        steps.len() == lattice.len() - k && (forall|i: int| 0 <= i < steps.len() ==> -width <= #[trigger] steps[i] <= width)
            && #[trigger] walk_to(base, lattice, steps, k) == p
}

/// The box at the last level is its base alone.
pub proof fn lemma_in_box_leaf(p: Seq<int>, base: Seq<int>, lattice: Seq<Seq<int>>, width: int, k: int)
    requires
        k == lattice.len(),
    ensures
        in_box(p, base, lattice, width, k) <==> p == base,
{
    if p == base {
        assert(walk_to(base, lattice, Seq::<int>::empty(), k) == base);
    }
}

/// A box is the union of the boxes one level down, one per step along the
/// first of its lattice vectors.
pub proof fn lemma_in_box_unfold(p: Seq<int>, base: Seq<int>, lattice: Seq<Seq<int>>, width: int, k: int)
    requires
        0 <= k < lattice.len(),
    ensures
        in_box(p, base, lattice, width, k) <==> exists|t: int|
            -width <= t <= width && #[trigger] in_box(p, add_scaled(base, t, lattice[k]), lattice, width, k + 1),
{
    if in_box(p, base, lattice, width, k) {
        let steps = choose|steps: Seq<int>|
            steps.len() == lattice.len() - k && (forall|i: int| 0 <= i < steps.len() ==> -width <= #[trigger] steps[i] <= width)
                && #[trigger] walk_to(base, lattice, steps, k) == p;
        let t = steps[0];
        let rest = steps.drop_first();
        assert(walk_to(add_scaled(base, t, lattice[k]), lattice, rest, k + 1) == p);
        assert forall|i: int| 0 <= i < rest.len() implies -width <= #[trigger] rest[i] <= width by {
            assert(rest[i] == steps[i + 1]);
        }
        assert(in_box(p, add_scaled(base, t, lattice[k]), lattice, width, k + 1));
    }
    if exists|t: int| -width <= t <= width && #[trigger] in_box(p, add_scaled(base, t, lattice[k]), lattice, width, k + 1) {
        let t = choose|t: int| -width <= t <= width && #[trigger] in_box(p, add_scaled(base, t, lattice[k]), lattice, width, k + 1);
        let next = add_scaled(base, t, lattice[k]);
        let rest = choose|steps: Seq<int>|
            steps.len() == lattice.len() - (k + 1) && (forall|i: int| 0 <= i < steps.len() ==> -width <= #[trigger] steps[i] <= width)
                && #[trigger] walk_to(next, lattice, steps, k + 1) == p;
        let steps = seq![t] + rest;
        assert(steps.drop_first() =~= rest);
        assert(steps[0] == t);
        assert(walk_to(base, lattice, steps, k) == p);
        assert forall|i: int| 0 <= i < steps.len() implies -width <= #[trigger] steps[i] <= width by {
            if i > 0 {
                assert(steps[i] == rest[i - 1]);
            }
        }
    }
}

/// What a written note is ranked by: its cost, its distance along the fifth
/// chain from `D`, and its coordinates.
pub open spec fn spelling_key(p: Seq<int>) -> Key {
    (cost(p), ties(p), p)
}

/// The Wilson norm of `p` over `primes`: the sum of each prime times the
/// size of its exponent.
pub open spec fn wilson(p: Seq<int>, primes: Seq<u32>) -> int {
    wilson_prefix(p, primes, p.len() as int)
}

/// The Wilson norm of the first `k` exponents.
pub open spec fn wilson_prefix(p: Seq<int>, primes: Seq<u32>, k: int) -> int
    decreases k,
{
    if k <= 0 {
        0
    } else {
        wilson_prefix(p, primes, k - 1) + primes[k - 1] * abs(p[k - 1])
    }
}

/// The quadratic Wilson norm of `p`: the sum of each prime squared times its
/// exponent squared.
pub open spec fn squared(p: Seq<int>, primes: Seq<u32>) -> int {
    squared_prefix(p, primes, p.len() as int)
}

/// The quadratic Wilson norm of the first `k` exponents.
pub open spec fn squared_prefix(p: Seq<int>, primes: Seq<u32>, k: int) -> int
    decreases k,
{
    if k <= 0 {
        0
    } else {
        squared_prefix(p, primes, k - 1) + (primes[k - 1] * primes[k - 1]) * (p[k - 1] * p[k - 1])
    }
}

/// What a point is ranked by: as a written note by [`spelling_key`], or, given
/// the primes, as an interval by its Wilson norm, then its quadratic Wilson
/// norm, then its exponents.
pub open spec fn point_key(p: Seq<int>, m: Option<Seq<u32>>) -> Key {
    match m {
        None => spelling_key(p),
        Some(primes) => (wilson(p, primes), squared(p, primes), p),
    }
}

/// The keys of the points of a box.
pub open spec fn box_keys(base: Seq<int>, lattice: Seq<Seq<int>>, width: int, k: int, m: Option<Seq<u32>>) -> Set<Key> {
    Set::new(|q: Key| in_box(q.2, base, lattice, width, k) && q == point_key(q.2, m))
}

/// The keys of the points of the boxes one level down with `t < s`.
pub open spec fn partial_keys(base: Seq<int>, lattice: Seq<Seq<int>>, width: int, k: int, s: int, m: Option<Seq<u32>>) -> Set<
    Key,
> {
    Set::new(
        |q: Key|
            (exists|t: int| -width <= t < s && #[trigger] in_box(q.2, add_scaled(base, t, lattice[k]), lattice, width, k + 1))
                && q == point_key(q.2, m),
    )
}

/// Whether a point's rank can be computed in `i64`: as a written note, what
/// it costs to read; as an interval over `primes`, its Wilson norm and its
/// quadratic Wilson norm.
pub open spec fn point_fits(p: Seq<int>, m: Option<Seq<u32>>) -> bool {
    match m {
        None => cost_fits(p),
        Some(primes) => measure_fits(p, primes),
    }
}

/// Whether both Wilson norms of `p` over `primes` can be computed in `i64`.
pub open spec fn measure_fits(p: Seq<int>, primes: Seq<u32>) -> bool {
    &&& primes.len() == p.len()
    &&& forall|i: int| 0 <= i < p.len() ==> #[trigger] p[i] > i64::MIN
    &&& wilson(p, primes) <= i64::MAX
    &&& squared(p, primes) <= i64::MAX
}

/// Whether the walk of the box `base + sum_{i >= k} s_i * lattice[i]`,
/// `|s_i| <= width`, can be computed: every point it passes through, level
/// by level, fits in `i64`, and every point of the box can be ranked.
pub open spec fn walk_ok(base: Seq<int>, lattice: Seq<Seq<int>>, width: int, k: int, m: Option<Seq<u32>>) -> bool
    decreases lattice.len() - k,
{
    if k < 0 || k >= lattice.len() {
        point_fits(base, m)
    } else {
        forall|t: int|
            -width <= t <= width ==> all_fit(#[trigger] add_scaled(base, t, lattice[k])) && walk_ok(
                add_scaled(base, t, lattice[k]),
                lattice,
                width,
                k + 1,
                m,
            )
    }
}

proof fn lemma_wilson_prefix_monotone(p: Seq<int>, primes: Seq<u32>, j: int, k: int)
    requires
        0 <= j <= k,
    ensures
        wilson_prefix(p, primes, j) <= wilson_prefix(p, primes, k),
    decreases k,
{
    if j < k {
        lemma_wilson_prefix_monotone(p, primes, j, k - 1);
        assert(primes[k - 1] * abs(p[k - 1]) >= 0) by (nonlinear_arith)
            requires
                primes[k - 1] >= 0,
                abs(p[k - 1]) >= 0,
        ;
    }
}

proof fn lemma_squared_prefix_monotone(p: Seq<int>, primes: Seq<u32>, j: int, k: int)
    requires
        0 <= j <= k,
    ensures
        squared_prefix(p, primes, j) <= squared_prefix(p, primes, k),
    decreases k,
{
    if j < k {
        lemma_squared_prefix_monotone(p, primes, j, k - 1);
        let q = primes[k - 1] as int;
        let e = p[k - 1];
        assert((q * q) * (e * e) >= 0) by (nonlinear_arith);
    }
}


proof fn lemma_box_keys_leaf(base: Seq<int>, lattice: Seq<Seq<int>>, width: int, k: int, m: Option<Seq<u32>>)
    requires
        k == lattice.len(),
    ensures
        box_keys(base, lattice, width, k, m) =~= set![point_key(base, m)],
{
    assert forall|q: Key| #[trigger] box_keys(base, lattice, width, k, m).contains(q) <==> set![point_key(base, m)].contains(q) by {
        lemma_in_box_leaf(q.2, base, lattice, width, k);
    }
}

proof fn lemma_partial_keys_step(base: Seq<int>, lattice: Seq<Seq<int>>, width: int, k: int, s: int, m: Option<Seq<u32>>)
    requires
        0 <= k < lattice.len(),
        -width <= s,
    ensures
        partial_keys(base, lattice, width, k, s + 1, m) =~= partial_keys(base, lattice, width, k, s, m).union(
            box_keys(add_scaled(base, s, lattice[k]), lattice, width, k + 1, m),
        ),
{
    let next = add_scaled(base, s, lattice[k]);
    let left = partial_keys(base, lattice, width, k, s + 1, m);
    let right = partial_keys(base, lattice, width, k, s, m).union(box_keys(next, lattice, width, k + 1, m));
    assert forall|q: Key| left.contains(q) implies right.contains(q) by {
        let t = choose|t: int| -width <= t < s + 1 && #[trigger] in_box(q.2, add_scaled(base, t, lattice[k]), lattice, width, k + 1);
        if t == s {
            assert(box_keys(next, lattice, width, k + 1, m).contains(q));
        } else {
            assert(partial_keys(base, lattice, width, k, s, m).contains(q));
        }
    }
    assert forall|q: Key| right.contains(q) implies left.contains(q) by {
        if partial_keys(base, lattice, width, k, s, m).contains(q) {
            let t = choose|t: int| -width <= t < s && #[trigger] in_box(q.2, add_scaled(base, t, lattice[k]), lattice, width, k + 1);
            assert(-width <= t < s + 1 && in_box(q.2, add_scaled(base, t, lattice[k]), lattice, width, k + 1));
        } else {
            assert(box_keys(next, lattice, width, k + 1, m).contains(q));
            assert(-width <= s < s + 1 && in_box(q.2, add_scaled(base, s, lattice[k]), lattice, width, k + 1));
        }
    }
}

proof fn lemma_partial_keys_start(base: Seq<int>, lattice: Seq<Seq<int>>, width: int, k: int, m: Option<Seq<u32>>)
    requires
        0 <= k < lattice.len(),
    ensures
        partial_keys(base, lattice, width, k, -width, m) =~= Set::<Key>::empty(),
{
}

proof fn lemma_partial_keys_end(base: Seq<int>, lattice: Seq<Seq<int>>, width: int, k: int, m: Option<Seq<u32>>)
    requires
        0 <= k < lattice.len(),
    ensures
        partial_keys(base, lattice, width, k, width + 1, m) =~= box_keys(base, lattice, width, k, m),
{
    let left = partial_keys(base, lattice, width, k, width + 1, m);
    let right = box_keys(base, lattice, width, k, m);
    assert forall|q: Key| right.contains(q) implies left.contains(q) by {
        lemma_in_box_unfold(q.2, base, lattice, width, k);
        let t = choose|t: int| -width <= t <= width && #[trigger] in_box(q.2, add_scaled(base, t, lattice[k]), lattice, width, k + 1);
        assert(-width <= t < width + 1);
    }
    assert forall|q: Key| left.contains(q) implies right.contains(q) by {
        let t = choose|t: int| -width <= t < width + 1 && #[trigger] in_box(q.2, add_scaled(base, t, lattice[k]), lattice, width, k + 1);
        lemma_in_box_unfold(q.2, base, lattice, width, k);
    }
}

/// `base + s * row`, entry by entry, or `None` where an entry does not fit
/// in an `i64`.
pub(crate) fn step_checked(base: &Vec<i64>, s: i64, row: &Vec<i64>) -> (r: Option<Vec<i64>>)
    requires
        base.len() == row.len(),
    ensures
        r is Some <==> all_fit(add_scaled(ints(base@), s as int, ints(row@))),
        r matches Some(v) ==> ints(v@) == add_scaled(ints(base@), s as int, ints(row@)),
{
    let ghost target = add_scaled(ints(base@), s as int, ints(row@));
    let mut r: Vec<i64> = Vec::new();
    let mut i: usize = 0;
    while i < base.len()
        invariant
            i <= base.len(),
            base.len() == row.len(),
            r.len() == i,
            target == add_scaled(ints(base@), s as int, ints(row@)),
            forall|t: int| 0 <= t < i ==> r@[t] as int == #[trigger] target[t],
        decreases base.len() - i,
    {
        let b = base[i] as i128;
        let sc = s as i128;
        let x = row[i] as i128;
        assert(-0x4000_0000_0000_0000_0000_0000_0000_0000 <= sc * x <= 0x4000_0000_0000_0000_0000_0000_0000_0000)
            by (nonlinear_arith)
            requires
                -0x8000_0000_0000_0000 <= sc <= 0x8000_0000_0000_0000,
                -0x8000_0000_0000_0000 <= x <= 0x8000_0000_0000_0000,
        ;
        let y = b + sc * x;
        assert(target[i as int] == y);
        if y < i64::MIN as i128 || y > i64::MAX as i128 {
            return None;
        }
        r.push(y as i64);
        i = i + 1;
    }
    proof {
        assert(ints(r@) =~= target);
    }
    Some(r)
}

/// The primes a walk ranks by, where it ranks intervals.
pub open spec fn measure_of(primes: Option<Vec<u32>>) -> Option<Seq<u32>> {
    match primes {
        Some(ps) => Some(ps@),
        None => None,
    }
}

/// The Wilson norm and the quadratic Wilson norm of `v` over `primes`, or
/// `None` where either does not fit in an `i64`.
pub(crate) fn measure_exec(v: &Vec<i64>, primes: &Vec<u32>) -> (r: Option<(i128, i128)>)
    requires
        v.len() == primes.len(),
    ensures
        r is Some <==> measure_fits(ints(v@), primes@),
        r matches Some(n) ==> n.0 == wilson(ints(v@), primes@) && n.1 == squared(ints(v@), primes@),
{
    let ghost x = ints(v@);
    let mut w: i128 = 0;
    let mut q: i128 = 0;
    let mut k: usize = 0;
    while k < v.len()
        invariant
            x == ints(v@),
            v.len() == primes.len(),
            k <= v.len(),
            w == wilson_prefix(x, primes@, k as int),
            q == squared_prefix(x, primes@, k as int),
            0 <= w <= i64::MAX,
            0 <= q <= i64::MAX,
            forall|i: int| 0 <= i < k ==> #[trigger] x[i] > i64::MIN,
        decreases v.len() - k,
    {
        let e = v[k];
        assert(x[k as int] == e);
        if e == i64::MIN {
            return None;
        }
        let magnitude: i128 = if e < 0 { 0 - (e as i128) } else { e as i128 };
        let p = primes[k] as i128;
        assert(0 <= p * magnitude <= 0x1_0000_0000 * 0x8000_0000_0000_0000) by (nonlinear_arith)
            requires
                0 <= p <= 0x1_0000_0000,
                0 <= magnitude <= 0x8000_0000_0000_0000,
        ;
        let pe = p * magnitude;
        assert(pe == primes@[k as int] * abs(x[k as int]));
        w = w + pe;
        if w > i64::MAX as i128 {
            proof {
                lemma_wilson_prefix_monotone(x, primes@, k + 1, x.len() as int);
            }
            return None;
        }
        assert(0 <= pe * pe <= 0x8000_0000_0000_0000 * 0x8000_0000_0000_0000) by (nonlinear_arith)
            requires
                0 <= pe <= 0x8000_0000_0000_0000,
        ;
        let sq = pe * pe;
        assert(abs(x[k as int]) * abs(x[k as int]) == x[k as int] * x[k as int]) by (nonlinear_arith);
        assert(sq == (primes@[k as int] * primes@[k as int]) * (x[k as int] * x[k as int])) by (nonlinear_arith)
            requires
                pe == primes@[k as int] * abs(x[k as int]),
                sq == pe * pe,
                abs(x[k as int]) * abs(x[k as int]) == x[k as int] * x[k as int],
        ;
        q = q + sq;
        if q > i64::MAX as i128 {
            proof {
                lemma_squared_prefix_monotone(x, primes@, k + 1, x.len() as int);
            }
            return None;
        }
        k = k + 1;
    }
    Some((w, q))
}

/// Walks the box `base + sum_{i >= k} s_i * lattice[i]`, `|s_i| <= width`,
/// keeping the best `cap` of it and what `list` already held, ranked as
/// written notes or, given `primes`, as intervals. Returns whether the walk
/// could be computed; where it could not, `list` holds nothing of use.
pub(crate) fn walk_box(
    base: &Vec<i64>,
    lattice: &Vec<Vec<i64>>,
    width: i64,
    k: usize,
    list: &mut Vec<Ranked>,
    cap: usize,
    primes: &Option<Vec<u32>>,
    Ghost(seen): Ghost<Set<Key>>,
) -> (ok: bool)
    requires
        k <= lattice.len(),
        forall|i: int| 0 <= i < lattice.len() ==> (#[trigger] lattice@[i]).len() == base.len(),
        0 <= width,
        primes matches Some(ps) ==> ps.len() == base.len(),
        cap >= 1,
        best_of(old(list)@, seen, cap as nat),
    ensures
        ok == walk_ok(ints(base@), rows_of(lattice@), width as int, k as int, measure_of(*primes)),
        ok ==> best_of(
            final(list)@,
            seen.union(box_keys(ints(base@), rows_of(lattice@), width as int, k as int, measure_of(*primes))),
            cap as nat,
        ),
    decreases lattice.len() - k,
{
    let ghost rows = rows_of(lattice@);
    let ghost m = measure_of(*primes);
    if k == lattice.len() {
        let ranks: Option<(i128, i128)> = match primes {
            None => {
                if cost_fits_exec(base) {
                    Some((spelling_cost(base) as i128, spelling_break_ties(base) as i128))
                } else {
                    None
                }
            },
            Some(ps) => measure_exec(base, ps),
        };
        match ranks {
            None => {
                return false;
            },
            Some(n) => {
                let point = crate::accidental::copy_vector(base);
                let item = Ranked { first: n.0, second: n.1, point };
                proof {
                    assert(key(item) == point_key(ints(base@), m));
                    lemma_box_keys_leaf(ints(base@), rows, width as int, k as int, m);
                    assert(seen.insert(key(item)) =~= seen.union(box_keys(ints(base@), rows, width as int, k as int, m)));
                }
                insert_ranked(list, item, cap, Ghost(seen));
                return true;
            },
        }
    }
    let ghost b = ints(base@);
    let ghost mut acc = seen;
    proof {
        lemma_partial_keys_start(b, rows, width as int, k as int, m);
        assert(acc =~= seen.union(partial_keys(b, rows, width as int, k as int, -width as int, m)));
        assert(rows[k as int] == ints(lattice@[k as int]@));
    }
    let mut s: i128 = 0 - (width as i128);
    while s <= width as i128
        invariant
            b == ints(base@),
            rows == rows_of(lattice@),
            m == measure_of(*primes),
            k < lattice.len(),
            forall|i: int| 0 <= i < lattice.len() ==> (#[trigger] lattice@[i]).len() == base.len(),
            primes matches Some(ps) ==> ps.len() == base.len(),
            rows[k as int] == ints(lattice@[k as int]@),
            0 <= width,
            -width <= s <= width + 1,
            cap >= 1,
            acc == seen.union(partial_keys(b, rows, width as int, k as int, s as int, m)),
            best_of(list@, acc, cap as nat),
            forall|t: int|
                -width <= t < s ==> all_fit(#[trigger] add_scaled(b, t, rows[k as int])) && walk_ok(
                    add_scaled(b, t, rows[k as int]),
                    rows,
                    width as int,
                    k + 1,
                    m,
                ),
        decreases width + 1 - s,
    {
        let st = s as i64;
        let next = match step_checked(base, st, &lattice[k]) {
            Some(next) => next,
            None => {
                proof {
                    assert(!all_fit(add_scaled(b, s as int, rows[k as int])));
                }
                return false;
            },
        };
        proof {
            crate::vector::lemma_ints_len(next@);
            crate::vector::lemma_ints_len(base@);
        }
        let ok = walk_box(&next, lattice, width, k + 1, list, cap, primes, Ghost(acc));
        if !ok {
            proof {
                assert(ints(next@) == add_scaled(b, s as int, rows[k as int]));
                assert(!walk_ok(add_scaled(b, s as int, rows[k as int]), rows, width as int, k + 1, m));
            }
            return false;
        }
        proof {
            lemma_partial_keys_step(b, rows, width as int, k as int, s as int, m);
            acc = acc.union(box_keys(ints(next@), rows, width as int, (k + 1) as int, m));
            assert(acc =~= seen.union(partial_keys(b, rows, width as int, k as int, (s + 1) as int, m)));
            assert(ints(next@) == add_scaled(b, s as int, rows[k as int]));
        }
        s = s + 1;
    }
    proof {
        lemma_partial_keys_end(b, rows, width as int, k as int, m);
    }
    true
}


/// Whether `p` is the best point of a box: in it, and ranked before every
/// other point of it.
pub open spec fn is_best_of_box(p: Seq<int>, base: Seq<int>, lattice: Seq<Seq<int>>, width: int, m: Option<Seq<u32>>) -> bool {
    &&& in_box(p, base, lattice, width, 0)
    &&& forall|q: Seq<int>|
        #[trigger] in_box(q, base, lattice, width, 0) && q != p ==> key_lt(point_key(p, m), point_key(q, m))
}

/// The best point of a box.
pub open spec fn best_of_box(base: Seq<int>, lattice: Seq<Seq<int>>, width: int, m: Option<Seq<u32>>) -> Seq<int> {
    choose|p: Seq<int>| is_best_of_box(p, base, lattice, width, m)
}

/// Where a walk from `coordinates` settles: the best point of the box around
/// them less `near`, or the coordinates themselves where there is no lattice.
pub open spec fn settled(lattice: Seq<Seq<int>>, coordinates: Seq<int>, near: Option<Seq<int>>, width: int) -> Seq<int> {
    if lattice.len() == 0 {
        coordinates
    } else {
        best_of_box(walk_seed(coordinates, near), lattice, width, None)
    }
}

/// Taking no step along any lattice vector stays at the base.
pub proof fn lemma_walk_zero(base: Seq<int>, lattice: Seq<Seq<int>>, steps: Seq<int>, k: int)
    requires
        0 <= k,
        k + steps.len() <= lattice.len(),
        forall|i: int| 0 <= i < steps.len() ==> steps[i] == 0,
        forall|i: int| 0 <= i < lattice.len() ==> (#[trigger] lattice[i]).len() == base.len(),
    ensures
        walk_to(base, lattice, steps, k) == base,
    decreases steps.len(),
{
    if steps.len() > 0 {
        assert(add_scaled(base, steps[0], lattice[k]) =~= base);
        lemma_walk_zero(base, lattice, steps.drop_first(), k + 1);
    }
}

/// A box holds its base.
pub proof fn lemma_base_in_box(base: Seq<int>, lattice: Seq<Seq<int>>, width: int)
    requires
        0 <= width,
        forall|i: int| 0 <= i < lattice.len() ==> (#[trigger] lattice[i]).len() == base.len(),
    ensures
        in_box(base, base, lattice, width, 0),
{
    let steps = Seq::new(lattice.len(), |i: int| 0int);
    lemma_walk_zero(base, lattice, steps, 0);
    assert(walk_to(base, lattice, steps, 0) == base);
}

/// The best of a box, as the walk finds it, is its best point.
pub proof fn lemma_cheapest_first(
    result: Seq<Vec<i64>>,
    base: Seq<int>,
    lattice: Seq<Seq<int>>,
    width: int,
    cap: nat,
    m: Option<Seq<u32>>,
)
    requires
        cheapest_of(result, base, lattice, width, cap, m),
        cap >= 1,
        0 <= width,
        forall|i: int| 0 <= i < lattice.len() ==> (#[trigger] lattice[i]).len() == base.len(),
    ensures
        result.len() >= 1,
        ints(result[0]@) == best_of_box(base, lattice, width, m),
        is_best_of_box(ints(result[0]@), base, lattice, width, m),
{
    lemma_base_in_box(base, lattice, width);
    let x = ints(result[0]@);
    assert forall|q: Seq<int>| #[trigger] in_box(q, base, lattice, width, 0) && q != x implies key_lt(
        point_key(x, m),
        point_key(q, m),
    ) by {
        if exists|i: int| 0 <= i < result.len() && ints(result[i]@) == q {
            let i = choose|i: int| 0 <= i < result.len() && ints(result[i]@) == q;
            assert(i != 0);
            assert(key_lt(point_key(ints(result[0]@), m), point_key(ints(result[i]@), m)));
        } else {
            lemma_key_order(point_key(x, m), point_key(ints(result[result.len() - 1]@), m), point_key(q, m));
            if result.len() > 1 {
                assert(key_lt(point_key(x, m), point_key(ints(result[result.len() - 1]@), m)));
            }
        }
    }
    assert(is_best_of_box(x, base, lattice, width, m));
    let p = best_of_box(base, lattice, width, m);
    assert(is_best_of_box(p, base, lattice, width, m));
    if p != x {
        assert(key_lt(point_key(p, m), point_key(x, m)));
        assert(key_lt(point_key(x, m), point_key(p, m)));
        lemma_key_order(point_key(p, m), point_key(x, m), point_key(p, m));
    }
}

/// Every point of a box whose walk can be computed can be ranked.
pub proof fn lemma_box_points_fit(
    p: Seq<int>,
    base: Seq<int>,
    lattice: Seq<Seq<int>>,
    width: int,
    k: int,
    m: Option<Seq<u32>>,
)
    requires
        0 <= k <= lattice.len(),
        walk_ok(base, lattice, width, k, m),
        in_box(p, base, lattice, width, k),
    ensures
        point_fits(p, m),
    decreases lattice.len() - k,
{
    if k == lattice.len() {
        lemma_in_box_leaf(p, base, lattice, width, k);
    } else {
        lemma_in_box_unfold(p, base, lattice, width, k);
        let t = choose|t: int| -width <= t <= width && #[trigger] in_box(p, add_scaled(base, t, lattice[k]), lattice, width, k + 1);
        assert(all_fit(add_scaled(base, t, lattice[k])));
        lemma_box_points_fit(p, add_scaled(base, t, lattice[k]), lattice, width, k + 1, m);
    }
}

/// Every point of a box a walk of written notes can be computed over costs
/// little enough to rank, and has the length of the base.
pub proof fn lemma_box_costs_fit(p: Seq<int>, base: Seq<int>, lattice: Seq<Seq<int>>, width: int)
    requires
        walk_ok(base, lattice, width, 0, None),
        in_box(p, base, lattice, width, 0),
    ensures
        cost_fits(p),
        p.len() == base.len(),
{
    lemma_box_points_fit(p, base, lattice, width, 0, None);
    let steps = choose|steps: Seq<int>|
        steps.len() == lattice.len() - 0 && (forall|i: int| 0 <= i < steps.len() ==> -width <= #[trigger] steps[i] <= width)
            && #[trigger] walk_to(base, lattice, steps, 0) == p;
    lemma_walk_length(base, lattice, steps, 0);
}


/// A walk keeps the length of its base.
pub proof fn lemma_walk_length(base: Seq<int>, lattice: Seq<Seq<int>>, steps: Seq<int>, k: int)
    requires
        0 <= k,
        k + steps.len() <= lattice.len(),
    ensures
        walk_to(base, lattice, steps, k).len() == base.len(),
    decreases steps.len(),
{
    if steps.len() > 0 {
        lemma_walk_length(add_scaled(base, steps[0], lattice[k]), lattice, steps.drop_first(), k + 1);
    }
}

/// Whether `result` is the best `cap` of the points of a box, best first.
pub open spec fn cheapest_of(
    result: Seq<Vec<i64>>,
    base: Seq<int>,
    lattice: Seq<Seq<int>>,
    width: int,
    cap: nat,
    m: Option<Seq<u32>>,
) -> bool {
    &&& result.len() <= cap
    &&& forall|i: int, j: int|
        0 <= i < j < result.len() ==> key_lt(point_key(ints(#[trigger] result[i]@), m), point_key(ints(#[trigger] result[j]@), m))
    &&& forall|i: int| 0 <= i < result.len() ==> in_box(ints(#[trigger] result[i]@), base, lattice, width, 0)
    &&& forall|p: Seq<int>|
        #[trigger] in_box(p, base, lattice, width, 0) ==> (exists|i: int| 0 <= i < result.len() && ints(result[i]@) == p)
            || (result.len() == cap && key_lt(point_key(ints(result[result.len() - 1]@), m), point_key(p, m)))
}

/// A row of a lattice basis is in the lattice.
proof fn lemma_row_in_lattice(lattice: Seq<Seq<int>>, k: int, n: nat)
    requires
        0 <= k < lattice.len(),
        lattice[k].len() == n,
    ensures
        in_lattice(lattice[k], lattice, n),
{
    let u = unit(lattice.len(), k);
    assert forall|j: int| 0 <= j < n implies #[trigger] combination(u, lattice, n)[j] == lattice[k][j] by {
        let col = crate::vector::column(lattice, j);
        assert forall|i: int| 0 <= i < lattice.len() implies u[i] * col[i] == col[i] * u[i] by {
            let x = u[i];
            let y = col[i];
            assert(x * y == y * x) by (nonlinear_arith);
        }
        lemma_dot_prefix_terms_agree(u, col, col, u, lattice.len() as int);
        lemma_dot_prefix_unit(col, u, k, lattice.len() as int);
    }
    assert(combination(u, lattice, n) =~= lattice[k]);
}

/// A lattice holds `a + s * b` where it holds `a` and `b`.
pub proof fn lemma_lattice_add(a: Seq<int>, s: int, b: Seq<int>, lattice: Seq<Seq<int>>, n: nat)
    requires
        in_lattice(a, lattice, n),
        in_lattice(b, lattice, n),
    ensures
        in_lattice(add_scaled(a, s, b), lattice, n),
{
    let ca = choose|c: Seq<int>| c.len() == lattice.len() && #[trigger] combination(c, lattice, n) == a;
    let cb = choose|c: Seq<int>| c.len() == lattice.len() && #[trigger] combination(c, lattice, n) == b;
    lemma_combination_linear(ca, s, cb, lattice, n);
    assert(combination(add_scaled(ca, s, cb), lattice, n) == add_scaled(a, s, b));
}

/// Every point of a box differs from where it is measured from by a member
/// of the lattice, where its base does.
pub proof fn lemma_walk_in_lattice(
    base: Seq<int>,
    from: Seq<int>,
    lattice: Seq<Seq<int>>,
    steps: Seq<int>,
    k: int,
)
    requires
        0 <= k,
        k + steps.len() <= lattice.len(),
        base.len() == from.len(),
        forall|i: int| 0 <= i < lattice.len() ==> (#[trigger] lattice[i]).len() == base.len(),
        in_lattice(difference(base, from), lattice, base.len()),
    ensures
        in_lattice(difference(walk_to(base, lattice, steps, k), from), lattice, base.len()),
    decreases steps.len(),
{
    if steps.len() > 0 {
        let next = add_scaled(base, steps[0], lattice[k]);
        lemma_row_in_lattice(lattice, k, base.len());
        lemma_lattice_add(difference(base, from), steps[0], lattice[k], lattice, base.len());
        assert(difference(next, from) =~= add_scaled(difference(base, from), steps[0], lattice[k]));
        lemma_walk_in_lattice(next, from, lattice, steps.drop_first(), k + 1);
    }
}

/// Whether the walk from `coordinates` less `near` can be computed: the
/// seed fits in `i64`, and so does every step of the walk of the box of
/// `width` around it.
pub open spec fn walk_ready(coordinates: Seq<int>, near: Option<Seq<int>>, lattice: Seq<Seq<int>>, width: int) -> bool {
    &&& all_fit(walk_seed(coordinates, near))
    &&& walk_ok(walk_seed(coordinates, near), lattice, width, 0, None)
}


/// The seed the walk starts from: `coordinates` less the lattice vector
/// nearest to them, where there is one.
pub open spec fn walk_seed(coordinates: Seq<int>, near: Option<Seq<int>>) -> Seq<int> {
    match near {
        Some(n) => difference(coordinates, n),
        None => coordinates,
    }
}

/// The `count` cheapest spellings in the box of `width` steps either way
/// along each member of `lattice` around the seed, best first: ranked by
/// what each costs to read, then by its distance along the fifth chain from
/// `D`, then by its coordinates. The seed is `coordinates` less `near`, the
/// lattice vector closest to them under the quadratic stand-in for the cost,
/// where there is one; with no lattice the coordinates are the only answer.
/// `None` where the seed or a step of the walk does not fit in 64 bits.
pub fn cheapest(
    coordinates: &Vec<i64>,
    lattice: &Vec<Vec<i64>>,
    width: i64,
    count: usize,
    near: &Option<Vec<i64>>,
) -> (r: Option<Vec<Vec<i64>>>)
    requires
        near matches Some(n) ==> n.len() == coordinates.len() && in_lattice(
            ints(n@),
            rows_of(lattice@),
            coordinates.len() as nat,
        ),
        forall|i: int| 0 <= i < lattice.len() ==> (#[trigger] lattice@[i]).len() == coordinates.len(),
        0 <= width,
    ensures
        lattice.len() == 0 ==> (r matches Some(found) && found.len() == 1 && found@[0]@ == coordinates@),
        lattice.len() > 0 ==> (r is Some <==> walk_ready(
            ints(coordinates@),
            match near { Some(n) => Some(ints(n@)), None => None },
            rows_of(lattice@),
            width as int,
        )),
        lattice.len() > 0 ==> (r matches Some(found) ==> cheapest_of(
            found@,
            walk_seed(ints(coordinates@), match near { Some(n) => Some(ints(n@)), None => None }),
            rows_of(lattice@),
            width as int,
            if count == 0 { 1 } else { count as nat },
            None,
        )),
        r matches Some(found) ==> forall|i: int|
            0 <= i < found.len() ==> in_lattice(
                difference(ints((#[trigger] found@[i])@), ints(coordinates@)),
                rows_of(lattice@),
                coordinates.len() as nat,
            ),
{
    if lattice.len() == 0 {
        let mut only: Vec<Vec<i64>> = Vec::new();
        only.push(crate::accidental::copy_vector(coordinates));
        proof {
            let c0 = ints(coordinates@);
            let z = Seq::<int>::empty();
            assert(combination(z, rows_of(lattice@), coordinates.len() as nat) =~= difference(c0, c0));
            assert(ints(only@[0]@) == c0);
        }
        return Some(only);
    }
    let ghost near_spec = match near { Some(n) => Some(ints(n@)), None => None };
    let ghost seed_spec = walk_seed(ints(coordinates@), near_spec);
    let seed = match near {
        Some(n) => match checked_subtract(coordinates, n) {
            Some(d) => d,
            None => {
                return None;
            },
        },
        None => crate::accidental::copy_vector(coordinates),
    };
    proof {
        assert(ints(seed@) == seed_spec);
        if near.is_none() {
            assert forall|i: int| 0 <= i < seed_spec.len() implies crate::vector::fits(#[trigger] seed_spec[i]) by {
                assert(seed_spec[i] == coordinates@[i]);
            }
        }
    }
    let ghost rows = rows_of(lattice@);
    let cap: usize = if count == 0 { 1 } else { count };
    let mut list: Vec<Ranked> = Vec::new();
    proof {
        assert(best_of(list@, Set::<Key>::empty(), cap as nat));
        crate::vector::lemma_ints_len(seed@);
    }
    let ok = walk_box(&seed, lattice, width, 0, &mut list, cap, &None, Ghost(Set::<Key>::empty()));
    if !ok {
        return None;
    }
    let ghost keys = box_keys(seed_spec, rows, width as int, 0, None);
    assert(Set::<Key>::empty().union(keys) =~= keys);
    let mut result: Vec<Vec<i64>> = Vec::new();
    let mut i: usize = 0;
    while i < list.len()
        invariant
            i <= list.len(),
            result.len() == i,
            forall|t: int| 0 <= t < i ==> (#[trigger] result@[t])@ == list@[t].point@,
        decreases list.len() - i,
    {
        result.push(crate::accidental::copy_vector(&list[i].point));
        i = i + 1;
    }
    proof {
        assert forall|t: int| 0 <= t < result.len() implies key(#[trigger] list@[t]) == point_key(ints(result@[t]@), None) by {
            assert(keys.contains(key(list@[t])));
        }
        assert forall|a: int, c: int| 0 <= a < c < result.len() implies key_lt(
            point_key(ints(#[trigger] result@[a]@), None),
            point_key(ints(#[trigger] result@[c]@), None),
        ) by {
            assert(key(list@[a]) == point_key(ints(result@[a]@), None));
            assert(key(list@[c]) == point_key(ints(result@[c]@), None));
        }
        assert forall|t: int| 0 <= t < result.len() implies in_box(ints(#[trigger] result@[t]@), seed_spec, rows, width as int, 0) by {
            assert(keys.contains(key(list@[t])));
        }
        let c0 = ints(coordinates@);
        let nn = coordinates.len() as nat;
        assert forall|i: int| 0 <= i < rows.len() implies (#[trigger] rows[i]).len() == seed_spec.len() by {
            assert(rows[i] == ints(lattice@[i]@));
        }
        assert(in_lattice(difference(seed_spec, seed_spec), rows, nn)) by {
            let z = Seq::new(rows.len(), |i: int| 0int);
            crate::vector::lemma_ints_len(seed@);
            assert forall|j: int| 0 <= j < nn implies #[trigger] combination(z, rows, nn)[j] == difference(seed_spec, seed_spec)[j] by {
                crate::vector::lemma_dot_prefix_zero_left(z, crate::vector::column(rows, j), rows.len() as int);
            }
            assert(combination(z, rows, nn) =~= difference(seed_spec, seed_spec));
        }
        assert forall|i: int| 0 <= i < result.len() implies in_lattice(
            difference(ints((#[trigger] result@[i])@), c0),
            rows,
            nn,
        ) by {
            let p = ints(result@[i]@);
            assert(in_box(p, seed_spec, rows, width as int, 0));
            let steps = choose|steps: Seq<int>|
                steps.len() == rows.len() - 0 && (forall|t: int| 0 <= t < steps.len() ==> -width <= #[trigger] steps[t] <= width)
                    && #[trigger] walk_to(seed_spec, rows, steps, 0) == p;
            crate::vector::lemma_ints_len(seed@);
            lemma_walk_in_lattice(seed_spec, seed_spec, rows, steps, 0);
            match near {
                Some(n) => {
                    lemma_lattice_add(difference(p, seed_spec), -1, ints(n@), rows, nn);
                    lemma_walk_length(seed_spec, rows, steps, 0);
                    assert(difference(p, c0) =~= add_scaled(difference(p, seed_spec), -1, ints(n@)));
                },
                None => {
                    assert(seed_spec == c0);
                },
            }
        }
        assert forall|p: Seq<int>| #[trigger] in_box(p, seed_spec, rows, width as int, 0) implies (exists|t: int|
            0 <= t < result.len() && ints(result@[t]@) == p) || (result.len() == cap && key_lt(
            point_key(ints(result@[result.len() - 1]@), None),
            point_key(p, None),
        )) by {
            assert(keys.contains(point_key(p, None)));
            if exists|t: int| 0 <= t < list.len() && key(list@[t]) == point_key(p, None) {
                let t = choose|t: int| 0 <= t < list.len() && key(list@[t]) == point_key(p, None);
                assert(ints(result@[t]@) == p);
            } else {
                assert(key(list@[list.len() - 1]) == point_key(ints(result@[result.len() - 1]@), None));
            }
        }
    }
    Some(result)
}

/// Whether `p` is the best point of the box at level `k`.
pub open spec fn is_best_at(p: Seq<int>, base: Seq<int>, lattice: Seq<Seq<int>>, width: int, k: int, m: Option<Seq<u32>>) -> bool {
    &&& in_box(p, base, lattice, width, k)
    &&& forall|q: Seq<int>|
        #[trigger] in_box(q, base, lattice, width, k) && q != p ==> key_lt(point_key(p, m), point_key(q, m))
}

/// Whether `q` is in one of the boxes one level down with a step of at most
/// `s` along `lattice[k]`.
pub open spec fn in_part(q: Seq<int>, base: Seq<int>, lattice: Seq<Seq<int>>, width: int, k: int, s: int) -> bool {
    exists|t: int| -width <= t <= s && #[trigger] in_box(q, add_scaled(base, t, lattice[k]), lattice, width, k + 1)
}

/// Whether `p` is the best point of the boxes one level down with a step of
/// at most `s` along `lattice[k]`.
pub open spec fn is_best_of_part(
    p: Seq<int>,
    base: Seq<int>,
    lattice: Seq<Seq<int>>,
    width: int,
    k: int,
    s: int,
    m: Option<Seq<u32>>,
) -> bool {
    &&& in_part(p, base, lattice, width, k, s)
    &&& forall|q: Seq<int>|
        #[trigger] in_part(q, base, lattice, width, k, s) && q != p ==> key_lt(point_key(p, m), point_key(q, m))
}

/// Of two distinct points one ranks before the other.
proof fn lemma_points_ranked(p: Seq<int>, q: Seq<int>, m: Option<Seq<u32>>)
    requires
        p != q,
    ensures
        key_lt(point_key(p, m), point_key(q, m)) || key_lt(point_key(q, m), point_key(p, m)),
        !(key_lt(point_key(p, m), point_key(q, m)) && key_lt(point_key(q, m), point_key(p, m))),
{
    assert(point_key(p, m).2 == p);
    assert(point_key(q, m).2 == q);
    lemma_key_order(point_key(p, m), point_key(q, m), point_key(p, m));
}

/// Every box has a best point.
pub proof fn lemma_box_has_best(base: Seq<int>, lattice: Seq<Seq<int>>, width: int, k: int, m: Option<Seq<u32>>)
    requires
        0 <= width,
        0 <= k <= lattice.len(),
    ensures
        exists|p: Seq<int>| #[trigger] is_best_at(p, base, lattice, width, k, m),
    decreases lattice.len() - k, 2 * width + 2,
{
    if k == lattice.len() {
        assert forall|q: Seq<int>| #[trigger] in_box(q, base, lattice, width, k) implies q == base by {
            lemma_in_box_leaf(q, base, lattice, width, k);
        }
        lemma_in_box_leaf(base, base, lattice, width, k);
        assert(is_best_at(base, base, lattice, width, k, m));
    } else {
        lemma_part_has_best(base, lattice, width, k, width, m);
        let p = choose|p: Seq<int>| #[trigger] is_best_of_part(p, base, lattice, width, k, width, m);
        assert forall|q: Seq<int>| #[trigger] in_box(q, base, lattice, width, k) <==> in_part(q, base, lattice, width, k, width) by {
            lemma_in_box_unfold(q, base, lattice, width, k);
        }
        assert(is_best_at(p, base, lattice, width, k, m));
    }
}

proof fn lemma_part_has_best(base: Seq<int>, lattice: Seq<Seq<int>>, width: int, k: int, s: int, m: Option<Seq<u32>>)
    requires
        0 <= width,
        0 <= k < lattice.len(),
        -width <= s <= width,
    ensures
        exists|p: Seq<int>| #[trigger] is_best_of_part(p, base, lattice, width, k, s, m),
    decreases lattice.len() - k, s + width + 1,
{
    let next = add_scaled(base, s, lattice[k]);
    lemma_box_has_best(next, lattice, width, k + 1, m);
    let p2 = choose|p: Seq<int>| #[trigger] is_best_at(p, next, lattice, width, k + 1, m);
    assert(in_part(p2, base, lattice, width, k, s));
    if s == -width {
        assert forall|q: Seq<int>| #[trigger] in_part(q, base, lattice, width, k, s) && q != p2 implies key_lt(
            point_key(p2, m),
            point_key(q, m),
        ) by {
            let t = choose|t: int| -width <= t <= s && #[trigger] in_box(q, add_scaled(base, t, lattice[k]), lattice, width, k + 1);
            assert(t == s);
        }
        assert(is_best_of_part(p2, base, lattice, width, k, s, m));
    } else {
        lemma_part_has_best(base, lattice, width, k, s - 1, m);
        let p1 = choose|p: Seq<int>| #[trigger] is_best_of_part(p, base, lattice, width, k, s - 1, m);
        let p = if p1 == p2 || key_lt(point_key(p1, m), point_key(p2, m)) { p1 } else { p2 };
        if p1 != p2 {
            lemma_points_ranked(p1, p2, m);
        }
        assert(in_part(p1, base, lattice, width, k, s)) by {
            let t = choose|t: int| -width <= t <= s - 1 && #[trigger] in_box(p1, add_scaled(base, t, lattice[k]), lattice, width, k + 1);
        }
        assert forall|q: Seq<int>| #[trigger] in_part(q, base, lattice, width, k, s) && q != p implies key_lt(
            point_key(p, m),
            point_key(q, m),
        ) by {
            let t = choose|t: int| -width <= t <= s && #[trigger] in_box(q, add_scaled(base, t, lattice[k]), lattice, width, k + 1);
            if t == s {
                if q != p2 {
                    assert(key_lt(point_key(p2, m), point_key(q, m)));
                    if p != p2 {
                        lemma_key_order(point_key(p, m), point_key(p2, m), point_key(q, m));
                    }
                }
            } else {
                assert(in_part(q, base, lattice, width, k, s - 1));
                if q != p1 {
                    assert(key_lt(point_key(p1, m), point_key(q, m)));
                    if p != p1 {
                        lemma_key_order(point_key(p, m), point_key(p1, m), point_key(q, m));
                    }
                }
            }
        }
        assert(in_part(p, base, lattice, width, k, s));
        assert(is_best_of_part(p, base, lattice, width, k, s, m));
    }
}

/// `p` moved by `c` octaves: its first coordinate raised by `c`.
pub open spec fn octave_shift(p: Seq<int>, c: int) -> Seq<int> {
    p.update(0, p[0] + c)
}

/// Moving where a walk starts by octaves moves where it ends alike.
proof fn lemma_walk_shift(base: Seq<int>, lattice: Seq<Seq<int>>, steps: Seq<int>, k: int, c: int)
    requires
        0 <= k,
        k + steps.len() <= lattice.len(),
        base.len() >= 1,
        forall|i: int| 0 <= i < lattice.len() ==> (#[trigger] lattice[i]).len() == base.len(),
    ensures
        walk_to(octave_shift(base, c), lattice, steps, k) == octave_shift(walk_to(base, lattice, steps, k), c),
        walk_to(base, lattice, steps, k).len() == base.len(),
    decreases steps.len(),
{
    if steps.len() > 0 {
        let next = add_scaled(base, steps[0], lattice[k]);
        assert(add_scaled(octave_shift(base, c), steps[0], lattice[k]) =~= octave_shift(next, c));
        lemma_walk_shift(next, lattice, steps.drop_first(), k + 1, c);
    }
}

/// The points of a box moved by octaves are the points of the moved box.
proof fn lemma_box_shift(p: Seq<int>, base: Seq<int>, lattice: Seq<Seq<int>>, width: int, c: int)
    requires
        base.len() >= 1,
        forall|i: int| 0 <= i < lattice.len() ==> (#[trigger] lattice[i]).len() == base.len(),
    ensures
        in_box(p, base, lattice, width, 0) ==> in_box(octave_shift(p, c), octave_shift(base, c), lattice, width, 0)
            && p.len() == base.len(),
        in_box(p, octave_shift(base, c), lattice, width, 0) ==> in_box(octave_shift(p, -c), base, lattice, width, 0)
            && octave_shift(octave_shift(p, -c), c) == p && p.len() == base.len(),
{
    if in_box(p, base, lattice, width, 0) {
        let steps = choose|steps: Seq<int>|
            steps.len() == lattice.len() - 0 && (forall|i: int| 0 <= i < steps.len() ==> -width <= #[trigger] steps[i] <= width)
                && #[trigger] walk_to(base, lattice, steps, 0) == p;
        lemma_walk_shift(base, lattice, steps, 0, c);
        assert(walk_to(octave_shift(base, c), lattice, steps, 0) == octave_shift(p, c));
    }
    if in_box(p, octave_shift(base, c), lattice, width, 0) {
        let steps = choose|steps: Seq<int>|
            steps.len() == lattice.len() - 0 && (forall|i: int| 0 <= i < steps.len() ==> -width <= #[trigger] steps[i] <= width)
                && #[trigger] walk_to(octave_shift(base, c), lattice, steps, 0) == p;
        lemma_walk_shift(base, lattice, steps, 0, c);
        let q = walk_to(base, lattice, steps, 0);
        assert(octave_shift(q, c) == p);
        assert(octave_shift(p, -c) =~= q);
        assert(octave_shift(octave_shift(p, -c), c) =~= p);
    }
}

/// Sequences that agree from `i` on are ordered alike from `i` on.
proof fn lemma_seq_lt_from_agree(a: Seq<int>, b: Seq<int>, a2: Seq<int>, b2: Seq<int>, i: int)
    requires
        0 <= i,
        a.len() == a2.len(),
        b.len() == b2.len(),
        forall|j: int| i <= j < a.len() ==> a[j] == a2[j],
        forall|j: int| i <= j < b.len() ==> b[j] == b2[j],
    ensures
        seq_lt_from(a, b, i) == seq_lt_from(a2, b2, i),
    decreases a.len() - i,
{
    if i < a.len() && i < b.len() && a[i] == b[i] {
        lemma_seq_lt_from_agree(a, b, a2, b2, i + 1);
    }
}

/// Moving two written notes by the same octaves keeps how they rank.
proof fn lemma_spelling_key_shift(p: Seq<int>, q: Seq<int>, c: int)
    requires
        p.len() >= 2,
        q.len() >= 2,
    ensures
        key_lt(spelling_key(octave_shift(p, c)), spelling_key(octave_shift(q, c))) == key_lt(spelling_key(p), spelling_key(q)),
{
    crate::spelling::lemma_cost_ignores_the_octave(p, octave_shift(p, c));
    crate::spelling::lemma_cost_ignores_the_octave(q, octave_shift(q, c));
    let p2 = octave_shift(p, c);
    let q2 = octave_shift(q, c);
    if p[0] == q[0] {
        lemma_seq_lt_from_agree(p, q, p2, q2, 1);
    }
}

/// Register does not change where a walk of written notes settles: moving
/// where it starts by `c` octaves moves where it settles by `c` octaves and
/// changes nothing else.
pub proof fn lemma_settled_ignores_the_register(lattice: Seq<Seq<int>>, base: Seq<int>, c: int, width: int)
    requires
        0 <= width,
        base.len() >= 2,
        forall|i: int| 0 <= i < lattice.len() ==> (#[trigger] lattice[i]).len() == base.len(),
    ensures
        settled(lattice, octave_shift(base, c), None, width) == octave_shift(settled(lattice, base, None, width), c),
{
    if lattice.len() > 0 {
        let moved = octave_shift(base, c);
        assert(walk_seed(base, None) == base);
        assert(walk_seed(moved, None) == moved);
        lemma_box_has_best(base, lattice, width, 0, None);
        let b = choose|p: Seq<int>| #[trigger] is_best_at(p, base, lattice, width, 0, None);
        lemma_box_shift(b, base, lattice, width, c);
        let b2 = octave_shift(b, c);
        assert forall|q: Seq<int>| #[trigger] in_box(q, moved, lattice, width, 0) && q != b2 implies key_lt(
            point_key(b2, None),
            point_key(q, None),
        ) by {
            lemma_box_shift(q, base, lattice, width, c);
            let q0 = octave_shift(q, -c);
            lemma_box_shift(q0, base, lattice, width, c);
            assert(q0 != b);
            assert(key_lt(point_key(b, None), point_key(q0, None)));
            lemma_spelling_key_shift(b, q0, c);
        }
        assert(is_best_of_box(b2, moved, lattice, width, None));
        assert(is_best_of_box(b, base, lattice, width, None));
        let x = best_of_box(moved, lattice, width, None);
        let y = best_of_box(base, lattice, width, None);
        assert(is_best_of_box(x, moved, lattice, width, None));
        assert(is_best_of_box(y, base, lattice, width, None));
        if x != b2 {
            lemma_points_ranked(x, b2, None);
        }
        if y != b {
            lemma_points_ranked(y, b, None);
        }
    }
}

} // verus!
