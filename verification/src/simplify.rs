//! Simplifying intervals.

use vstd::prelude::*;

use crate::error::{Dimensions, Error};
use crate::notation::Notation;
use crate::ranking::{best_of, key, key_lt, lemma_key_order, Key, Ranked};
use crate::subgroup::valid_basis;
use crate::temperament::Temperament;
use crate::vector::{
    add_scaled, all_fit, apply, checked_subtract, combination, difference, dot, dot_prefix, in_lattice, ints,
    lemma_dot_prefix_linear_right, rows_of, zeros,
};
use crate::walk::{
    box_keys, in_box, lemma_base_in_box, lemma_box_points_fit, lemma_walk_length,
    lemma_lattice_add, lemma_walk_in_lattice, measure_exec, measure_of, point_key, squared, squared_prefix, walk_box, walk_ok, walk_seed, walk_to, wilson, wilson_prefix,
};

verus! {

/// How far around the best so far to look, in each direction along each
/// basis vector of the comma lattice. The search steps by this much until
/// nothing nearer is better, so the radius bounds one step rather than the
/// whole walk. A radius of 1 is not enough even iterated, since it can settle
/// in a hollow two steps wide.
pub const SEARCH_RADIUS: i64 = 2;

/// The Wilson norm of the first `k` coordinates of an interval.
pub open spec fn sopfr_prefix(interval: Seq<i64>, primes: Seq<u32>, k: int) -> int
    decreases k,
{
    if k <= 0 {
        0
    } else {
        sopfr_prefix(interval, primes, k - 1) + primes[k - 1] * abs(interval[k - 1] as int)
    }
}

pub open spec fn abs(x: int) -> int {
    if x < 0 { -x } else { x }
}

pub open spec fn min_len(a: nat, b: nat) -> nat {
    if a < b { a } else { b }
}

/// The Wilson norm of an interval: the sum of the prime factors of its
/// numerator and denominator, with repetition, over the coordinates that have
/// a prime.
pub open spec fn sopfr_spec(interval: Seq<i64>, primes: Seq<u32>) -> int {
    sopfr_prefix(interval, primes, min_len(interval.len(), primes.len()) as int)
}

proof fn lemma_sopfr_prefix_monotone(interval: Seq<i64>, primes: Seq<u32>, j: int, k: int)
    requires
        0 <= j <= k,
    ensures
        0 <= sopfr_prefix(interval, primes, j) <= sopfr_prefix(interval, primes, k),
    decreases k,
{
    if j < k {
        lemma_sopfr_prefix_monotone(interval, primes, j, k - 1);
        assert(primes[k - 1] * abs(interval[k - 1] as int) >= 0) by (nonlinear_arith)
            requires primes[k - 1] >= 0, abs(interval[k - 1] as int) >= 0;
    } else if k > 0 {
        lemma_sopfr_prefix_monotone(interval, primes, 0, k - 1);
        assert(primes[k - 1] * abs(interval[k - 1] as int) >= 0) by (nonlinear_arith)
            requires primes[k - 1] >= 0, abs(interval[k - 1] as int) >= 0;
    }
}

/// The Wilson norm of an interval: the sum of the prime factors of its
/// numerator and denominator, with repetition. `81/80` is `3*4 + 2*4 + 5 = 25`.
pub fn sopfr(interval: &[i64], primes: &[u32]) -> (norm: i64)
    requires
        forall|k: int| 0 <= k < min_len(interval@.len(), primes@.len()) ==> interval@[k] > i64::MIN,
        sopfr_spec(interval@, primes@) <= i64::MAX,
    ensures
        norm == sopfr_spec(interval@, primes@),
        interval@.len() == primes@.len() ==> norm == wilson(ints(interval@), primes@),
{
    proof {
        if interval@.len() == primes@.len() {
            lemma_sopfr_is_wilson(interval@, primes@, interval@.len() as int);
        }
    }
    let n = if interval.len() < primes.len() { interval.len() } else { primes.len() };
    let mut total: i64 = 0;
    let mut k: usize = 0;
    while k < n
        invariant
            n == min_len(interval@.len(), primes@.len()),
            k <= n,
            total == sopfr_prefix(interval@, primes@, k as int),
            sopfr_spec(interval@, primes@) <= i64::MAX,
            forall|j: int| 0 <= j < n ==> interval@[j] > i64::MIN,
        decreases n - k,
    {
        proof {
            lemma_sopfr_prefix_monotone(interval@, primes@, k + 1, n as int);
            lemma_sopfr_prefix_monotone(interval@, primes@, 0, k as int);
        }
        let e = interval[k];
        let magnitude: i64 = if e < 0 { 0 - e } else { e };
        assert(magnitude == abs(e as int));
        assert((primes[k as int] as int) * (magnitude as int) <= i64::MAX);
        let term = (primes[k] as i64) * magnitude;
        total = total + term;
        k = k + 1;
    }
    total
}

/// [`sopfr`] over as many exponents as there are primes is the Wilson norm.
proof fn lemma_sopfr_is_wilson(interval: Seq<i64>, primes: Seq<u32>, k: int)
    requires
        k <= interval.len(),
        k <= primes.len(),
    ensures
        sopfr_prefix(interval, primes, k) == wilson_prefix(ints(interval), primes, k),
    decreases k,
{
    if k > 0 {
        lemma_sopfr_is_wilson(interval, primes, k - 1);
        assert(ints(interval)[k - 1] == interval[k - 1] as int);
    }
}

/// The Wilson norm of the first `k` exponents is zero exactly when they are.
proof fn lemma_wilson_prefix_zero(x: Seq<int>, primes: Seq<u32>, k: int)
    requires
        0 <= k <= x.len(),
        k <= primes.len(),
        forall|i: int| 0 <= i < primes.len() ==> primes[i] > 0,
    ensures
        wilson_prefix(x, primes, k) == 0 <==> forall|i: int| 0 <= i < k ==> x[i] == 0,
    decreases k,
{
    if k > 0 {
        lemma_wilson_prefix_zero(x, primes, k - 1);
        lemma_wilson_nonnegative(x, primes, k - 1);
        let p = primes[k - 1] as int;
        let a = crate::spelling::abs(x[k - 1]);
        assert(p * a >= 0 && (p * a == 0 <==> a == 0)) by (nonlinear_arith)
            requires
                p > 0,
                a >= 0,
        ;
        if wilson_prefix(x, primes, k) == 0 {
            assert forall|i: int| 0 <= i < k implies x[i] == 0 by {
                if i < k - 1 {
                    assert(wilson_prefix(x, primes, k - 1) == 0);
                }
            }
        }
    }
}

/// Turning every exponent round leaves the Wilson norm of the first `k`.
proof fn lemma_wilson_prefix_neg(x: Seq<int>, primes: Seq<u32>, k: int)
    requires
        0 <= k <= x.len(),
    ensures
        wilson_prefix(crate::vector::neg(x), primes, k) == wilson_prefix(x, primes, k),
    decreases k,
{
    if k > 0 {
        lemma_wilson_prefix_neg(x, primes, k - 1);
        assert(crate::vector::neg(x)[k - 1] == -x[k - 1]);
    }
}

/// The Wilson norm of a sum is at most the sum of the norms, over the first
/// `k` exponents.
proof fn lemma_wilson_prefix_triangle(x: Seq<int>, y: Seq<int>, primes: Seq<u32>, k: int)
    requires
        0 <= k <= x.len(),
        x.len() == y.len(),
    ensures
        wilson_prefix(add_scaled(x, 1, y), primes, k) <= wilson_prefix(x, primes, k) + wilson_prefix(y, primes, k),
    decreases k,
{
    if k > 0 {
        lemma_wilson_prefix_triangle(x, y, primes, k - 1);
        let p = primes[k - 1] as int;
        let a = x[k - 1];
        let b = y[k - 1];
        assert(add_scaled(x, 1, y)[k - 1] == a + b);
        assert(p * crate::spelling::abs(a + b) <= p * crate::spelling::abs(a) + p * crate::spelling::abs(b)) by (nonlinear_arith)
            requires
                p >= 0,
                crate::spelling::abs(a + b) <= crate::spelling::abs(a) + crate::spelling::abs(b),
        ;
    }
}

/// The Wilson norm is a norm on intervals: never negative, zero only at
/// unison, the same for an interval turned round, and no more for the sum of
/// two intervals than the sum of theirs.
pub proof fn lemma_wilson_is_a_norm(x: Seq<int>, y: Seq<int>, primes: Seq<u32>)
    requires
        x.len() == primes.len(),
        y.len() == primes.len(),
        forall|i: int| 0 <= i < primes.len() ==> primes[i] > 0,
    ensures
        wilson(x, primes) >= 0,
        wilson(x, primes) == 0 <==> x == zeros(x.len()),
        wilson(crate::vector::neg(x), primes) == wilson(x, primes),
        wilson(add_scaled(x, 1, y), primes) <= wilson(x, primes) + wilson(y, primes),
{
    let n = x.len() as int;
    lemma_wilson_nonnegative(x, primes, n);
    lemma_wilson_prefix_zero(x, primes, n);
    if forall|i: int| 0 <= i < n ==> x[i] == 0 {
        assert(x =~= zeros(x.len()));
    }
    lemma_wilson_prefix_neg(x, primes, n);
    lemma_wilson_prefix_triangle(x, y, primes, n);
}

/// Whether `a` is strictly simpler than `b`: a lower Wilson norm, or the same
/// and a lower quadratic Wilson norm.
pub open spec fn simpler(a: Seq<int>, b: Seq<int>, primes: Seq<u32>) -> bool {
    wilson(a, primes) < wilson(b, primes) || (wilson(a, primes) == wilson(b, primes) && squared(a, primes) < squared(
        b,
        primes,
    ))
}

/// A Wilson norm is never negative.
pub proof fn lemma_wilson_nonnegative(p: Seq<int>, primes: Seq<u32>, k: int)
    ensures
        0 <= wilson_prefix(p, primes, k),
    decreases k,
{
    if k > 0 {
        lemma_wilson_nonnegative(p, primes, k - 1);
        assert(primes[k - 1] * abs(p[k - 1]) >= 0) by (nonlinear_arith)
            requires
                primes[k - 1] >= 0,
                abs(p[k - 1]) >= 0,
        ;
    }
}

/// A quadratic Wilson norm is never negative.
pub proof fn lemma_squared_nonnegative(p: Seq<int>, primes: Seq<u32>, k: int)
    ensures
        0 <= squared_prefix(p, primes, k),
    decreases k,
{
    if k > 0 {
        lemma_squared_nonnegative(p, primes, k - 1);
        let q = primes[k - 1] as int;
        let e = p[k - 1];
        assert((q * q) * (e * e) >= 0) by (nonlinear_arith);
    }
}

/// `acc`, unless `p` is strictly simpler.
pub open spec fn keep_simpler(acc: Seq<int>, p: Seq<int>, primes: Seq<u32>) -> Seq<int> {
    if simpler(p, acc, primes) {
        p
    } else {
        acc
    }
}

/// How far a scan of steps from `t` down to `-radius` has to go.
pub open spec fn steps_left(t: int, radius: int) -> int {
    if t + radius + 1 >= 0 {
        t + radius + 1
    } else {
        0
    }
}

/// What the search keeps of the ball of `radius` around `base`, starting from
/// `acc`, where the steps along `lattice[k..]` are `fixed` and those along
/// `lattice[..k]` still run: the last of them outermost, each from `radius`
/// steps down to `-radius`, the first innermost. Each point reached replaces
/// what is kept only where it is strictly simpler, so of equally simple
/// points the one scanned first stays.
pub open spec fn scan(
    base: Seq<int>,
    lattice: Seq<Seq<int>>,
    radius: int,
    primes: Seq<u32>,
    k: int,
    fixed: Seq<int>,
    acc: Seq<int>,
) -> Seq<int>
    decreases k, 2 * abs(radius) + 3,
{
    if k <= 0 {
        keep_simpler(acc, walk_to(base, lattice, fixed, 0), primes)
    } else {
        scan_row(base, lattice, radius, primes, k, fixed, radius, acc)
    }
}

/// [`scan`] with the step along `lattice[k - 1]` run from `t` down to
/// `-radius`.
pub open spec fn scan_row(
    base: Seq<int>,
    lattice: Seq<Seq<int>>,
    radius: int,
    primes: Seq<u32>,
    k: int,
    fixed: Seq<int>,
    t: int,
    acc: Seq<int>,
) -> Seq<int>
    decreases k, steps_left(t, radius),
{
    if t < -radius || k <= 0 {
        acc
    } else {
        scan_row(
            base,
            lattice,
            radius,
            primes,
            k,
            fixed,
            t - 1,
            scan(base, lattice, radius, primes, k - 1, seq![t] + fixed, acc),
        )
    }
}

/// Where the search moves from `best`: the first strictly simplest interval
/// of the ball of `radius` around it in the order the ball is scanned, or
/// `best` itself where none is simpler.
pub open spec fn ball_next(best: Seq<int>, lattice: Seq<Seq<int>>, radius: int, primes: Seq<u32>) -> Seq<int> {
    scan(best, lattice, radius, primes, lattice.len() as int, Seq::empty(), best)
}

/// What a scan keeps is what it started from or a point of the ball.
proof fn lemma_scan_in_box(
    base: Seq<int>,
    lattice: Seq<Seq<int>>,
    radius: int,
    primes: Seq<u32>,
    k: int,
    fixed: Seq<int>,
    acc: Seq<int>,
)
    requires
        0 <= k <= lattice.len(),
        fixed.len() == lattice.len() - k,
        forall|i: int| 0 <= i < fixed.len() ==> -radius <= #[trigger] fixed[i] <= radius,
    ensures
        scan(base, lattice, radius, primes, k, fixed, acc) == acc || in_box(
            scan(base, lattice, radius, primes, k, fixed, acc),
            base,
            lattice,
            radius,
            0,
        ),
    decreases k, 2 * abs(radius) + 3,
{
    if k == 0 {
        let p = walk_to(base, lattice, fixed, 0);
        assert(in_box(p, base, lattice, radius, 0));
    } else {
        lemma_scan_row_in_box(base, lattice, radius, primes, k, fixed, radius, acc);
    }
}

proof fn lemma_scan_row_in_box(
    base: Seq<int>,
    lattice: Seq<Seq<int>>,
    radius: int,
    primes: Seq<u32>,
    k: int,
    fixed: Seq<int>,
    t: int,
    acc: Seq<int>,
)
    requires
        0 < k <= lattice.len(),
        fixed.len() == lattice.len() - k,
        forall|i: int| 0 <= i < fixed.len() ==> -radius <= #[trigger] fixed[i] <= radius,
        t <= radius,
    ensures
        scan_row(base, lattice, radius, primes, k, fixed, t, acc) == acc || in_box(
            scan_row(base, lattice, radius, primes, k, fixed, t, acc),
            base,
            lattice,
            radius,
            0,
        ),
    decreases k, steps_left(t, radius),
{
    if t >= -radius {
        let longer = seq![t] + fixed;
        assert forall|i: int| 0 <= i < longer.len() implies -radius <= #[trigger] longer[i] <= radius by {
            if i > 0 {
                assert(longer[i] == fixed[i - 1]);
            }
        }
        let acc2 = scan(base, lattice, radius, primes, k - 1, longer, acc);
        lemma_scan_in_box(base, lattice, radius, primes, k - 1, longer, acc);
        lemma_scan_row_in_box(base, lattice, radius, primes, k, fixed, t - 1, acc2);
    }
}

/// Where the search moves from `best` is `best` or a point of its ball.
proof fn lemma_ball_next_in_box(best: Seq<int>, lattice: Seq<Seq<int>>, radius: int, primes: Seq<u32>)
    ensures
        ball_next(best, lattice, radius, primes) == best || in_box(
            ball_next(best, lattice, radius, primes),
            best,
            lattice,
            radius,
            0,
        ),
{
    lemma_scan_in_box(best, lattice, radius, primes, lattice.len() as int, Seq::empty(), best);
}

/// The point of the ball around `base` reached by `steps`, as its walk
/// passes through each level in turn.
fn point_of_steps(
    base: &Vec<i64>,
    lattice: &Vec<Vec<i64>>,
    radius: i64,
    steps: &Vec<i64>,
    primes: &Vec<u32>,
) -> (p: Vec<i64>)
    requires
        steps.len() == lattice.len(),
        forall|i: int| 0 <= i < steps.len() ==> -radius <= #[trigger] steps@[i] <= radius,
        forall|i: int| 0 <= i < lattice.len() ==> (#[trigger] lattice@[i]).len() == base.len(),
        walk_ok(ints(base@), rows_of(lattice@), radius as int, 0, Some(primes@)),
    ensures
        ints(p@) == walk_to(ints(base@), rows_of(lattice@), ints(steps@), 0),
        walk_ok(ints(p@), rows_of(lattice@), radius as int, lattice.len() as int, Some(primes@)),
{
    let ghost rows = rows_of(lattice@);
    let ghost all = ints(steps@);
    let ghost target = walk_to(ints(base@), rows, all, 0);
    let mut cur = crate::accidental::copy_vector(base);
    let mut i: usize = 0;
    proof {
        assert(all.subrange(0, all.len() as int) =~= all);
    }
    while i < lattice.len()
        invariant
            i <= lattice.len(),
            steps.len() == lattice.len(),
            rows == rows_of(lattice@),
            all == ints(steps@),
            cur.len() == base.len(),
            forall|j: int| 0 <= j < steps.len() ==> -radius <= #[trigger] steps@[j] <= radius,
            forall|j: int| 0 <= j < lattice.len() ==> (#[trigger] lattice@[j]).len() == base.len(),
            walk_ok(ints(cur@), rows, radius as int, i as int, Some(primes@)),
            target == walk_to(ints(cur@), rows, all.subrange(i as int, all.len() as int), i as int),
        decreases lattice.len() - i,
    {
        let ghost c = ints(cur@);
        let ghost rest = all.subrange(i as int, all.len() as int);
        proof {
            assert(rest[0] == steps@[i as int]);
            assert(rest.drop_first() =~= all.subrange(i + 1, all.len() as int));
            assert(rows[i as int] == ints(lattice@[i as int]@));
            assert(all_fit(add_scaled(c, steps@[i as int] as int, rows[i as int])));
        }
        let next = match crate::walk::step_checked(&cur, steps[i], &lattice[i]) {
            Some(n) => n,
            None => {
                proof {
                    assert(false);
                }
                cur
            },
        };
        proof {
            crate::vector::lemma_ints_len(next@);
            crate::vector::lemma_ints_len(cur@);
        }
        cur = next;
        i = i + 1;
    }
    proof {
        assert(all.subrange(lattice.len() as int, all.len() as int) =~= Seq::<int>::empty());
    }
    cur
}

/// The exec counterpart of [`scan`]: scans the ball around `base`, with the
/// steps along `lattice[k..]` as `steps` holds them, into `kept`, which holds
/// a point and its two Wilson norms.
fn scan_exec(
    base: &Vec<i64>,
    lattice: &Vec<Vec<i64>>,
    radius: i64,
    primes: &Vec<u32>,
    k: usize,
    steps: &mut Vec<i64>,
    kept: &mut (Vec<i64>, i128, i128),
)
    requires
        0 <= radius,
        k <= lattice.len(),
        old(steps).len() == lattice.len(),
        forall|i: int| k <= i < old(steps).len() ==> -radius <= #[trigger] old(steps)@[i] <= radius,
        forall|i: int| 0 <= i < lattice.len() ==> (#[trigger] lattice@[i]).len() == base.len(),
        primes.len() == base.len(),
        walk_ok(ints(base@), rows_of(lattice@), radius as int, 0, Some(primes@)),
        old(kept).1 == wilson(ints(old(kept).0@), primes@),
        old(kept).2 == squared(ints(old(kept).0@), primes@),
    ensures
        final(steps).len() == lattice.len(),
        forall|i: int| k <= i < lattice.len() ==> final(steps)@[i] == old(steps)@[i],
        ints(final(kept).0@) == scan(
            ints(base@),
            rows_of(lattice@),
            radius as int,
            primes@,
            k as int,
            ints(old(steps)@.subrange(k as int, lattice.len() as int)),
            ints(old(kept).0@),
        ),
        final(kept).1 == wilson(ints(final(kept).0@), primes@),
        final(kept).2 == squared(ints(final(kept).0@), primes@),
    decreases k,
{
    let ghost b = ints(base@);
    let ghost rows = rows_of(lattice@);
    let ghost ps = primes@;
    if k == 0 {
        let point = point_of_steps(base, lattice, radius, steps, primes);
        proof {
            assert(steps@.subrange(0, lattice.len() as int) =~= steps@);
            crate::vector::lemma_ints_len(point@);
            crate::vector::lemma_ints_len(base@);
        }
        let (w, q) = match measure_exec(&point, primes) {
            Some(n) => n,
            None => {
                proof {
                    assert(false);
                }
                (0, 0)
            },
        };
        if w < kept.1 || (w == kept.1 && q < kept.2) {
            *kept = (point, w, q);
        }
        return;
    }
    let ghost fixed = ints(steps@.subrange(k as int, lattice.len() as int));
    let ghost acc0 = ints(kept.0@);
    let mut t: i64 = radius;
    proof {
        assert(scan(b, rows, radius as int, ps, k as int, fixed, acc0) == scan_row(b, rows, radius as int, ps, k as int, fixed, radius as int, acc0));
    }
    while t >= -radius
        invariant
            0 <= radius,
            0 < k <= lattice.len(),
            -radius - 1 <= t <= radius,
            steps.len() == lattice.len(),
            old(steps).len() == lattice.len(),
            forall|i: int| k <= i < lattice.len() ==> steps@[i] == old(steps)@[i],
            fixed == ints(old(steps)@.subrange(k as int, lattice.len() as int)),
            forall|i: int| k <= i < old(steps).len() ==> -radius <= #[trigger] old(steps)@[i] <= radius,
            forall|i: int| 0 <= i < lattice.len() ==> (#[trigger] lattice@[i]).len() == base.len(),
            primes.len() == base.len(),
            b == ints(base@),
            rows == rows_of(lattice@),
            ps == primes@,
            walk_ok(b, rows, radius as int, 0, Some(ps)),
            kept.1 == wilson(ints(kept.0@), ps),
            kept.2 == squared(ints(kept.0@), ps),
            scan(b, rows, radius as int, ps, k as int, fixed, acc0) == scan_row(
                b,
                rows,
                radius as int,
                ps,
                k as int,
                fixed,
                t as int,
                ints(kept.0@),
            ),
        decreases t + radius + 1,
    {
        let ghost before = ints(kept.0@);
        let ghost pre = steps@;
        steps.set(k - 1, t);
        proof {
            assert(steps@ == pre.update(k - 1, t));
            assert forall|i: int| k <= i < lattice.len() implies steps@[i] == old(steps)@[i] by {
                assert(steps@[i] == pre[i]);
            }
            assert forall|i: int| k - 1 <= i < steps.len() implies -radius <= #[trigger] steps@[i] <= radius by {
                if i >= k {
                    assert(steps@[i] == old(steps)@[i]);
                } else {
                    assert(steps@[i] == t);
                }
            }
            let lhs = ints(steps@.subrange(k - 1, lattice.len() as int));
            let rhs = seq![t as int] + fixed;
            crate::vector::lemma_ints_len(steps@.subrange(k - 1, lattice.len() as int));
            crate::vector::lemma_ints_len(old(steps)@.subrange(k as int, lattice.len() as int));
            assert(lhs.len() == rhs.len());
            assert forall|j: int| 0 <= j < lhs.len() implies lhs[j] == rhs[j] by {
                if j > 0 {
                    assert(rhs[j] == fixed[j - 1]);
                    assert(fixed[j - 1] == old(steps)@[k + j - 1]);
                    assert(steps@[k + j - 1] == old(steps)@[k + j - 1]);
                }
            }
            assert(lhs =~= rhs);
        }
        scan_exec(base, lattice, radius, primes, k - 1, steps, kept);
        t = t - 1;
    }
    proof {
        assert(scan_row(b, rows, radius as int, ps, k as int, fixed, t as int, ints(kept.0@)) == ints(kept.0@));
    }
}

/// Every interval the search looks at from `best` on: the ball around it,
/// and, where the search moves on to a simpler one, everything from there
/// on.
pub open spec fn walk_seen(best: Seq<int>, lattice: Seq<Seq<int>>, radius: int, primes: Seq<u32>) -> Set<Key>
    decreases wilson(best, primes), squared(best, primes),
{
    let ball = box_keys(best, lattice, radius, 0, Some(primes));
    let next = ball_next(best, lattice, radius, primes);
    if simpler(next, best, primes) {
        proof {
            lemma_wilson_nonnegative(next, primes, next.len() as int);
            lemma_squared_nonnegative(next, primes, next.len() as int);
        }
        ball.union(walk_seen(next, lattice, radius, primes))
    } else {
        ball
    }
}

/// Whether the search from `best` on can be computed in `i64`: every ball it
/// walks, up to the one with nothing simpler.
pub open spec fn seen_ok(best: Seq<int>, lattice: Seq<Seq<int>>, radius: int, primes: Seq<u32>) -> bool
    decreases wilson(best, primes), squared(best, primes),
{
    let next = ball_next(best, lattice, radius, primes);
    if !walk_ok(best, lattice, radius, 0, Some(primes)) {
        false
    } else if simpler(next, best, primes) {
        proof {
            lemma_wilson_nonnegative(next, primes, next.len() as int);
            lemma_squared_nonnegative(next, primes, next.len() as int);
        }
        seen_ok(next, lattice, radius, primes)
    } else {
        true
    }
}

/// Whether `result` is the best `cap` of the intervals keyed by `keys`, best
/// first.
pub open spec fn best_of_keys(result: Seq<Vec<i64>>, keys: Set<Key>, cap: nat, primes: Seq<u32>) -> bool {
    &&& result.len() <= cap
    &&& forall|i: int, j: int|
        0 <= i < j < result.len() ==> key_lt(
            point_key(ints(#[trigger] result[i]@), Some(primes)),
            point_key(ints(#[trigger] result[j]@), Some(primes)),
        )
    &&& forall|i: int| 0 <= i < result.len() ==> keys.contains(point_key(ints(#[trigger] result[i]@), Some(primes)))
    &&& forall|q: Key|
        #[trigger] keys.contains(q) ==> (exists|i: int| 0 <= i < result.len() && point_key(ints(result[i]@), Some(primes)) == q)
            || (result.len() == cap && key_lt(point_key(ints(result[result.len() - 1]@), Some(primes)), q))
}

/// Whether a walk of a box keeps the tempered image of its base: every
/// lattice vector maps to unison.
proof fn lemma_walk_keeps_image(
    base: Seq<int>,
    lattice: Seq<Seq<int>>,
    steps: Seq<int>,
    k: int,
    mapping: Seq<Seq<int>>,
)
    requires
        0 <= k,
        k + steps.len() <= lattice.len(),
        forall|i: int| 0 <= i < mapping.len() ==> (#[trigger] mapping[i]).len() == base.len(),
        forall|i: int|
            0 <= i < lattice.len() ==> (#[trigger] lattice[i]).len() == base.len() && apply(mapping, lattice[i]) == zeros(
                mapping.len(),
            ),
    ensures
        apply(mapping, walk_to(base, lattice, steps, k)) == apply(mapping, base),
    decreases steps.len(),
{
    if steps.len() > 0 {
        let t = steps[0];
        let next = add_scaled(base, t, lattice[k]);
        assert(apply(mapping, next) =~= apply(mapping, base)) by {
            assert forall|i: int| 0 <= i < mapping.len() implies #[trigger] apply(mapping, next)[i] == apply(mapping, base)[i] by {
                lemma_dot_prefix_linear_right(mapping[i], base, t, lattice[k], mapping[i].len() as int);
                assert(apply(mapping, lattice[k])[i] == zeros(mapping.len())[i]);
                assert(t * 0 == 0);
            }
        }
        lemma_walk_keeps_image(next, lattice, steps.drop_first(), k + 1, mapping);
    }
}

/// Every interval the search looks at differs from where it started by a
/// member of the comma lattice.
pub proof fn lemma_walk_seen_in_lattice(best: Seq<int>, lattice: Seq<Seq<int>>, radius: int, primes: Seq<u32>, q: Key)
    requires
        walk_seen(best, lattice, radius, primes).contains(q),
        0 <= radius,
        forall|i: int| 0 <= i < lattice.len() ==> (#[trigger] lattice[i]).len() == best.len(),
    ensures
        in_lattice(difference(q.2, best), lattice, best.len()),
    decreases wilson(best, primes), squared(best, primes),
{
    let ball = box_keys(best, lattice, radius, 0, Some(primes));
    let next = ball_next(best, lattice, radius, primes);
    let n = best.len();
    let z = Seq::new(lattice.len(), |i: int| 0int);
    assert forall|j: int| 0 <= j < n implies #[trigger] combination(z, lattice, n)[j] == difference(best, best)[j] by {
        crate::vector::lemma_dot_prefix_zero_left(z, crate::vector::column(lattice, j), lattice.len() as int);
    }
    assert(combination(z, lattice, n) =~= difference(best, best));
    if ball.contains(q) {
        let steps = choose|steps: Seq<int>|
            steps.len() == lattice.len() - 0 && (forall|i: int| 0 <= i < steps.len() ==> -radius <= #[trigger] steps[i] <= radius)
                && #[trigger] walk_to(best, lattice, steps, 0) == q.2;
        lemma_walk_in_lattice(best, best, lattice, steps, 0);
    } else {
        assert(simpler(next, best, primes));
        lemma_ball_next_in_box(best, lattice, radius, primes);
        lemma_wilson_nonnegative(next, primes, next.len() as int);
        lemma_squared_nonnegative(next, primes, next.len() as int);
        let steps = choose|steps: Seq<int>|
            steps.len() == lattice.len() - 0 && (forall|i: int| 0 <= i < steps.len() ==> -radius <= #[trigger] steps[i] <= radius)
                && #[trigger] walk_to(best, lattice, steps, 0) == next;
        lemma_walk_in_lattice(best, best, lattice, steps, 0);
        lemma_walk_length(best, lattice, steps, 0);
        lemma_walk_seen_in_lattice(next, lattice, radius, primes, q);
        lemma_lattice_add(difference(q.2, next), 1, difference(next, best), lattice, n);
        lemma_walk_seen_keeps_length(next, lattice, radius, primes, q);
        assert(difference(q.2, best) =~= add_scaled(difference(q.2, next), 1, difference(next, best)));
    }
}

/// Every interval the search looks at has the length of where it started.
proof fn lemma_walk_seen_keeps_length(best: Seq<int>, lattice: Seq<Seq<int>>, radius: int, primes: Seq<u32>, q: Key)
    requires
        walk_seen(best, lattice, radius, primes).contains(q),
        0 <= radius,
        forall|i: int| 0 <= i < lattice.len() ==> (#[trigger] lattice[i]).len() == best.len(),
    ensures
        q.2.len() == best.len(),
    decreases wilson(best, primes), squared(best, primes),
{
    let ball = box_keys(best, lattice, radius, 0, Some(primes));
    let next = ball_next(best, lattice, radius, primes);
    if ball.contains(q) {
        let steps = choose|steps: Seq<int>|
            steps.len() == lattice.len() - 0 && (forall|i: int| 0 <= i < steps.len() ==> -radius <= #[trigger] steps[i] <= radius)
                && #[trigger] walk_to(best, lattice, steps, 0) == q.2;
        lemma_walk_length(best, lattice, steps, 0);
    } else {
        assert(simpler(next, best, primes));
        lemma_ball_next_in_box(best, lattice, radius, primes);
        lemma_wilson_nonnegative(next, primes, next.len() as int);
        lemma_squared_nonnegative(next, primes, next.len() as int);
        let steps = choose|steps: Seq<int>|
            steps.len() == lattice.len() - 0 && (forall|i: int| 0 <= i < steps.len() ==> -radius <= #[trigger] steps[i] <= radius)
                && #[trigger] walk_to(best, lattice, steps, 0) == next;
        lemma_walk_length(best, lattice, steps, 0);
        lemma_walk_seen_keeps_length(next, lattice, radius, primes, q);
    }
}

/// Every interval the search looks at has the tempered image of where it
/// started.
pub proof fn lemma_walk_seen_keeps_image(
    best: Seq<int>,
    lattice: Seq<Seq<int>>,
    radius: int,
    primes: Seq<u32>,
    mapping: Seq<Seq<int>>,
    q: Key,
)
    requires
        walk_seen(best, lattice, radius, primes).contains(q),
        0 <= radius,
        forall|i: int| 0 <= i < mapping.len() ==> (#[trigger] mapping[i]).len() == best.len(),
        forall|i: int|
            0 <= i < lattice.len() ==> (#[trigger] lattice[i]).len() == best.len() && apply(mapping, lattice[i]) == zeros(
                mapping.len(),
            ),
    ensures
        apply(mapping, q.2) == apply(mapping, best),
        q.2.len() == best.len(),
        q == point_key(q.2, Some(primes)),
    decreases wilson(best, primes), squared(best, primes),
{
    let ball = box_keys(best, lattice, radius, 0, Some(primes));
    let next = ball_next(best, lattice, radius, primes);
    if ball.contains(q) {
        let steps = choose|steps: Seq<int>|
            steps.len() == lattice.len() - 0 && (forall|i: int| 0 <= i < steps.len() ==> -radius <= #[trigger] steps[i] <= radius)
                && #[trigger] walk_to(best, lattice, steps, 0) == q.2;
        lemma_walk_keeps_image(best, lattice, steps, 0, mapping);
        lemma_walk_length(best, lattice, steps, 0);
    } else {
        assert(simpler(next, best, primes));
        lemma_ball_next_in_box(best, lattice, radius, primes);
        lemma_wilson_nonnegative(next, primes, next.len() as int);
        lemma_squared_nonnegative(next, primes, next.len() as int);
        let steps = choose|steps: Seq<int>|
            steps.len() == lattice.len() - 0 && (forall|i: int| 0 <= i < steps.len() ==> -radius <= #[trigger] steps[i] <= radius)
                && #[trigger] walk_to(best, lattice, steps, 0) == next;
        lemma_walk_keeps_image(best, lattice, steps, 0, mapping);
        lemma_walk_length(best, lattice, steps, 0);
        lemma_walk_seen_keeps_image(next, lattice, radius, primes, mapping, q);
    }
}

/// Taking a vector the mapping sends to unison off an interval keeps its
/// tempered image.
proof fn lemma_difference_keeps_image(a: Seq<int>, b: Seq<int>, mapping: Seq<Seq<int>>)
    requires
        a.len() == b.len(),
        forall|i: int| 0 <= i < mapping.len() ==> (#[trigger] mapping[i]).len() == a.len(),
        apply(mapping, b) == zeros(mapping.len()),
    ensures
        apply(mapping, difference(a, b)) == apply(mapping, a),
{
    let d = difference(a, b);
    assert(d =~= add_scaled(a, -1, b));
    assert forall|i: int| 0 <= i < mapping.len() implies #[trigger] apply(mapping, d)[i] == apply(mapping, a)[i] by {
        let k = mapping[i].len() as int;
        lemma_dot_prefix_linear_right(mapping[i], a, -1, b, k);
        assert(apply(mapping, b)[i] == zeros(mapping.len())[i]);
        assert(apply(mapping, b)[i] == dot(mapping[i], b));
        assert(zeros(mapping.len())[i] == 0);
        assert(dot(mapping[i], b) == 0);
        assert(dot_prefix(mapping[i], add_scaled(a, -1, b), k) == dot_prefix(mapping[i], a, k));
        assert(dot(mapping[i], d) == dot(mapping[i], a));
    }
    assert(apply(mapping, difference(a, b)) =~= apply(mapping, a));
}

/// What a [`Simplifier`] is: the primes of the subgroup, the mapping of the
/// temperament, and a basis of its comma lattice.
pub struct SimplifierView {
    pub basis: Seq<u32>,
    pub mapping: Seq<Seq<int>>,
    pub lattice: Seq<Seq<int>>,
}

/// Whether simplifying `interval` from `interval` less `near` walking balls
/// of `radius` is asked for on inputs it takes: `near`, where there is one,
/// is a member of the comma lattice of the interval's length, and the radius
/// is not negative.
pub open spec fn simplify_fits(v: SimplifierView, interval: Seq<int>, radius: int, near: Option<Vec<i64>>) -> bool {
    &&& near matches Some(n) ==> n.len() == interval.len() && apply(v.mapping, ints(n@)) == zeros(v.mapping.len())
        && in_lattice(ints(n@), v.lattice, interval.len())
    &&& 0 <= radius
}

/// Whether simplifying `interval` from `interval` less `near` walking balls
/// of `radius` can be computed in `i64`: trivially where there is no comma
/// lattice, else the start fits and so does every ball the search walks.
pub open spec fn simplify_ready(v: SimplifierView, interval: Seq<int>, radius: int, near: Option<Vec<i64>>) -> bool {
    v.lattice.len() > 0 ==> all_fit(walk_seed(interval, crate::notation::near_of(near))) && seen_ok(
        walk_seed(interval, crate::notation::near_of(near)),
        v.lattice,
        radius,
        v.basis,
    )
}

/// Rewrites a just interval as the simplest one the temperament makes equal
/// to it.
///
/// The intervals a temperament calls the same are the cosets of its comma
/// lattice, so simplifying is a closest vector problem: shift the interval by
/// whatever comma leaves the least behind. "Simplest" is the Wilson norm
/// `sopfr`, the sum of the prime factors of numerator and denominator. That
/// norm is an L1 norm, which no lattice algorithm takes, so a closest vector
/// under a quadratic stand-in seeds a walk under the norm actually wanted, one
/// ball at a time, until no interval of the ball is simpler.
///
/// This depends on nothing but the temperament being notated, so every
/// notation of a temperament simplifies alike. Where the temperament tempers
/// nothing out there is no lattice and nothing to do.
#[derive(Debug)]
pub struct Simplifier {
    temperament: Temperament,
    lattice: Vec<Vec<i64>>,
}

impl View for Simplifier {
    type V = SimplifierView;

    closed spec fn view(&self) -> SimplifierView {
        SimplifierView { basis: self.temperament@.1, mapping: self.temperament@.0, lattice: rows_of(self.lattice@) }
    }
}

impl Simplifier {
    #[verifier::type_invariant]
    spec fn inv(self) -> bool {
        let v = self@;
        &&& valid_basis(v.basis)
        &&& v.mapping.len() >= 1
        &&& forall|i: int| 0 <= i < v.mapping.len() ==> (#[trigger] v.mapping[i]).len() == v.basis.len()
        &&& forall|e: int|
            0 <= e < v.lattice.len() ==> (#[trigger] v.lattice[e]).len() == v.basis.len() && apply(v.mapping, v.lattice[e])
                == zeros(v.mapping.len())
    }

    /// The simplifier of the temperament `notation` notates, given `lattice`,
    /// a reduced basis of its comma lattice.
    ///
    /// # Errors
    /// Returns [`Dimensions::Comma`] for the first member of `lattice` that is
    /// not an interval of the subgroup.
    pub fn new(notation: &Notation, lattice: Vec<Vec<i64>>) -> (r: Result<Simplifier, Error>)
        requires
            forall|e: int|
                0 <= e < lattice.len() && (#[trigger] lattice@[e]).len() == notation@.basis.len() ==> apply(
                    notation@.mapping,
                    ints(lattice@[e]@),
                ) == zeros(notation@.mapping.len()),
        ensures
            r is Ok <==> forall|e: int| 0 <= e < lattice.len() ==> (#[trigger] lattice@[e]).len() == notation@.basis.len(),
            r matches Ok(s) ==> s@ == (SimplifierView {
                basis: notation@.basis,
                mapping: notation@.mapping,
                lattice: rows_of(lattice@),
            }),
            r matches Err(e) ==> exists|k: int|
                0 <= k < lattice.len() && lattice@[k].len() != notation@.basis.len() && (forall|j: int|
                    0 <= j < k ==> (#[trigger] lattice@[j]).len() == notation@.basis.len()) && e == Error::InvalidDimensions(
                    Dimensions::Comma { found: lattice@[k].len(), expected: notation@.basis.len() as usize },
                ),
    {
        let temperament = notation.temperament();
        let dim = notation.dim();
        let mut k: usize = 0;
        while k < lattice.len()
            invariant
                k <= lattice.len(),
                dim == notation@.basis.len(),
                forall|j: int| 0 <= j < k ==> (#[trigger] lattice@[j]).len() == dim,
            decreases lattice.len() - k,
        {
            if lattice[k].len() != dim {
                return Err(Error::InvalidDimensions(Dimensions::Comma { found: lattice[k].len(), expected: dim }));
            }
            k = k + 1;
        }
        let copy = temperament.clone();
        proof {
            assert forall|e: int| 0 <= e < lattice.len() implies (#[trigger] rows_of(lattice@)[e]).len() == dim && apply(
                copy@.0,
                rows_of(lattice@)[e],
            ) == zeros(copy@.0.len()) by {
                assert(rows_of(lattice@)[e] == ints(lattice@[e]@));
            }
            assert forall|i: int| 0 <= i < copy@.0.len() implies (#[trigger] copy@.0[i]).len() == dim by {}
        }
        Ok(Simplifier { temperament: copy, lattice })
    }

    /// The basis of the comma lattice being searched.
    pub fn lattice(&self) -> (l: &Vec<Vec<i64>>)
        ensures
            rows_of(l@) == self@.lattice,
    {
        &self.lattice
    }

    /// The simplest `count` just intervals the temperament makes equal to
    /// `interval`, simplest first, walking balls of `radius` from `interval`
    /// less `near`, the comma closest to it, until no interval of the ball is
    /// simpler: the best `count` of every interval the walk looks at, ranked
    /// by Wilson norm, then quadratic Wilson norm, then exponents. Each ball
    /// is scanned along its last comma outermost and its first innermost, each
    /// from `radius` steps down to `-radius`, and the walk moves on to the
    /// first strictly simplest interval it scans. Every one is tempered as
    /// `interval` is.
    ///
    /// # Errors
    /// Returns [`Dimensions::Interval`] if `interval` does not have one entry
    /// per prime of the subgroup, and [`Error::Overflow`] where the walk leaves 64 bits.
    pub fn simplify_within(&self, interval: &Vec<i64>, radius: i64, count: usize, near: &Option<Vec<i64>>) -> (r: Result<
        Vec<Vec<i64>>,
        Error,
    >)
        requires
            interval.len() == self@.basis.len() ==> simplify_fits(self@, ints(interval@), radius as int, *near),
        ensures
            r is Ok <==> interval.len() == self@.basis.len() && (count > 0 ==> simplify_ready(
                self@,
                ints(interval@),
                radius as int,
                *near,
            )),
            r matches Err(e) ==> e == if interval.len() != self@.basis.len() {
                Error::InvalidDimensions(
                    Dimensions::Interval { found: interval.len(), expected: self@.basis.len() as usize },
                )
            } else {
                Error::Overflow
            },
            r matches Ok(found) ==> count == 0 ==> found.len() == 0,
            r matches Ok(found) ==> count > 0 && self@.lattice.len() == 0 ==> found.len() == 1 && found@[0]@ == interval@,
            r matches Ok(found) ==> count > 0 && self@.lattice.len() > 0 ==> best_of_keys(
                found@,
                walk_seen(walk_seed(ints(interval@), crate::notation::near_of(*near)), self@.lattice, radius as int, self@.basis),
                count as nat,
                self@.basis,
            ),
            r matches Ok(found) ==> forall|i: int|
                0 <= i < found.len() ==> (#[trigger] found@[i]).len() == interval.len() && apply(self@.mapping, ints(found@[i]@))
                    == apply(self@.mapping, ints(interval@)) && in_lattice(
                    difference(ints(found@[i]@), ints(interval@)),
                    self@.lattice,
                    interval.len() as nat,
                ),
    {
        proof {
            use_type_invariant(self);
        }
        let dim = self.temperament.dim();
        if interval.len() != dim {
            return Err(Error::InvalidDimensions(Dimensions::Interval { found: interval.len(), expected: dim }));
        }
        if count == 0 {
            return Ok(Vec::new());
        }
        if self.lattice.len() == 0 {
            let mut only: Vec<Vec<i64>> = Vec::new();
            only.push(crate::accidental::copy_vector(interval));
            proof {
                let c0 = ints(interval@);
                let z = Seq::<int>::empty();
                assert(combination(z, self@.lattice, interval.len() as nat) =~= difference(c0, c0));
                assert(ints(only@[0]@) == c0);
            }
            return Ok(only);
        }
        let ghost v = self@;
        let ghost rows = v.lattice;
        let ghost ps = v.basis;
        let seed = match near {
            Some(n) => match checked_subtract(interval, n) {
                Some(d) => d,
                None => {
                    return Err(Error::Overflow);
                },
            },
            None => crate::accidental::copy_vector(interval),
        };
        let ghost seed_spec = ints(seed@);
        proof {
            assert(seed_spec == walk_seed(ints(interval@), crate::notation::near_of(*near)));
            assert forall|i: int| 0 <= i < seed_spec.len() implies crate::vector::fits(#[trigger] seed_spec[i]) by {}
            match near {
                Some(n) => {
                    lemma_difference_keeps_image(ints(interval@), ints(n@), v.mapping);
                },
                None => {},
            }
        }
        let primes: Option<Vec<u32>> = Some(self.temperament.subgroup().basis().clone());
        let basis = self.temperament.subgroup().basis();
        let mut best = seed;
        let mut list: Vec<Ranked> = Vec::new();
        let ghost mut seen: Set<Key> = Set::empty();
        proof {
            assert(best_of(list@, seen, count as nat));
            assert(walk_seen(seed_spec, rows, radius as int, ps) =~= seen.union(walk_seen(ints(best@), rows, radius as int, ps)));
        }
        loop
            invariant
                v == self@,
                rows == v.lattice,
                ps == v.basis,
                valid_basis(ps),
                basis@ == ps,
                primes matches Some(p) && p@ == ps,
                rows.len() >= 1,
                0 <= radius,
                all_fit(seed_spec),
                forall|i: int| 0 <= i < v.mapping.len() ==> (#[trigger] v.mapping[i]).len() == v.basis.len(),
                forall|e: int|
                    0 <= e < rows.len() ==> (#[trigger] rows[e]).len() == v.basis.len() && apply(v.mapping, rows[e]) == zeros(
                        v.mapping.len(),
                    ),
                dim == ps.len(),
                best.len() == dim,
                count >= 1,
                seed_spec.len() == dim,
                seen_ok(seed_spec, rows, radius as int, ps) == seen_ok(ints(best@), rows, radius as int, ps),
                interval.len() == dim,
                seed_spec == walk_seed(ints(interval@), crate::notation::near_of(*near)),
                count > 0,
                apply(v.mapping, ints(best@)) == apply(v.mapping, ints(interval@)),
                apply(v.mapping, seed_spec) == apply(v.mapping, ints(interval@)),
                best_of(list@, seen, count as nat),
                walk_seen(seed_spec, rows, radius as int, ps) == seen.union(walk_seen(ints(best@), rows, radius as int, ps)),
            ensures
                best_of(list@, walk_seen(seed_spec, rows, radius as int, ps), count as nat),
                seen_ok(seed_spec, rows, radius as int, ps),
            decreases wilson(ints(best@), ps), squared(ints(best@), ps),
        {
            let ghost b = ints(best@);
            proof {
                crate::vector::lemma_ints_len(best@);
                assert forall|i: int| 0 <= i < self.lattice.len() implies (#[trigger] self.lattice@[i]).len() == best.len() by {
                    assert(rows[i] == ints(self.lattice@[i]@));
                }
            }
            let ok = walk_box(&best, &self.lattice, radius, 0, &mut list, count, &primes, Ghost(seen));
            if !ok {
                proof {
                    assert(measure_of(primes) == Some(ps));
                    assert(!walk_ok(b, rows, radius as int, 0, Some(ps)));
                    assert(!seen_ok(b, rows, radius as int, ps));
                    assert(!simplify_ready(v, ints(interval@), radius as int, *near));
                }
                return Err(Error::Overflow);
            }
            let ghost ball = box_keys(b, rows, radius as int, 0, Some(ps));
            proof {
                seen = seen.union(ball);
            }
            proof {
                lemma_base_in_box(b, rows, radius as int);
                lemma_box_points_fit(b, b, rows, radius as int, 0, Some(ps));
            }
            let (w, q) = match measure_exec(&best, basis) {
                Some(n) => n,
                None => {
                    return Err(Error::Overflow);
                },
            };
            let mut steps: Vec<i64> = Vec::new();
            let mut i: usize = 0;
            while i < self.lattice.len()
                invariant
                    i <= self.lattice.len(),
                    steps.len() == i,
                    forall|j: int| 0 <= j < i ==> steps@[j] == 0,
                decreases self.lattice.len() - i,
            {
                steps.push(0);
                i = i + 1;
            }
            let mut kept = (crate::accidental::copy_vector(&best), w, q);
            proof {
                assert(steps@.subrange(self.lattice.len() as int, self.lattice.len() as int) =~= Seq::<i64>::empty());
                assert(ints(Seq::<i64>::empty()) =~= Seq::<int>::empty());
            }
            scan_exec(&best, &self.lattice, radius, basis, self.lattice.len(), &mut steps, &mut kept);
            let improved = kept.1 < w || (kept.1 == w && kept.2 < q);
            let ghost next = ints(kept.0@);
            proof {
                assert(next == ball_next(b, rows, radius as int, ps));
                assert(improved == simpler(next, b, ps));
                assert(walk_seen(b, rows, radius as int, ps) == if improved {
                    ball.union(walk_seen(next, rows, radius as int, ps))
                } else {
                    ball
                });
                assert(seen_ok(b, rows, radius as int, ps) == if improved {
                    seen_ok(next, rows, radius as int, ps)
                } else {
                    true
                });
            }
            if !improved {
                proof {
                    assert(walk_seen(seed_spec, rows, radius as int, ps) =~= seen);
                }
                break;
            }
            best = crate::accidental::copy_vector(&kept.0);
            proof {
                lemma_ball_next_in_box(b, rows, radius as int, ps);
                assert(walk_seen(seed_spec, rows, radius as int, ps) =~= seen.union(walk_seen(next, rows, radius as int, ps)));
                let steps = choose|steps: Seq<int>|
                    steps.len() == rows.len() - 0 && (forall|i: int| 0 <= i < steps.len() ==> -radius <= #[trigger] steps[i] <= radius)
                        && #[trigger] walk_to(b, rows, steps, 0) == next;
                lemma_walk_keeps_image(b, rows, steps, 0, v.mapping);
                lemma_walk_length(b, rows, steps, 0);
                lemma_wilson_nonnegative(next, ps, next.len() as int);
                lemma_squared_nonnegative(next, ps, next.len() as int);
            }
        }
        let ghost keys = walk_seen(seed_spec, rows, radius as int, ps);
        let mut result: Vec<Vec<i64>> = Vec::new();
        let mut i: usize = 0;
        while i < list.len()
            invariant
                i <= list.len(),
                result.len() == i,
                forall|t: int| 0 <= t < i ==> (#[trigger] result@[t])@ == list@[t].point@,
            decreases list.len() - i,
        {
            result.push(crate::accidental::copy_vector(&list[i].point));
            i = i + 1;
        }
        proof {
            assert forall|t: int| 0 <= t < result.len() implies key(#[trigger] list@[t]) == point_key(ints(result@[t]@), Some(ps))
                && (#[trigger] result@[t]).len() == interval.len() && apply(v.mapping, ints(result@[t]@)) == apply(
                v.mapping,
                ints(interval@),
            ) by {
                assert(keys.contains(key(list@[t])));
                lemma_walk_seen_keeps_image(seed_spec, rows, radius as int, ps, v.mapping, key(list@[t]));
                assert(key(list@[t]).2 == ints(result@[t]@));
            }
            assert forall|t: int| 0 <= t < result.len() implies in_lattice(
                difference(ints((#[trigger] result@[t])@), ints(interval@)),
                rows,
                interval.len() as nat,
            ) by {
                let p = ints(result@[t]@);
                assert(keys.contains(key(list@[t])));
                assert(key(list@[t]).2 == p);
                lemma_walk_seen_in_lattice(seed_spec, rows, radius as int, ps, key(list@[t]));
                lemma_walk_seen_keeps_length(seed_spec, rows, radius as int, ps, key(list@[t]));
                match near {
                    Some(n) => {
                        lemma_lattice_add(difference(p, seed_spec), -1, ints(n@), rows, interval.len() as nat);
                        assert(difference(p, ints(interval@)) =~= add_scaled(difference(p, seed_spec), -1, ints(n@)));
                    },
                    None => {
                        assert(seed_spec == ints(interval@));
                    },
                }
            }
            assert forall|a: int, c: int| 0 <= a < c < result.len() implies key_lt(
                point_key(ints(#[trigger] result@[a]@), Some(ps)),
                point_key(ints(#[trigger] result@[c]@), Some(ps)),
            ) by {
                assert(key(list@[a]) == point_key(ints(result@[a]@), Some(ps)));
                assert(key(list@[c]) == point_key(ints(result@[c]@), Some(ps)));
            }
            assert forall|t: int| 0 <= t < result.len() implies keys.contains(point_key(ints(#[trigger] result@[t]@), Some(ps))) by {
                assert(key(list@[t]) == point_key(ints(result@[t]@), Some(ps)));
            }
            assert forall|k: Key| #[trigger] keys.contains(k) implies (exists|t: int|
                0 <= t < result.len() && point_key(ints(result@[t]@), Some(ps)) == k) || (result.len() == count && key_lt(
                point_key(ints(result@[result.len() - 1]@), Some(ps)),
                k,
            )) by {
                if exists|t: int| 0 <= t < list.len() && key(list@[t]) == k {
                    let t = choose|t: int| 0 <= t < list.len() && key(list@[t]) == k;
                    assert(key(list@[t]) == point_key(ints(result@[t]@), Some(ps)));
                } else {
                    assert(key(list@[list.len() - 1]) == point_key(ints(result@[result.len() - 1]@), Some(ps)));
                }
            }
        }
        Ok(result)
    }

    /// The simplest just interval the temperament makes equal to `interval`,
    /// walking balls of [`SEARCH_RADIUS`] from `interval` less `near`, the
    /// comma closest to it. It is tempered as `interval` is.
    ///
    /// # Errors
    /// Returns [`Dimensions::Interval`] if `interval` does not have one entry
    /// per prime of the subgroup, and [`Error::Overflow`] where the walk leaves 64 bits.
    pub fn simplify(&self, interval: &Vec<i64>, near: &Option<Vec<i64>>) -> (r: Result<Vec<i64>, Error>)
        requires
            interval.len() == self@.basis.len() ==> simplify_fits(self@, ints(interval@), SEARCH_RADIUS as int, *near),
        ensures
            r is Ok <==> interval.len() == self@.basis.len() && simplify_ready(
                self@,
                ints(interval@),
                SEARCH_RADIUS as int,
                *near,
            ),
            r matches Err(e) ==> e == if interval.len() != self@.basis.len() {
                Error::InvalidDimensions(
                    Dimensions::Interval { found: interval.len(), expected: self@.basis.len() as usize },
                )
            } else {
                Error::Overflow
            },
            r matches Ok(s) ==> self@.lattice.len() == 0 ==> s@ == interval@,
            r matches Ok(s) ==> self@.lattice.len() > 0 ==> best_of_keys(
                seq![s],
                walk_seen(
                    walk_seed(ints(interval@), crate::notation::near_of(*near)),
                    self@.lattice,
                    SEARCH_RADIUS as int,
                    self@.basis,
                ),
                1,
                self@.basis,
            ),
            r matches Ok(s) ==> s.len() == interval.len() && apply(self@.mapping, ints(s@)) == apply(
                self@.mapping,
                ints(interval@),
            ) && in_lattice(difference(ints(s@), ints(interval@)), self@.lattice, interval.len() as nat),
            r matches Ok(s) ==> self@.lattice.len() > 0 ==> !key_lt(
                point_key(walk_seed(ints(interval@), crate::notation::near_of(*near)), Some(self@.basis)),
                point_key(ints(s@), Some(self@.basis)),
            ),
    {
        let mut found = self.simplify_within(interval, SEARCH_RADIUS, 1, near)?;
        proof {
            use_type_invariant(self);
            if self@.lattice.len() > 0 {
                assert(walk_seed(ints(interval@), crate::notation::near_of(*near)).len() == interval.len());
                let keys = walk_seen(
                    walk_seed(ints(interval@), crate::notation::near_of(*near)),
                    self@.lattice,
                    SEARCH_RADIUS as int,
                    self@.basis,
                );
                lemma_walk_seen_nonempty(
                    walk_seed(ints(interval@), crate::notation::near_of(*near)),
                    self@.lattice,
                    SEARCH_RADIUS as int,
                    self@.basis,
                );
                let k = choose|k: Key| keys.contains(k);
                assert(keys.contains(k));
            }
        }
        let ghost all = found@;
        let s = found.swap_remove(0);
        proof {
            assert(all =~= seq![s]);
            if self@.lattice.len() > 0 {
                let seed = walk_seed(ints(interval@), crate::notation::near_of(*near));
                let keys = walk_seen(seed, self@.lattice, SEARCH_RADIUS as int, self@.basis);
                let q = point_key(seed, Some(self@.basis));
                let k = point_key(ints(s@), Some(self@.basis));
                assert(keys.contains(q));
                assert(point_key(ints(all[0]@), Some(self@.basis)) == k);
                lemma_key_order(k, q, k);
            }
        }
        Ok(s)
    }

    /// The simplest `count` just intervals the temperament makes equal to
    /// `interval`, simplest first, for an end user to cycle through, walking
    /// balls of [`SEARCH_RADIUS`] from `interval` less `near`. Each is
    /// tempered as `interval` is.
    ///
    /// # Errors
    /// Returns [`Dimensions::Interval`] if `interval` does not have one entry
    /// per prime of the subgroup, and [`Error::Overflow`] where the walk leaves 64 bits.
    pub fn candidates(&self, interval: &Vec<i64>, count: usize, near: &Option<Vec<i64>>) -> (r: Result<
        Vec<Vec<i64>>,
        Error,
    >)
        requires
            interval.len() == self@.basis.len() ==> simplify_fits(self@, ints(interval@), SEARCH_RADIUS as int, *near),
        ensures
            r is Ok <==> interval.len() == self@.basis.len() && (count > 0 ==> simplify_ready(
                self@,
                ints(interval@),
                SEARCH_RADIUS as int,
                *near,
            )),
            r matches Err(e) ==> e == if interval.len() != self@.basis.len() {
                Error::InvalidDimensions(
                    Dimensions::Interval { found: interval.len(), expected: self@.basis.len() as usize },
                )
            } else {
                Error::Overflow
            },
            r matches Ok(found) ==> count == 0 ==> found.len() == 0,
            r matches Ok(found) ==> count > 0 && self@.lattice.len() == 0 ==> found.len() == 1 && found@[0]@ == interval@,
            r matches Ok(found) ==> count > 0 && self@.lattice.len() > 0 ==> best_of_keys(
                found@,
                walk_seen(
                    walk_seed(ints(interval@), crate::notation::near_of(*near)),
                    self@.lattice,
                    SEARCH_RADIUS as int,
                    self@.basis,
                ),
                count as nat,
                self@.basis,
            ),
            r matches Ok(found) ==> forall|i: int|
                0 <= i < found.len() ==> (#[trigger] found@[i]).len() == interval.len() && apply(self@.mapping, ints(found@[i]@))
                    == apply(self@.mapping, ints(interval@)) && in_lattice(
                    difference(ints(found@[i]@), ints(interval@)),
                    self@.lattice,
                    interval.len() as nat,
                ),
    {
        self.simplify_within(interval, SEARCH_RADIUS, count, near)
    }
}

/// The walk looks at its start, at least.
proof fn lemma_walk_seen_nonempty(best: Seq<int>, lattice: Seq<Seq<int>>, radius: int, primes: Seq<u32>)
    requires
        0 <= radius,
        forall|i: int| 0 <= i < lattice.len() ==> (#[trigger] lattice[i]).len() == best.len(),
    ensures
        walk_seen(best, lattice, radius, primes).contains(point_key(best, Some(primes))),
{
    lemma_base_in_box(best, lattice, radius);
    assert(box_keys(best, lattice, radius, 0, Some(primes)).contains(point_key(best, Some(primes))));
}

/// Every notation of a temperament simplifies alike: simplifiers made from
/// two notations of one temperament, over one comma basis, find the same
/// simplest interval from the same start.
pub proof fn lemma_every_notation_simplifies_alike(
    first: crate::notation::NotationView,
    second: crate::notation::NotationView,
    lattice: Seq<Seq<int>>,
    seed: Seq<int>,
    a: Vec<i64>,
    b: Vec<i64>,
)
    requires
        first.mapping == second.mapping,
        first.basis == second.basis,
        best_of_keys(seq![a], walk_seen(seed, lattice, SEARCH_RADIUS as int, first.basis), 1, first.basis),
        best_of_keys(seq![b], walk_seen(seed, lattice, SEARCH_RADIUS as int, second.basis), 1, second.basis),
    ensures
        a@ == b@,
{
    let ps = first.basis;
    let ka = point_key(ints(a@), Some(ps));
    let kb = point_key(ints(b@), Some(ps));
    assert(seq![a][0] == a);
    assert(seq![b][0] == b);
    lemma_key_order(ka, kb, ka);
    assert(ka == kb);
    assert forall|i: int| 0 <= i < a@.len() implies a@[i] == b@[i] by {
        assert(ints(a@)[i] == ints(b@)[i]);
    }
    assert(a@ =~= b@);
}

/// The key of a listed interval.
pub open spec fn listed_key(v: Vec<i64>, primes: Seq<u32>) -> Key {
    point_key(ints(v@), Some(primes))
}

/// What ranks before an interval of the best list is listed before it.
proof fn lemma_below_is_listed(a: Seq<Vec<i64>>, keys: Set<Key>, cap: nat, primes: Seq<u32>, i: int, q: Key)
    requires
        best_of_keys(a, keys, cap, primes),
        0 <= i < a.len(),
        keys.contains(q),
        key_lt(q, listed_key(a[i], primes)),
    ensures
        exists|j: int| 0 <= j < i && listed_key(a[j], primes) == q,
{
    let ki = listed_key(a[i], primes);
    lemma_key_order(q, ki, q);
    if exists|j: int| 0 <= j < a.len() && point_key(ints(a[j]@), Some(primes)) == q {
        let j = choose|j: int| 0 <= j < a.len() && point_key(ints(a[j]@), Some(primes)) == q;
        if j > i {
            assert(key_lt(ki, listed_key(a[j], primes)));
        }
        assert(j != i);
        assert(listed_key(a[j], primes) == q);
    } else {
        let last = listed_key(a[a.len() - 1], primes);
        assert(key_lt(last, q));
        if i < a.len() - 1 {
            assert(key_lt(ki, last));
            lemma_key_order(ki, last, q);
            lemma_key_order(q, ki, last);
        }
    }
}

/// Asking for fewer candidates gives a prefix of the list: the best `k` of
/// the intervals the search looks at are the first `k` of its best `m`,
/// for `k` no more than `m`. With `k` one, the first candidate is the
/// simplified interval.
pub proof fn lemma_fewer_candidates_are_a_prefix(
    a: Seq<Vec<i64>>,
    b: Seq<Vec<i64>>,
    keys: Set<Key>,
    m: nat,
    k: nat,
    primes: Seq<u32>,
)
    requires
        best_of_keys(a, keys, m, primes),
        best_of_keys(b, keys, k, primes),
        k <= m,
    ensures
        b.len() == if k < a.len() { k } else { a.len() },
        forall|i: int| 0 <= i < b.len() ==> (#[trigger] b[i])@ == a[i]@,
{
    let n = if a.len() < b.len() { a.len() } else { b.len() };
    assert forall|i: int| 0 <= i < n implies listed_key(#[trigger] a[i], primes) == listed_key(b[i], primes) by {
        lemma_prefix_keys_agree(a, b, keys, m, k, primes, i);
    }
    if b.len() < a.len() && b.len() < k {
        let q = listed_key(a[b.len() as int], primes);
        assert(keys.contains(point_key(ints(a[b.len() as int]@), Some(primes))));
        if exists|j: int| 0 <= j < b.len() && point_key(ints(b[j]@), Some(primes)) == q {
            let j = choose|j: int| 0 <= j < b.len() && point_key(ints(b[j]@), Some(primes)) == q;
            assert(listed_key(a[j], primes) == listed_key(b[j], primes));
            assert(key_lt(listed_key(a[j], primes), listed_key(a[b.len() as int], primes)));
            lemma_key_order(q, q, q);
        }
    }
    if b.len() > a.len() {
        let q = listed_key(b[a.len() as int], primes);
        assert(keys.contains(point_key(ints(b[a.len() as int]@), Some(primes))));
        if exists|j: int| 0 <= j < a.len() && point_key(ints(a[j]@), Some(primes)) == q {
            let j = choose|j: int| 0 <= j < a.len() && point_key(ints(a[j]@), Some(primes)) == q;
            assert(listed_key(a[j], primes) == listed_key(b[j], primes));
            assert(key_lt(listed_key(b[j], primes), listed_key(b[a.len() as int], primes)));
            lemma_key_order(q, q, q);
        }
    }
    assert forall|i: int| 0 <= i < b.len() implies (#[trigger] b[i])@ == a[i]@ by {
        assert(listed_key(a[i], primes) == listed_key(b[i], primes));
        assert(ints(a[i]@) == ints(b[i]@));
        assert forall|t: int| 0 <= t < a[i]@.len() implies a[i]@[t] == b[i]@[t] by {
            assert(ints(a[i]@)[t] == ints(b[i]@)[t]);
        }
        assert(a[i]@ =~= b[i]@);
    }
}

/// Simplifying settles where the search stops: an interval that nothing in
/// its own ball ranks ahead of, searched from itself (no closest vector taken
/// off), comes back as its own simplest form, first of the candidates.
pub proof fn lemma_simplifying_the_settled_settles(
    y: Seq<int>,
    lattice: Seq<Seq<int>>,
    radius: int,
    primes: Seq<u32>,
    found: Seq<Vec<i64>>,
    count: nat,
)
    requires
        0 <= radius,
        forall|i: int| 0 <= i < lattice.len() ==> (#[trigger] lattice[i]).len() == y.len(),
        forall|q: Key|
            #[trigger] box_keys(y, lattice, radius, 0, Some(primes)).contains(q) ==> !key_lt(q, point_key(y, Some(primes))),
        count >= 1,
        best_of_keys(found, walk_seen(y, lattice, radius, primes), count, primes),
    ensures
        found.len() >= 1,
        ints(found[0]@) == y,
{
    let ball = box_keys(y, lattice, radius, 0, Some(primes));
    let next = ball_next(y, lattice, radius, primes);
    let ky = point_key(y, Some(primes));
    lemma_ball_next_in_box(y, lattice, radius, primes);
    if next != y {
        assert(ball.contains(point_key(next, Some(primes))));
    }
    assert(!simpler(next, y, primes));
    assert(walk_seen(y, lattice, radius, primes) == ball);
    lemma_base_in_box(y, lattice, radius);
    assert(ball.contains(ky));
    let k0 = point_key(ints(found[0]@), Some(primes));
    if found.len() == 0 {
        assert(false);
    }
    assert(ball.contains(k0));
    assert(!key_lt(k0, ky));
    if k0 != ky {
        lemma_key_order(ky, k0, ky);
        assert(key_lt(ky, k0));
        if exists|i: int| 0 <= i < found.len() && point_key(ints(found[i]@), Some(primes)) == ky {
            let i = choose|i: int| 0 <= i < found.len() && point_key(ints(found[i]@), Some(primes)) == ky;
            if i > 0 {
                assert(key_lt(k0, point_key(ints(found[i]@), Some(primes))));
            }
            lemma_key_order(k0, ky, k0);
        } else {
            let kl = point_key(ints(found[found.len() - 1]@), Some(primes));
            assert(key_lt(kl, ky));
            if found.len() > 1 {
                assert(key_lt(k0, kl));
                lemma_key_order(k0, kl, ky);
            }
            lemma_key_order(k0, ky, k0);
        }
    }
    assert(k0.2 == ky.2);
}

proof fn lemma_prefix_keys_agree(
    a: Seq<Vec<i64>>,
    b: Seq<Vec<i64>>,
    keys: Set<Key>,
    m: nat,
    k: nat,
    primes: Seq<u32>,
    i: int,
)
    requires
        best_of_keys(a, keys, m, primes),
        best_of_keys(b, keys, k, primes),
        0 <= i < a.len(),
        i < b.len(),
    ensures
        listed_key(a[i], primes) == listed_key(b[i], primes),
    decreases i,
{
    if i > 0 {
        lemma_prefix_keys_agree(a, b, keys, m, k, primes, i - 1);
    }
    assert forall|j: int| 0 <= j < i implies listed_key(#[trigger] a[j], primes) == listed_key(b[j], primes) by {
        lemma_prefix_keys_agree(a, b, keys, m, k, primes, j);
    }
    let ka = listed_key(a[i], primes);
    let kb = listed_key(b[i], primes);
    assert(keys.contains(point_key(ints(a[i]@), Some(primes))));
    assert(keys.contains(point_key(ints(b[i]@), Some(primes))));
    lemma_key_order(ka, kb, ka);
    if key_lt(ka, kb) {
        lemma_below_is_listed(b, keys, k, primes, i, ka);
        let j = choose|j: int| 0 <= j < i && listed_key(b[j], primes) == ka;
        assert(key_lt(listed_key(a[j], primes), ka));
        lemma_key_order(ka, ka, ka);
    } else if key_lt(kb, ka) {
        lemma_below_is_listed(a, keys, m, primes, i, kb);
        let j = choose|j: int| 0 <= j < i && listed_key(a[j], primes) == kb;
        assert(key_lt(listed_key(b[j], primes), kb));
        lemma_key_order(kb, kb, kb);
    }
}

} // verus!
