//! The notations a temperament offers: which accidentals each keeps, and how
//! notations of one size are ranked.
//!
//! Every subset of the accidentals is a candidate. An accidental tempered out
//! is never kept, nor one worth what an earlier accidental is worth, up to
//! direction. A subset must reach every pitch, and an equal temperament
//! keeping any accidental must keep one worth a single step. Of each size the
//! best is the one with fewest primes off their nominals, then the lowest
//! total of what the primes cost on their nominals, then those costs compared
//! one prime at a time, lowest first; a prime with no spelling on its nominal
//! costs more than any that has one. Where all of that ties, the subset that
//! comes first in lexicographic order wins, so the lower primes are kept.

use vstd::prelude::*;

use crate::accidental::Accidental;
use crate::error::{Error, Unsupported};
use crate::notation::{accidental_vectors, accidentals_fit, NominalVerdict};
use crate::temperament::Temperament;
use crate::vector::{apply, apply_fits, ints, is_zero, rows_of, zeros};
use crate::ranking::{key_lt, lemma_key_order, seq_lt, seq_lt_from, Key};

verus! {

/// What an unknown cost counts as: more than any cost there is.
pub const MISSING_COST: i128 = 0x8000_0000_0000_0000;

/// What a total with an unknown cost in it counts as: more than any total of
/// known costs there is.
pub const MISSING_TOTAL: i128 = 0x4000_0000_0000_0000_0000_0000_0000_0000;

/// A cost as it is ranked: itself where it is known, more than any cost
/// where it is not.
pub open spec fn cost_code(c: Option<i64>) -> int {
    match c {
        Some(x) => x as int,
        None => MISSING_COST as int,
    }
}

/// The costs of a verdict as they are ranked, prime by prime.
pub open spec fn cost_codes(costs: Seq<Option<i64>>) -> Seq<int> {
    costs.map_values(|c: Option<i64>| cost_code(c))
}

/// The sum of the known costs among the first `k`.
pub open spec fn cost_sum(costs: Seq<Option<i64>>, k: int) -> int
    decreases k,
{
    if k <= 0 {
        0
    } else {
        cost_sum(costs, k - 1) + match costs[k - 1] {
            Some(x) => x as int,
            None => 0,
        }
    }
}

/// Whether some cost is unknown.
pub open spec fn has_missing(costs: Seq<Option<i64>>) -> bool {
    exists|i: int| 0 <= i < costs.len() && costs[i] is None
}

/// The total of a verdict's costs as it is ranked: their sum where every one
/// is known, more than any sum where one is not.
pub open spec fn total_code(costs: Seq<Option<i64>>) -> int {
    if has_missing(costs) {
        MISSING_TOTAL as int
    } else {
        cost_sum(costs, costs.len() as int)
    }
}

/// What a verdict is ranked by: how many primes fail, the total, then the
/// costs prime by prime.
pub open spec fn verdict_key(v: NominalVerdict) -> Key {
    (v.failures as int, total_code(v.costs@), cost_codes(v.costs@))
}

/// Whether a verdict's costs are what notes cost: never negative, and few
/// enough to total.
pub open spec fn verdict_fits(v: NominalVerdict) -> bool {
    &&& v.costs.len() < 0x1_0000_0000
    &&& forall|i: int| 0 <= i < v.costs.len() ==> (#[trigger] v.costs@[i] matches Some(x) ==> x >= 0)
}

/// Whether a cost is unknown, and the sum of those that are known.
fn total_of(costs: &Vec<Option<i64>>) -> (r: (bool, i128))
    requires
        costs.len() < 0x1_0000_0000,
        forall|i: int| 0 <= i < costs.len() ==> (#[trigger] costs@[i] matches Some(x) ==> x >= 0),
    ensures
        r.0 == has_missing(costs@),
        r.1 == cost_sum(costs@, costs.len() as int),
{
    let mut missing = false;
    let mut sum: i128 = 0;
    let mut k: usize = 0;
    while k < costs.len()
        invariant
            k <= costs.len(),
            costs.len() < 0x1_0000_0000,
            forall|i: int| 0 <= i < costs.len() ==> (#[trigger] costs@[i] matches Some(x) ==> x >= 0),
            missing == exists|i: int| 0 <= i < k && costs@[i] is None,
            sum == cost_sum(costs@, k as int),
            0 <= sum <= k * 0x8000_0000_0000_0000,
        decreases costs.len() - k,
    {
        match costs[k] {
            Some(x) => {
                assert(sum + x <= (k + 1) * 0x8000_0000_0000_0000) by (nonlinear_arith)
                    requires
                        sum <= k * 0x8000_0000_0000_0000,
                        x < 0x8000_0000_0000_0000,
                ;
                assert((k + 1) * 0x8000_0000_0000_0000 <= 0x1_0000_0000 * 0x8000_0000_0000_0000) by (nonlinear_arith)
                    requires
                        k < 0x1_0000_0000,
                ;
                sum = sum + x as i128;
            },
            None => {
                missing = true;
                assert((k + 1) * 0x8000_0000_0000_0000 >= k * 0x8000_0000_0000_0000) by (nonlinear_arith);
            },
        }
        k = k + 1;
    }
    (missing, sum)
}

/// A cost as it is ranked.
fn cost_code_exec(c: Option<i64>) -> (r: i128)
    ensures
        r == cost_code(c),
{
    match c {
        Some(x) => x as i128,
        None => MISSING_COST,
    }
}

/// Whether the costs `a` come before the costs `b`, prime by prime.
fn costs_less(a: &Vec<Option<i64>>, b: &Vec<Option<i64>>) -> (r: bool)
    ensures
        r == seq_lt(cost_codes(a@), cost_codes(b@)),
{
    let ghost x = cost_codes(a@);
    let ghost y = cost_codes(b@);
    let mut i: usize = 0;
    while i < a.len() && i < b.len() && cost_code_exec(a[i]) == cost_code_exec(b[i])
        invariant
            x == cost_codes(a@),
            y == cost_codes(b@),
            i <= a.len(),
            i <= b.len(),
            seq_lt(x, y) == seq_lt_from(x, y, i as int),
        decreases a.len() - i,
    {
        assert(x[i as int] == cost_code(a@[i as int]) && y[i as int] == cost_code(b@[i as int]));
        i = i + 1;
    }
    proof {
        if i < a.len() && i < b.len() {
            assert(x[i as int] == cost_code(a@[i as int]) && y[i as int] == cost_code(b@[i as int]));
        }
    }
    if i >= a.len() {
        i < b.len()
    } else if i >= b.len() {
        false
    } else {
        cost_code_exec(a[i]) < cost_code_exec(b[i])
    }
}

/// Whether the verdict `a` ranks before the verdict `b`: fewer failures,
/// then a lower total, then lower costs prime by prime.
pub fn verdict_less(a: &NominalVerdict, b: &NominalVerdict) -> (r: bool)
    requires
        verdict_fits(*a),
        verdict_fits(*b),
    ensures
        r == key_lt(verdict_key(*a), verdict_key(*b)),
{
    if a.failures != b.failures {
        return a.failures < b.failures;
    }
    let (missing_a, sum_a) = total_of(&a.costs);
    let (missing_b, sum_b) = total_of(&b.costs);
    proof {
        lemma_cost_sum_bound(a.costs@, a.costs.len() as int);
        lemma_cost_sum_bound(b.costs@, b.costs.len() as int);
    }
    let total_a: i128 = if missing_a { MISSING_TOTAL } else { sum_a };
    let total_b: i128 = if missing_b { MISSING_TOTAL } else { sum_b };
    if total_a != total_b {
        return total_a < total_b;
    }
    costs_less(&a.costs, &b.costs)
}

proof fn lemma_cost_sum_bound(costs: Seq<Option<i64>>, k: int)
    requires
        0 <= k <= costs.len() < 0x1_0000_0000,
        forall|i: int| 0 <= i < costs.len() ==> (#[trigger] costs[i] matches Some(x) ==> x >= 0),
    ensures
        0 <= cost_sum(costs, k) < MISSING_TOTAL,
        0 <= cost_sum(costs, k) <= k * 0x8000_0000_0000_0000,
    decreases k,
{
    if k > 0 {
        lemma_cost_sum_bound(costs, k - 1);
        assert(cost_sum(costs, k) <= k * 0x8000_0000_0000_0000) by (nonlinear_arith)
            requires
                cost_sum(costs, k) <= cost_sum(costs, k - 1) + 0x8000_0000_0000_0000,
                cost_sum(costs, k - 1) <= (k - 1) * 0x8000_0000_0000_0000,
        ;
        assert(k * 0x8000_0000_0000_0000 < MISSING_TOTAL) by (nonlinear_arith)
            requires
                k < 0x1_0000_0000,
        ;
    }
}

/// Whether `i` is the first best of `verdicts`: a notation is there, none
/// ranks before it, and it ranks before every one earlier.
pub open spec fn first_best(verdicts: Seq<Option<NominalVerdict>>, i: int) -> bool {
    &&& 0 <= i < verdicts.len()
    &&& verdicts[i] is Some
    &&& forall|j: int|
        0 <= j < verdicts.len() && #[trigger] verdicts[j] is Some ==> !key_lt(
            verdict_key(verdicts[j]->Some_0),
            verdict_key(verdicts[i]->Some_0),
        )
    &&& forall|j: int|
        0 <= j < i && #[trigger] verdicts[j] is Some ==> key_lt(
            verdict_key(verdicts[i]->Some_0),
            verdict_key(verdicts[j]->Some_0),
        )
}

/// The best of the candidates of one size, given each one's verdict, or
/// `None` where it does not reach every pitch: the first whose verdict no
/// other's ranks before, or `None` where no candidate is a notation.
pub fn best_of_size(verdicts: &Vec<Option<NominalVerdict>>) -> (r: Option<usize>)
    requires
        forall|i: int| 0 <= i < verdicts.len() ==> (#[trigger] verdicts@[i] matches Some(v) ==> verdict_fits(v)),
    ensures
        r is None <==> forall|i: int| 0 <= i < verdicts.len() ==> (#[trigger] verdicts@[i]) is None,
        r matches Some(i) ==> first_best(verdicts@, i as int),
{
    let mut best: Option<usize> = None;
    let mut k: usize = 0;
    while k < verdicts.len()
        invariant
            k <= verdicts.len(),
            forall|i: int| 0 <= i < verdicts.len() ==> (#[trigger] verdicts@[i] matches Some(v) ==> verdict_fits(v)),
            best is None <==> forall|i: int| 0 <= i < k ==> (#[trigger] verdicts@[i]) is None,
            best matches Some(b) ==> b < k && first_best(verdicts@.subrange(0, k as int), b as int),
        decreases verdicts.len() - k,
    {
        let ghost before = verdicts@.subrange(0, k as int);
        let ghost after = verdicts@.subrange(0, k + 1);
        match &verdicts[k] {
            None => {
                proof {
                    if let Some(b) = best {
                        assert forall|j: int| 0 <= j < after.len() && #[trigger] after[j] is Some implies !key_lt(
                            verdict_key(after[j]->Some_0),
                            verdict_key(after[b as int]->Some_0),
                        ) by {
                            assert(before[j] == after[j]);
                        }
                        assert forall|j: int| 0 <= j < b && #[trigger] after[j] is Some implies key_lt(
                            verdict_key(after[b as int]->Some_0),
                            verdict_key(after[j]->Some_0),
                        ) by {
                            assert(before[j] == after[j]);
                        }
                    }
                }
            },
            Some(v) => {
                match best {
                    None => {
                        proof {
                            assert forall|j: int| 0 <= j < after.len() && #[trigger] after[j] is Some implies !key_lt(
                                verdict_key(after[j]->Some_0),
                                verdict_key(after[k as int]->Some_0),
                            ) by {
                                if j < k {
                                    assert(verdicts@[j] is None);
                                } else {
                                    lemma_key_order(verdict_key(*v), verdict_key(*v), verdict_key(*v));
                                }
                            }
                            assert forall|j: int| 0 <= j < k && #[trigger] after[j] is Some implies key_lt(
                                verdict_key(after[k as int]->Some_0),
                                verdict_key(after[j]->Some_0),
                            ) by {
                                assert(verdicts@[j] is None);
                            }
                        }
                        best = Some(k);
                    },
                    Some(b) => {
                        let current = match &verdicts[b] {
                            Some(c) => c,
                            None => {
                                proof {
                                    assert(before[b as int] is Some);
                                }
                                return None;
                            },
                        };
                        if verdict_less(v, current) {
                            proof {
                                let kv = verdict_key(*v);
                                let kb = verdict_key(*current);
                                assert forall|j: int| 0 <= j < after.len() && #[trigger] after[j] is Some implies !key_lt(
                                    verdict_key(after[j]->Some_0),
                                    kv,
                                ) by {
                                    let kj = verdict_key(after[j]->Some_0);
                                    if j < k {
                                        assert(before[j] == after[j]);
                                        assert(!key_lt(kj, kb));
                                        lemma_key_order(kj, kv, kb);
                                    } else {
                                        lemma_key_order(kv, kv, kv);
                                    }
                                }
                                assert forall|j: int| 0 <= j < k && #[trigger] after[j] is Some implies key_lt(
                                    kv,
                                    verdict_key(after[j]->Some_0),
                                ) by {
                                    let kj = verdict_key(after[j]->Some_0);
                                    assert(before[j] == after[j]);
                                    assert(!key_lt(kj, kb));
                                    lemma_key_order(kv, kb, kj);
                                    lemma_key_order(kb, kj, kj);
                                    if j < b {
                                        assert(key_lt(kb, kj));
                                    } else if j == b {
                                    } else {
                                        lemma_key_order(kj, kb, kj);
                                    }
                                }
                            }
                            best = Some(k);
                        } else {
                            proof {
                                assert forall|j: int| 0 <= j < after.len() && #[trigger] after[j] is Some implies !key_lt(
                                    verdict_key(after[j]->Some_0),
                                    verdict_key(after[b as int]->Some_0),
                                ) by {
                                    if j < k {
                                        assert(before[j] == after[j]);
                                    }
                                }
                                assert forall|j: int| 0 <= j < b && #[trigger] after[j] is Some implies key_lt(
                                    verdict_key(after[b as int]->Some_0),
                                    verdict_key(after[j]->Some_0),
                                ) by {
                                    assert(before[j] == after[j]);
                                }
                            }
                        }
                    },
                }
            },
        }
        k = k + 1;
    }
    proof {
        assert(verdicts@.subrange(0, verdicts.len() as int) =~= verdicts@);
    }
    best
}

/// The subsets of `items` of size `size`, in lexicographic order: those
/// keeping the first item, then those that do not.
pub open spec fn subsets_spec(items: Seq<usize>, size: nat) -> Seq<Seq<usize>>
    decreases items.len(),
{
    if size == 0 {
        seq![Seq::empty()]
    } else if items.len() == 0 {
        Seq::empty()
    } else {
        subsets_spec(items.drop_first(), (size - 1) as nat).map_values(|r: Seq<usize>| seq![items[0]] + r)
            + subsets_spec(items.drop_first(), size)
    }
}

/// The subsets of `items` from `start` on of size `size`, in lexicographic
/// order.
fn subsets_from(items: &Vec<usize>, start: usize, size: usize) -> (r: Vec<Vec<usize>>)
    requires
        start <= items.len(),
    ensures
        r.len() == subsets_spec(items@.subrange(start as int, items.len() as int), size as nat).len(),
        forall|i: int|
            0 <= i < r.len() ==> (#[trigger] r@[i])@ == subsets_spec(
                items@.subrange(start as int, items.len() as int),
                size as nat,
            )[i],
    decreases items.len() - start,
{
    let ghost rest = items@.subrange(start as int, items.len() as int);
    if size == 0 {
        let mut only: Vec<Vec<usize>> = Vec::new();
        only.push(Vec::new());
        return only;
    }
    if start == items.len() {
        return Vec::new();
    }
    let ghost tail = items@.subrange(start + 1, items.len() as int);
    assert(rest.drop_first() =~= tail);
    let with = subsets_from(items, start + 1, size - 1);
    let ghost with_spec = subsets_spec(tail, (size - 1) as nat).map_values(|r: Seq<usize>| seq![rest[0]] + r);
    let mut result: Vec<Vec<usize>> = Vec::new();
    let mut i: usize = 0;
    while i < with.len()
        invariant
            i <= with.len(),
            start < items.len(),
            rest == items@.subrange(start as int, items.len() as int),
            with.len() == subsets_spec(tail, (size - 1) as nat).len(),
            forall|t: int| 0 <= t < with.len() ==> (#[trigger] with@[t])@ == subsets_spec(tail, (size - 1) as nat)[t],
            with_spec == subsets_spec(tail, (size - 1) as nat).map_values(|r: Seq<usize>| seq![rest[0]] + r),
            result.len() == i,
            forall|t: int| 0 <= t < i ==> (#[trigger] result@[t])@ == with_spec[t],
        decreases with.len() - i,
    {
        let mut subset: Vec<usize> = Vec::new();
        subset.push(items[start]);
        let mut j: usize = 0;
        while j < with[i].len()
            invariant
                i < with.len(),
                j <= with@[i as int].len(),
                subset@ == seq![rest[0]] + with@[i as int]@.subrange(0, j as int),
            decreases with@[i as int].len() - j,
        {
            subset.push(with[i][j]);
            j = j + 1;
            assert(subset@ =~= seq![rest[0]] + with@[i as int]@.subrange(0, j as int));
        }
        assert(subset@ =~= seq![rest[0]] + with@[i as int]@);
        result.push(subset);
        i = i + 1;
    }
    let without = subsets_from(items, start + 1, size);
    let mut k: usize = 0;
    while k < without.len()
        invariant
            k <= without.len(),
            with_spec.len() == with.len(),
            result.len() == with.len() + k,
            without.len() == subsets_spec(tail, size as nat).len(),
            forall|t: int| 0 <= t < without.len() ==> (#[trigger] without@[t])@ == subsets_spec(tail, size as nat)[t],
            forall|t: int| 0 <= t < with.len() ==> (#[trigger] result@[t])@ == with_spec[t],
            forall|t: int| with.len() <= t < result.len() ==> (#[trigger] result@[t])@ == subsets_spec(tail, size as nat)[t - with.len()],
        decreases without.len() - k,
    {
        let copy = copy_indices(&without[k]);
        result.push(copy);
        k = k + 1;
    }
    proof {
        let all = with_spec + subsets_spec(tail, size as nat);
        assert(subsets_spec(rest, size as nat) == all);
        assert forall|t: int| 0 <= t < result.len() implies (#[trigger] result@[t])@ == all[t] by {}
    }
    result
}

/// A copy of a list of indices.
fn copy_indices(v: &Vec<usize>) -> (r: Vec<usize>)
    ensures
        r@ == v@,
{
    let mut r: Vec<usize> = Vec::new();
    let mut i: usize = 0;
    while i < v.len()
        invariant
            i <= v.len(),
            r@ == v@.subrange(0, i as int),
        decreases v.len() - i,
    {
        r.push(v[i]);
        i = i + 1;
        assert(r@ =~= v@.subrange(0, i as int));
    }
    assert(r@ =~= v@);
    r
}

/// The subsets of `items` of size `size`, in lexicographic order, so that the
/// items offered first are the ones kept where there is a choice.
pub fn subsets(items: &Vec<usize>, size: usize) -> (r: Vec<Vec<usize>>)
    ensures
        r.len() == subsets_spec(items@, size as nat).len(),
        forall|i: int| 0 <= i < r.len() ==> (#[trigger] r@[i])@ == subsets_spec(items@, size as nat)[i],
{
    assert(items@.subrange(0, items.len() as int) =~= items@);
    subsets_from(items, 0, size)
}

/// Whether two intervals are worth the same to a temperament up to
/// direction: equal, or each entry the other's negated.
pub open spec fn same_worth(one: Seq<int>, other: Seq<int>) -> bool {
    one == other || forall|i: int| 0 <= i < one.len() && i < other.len() ==> one[i] == -other[i]
}

/// Whether two accidentals are worth the same to the temperament, so that one
/// of them is the other over again. The two may point in opposite
/// directions.
pub fn equal_up_to_sign(one: &Vec<i64>, other: &Vec<i64>) -> (r: bool)
    ensures
        r == same_worth(ints(one@), ints(other@)),
{
    let mut equal = one.len() == other.len();
    let mut opposite = true;
    let mut i: usize = 0;
    while i < one.len()
        invariant
            i <= one.len(),
            equal == (one.len() == other.len() && forall|t: int| 0 <= t < i ==> one@[t] == other@[t]),
            opposite == forall|t: int| 0 <= t < i && t < other.len() ==> one@[t] as int == -(other@[t] as int),
        decreases one.len() - i,
    {
        if i < other.len() {
            if one[i] != other[i] {
                equal = false;
            }
            if one[i] as i128 != -(other[i] as i128) {
                opposite = false;
            }
        } else {
            equal = false;
        }
        i = i + 1;
    }
    proof {
        let a = ints(one@);
        let b = ints(other@);
        if equal {
            assert(a =~= b);
        } else if one.len() == other.len() {
            let t = choose|t: int| 0 <= t < one.len() && one@[t] != other@[t];
            assert(a[t] != b[t]);
        }
        if opposite {
            assert forall|t: int| 0 <= t < a.len() && t < b.len() implies a[t] == -b[t] by {
                assert(a[t] == one@[t] && b[t] == other@[t]);
            }
        } else {
            let t = choose|t: int| 0 <= t < one.len() && t < other.len() && !(one@[t] as int == -(other@[t] as int));
            assert(a[t] == one@[t] && b[t] == other@[t]);
        }
    }
    equal || opposite
}

/// Whether an interval is sent somewhere by the temperament: its image is not
/// the unison.
pub open spec fn useful(image: Seq<int>) -> bool {
    image != zeros(image.len())
}

/// Whether the accidental at `k` is offered: its image is not the unison, and
/// no earlier accidental whose image is not the unison is worth what it is
/// worth.
pub open spec fn offered(images: Seq<Seq<int>>, k: int) -> bool {
    &&& useful(images[k])
    &&& forall|j: int| 0 <= j < k ==> useful(#[trigger] images[j]) ==> !same_worth(images[j], images[k])
}

/// Whether a subset of the offered accidentals may be kept by a temperament
/// of rank `rank`: above rank 1 any may, and an equal temperament keeping any
/// accidental must keep one worth a single step.
pub open spec fn step_rule(subset: Seq<usize>, images: Seq<Seq<int>>, rank: nat) -> bool {
    rank != 1 || subset.len() == 0 || exists|t: int|
        0 <= t < subset.len() && (images[subset[t] as int][0] == 1 || images[subset[t] as int][0] == -1)
}

/// `images` with the image of the accidental at `k` turned the other way.
pub open spec fn negate_image(images: Seq<Seq<int>>, k: int) -> Seq<Seq<int>> {
    images.update(k, images[k].map_values(|x: int| -x))
}

/// The step rule does not care which way an accidental goes: for an equal
/// temperament an accidental worth a step down serves as well as one worth a
/// step up, so turning any accidental's image round keeps what the rule
/// allows, and keeping a lone accidental worth a single step either way is
/// allowed.
pub proof fn lemma_step_rule_ignores_direction(subset: Seq<usize>, images: Seq<Seq<int>>, rank: nat, k: usize)
    requires
        0 <= k < images.len(),
        forall|t: int| 0 <= t < subset.len() ==> (#[trigger] subset[t]) < images.len(),
        forall|i: int| 0 <= i < images.len() ==> (#[trigger] images[i]).len() == rank,
    ensures
        step_rule(subset, images, rank) == step_rule(subset, negate_image(images, k as int), rank),
        rank == 1 && (images[k as int][0] == 1 || images[k as int][0] == -1) ==> step_rule(seq![k], images, rank),
{
    let other = negate_image(images, k as int);
    if rank == 1 && subset.len() > 0 {
        if step_rule(subset, images, rank) {
            let t = choose|t: int|
                0 <= t < subset.len() && (images[subset[t] as int][0] == 1 || images[subset[t] as int][0] == -1);
            assert(other[subset[t] as int][0] == 1 || other[subset[t] as int][0] == -1);
        }
        if step_rule(subset, other, rank) {
            let t = choose|t: int|
                0 <= t < subset.len() && (other[subset[t] as int][0] == 1 || other[subset[t] as int][0] == -1);
            assert(images[subset[t] as int][0] == 1 || images[subset[t] as int][0] == -1);
        }
    }
    if rank == 1 && (images[k as int][0] == 1 || images[k as int][0] == -1) {
        let single = seq![k];
        assert(single[0] == k);
    }
}

/// What the step rule allows: above rank 1 every subset, and for an equal
/// temperament keeping nothing, or keeping some accidental worth exactly one
/// step up or down; a subset of an equal temperament's accidentals none of
/// which is worth a single step is refused, however many steps they are worth.
pub proof fn lemma_step_rule_allows(subset: Seq<usize>, images: Seq<Seq<int>>, rank: nat)
    ensures
        rank != 1 ==> step_rule(subset, images, rank),
        subset.len() == 0 ==> step_rule(subset, images, rank),
        forall|t: int|
            0 <= t < subset.len() && rank == 1 && (images[#[trigger] subset[t] as int][0] == 1 || images[subset[t] as int][0]
                == -1) ==> step_rule(subset, images, rank),
        rank == 1 && subset.len() > 0 && (forall|t: int|
            0 <= t < subset.len() ==> images[#[trigger] subset[t] as int][0] != 1 && images[subset[t] as int][0] != -1)
            ==> !step_rule(subset, images, rank),
{
}

/// Two tests that agree on every item of `s` keep the same items of it.
proof fn lemma_filter_agree(s: Seq<Seq<usize>>, f: spec_fn(Seq<usize>) -> bool, g: spec_fn(Seq<usize>) -> bool)
    requires
        forall|i: int| 0 <= i < s.len() ==> f(#[trigger] s[i]) == g(s[i]),
    ensures
        s.filter(f) == s.filter(g),
    decreases s.len(),
{
    if s.len() > 0 {
        let rest = s.drop_last();
        assert forall|i: int| 0 <= i < rest.len() implies f(#[trigger] rest[i]) == g(rest[i]) by {
            assert(rest[i] == s[i]);
        }
        lemma_filter_agree(rest, f, g);
        reveal(Seq::filter);
        assert(f(s.last()) == g(s.last()));
        assert(s.filter(f) == (if f(s.last()) { rest.filter(f).push(s.last()) } else { rest.filter(f) }));
        assert(s.filter(g) == (if g(s.last()) { rest.filter(g).push(s.last()) } else { rest.filter(g) }));
    }
}

/// Every subset of the indices `0..n` holds indices below `n`.
proof fn lemma_subset_in_range(n: nat, size: nat, i: int)
    requires
        0 <= i < subsets_spec(range(n), size).len(),
    ensures
        forall|t: int|
            0 <= t < subsets_spec(range(n), size)[i].len() ==> (#[trigger] subsets_spec(range(n), size)[i][t]) < n,
{
    lemma_subsets_elements(range(n), size);
    assert forall|t: int| 0 <= t < subsets_spec(range(n), size)[i].len() implies (#[trigger] subsets_spec(
        range(n),
        size,
    )[i][t]) < n by {
        let x = subsets_spec(range(n), size)[i][t];
        assert(range(n).contains(x));
        let j = choose|j: int| 0 <= j < range(n).len() && range(n)[j] == x;
    }
}

/// Which subsets an equal temperament may keep does not depend on which way
/// any accidental goes: the candidates of every size are the same with an
/// accidental's image turned round.
pub proof fn lemma_candidates_ignore_direction(images: Seq<Seq<int>>, rank: nat, size: nat, k: usize)
    requires
        0 <= k < images.len(),
        forall|i: int| 0 <= i < images.len() ==> (#[trigger] images[i]).len() == rank,
    ensures
        candidates_spec(images, rank, size) == candidates_spec(negate_image(images, k as int), rank, size),
{
    let other = negate_image(images, k as int);
    let all = subsets_spec(range(images.len()), size);
    assert forall|i: int| 0 <= i < all.len() implies step_rule(#[trigger] all[i], images, rank) == step_rule(all[i], other, rank) by {
        lemma_subset_in_range(images.len(), size, i);
        lemma_step_rule_ignores_direction(all[i], images, rank, k);
    }
    let f = |s: Seq<usize>| step_rule(s, images, rank);
    let g = |s: Seq<usize>| step_rule(s, other, rank);
    lemma_filter_agree(all, f, g);
}

/// The indices `0..n`.
pub open spec fn range(n: nat) -> Seq<usize> {
    Seq::new(n, |i: int| i as usize)
}

/// The candidates of one size: the subsets of the offered accidentals of that
/// size an equal temperament's step rule allows, in lexicographic order.
pub open spec fn candidates_spec(images: Seq<Seq<int>>, rank: nat, size: nat) -> Seq<Seq<usize>> {
    subsets_spec(range(images.len()), size).filter(|s: Seq<usize>| step_rule(s, images, rank))
}

/// Every subset holds only items it was drawn from.
proof fn lemma_subsets_elements(items: Seq<usize>, size: nat)
    ensures
        forall|i: int, t: int|
            0 <= i < subsets_spec(items, size).len() && 0 <= t < subsets_spec(items, size)[i].len() ==> items.contains(
                #[trigger] subsets_spec(items, size)[i][t],
            ),
    decreases items.len(),
{
    if size > 0 && items.len() > 0 {
        let rest = items.drop_first();
        lemma_subsets_elements(rest, (size - 1) as nat);
        lemma_subsets_elements(rest, size);
        let with = subsets_spec(rest, (size - 1) as nat).map_values(|r: Seq<usize>| seq![items[0]] + r);
        let without = subsets_spec(rest, size);
        assert forall|i: int, t: int|
            0 <= i < subsets_spec(items, size).len() && 0 <= t < subsets_spec(items, size)[i].len() implies items.contains(
            #[trigger] subsets_spec(items, size)[i][t],
        ) by {
            let all = subsets_spec(items, size);
            assert(all == with + without);
            if i < with.len() {
                let r = subsets_spec(rest, (size - 1) as nat)[i];
                assert(all[i] == seq![items[0]] + r);
                if t == 0 {
                    assert(items[0] == all[i][t]);
                } else {
                    assert(all[i][t] == r[t - 1]);
                    assert(rest.contains(r[t - 1]));
                    let w = choose|w: int| 0 <= w < rest.len() && rest[w] == r[t - 1];
                    assert(items[w + 1] == r[t - 1]);
                }
            } else {
                let r = without[i - with.len()];
                assert(all[i] == r);
                assert(rest.contains(r[t]));
                let w = choose|w: int| 0 <= w < rest.len() && rest[w] == r[t];
                assert(items[w + 1] == r[t]);
            }
        }
    }
}

/// Whether some candidate of `verdicts` is a notation.
pub open spec fn any_notation(verdicts: Seq<Option<NominalVerdict>>) -> bool {
    exists|i: int| 0 <= i < verdicts.len() && verdicts[i] is Some
}

/// The best candidate of one size, given each one's verdict, or `None` where
/// it does not reach every pitch.
///
/// # Errors
/// Returns [`Unsupported::NoNotationOfSize`] if no candidate of that size is
/// a notation.
pub fn with_count_from(count: usize, verdicts: &Vec<Option<NominalVerdict>>) -> (r: Result<usize, Error>)
    requires
        forall|i: int| 0 <= i < verdicts.len() ==> (#[trigger] verdicts@[i] matches Some(v) ==> verdict_fits(v)),
    ensures
        r is Ok <==> any_notation(verdicts@),
        r matches Ok(i) ==> first_best(verdicts@, i as int),
        r matches Err(e) ==> e == Error::Unsupported(Unsupported::NoNotationOfSize(count)),
{
    match best_of_size(verdicts) {
        Some(i) => Ok(i),
        None => Err(Error::Unsupported(Unsupported::NoNotationOfSize(count))),
    }
}

/// Whether `list` holds the best candidate of every size that has a
/// notation, smallest size first, as its size and its place among the
/// candidates of that size.
pub open spec fn best_per_size(verdicts: Seq<Vec<Option<NominalVerdict>>>, list: Seq<(usize, usize)>) -> bool {
    &&& forall|j: int|
        0 <= j < list.len() ==> (#[trigger] list[j]).0 < verdicts.len() && first_best(
            verdicts[list[j].0 as int]@,
            list[j].1 as int,
        )
    &&& forall|j: int, k: int| 0 <= j < k < list.len() ==> (#[trigger] list[j]).0 < (#[trigger] list[k]).0
    &&& forall|a: int|
        0 <= a < verdicts.len() && any_notation(#[trigger] verdicts[a]@) ==> exists|j: int| 0 <= j < list.len() && list[j].0 == a
}

/// Whether every size above one that has a notation has one too: adding an
/// accidental to generators that reach every pitch still reaches every pitch.
pub open spec fn sizes_closed_upward(verdicts: Seq<Vec<Option<NominalVerdict>>>) -> bool {
    forall|a: int, b: int|
        0 <= a < b < verdicts.len() && any_notation(#[trigger] verdicts[a]@) ==> any_notation(#[trigger] verdicts[b]@)
}

/// Where every size above one with a notation has one too, the sizes of the
/// best notations run on without a gap: the `j`th is the first plus `j`.
pub proof fn lemma_option_sizes_consecutive(verdicts: Seq<Vec<Option<NominalVerdict>>>, list: Seq<(usize, usize)>)
    requires
        best_per_size(verdicts, list),
        sizes_closed_upward(verdicts),
    ensures
        forall|j: int| 0 <= j < list.len() ==> (#[trigger] list[j]).0 == list[0].0 + j,
{
    assert forall|j: int| 0 <= j < list.len() implies (#[trigger] list[j]).0 == list[0].0 + j by {
        lemma_option_sizes_step(verdicts, list, j);
    }
}

proof fn lemma_option_sizes_step(verdicts: Seq<Vec<Option<NominalVerdict>>>, list: Seq<(usize, usize)>, j: int)
    requires
        best_per_size(verdicts, list),
        sizes_closed_upward(verdicts),
        0 <= j < list.len(),
    ensures
        list[j].0 == list[0].0 + j,
    decreases j,
{
    if j > 0 {
        lemma_option_sizes_step(verdicts, list, j - 1);
        let a = list[j - 1].0 as int;
        let b = list[j].0 as int;
        assert(a < b);
        assert(first_best(verdicts[a]@, list[j - 1].1 as int));
        assert(any_notation(verdicts[a]@));
        if a + 1 < b {
            assert(any_notation(verdicts[a + 1]@));
            let k = choose|k: int| 0 <= k < list.len() && list[k].0 == a + 1;
            if k < j {
                if k < j - 1 {
                    assert(list[k].0 < list[j - 1].0);
                }
            } else if k > j {
                assert(list[j].0 < list[k].0);
            }
        }
    }
}

/// The best notation of each size that has one, smallest first, given the
/// verdict of each candidate of each size, or `None` for one that does not
/// reach every pitch: each as its size and its place among the candidates of
/// that size.
///
/// # Errors
/// Returns [`Unsupported::NoNotation`] if no candidate of any size is a
/// notation.
pub fn options_from(verdicts: &Vec<Vec<Option<NominalVerdict>>>) -> (r: Result<Vec<(usize, usize)>, Error>)
    requires
        forall|s: int, i: int|
            0 <= s < verdicts.len() && 0 <= i < verdicts@[s].len() ==> (#[trigger] verdicts@[s]@[i] matches Some(v)
                ==> verdict_fits(v)),
    ensures
        r is Ok <==> exists|s: int| 0 <= s < verdicts.len() && any_notation(#[trigger] verdicts@[s]@),
        r matches Err(e) ==> e == Error::Unsupported(Unsupported::NoNotation),
        r matches Ok(list) ==> best_per_size(verdicts@, list@),
{
    let mut list: Vec<(usize, usize)> = Vec::new();
    let mut s: usize = 0;
    while s < verdicts.len()
        invariant
            s <= verdicts.len(),
            forall|a: int, i: int|
                0 <= a < verdicts.len() && 0 <= i < verdicts@[a].len() ==> (#[trigger] verdicts@[a]@[i] matches Some(v)
                    ==> verdict_fits(v)),
            forall|j: int|
                0 <= j < list.len() ==> (#[trigger] list@[j]).0 < s && first_best(
                    verdicts@[list@[j].0 as int]@,
                    list@[j].1 as int,
                ),
            forall|j: int, k: int| 0 <= j < k < list.len() ==> (#[trigger] list@[j]).0 < (#[trigger] list@[k]).0,
            forall|a: int|
                0 <= a < s && any_notation(#[trigger] verdicts@[a]@) ==> exists|j: int| 0 <= j < list.len() && list@[j].0 == a,
            list.len() == 0 ==> forall|a: int| 0 <= a < s ==> !any_notation(#[trigger] verdicts@[a]@),
        decreases verdicts.len() - s,
    {
        let ghost before = list@;
        match best_of_size(&verdicts[s]) {
            Some(i) => {
                list.push((s, i));
                proof {
                    assert(list@[list.len() - 1].0 == s);
                }
            },
            None => {},
        }
        proof {
            assert forall|a: int| 0 <= a < s + 1 && any_notation(#[trigger] verdicts@[a]@) implies exists|j: int|
                0 <= j < list.len() && list@[j].0 == a by {
                if a < s {
                    let j = choose|j: int| 0 <= j < before.len() && before[j].0 == a;
                    assert(list@[j] == before[j]);
                } else {
                    let w = choose|w: int| 0 <= w < verdicts@[a]@.len() && verdicts@[a]@[w] is Some;
                    assert(verdicts@[s as int]@[w] is Some);
                    assert(list@[list.len() - 1].0 == a);
                }
            }
        }
        s = s + 1;
    }
    if list.len() == 0 {
        return Err(Error::Unsupported(Unsupported::NoNotation));
    }
    proof {
        let j = 0int;
        assert(first_best(verdicts@[list@[j].0 as int]@, list@[j].1 as int));
        assert(any_notation(verdicts@[list@[j].0 as int]@));
        assert(s == verdicts.len());
        assert(forall|j: int|
            0 <= j < list.len() ==> (#[trigger] list@[j]).0 < verdicts.len() && first_best(
                verdicts@[list@[j].0 as int]@,
                list@[j].1 as int,
            ));
        assert(forall|a: int|
            0 <= a < verdicts.len() && any_notation(#[trigger] verdicts@[a]@) ==> exists|j: int|
                0 <= j < list.len() && list@[j].0 == a);
    }
    Ok(list)
}

/// The option recommended among a run: the smallest that keeps every
/// nominal, or the smallest where none does.
pub fn recommended(keeps: &Vec<bool>) -> (r: usize)
    requires
        keeps.len() >= 1,
    ensures
        r < keeps.len(),
        (exists|i: int| 0 <= i < keeps.len() && keeps@[i]) ==> keeps@[r as int] && forall|i: int| 0 <= i < r ==> !keeps@[i],
        (forall|i: int| 0 <= i < keeps.len() ==> !keeps@[i]) ==> r == 0,
{
    let mut i: usize = 0;
    while i < keeps.len()
        invariant
            i <= keeps.len(),
            forall|t: int| 0 <= t < i ==> !keeps@[t],
        decreases keeps.len() - i,
    {
        if keeps[i] {
            return i;
        }
        i = i + 1;
    }
    0
}

/// What a [`NotationOptions`] is: the temperament, the offered accidentals
/// with where each stood among those it was given, and their images.
pub struct OptionsView {
    pub mapping: Seq<Seq<int>>,
    pub basis: Seq<u32>,
    pub indices: Seq<usize>,
    pub accidentals: Seq<Accidental>,
    pub images: Seq<Seq<int>>,
}

/// The accidentals a temperament may keep, and what each is worth to it.
pub struct NotationOptions {
    temperament: Temperament,
    /// Where each offered accidental stood among those given.
    indices: Vec<usize>,
    /// The offered accidentals.
    accidentals: Vec<Accidental>,
    /// What each offered accidental maps to in the temperament.
    images: Vec<Vec<i64>>,
}

impl View for NotationOptions {
    type V = OptionsView;

    closed spec fn view(&self) -> OptionsView {
        OptionsView {
            mapping: self.temperament@.0,
            basis: self.temperament@.1,
            indices: self.indices@,
            accidentals: self.accidentals@,
            images: rows_of(self.images@),
        }
    }
}

/// Whether `o` are the options of the temperament `(mapping, basis)` over
/// `given`: exactly the offered accidentals, in order, each with its image.
pub open spec fn options_of(o: OptionsView, mapping: Seq<Seq<int>>, basis: Seq<u32>, given: Seq<Accidental>) -> bool {
    let images = accidental_vectors(given).map_values(|a: Seq<int>| apply(mapping, a));
    &&& o.mapping == mapping
    &&& o.basis == basis
    &&& o.indices.len() == o.accidentals.len()
    &&& o.images.len() == o.accidentals.len()
    &&& forall|i: int, j: int| 0 <= i < j < o.indices.len() ==> o.indices[i] < o.indices[j]
    &&& forall|i: int|
        0 <= i < o.indices.len() ==> {
            &&& (#[trigger] o.indices[i]) < given.len()
            &&& offered(images, o.indices[i] as int)
            &&& o.accidentals[i].vector@ == given[o.indices[i] as int].vector@
            &&& o.accidentals[i].symbols == given[o.indices[i] as int].symbols
            &&& o.images[i] == images[o.indices[i] as int]
        }
    &&& forall|k: int| 0 <= k < given.len() && offered(images, k) ==> exists|i: int| 0 <= i < o.indices.len() && o.indices[i] == k
}

/// No offered accidental is tempered out, and no two of them are worth the
/// same to the temperament, up to direction.
pub proof fn lemma_offered_distinct(o: OptionsView, mapping: Seq<Seq<int>>, basis: Seq<u32>, given: Seq<Accidental>)
    requires
        options_of(o, mapping, basis, given),
    ensures
        forall|i: int| 0 <= i < o.images.len() ==> useful(#[trigger] o.images[i]),
        forall|i: int, j: int| 0 <= i < j < o.images.len() ==> !same_worth(#[trigger] o.images[i], #[trigger] o.images[j]),
{
    let images = accidental_vectors(given).map_values(|a: Seq<int>| apply(mapping, a));
    assert forall|i: int| 0 <= i < o.images.len() implies useful(#[trigger] o.images[i]) by {
        assert(offered(images, o.indices[i] as int));
    }
    assert forall|i: int, j: int| 0 <= i < j < o.images.len() implies !same_worth(#[trigger] o.images[i], #[trigger] o.images[j]) by {
        assert(offered(images, o.indices[j] as int));
        assert(offered(images, o.indices[i] as int));
        assert(o.indices[i] < o.indices[j]);
        assert(useful(images[o.indices[i] as int]));
    }
}

impl NotationOptions {
    #[verifier::type_invariant]
    spec fn inv(self) -> bool {
        &&& self.indices.len() == self.accidentals.len()
        &&& self.images.len() == self.accidentals.len()
        &&& forall|i: int| 0 <= i < self.images.len() ==> (#[trigger] self.images@[i]).len() == self.temperament@.0.len()
        &&& self.temperament@.0.len() >= 1
    }

    /// The accidentals `temperament` may keep out of `accidentals`: those it
    /// does not temper out, less any worth what an earlier one is worth.
    ///
    /// # Errors
    /// Returns [`Dimensions::Interval`](crate::error::Dimensions::Interval)
    /// if an accidental is not an interval of the temperament's subgroup.
    pub fn new(temperament: &Temperament, accidentals: &Vec<Accidental>) -> (r: Result<NotationOptions, Error>)
        requires
            forall|k: int|
                0 <= k < accidentals.len() && (#[trigger] accidentals@[k]).vector@.len() == temperament@.1.len()
                    ==> apply_fits(temperament@.0, ints(accidentals@[k].vector@)),
        ensures
            r is Ok <==> accidentals_fit(accidentals@, temperament@.1.len()),
            r matches Ok(o) ==> options_of(o@, temperament@.0, temperament@.1, accidentals@),
            r matches Err(e) ==> exists|k: int|
                0 <= k < accidentals.len() && (#[trigger] accidentals@[k]).vector@.len() != temperament@.1.len()
                    && (forall|t: int| 0 <= t < k ==> (#[trigger] accidentals@[t]).vector@.len() == temperament@.1.len())
                    && e == Error::InvalidDimensions(
                    crate::error::Dimensions::Interval {
                        found: accidentals@[k].vector.len(),
                        expected: temperament@.1.len() as usize,
                    },
                ),
    {
        let ghost t = temperament@;
        let ghost images_spec = accidental_vectors(accidentals@).map_values(|a: Seq<int>| apply(t.0, a));
        let mut vectors: Vec<Vec<i64>> = Vec::new();
        let mut k: usize = 0;
        while k < accidentals.len()
            invariant
                k <= accidentals.len(),
                vectors.len() == k,
                forall|i: int| 0 <= i < k ==> (#[trigger] vectors@[i])@ == accidentals@[i].vector@,
            decreases accidentals.len() - k,
        {
            vectors.push(crate::accidental::copy_vector(&accidentals[k].vector));
            k = k + 1;
        }
        proof {
            assert forall|i: int|
                0 <= i < vectors.len() && (#[trigger] vectors@[i]).len() == t.1.len() implies apply_fits(
                t.0,
                ints(vectors@[i]@),
            ) by {
                assert(vectors@[i]@ == accidentals@[i].vector@);
            }
        }
        let all = match temperament.map_all(&vectors) {
            Ok(images) => images,
            Err(e) => {
                proof {
                    if accidentals_fit(accidentals@, t.1.len()) {
                        assert forall|i: int| 0 <= i < rows_of(vectors@).len() implies (#[trigger] rows_of(vectors@)[i]).len()
                            == t.1.len() by {
                            assert(rows_of(vectors@)[i] == ints(vectors@[i]@));
                            assert(accidentals@[i].vector@.len() == t.1.len());
                        }
                    }
                    let k = choose|k: int|
                        0 <= k < vectors.len() && (#[trigger] vectors@[k]).len() != t.1.len() && (forall|j: int|
                            0 <= j < k ==> (#[trigger] vectors@[j]).len() == t.1.len()) && e == Error::InvalidDimensions(
                            crate::error::Dimensions::Interval { found: vectors@[k].len(), expected: t.1.len() as usize },
                        );
                    assert(vectors@[k]@ == accidentals@[k].vector@);
                    assert forall|j: int| 0 <= j < k implies (#[trigger] accidentals@[j]).vector@.len() == t.1.len() by {
                        assert(vectors@[j]@ == accidentals@[j].vector@);
                    }
                }
                return Err(e);
            },
        };
        proof {
            assert forall|i: int| 0 <= i < accidentals.len() implies (#[trigger] accidentals@[i]).vector@.len() == t.1.len() by {
                assert(rows_of(vectors@)[i] == ints(vectors@[i]@));
            }
            assert forall|i: int| 0 <= i < all.len() implies ints((#[trigger] all@[i])@) == images_spec[i] by {
                assert(ints(vectors@[i]@) == ints(accidentals@[i].vector@));
            }
        }
        let trank = temperament.rank();
        let mut indices: Vec<usize> = Vec::new();
        let mut kept: Vec<Accidental> = Vec::new();
        let mut images: Vec<Vec<i64>> = Vec::new();
        let mut k: usize = 0;
        while k < all.len()
            invariant
                k <= all.len(),
                all.len() == accidentals.len(),
                trank == t.0.len(),
                trank >= 1,
                images_spec.len() == accidentals.len(),
                forall|i: int| 0 <= i < all.len() ==> ints((#[trigger] all@[i])@) == images_spec[i],
                forall|i: int| 0 <= i < images_spec.len() ==> (#[trigger] images_spec[i]).len() == trank,
                indices.len() == kept.len(),
                images.len() == kept.len(),
                forall|i: int| 0 <= i < images.len() ==> (#[trigger] images@[i]).len() == trank,
                forall|i: int, j: int| 0 <= i < j < indices.len() ==> indices@[i] < indices@[j],
                forall|i: int|
                    0 <= i < indices.len() ==> {
                        &&& (#[trigger] indices@[i]) < k
                        &&& offered(images_spec, indices@[i] as int)
                        &&& kept@[i].vector@ == accidentals@[indices@[i] as int].vector@
                        &&& kept@[i].symbols == accidentals@[indices@[i] as int].symbols
                        &&& ints(images@[i]@) == images_spec[indices@[i] as int]
                        &&& images@[i].len() == trank
                    },
                forall|j: int| 0 <= j < k && offered(images_spec, j) ==> exists|i: int| 0 <= i < indices.len() && indices@[i] == j,
            decreases all.len() - k,
        {
            let mut keep = !is_zero(&all[k]);
            proof {
                assert(ints(all@[k as int]@).len() == all@[k as int].len());
                if keep {
                    let z = choose|i: int| 0 <= i < all@[k as int].len() && all@[k as int]@[i] != 0;
                    assert(images_spec[k as int][z] != 0);
                    assert(useful(images_spec[k as int]));
                } else {
                    assert(images_spec[k as int] =~= zeros(images_spec[k as int].len()));
                }
            }
            let mut j: usize = 0;
            while keep && j < k
                invariant
                    j <= k < all.len(),
                    all.len() == accidentals.len(),
                    images_spec.len() == accidentals.len(),
                    forall|i: int| 0 <= i < all.len() ==> ints((#[trigger] all@[i])@) == images_spec[i],
                    keep ==> useful(images_spec[k as int]),
                    keep ==> forall|i: int| 0 <= i < j ==> useful(#[trigger] images_spec[i]) ==> !same_worth(images_spec[i], images_spec[k as int]),
                    !keep ==> !offered(images_spec, k as int),
                decreases k - j,
            {
                let earlier_useful = !is_zero(&all[j]);
                proof {
                    assert(ints(all@[j as int]@).len() == all@[j as int].len());
                    if earlier_useful {
                        let z = choose|i: int| 0 <= i < all@[j as int].len() && all@[j as int]@[i] != 0;
                        assert(images_spec[j as int][z] != 0);
                    } else {
                        assert(images_spec[j as int] =~= zeros(images_spec[j as int].len()));
                    }
                }
                if earlier_useful && equal_up_to_sign(&all[j], &all[k]) {
                    keep = false;
                }
                j = j + 1;
            }
            proof {
                if keep {
                    assert(offered(images_spec, k as int));
                }
            }
            let ghost before = indices@;
            let ghost images_before = images@;
            proof {
                assert(ints(all@[k as int]@).len() == all@[k as int].len());
            }
            if keep {
                indices.push(k);
                kept.push(accidentals[k].clone());
                images.push(crate::accidental::copy_vector(&all[k]));
            }
            proof {
                assert forall|j: int| 0 <= j < k + 1 && offered(images_spec, j) implies exists|i: int|
                    0 <= i < indices.len() && indices@[i] == j by {
                    if j < k {
                        let i = choose|i: int| 0 <= i < before.len() && before[i] == j;
                        assert(indices@[i] == before[i]);
                    } else {
                        assert(indices@[indices.len() - 1] == j);
                    }
                }
            }
            k = k + 1;
        }
        let copy = temperament.clone();
        proof {
            assert(copy@ == t);
            assert(t.0.len() >= 1);
        }
        let options = NotationOptions { temperament: copy, indices, accidentals: kept, images };
        proof {
            let o = options@;
            assert(o.mapping == t.0 && o.basis == t.1);
            assert forall|i: int| 0 <= i < o.indices.len() implies {
                &&& (#[trigger] o.indices[i]) < accidentals.len()
                &&& offered(images_spec, o.indices[i] as int)
                &&& o.accidentals[i].vector@ == accidentals@[o.indices[i] as int].vector@
                &&& o.accidentals[i].symbols == accidentals@[o.indices[i] as int].symbols
                &&& o.images[i] == images_spec[o.indices[i] as int]
            } by {
                assert(rows_of(options.images@)[i] == ints(options.images@[i]@));
                assert(o.indices[i] == options.indices@[i]);
            }
            assert forall|k2: int| 0 <= k2 < accidentals.len() && offered(images_spec, k2) implies exists|i: int|
                0 <= i < o.indices.len() && o.indices[i] == k2 by {
                let i = choose|i: int| 0 <= i < options.indices.len() && options.indices@[i] == k2;
                assert(o.indices[i] == k2);
            }
            assert(options_of(o, t.0, t.1, accidentals@));
        }
        Ok(options)
    }
    /// The offered accidentals, in the order of the primes.
    pub fn accidentals(&self) -> (a: &Vec<Accidental>)
        ensures
            a@ == self@.accidentals,
    {
        &self.accidentals
    }

    /// Where each offered accidental stood among those given.
    pub fn indices(&self) -> (i: &Vec<usize>)
        ensures
            i@ == self@.indices,
    {
        &self.indices
    }

    /// Whether a subset of the offered accidentals obeys the step rule.
    fn obeys_step_rule(&self, subset: &Vec<usize>) -> (r: bool)
        requires
            forall|t: int| 0 <= t < subset.len() ==> (#[trigger] subset@[t]) < self@.images.len(),
        ensures
            r == step_rule(subset@, self@.images, self@.mapping.len()),
    {
        proof {
            use_type_invariant(self);
        }
        if self.temperament.rank() != 1 || subset.len() == 0 {
            return true;
        }
        let mut t: usize = 0;
        while t < subset.len()
            invariant
                t <= subset.len(),
                self@.mapping.len() == 1,
                forall|a: int| 0 <= a < subset.len() ==> (#[trigger] subset@[a]) < self@.images.len(),
                forall|i: int| 0 <= i < self.images.len() ==> (#[trigger] self.images@[i]).len() == self@.mapping.len(),
                forall|a: int|
                    0 <= a < t ==> !(self@.images[subset@[a] as int][0] == 1 || self@.images[subset@[a] as int][0] == -1),
            decreases subset.len() - t,
        {
            let image = &self.images[subset[t]];
            proof {
                assert(self@.images[subset@[t as int] as int] == ints(image@));
            }
            let step = image[0];
            if step == 1 || step == -1 {
                return true;
            }
            t = t + 1;
        }
        false
    }

    /// The candidates of one size: the subsets of the offered accidentals of
    /// that size, as places among them, in lexicographic order, less those an
    /// equal temperament's step rule forbids.
    pub fn candidates(&self, size: usize) -> (r: Vec<Vec<usize>>)
        ensures
            r.len() == candidates_spec(self@.images, self@.mapping.len(), size as nat).len(),
            forall|i: int|
                0 <= i < r.len() ==> (#[trigger] r@[i])@ == candidates_spec(self@.images, self@.mapping.len(), size as nat)[i],
    {
        proof {
            use_type_invariant(self);
        }
        let n = self.images.len();
        let mut items: Vec<usize> = Vec::new();
        let mut k: usize = 0;
        while k < n
            invariant
                k <= n,
                items@ == range(k as nat),
            decreases n - k,
        {
            items.push(k);
            k = k + 1;
            assert(items@ =~= range(k as nat));
        }
        let all = subsets(&items, size);
        let ghost all_spec = subsets_spec(range(n as nat), size as nat);
        let ghost pred = |s: Seq<usize>| step_rule(s, self@.images, self@.mapping.len());
        proof {
            lemma_subsets_elements(range(n as nat), size as nat);
        }
        let mut result: Vec<Vec<usize>> = Vec::new();
        let mut i: usize = 0;
        while i < all.len()
            invariant
                i <= all.len(),
                n == self@.images.len(),
                all.len() == all_spec.len(),
                all_spec == subsets_spec(range(n as nat), size as nat),
                forall|t: int| 0 <= t < all.len() ==> (#[trigger] all@[t])@ == all_spec[t],
                forall|a: int, t: int|
                    0 <= a < all_spec.len() && 0 <= t < all_spec[a].len() ==> range(n as nat).contains(
                        #[trigger] all_spec[a][t],
                    ),
                pred == |s: Seq<usize>| step_rule(s, self@.images, self@.mapping.len()),
                result.len() == all_spec.subrange(0, i as int).filter(pred).len(),
                forall|t: int|
                    0 <= t < result.len() ==> (#[trigger] result@[t])@ == all_spec.subrange(0, i as int).filter(pred)[t],
            decreases all.len() - i,
        {
            proof {
                assert forall|t: int| 0 <= t < all@[i as int].len() implies (#[trigger] all@[i as int]@[t]) < self@.images.len() by {
                    assert(range(n as nat).contains(all_spec[i as int][t]));
                }
            }
            let keep = self.obeys_step_rule(&all[i]);
            let ghost prefix = all_spec.subrange(0, i as int);
            let ghost next = all_spec.subrange(0, i + 1);
            proof {
                assert(next.drop_last() =~= prefix);
                assert(next.last() == all_spec[i as int]);
                reveal(Seq::filter);
                assert(next.filter(pred) == if pred(next.last()) { prefix.filter(pred).push(next.last()) } else {
                    prefix.filter(pred)
                });
            }
            if keep {
                result.push(copy_indices(&all[i]));
            }
            i = i + 1;
        }
        proof {
            assert(all_spec.subrange(0, all.len() as int) =~= all_spec);
        }
        result
    }

    /// The offered accidentals at the places `subset`, in that order.
    pub fn keep(&self, subset: &Vec<usize>) -> (r: Vec<Accidental>)
        requires
            forall|t: int| 0 <= t < subset.len() ==> (#[trigger] subset@[t]) < self@.accidentals.len(),
        ensures
            r.len() == subset.len(),
            forall|t: int|
                0 <= t < subset.len() ==> (#[trigger] r@[t]).vector@ == self@.accidentals[subset@[t] as int].vector@
                    && r@[t].symbols == self@.accidentals[subset@[t] as int].symbols,
    {
        let mut r: Vec<Accidental> = Vec::new();
        let mut t: usize = 0;
        while t < subset.len()
            invariant
                t <= subset.len(),
                r.len() == t,
                forall|a: int| 0 <= a < subset.len() ==> (#[trigger] subset@[a]) < self@.accidentals.len(),
                forall|a: int|
                    0 <= a < t ==> (#[trigger] r@[a]).vector@ == self@.accidentals[subset@[a] as int].vector@
                        && r@[a].symbols == self@.accidentals[subset@[a] as int].symbols,
            decreases subset.len() - t,
        {
            r.push(self.accidentals[subset[t]].clone());
            t = t + 1;
        }
        r
    }

}

} // verus!
