//! Keeping the best few of many candidates, ranked by two numbers and then
//! by the candidate's own coordinates, so that the order never depends on the
//! order the candidates were visited in.

use vstd::prelude::*;

use crate::vector::ints;

verus! {

/// A candidate with the two numbers it is ranked by.
pub struct Ranked {
    pub first: i128,
    pub second: i128,
    pub point: Vec<i64>,
}

/// What a candidate is ranked by.
pub type Key = (int, int, Seq<int>);

pub open spec fn key(r: Ranked) -> Key {
    (r.first as int, r.second as int, ints(r.point@))
}

/// Lexicographic order on sequences from position `i` on, as `Vec` orders
/// them: the first difference decides, and a proper prefix comes first.
pub open spec fn seq_lt_from(a: Seq<int>, b: Seq<int>, i: int) -> bool
    decreases a.len() - i,
{
    if i < 0 || i >= a.len() {
        0 <= i < b.len()
    } else if i >= b.len() {
        false
    } else if a[i] < b[i] {
        true
    } else if a[i] > b[i] {
        false
    } else {
        seq_lt_from(a, b, i + 1)
    }
}

/// Lexicographic order on sequences.
pub open spec fn seq_lt(a: Seq<int>, b: Seq<int>) -> bool {
    seq_lt_from(a, b, 0)
}

/// The ranking: the first number, then the second, then the coordinates.
pub open spec fn key_lt(a: Key, b: Key) -> bool {
    a.0 < b.0 || (a.0 == b.0 && (a.1 < b.1 || (a.1 == b.1 && seq_lt(a.2, b.2))))
}

/// Whether `list` is strictly increasing in the ranking.
pub open spec fn sorted(list: Seq<Ranked>) -> bool {
    forall|i: int, j: int| 0 <= i < j < list.len() ==> key_lt(key(#[trigger] list[i]), key(#[trigger] list[j]))
}

/// Whether `list` holds the best `cap` of `seen`, best first: it is sorted,
/// holds nothing that was not seen, and everything seen that it does not hold
/// ranks behind all of it, with the list full.
pub open spec fn best_of(list: Seq<Ranked>, seen: Set<Key>, cap: nat) -> bool {
    &&& sorted(list)
    &&& list.len() <= cap
    &&& forall|i: int| 0 <= i < list.len() ==> seen.contains(key(#[trigger] list[i]))
    &&& forall|k: Key|
        #[trigger] seen.contains(k) ==> (exists|i: int| 0 <= i < list.len() && key(list[i]) == k) || (list.len()
            == cap && key_lt(key(list[list.len() - 1]), k))
}

pub proof fn lemma_seq_lt_from_irreflexive(a: Seq<int>, i: int)
    requires
        0 <= i,
    ensures
        !seq_lt_from(a, a, i),
    decreases a.len() - i,
{
    if i < a.len() {
        lemma_seq_lt_from_irreflexive(a, i + 1);
    }
}

pub proof fn lemma_seq_lt_from_transitive(a: Seq<int>, b: Seq<int>, c: Seq<int>, i: int)
    requires
        0 <= i,
        seq_lt_from(a, b, i),
        seq_lt_from(b, c, i),
    ensures
        seq_lt_from(a, c, i),
    decreases a.len() - i,
{
    if i < a.len() && i < b.len() && i < c.len() && a[i] == b[i] && b[i] == c[i] {
        lemma_seq_lt_from_transitive(a, b, c, i + 1);
    }
}

pub proof fn lemma_seq_lt_from_total(a: Seq<int>, b: Seq<int>, i: int)
    requires
        0 <= i <= a.len(),
        i <= b.len(),
        a.subrange(i, a.len() as int) != b.subrange(i, b.len() as int),
    ensures
        seq_lt_from(a, b, i) || seq_lt_from(b, a, i),
    decreases a.len() - i,
{
    if i < a.len() && i < b.len() && a[i] == b[i] {
        if a.subrange(i + 1, a.len() as int) == b.subrange(i + 1, b.len() as int) {
            let sa = a.subrange(i + 1, a.len() as int);
            let sb = b.subrange(i + 1, b.len() as int);
            assert(sa.len() == sb.len());
            assert(a.len() == b.len());
            assert(a.subrange(i, a.len() as int) =~= b.subrange(i, b.len() as int)) by {
                assert forall|t: int| 0 <= t < a.len() - i implies a.subrange(i, a.len() as int)[t] == b.subrange(
                    i,
                    b.len() as int,
                )[t] by {
                    if t > 0 {
                        assert(sa[t - 1] == sb[t - 1]);
                        assert(a.subrange(i, a.len() as int)[t] == sa[t - 1]);
                        assert(b.subrange(i, b.len() as int)[t] == sb[t - 1]);
                    }
                }
            }
        }
        lemma_seq_lt_from_total(a, b, i + 1);
    } else if i == a.len() && i == b.len() {
        assert(a.subrange(i, a.len() as int) =~= b.subrange(i, b.len() as int));
    }
}

pub proof fn lemma_seq_lt_from_asymmetric(a: Seq<int>, b: Seq<int>, i: int)
    requires
        0 <= i,
        seq_lt_from(a, b, i),
    ensures
        !seq_lt_from(b, a, i),
    decreases a.len() - i,
{
    if i < a.len() && i < b.len() && a[i] == b[i] {
        lemma_seq_lt_from_asymmetric(a, b, i + 1);
    }
}

/// The ranking is a strict total order.
pub proof fn lemma_key_order(a: Key, b: Key, c: Key)
    ensures
        !key_lt(a, a),
        key_lt(a, b) ==> !key_lt(b, a),
        key_lt(a, b) && key_lt(b, c) ==> key_lt(a, c),
        a != b ==> key_lt(a, b) || key_lt(b, a),
{
    lemma_seq_lt_from_irreflexive(a.2, 0);
    if seq_lt(a.2, b.2) {
        lemma_seq_lt_from_asymmetric(a.2, b.2, 0);
    }
    if seq_lt(a.2, b.2) && seq_lt(b.2, c.2) {
        lemma_seq_lt_from_transitive(a.2, b.2, c.2, 0);
    }
    if a != b && a.0 == b.0 && a.1 == b.1 {
        assert(a.2 != b.2);
        assert(a.2.subrange(0, a.2.len() as int) =~= a.2);
        assert(b.2.subrange(0, b.2.len() as int) =~= b.2);
        lemma_seq_lt_from_total(a.2, b.2, 0);
    }
}

/// Whether `a` comes before `b` in lexicographic order.
pub fn seq_less(a: &Vec<i64>, b: &Vec<i64>) -> (r: bool)
    ensures
        r == seq_lt(ints(a@), ints(b@)),
{
    let ghost x = ints(a@);
    let ghost y = ints(b@);
    let mut i: usize = 0;
    while i < a.len() && i < b.len() && a[i] == b[i]
        invariant
            x == ints(a@),
            y == ints(b@),
            i <= a.len(),
            i <= b.len(),
            seq_lt(x, y) == seq_lt_from(x, y, i as int),
        decreases a.len() - i,
    {
        assert(x[i as int] == a@[i as int] && y[i as int] == b@[i as int]);
        i = i + 1;
    }
    proof {
        if i < a.len() && i < b.len() {
            assert(x[i as int] == a@[i as int] && y[i as int] == b@[i as int]);
        }
    }
    if i >= a.len() {
        i < b.len()
    } else if i >= b.len() {
        false
    } else {
        a[i] < b[i]
    }
}

/// Whether `a` ranks before `b`.
pub fn ranks_before(a: &Ranked, b: &Ranked) -> (r: bool)
    ensures
        r == key_lt(key(*a), key(*b)),
{
    if a.first != b.first {
        a.first < b.first
    } else if a.second != b.second {
        a.second < b.second
    } else {
        seq_less(&a.point, &b.point)
    }
}

/// Inserts `item` into `list`, which holds the best `cap` of what has been
/// seen, so that it holds the best `cap` of that and `item`.
pub fn insert_ranked(list: &mut Vec<Ranked>, item: Ranked, cap: usize, Ghost(seen): Ghost<Set<Key>>)
    requires
        cap >= 1,
        best_of(old(list)@, seen, cap as nat),
    ensures
        best_of(final(list)@, seen.insert(key(item)), cap as nat),
{
    let ghost old_list = list@;
    let ghost k = key(item);
    let mut pos: usize = 0;
    while pos < list.len() && ranks_before(&list[pos], &item)
        invariant
            pos <= list.len(),
            list@ == old_list,
            k == key(item),
            forall|i: int| 0 <= i < pos ==> key_lt(key(#[trigger] list@[i]), k),
        decreases list.len() - pos,
    {
        assert(key_lt(key(list@[pos as int]), k));
        pos = pos + 1;
    }
    proof {
        assert forall|i: int| pos <= i < list.len() implies !key_lt(key(#[trigger] list@[i]), k) by {
            if i > pos {
                lemma_key_order(key(list@[pos as int]), key(list@[i]), k);
                assert(key_lt(key(list@[pos as int]), key(list@[i])));
            }
        }
    }
    if pos < list.len() && !ranks_before(&item, &list[pos]) {
        proof {
            lemma_key_order(key(list@[pos as int]), k, k);
            assert(key(list@[pos as int]) == k);
            assert forall|x: Key| #[trigger] seen.insert(k).contains(x) implies (exists|i: int|
                0 <= i < list.len() && key(list@[i]) == x) || (list.len() == cap && key_lt(
                key(list@[list.len() - 1]),
                x,
            )) by {
                if x == k {
                    assert(key(list@[pos as int]) == x);
                }
            }
        }
        return;
    }
    if pos >= cap {
        proof {
            assert(pos == list.len() && list.len() == cap);
            assert(key_lt(key(list@[list.len() - 1]), k));
        }
        return;
    }
    list.insert(pos, item);
    proof {
        assert forall|i: int, j: int| 0 <= i < j < list.len() implies key_lt(
            key(#[trigger] list@[i]),
            key(#[trigger] list@[j]),
        ) by {
            if i < pos && j == pos {
            } else if i == pos && j > pos {
                assert(list@[j] == old_list[j - 1]);
                assert(!key_lt(key(old_list[j - 1]), k));
                lemma_key_order(k, key(old_list[j - 1]), k);
                if k == key(old_list[j - 1]) {
                    assert(j - 1 == pos);
                }
            } else if i < pos && j > pos {
                assert(list@[j] == old_list[j - 1]);
                assert(list@[i] == old_list[i]);
                assert(key_lt(key(old_list[i]), key(old_list[j - 1])));
            } else if i > pos {
                assert(list@[j] == old_list[j - 1]);
                assert(list@[i] == old_list[i - 1]);
            } else {
                assert(list@[j] == old_list[j]);
                assert(list@[i] == old_list[i]);
            }
        }
    }
    let ghost inserted = list@;
    if list.len() > cap {
        let removed = list.pop();
        proof {
            let last = inserted[cap as int];
            assert(list@ == inserted.subrange(0, cap as int));
            assert forall|x: Key| #[trigger] seen.insert(k).contains(x) implies (exists|i: int|
                0 <= i < list.len() && key(list@[i]) == x) || (list.len() == cap && key_lt(
                key(list@[list.len() - 1]),
                x,
            )) by {
                if x == k {
                    if pos < cap {
                        assert(key(list@[pos as int]) == x);
                    }
                } else if exists|i: int| 0 <= i < old_list.len() && key(old_list[i]) == x {
                    let i = choose|i: int| 0 <= i < old_list.len() && key(old_list[i]) == x;
                    let j = if i < pos { i } else { i + 1 };
                    assert(key(inserted[j]) == x);
                    if j < cap {
                        assert(key(list@[j]) == x);
                    } else {
                        assert(j == cap);
                        assert(key_lt(key(inserted[cap - 1]), key(inserted[cap as int])));
                    }
                } else {
                    assert(old_list.len() == cap && key_lt(key(old_list[old_list.len() - 1]), x));
                    let o = old_list[old_list.len() - 1];
                    assert(inserted[cap as int] == o);
                    assert(key_lt(key(inserted[cap - 1]), key(o)));
                    lemma_key_order(key(inserted[cap - 1]), key(o), x);
                }
            }
            assert forall|i: int| 0 <= i < list.len() implies seen.insert(k).contains(key(#[trigger] list@[i])) by {
                assert(list@[i] == inserted[i]);
                if i < pos {
                    assert(inserted[i] == old_list[i]);
                } else if i > pos {
                    assert(inserted[i] == old_list[i - 1]);
                }
            }
        }
    } else {
        proof {
            assert forall|x: Key| #[trigger] seen.insert(k).contains(x) implies (exists|i: int|
                0 <= i < list.len() && key(list@[i]) == x) || (list.len() == cap && key_lt(
                key(list@[list.len() - 1]),
                x,
            )) by {
                if x == k {
                    assert(key(list@[pos as int]) == x);
                } else if exists|i: int| 0 <= i < old_list.len() && key(old_list[i]) == x {
                    let i = choose|i: int| 0 <= i < old_list.len() && key(old_list[i]) == x;
                    let j = if i < pos { i } else { i + 1 };
                    assert(key(list@[j]) == x);
                } else {
                    assert(old_list.len() == cap);
                    assert(false);
                }
            }
            assert forall|i: int| 0 <= i < list.len() implies seen.insert(k).contains(key(#[trigger] list@[i])) by {
                if i < pos {
                    assert(list@[i] == old_list[i]);
                } else if i > pos {
                    assert(list@[i] == old_list[i - 1]);
                }
            }
        }
    }
}

} // verus!
