//! What a written note costs to read.
//!
//! Notation coordinates are the octave, the fifth, then one count per
//! accidental. A sharp is seven fifths, and an accidental is at most half an
//! apotome, so two marks are worth a sharp: seven for a mark, two for a fifth.

use vstd::prelude::*;

use crate::vector::{fits, ints};

verus! {

/// The middle of the seven naturals, as a fifth coordinate: `F C G D A E B`
/// are the fifth coordinates `-1` to `5`, so `D` at `2` is the middle.
pub const NOMINAL_CENTRE: i64 = 2;

/// What a fifth costs.
pub const COST_FIFTH: i64 = 2;

/// What an accidental mark costs. A sharp is worth two marks.
pub const COST_MARK: i64 = 7;

/// The degree of the octave and of the fifth: how many letters up they move a
/// note. Every accidental has degree zero.
pub const DEGREE_OCTAVE: i64 = 7;

/// The degree of the fifth.
pub const DEGREE_FIFTH: i64 = 4;

pub open spec fn abs(x: int) -> int {
    if x < 0 {
        -x
    } else {
        x
    }
}

/// The number of accidental marks among coordinates `2..k`.
pub open spec fn marks_prefix(c: Seq<int>, k: int) -> int
    decreases k,
{
    if k <= 2 {
        0
    } else {
        marks_prefix(c, k - 1) + abs(c[k - 1])
    }
}

/// The number of accidental marks of a written note.
pub open spec fn marks(c: Seq<int>) -> int {
    marks_prefix(c, c.len() as int)
}

/// What a written note costs to read: seven for each accidental mark and two
/// for each fifth away from `D`. The octave costs nothing.
pub open spec fn cost(c: Seq<int>) -> int {
    COST_MARK * marks(c) + COST_FIFTH * abs(c[1] - NOMINAL_CENTRE)
}

/// The tie-breaker for [`cost`]: how far along the fifth chain from `D`.
pub open spec fn ties(c: Seq<int>) -> int {
    abs(c[1] - NOMINAL_CENTRE)
}

/// The degree of notation coordinates: how many letters up they sit, seven to
/// the octave and four to the fifth.
pub open spec fn degree_spec(c: Seq<int>) -> int {
    if c.len() == 0 {
        0
    } else if c.len() == 1 {
        DEGREE_OCTAVE * c[0]
    } else {
        DEGREE_OCTAVE * c[0] + DEGREE_FIFTH * c[1]
    }
}

/// Whether [`spelling_cost`] can be computed in `i64`.
pub open spec fn cost_fits(c: Seq<int>) -> bool {
    &&& c.len() >= 2
    &&& forall|i: int| 0 <= i < c.len() ==> #[trigger] c[i] > i64::MIN + NOMINAL_CENTRE
    &&& cost(c) <= i64::MAX
}

pub proof fn lemma_marks_prefix_monotone(c: Seq<int>, j: int, k: int)
    requires
        j <= k,
    ensures
        0 <= marks_prefix(c, j) <= marks_prefix(c, k),
    decreases k,
{
    if k > 2 && j < k {
        lemma_marks_prefix_monotone(c, j, k - 1);
    } else if k > 2 {
        lemma_marks_prefix_monotone(c, 2, k - 1);
    }
}

/// Moving a note by octaves does not change what it costs.
pub proof fn lemma_cost_ignores_the_octave(c: Seq<int>, d: Seq<int>)
    requires
        c.len() == d.len(),
        c.len() >= 2,
        forall|i: int| 1 <= i < c.len() ==> c[i] == d[i],
    ensures
        cost(c) == cost(d),
        ties(c) == ties(d),
{
    assert(marks(c) == marks(d)) by {
        lemma_marks_prefix_agree(c, d, c.len() as int);
    }
}

proof fn lemma_marks_prefix_agree(c: Seq<int>, d: Seq<int>, k: int)
    requires
        k <= c.len(),
        k <= d.len(),
        forall|i: int| 2 <= i < k ==> c[i] == d[i],
    ensures
        marks_prefix(c, k) == marks_prefix(d, k),
    decreases k,
{
    if k > 2 {
        lemma_marks_prefix_agree(c, d, k - 1);
    }
}

/// Whether what a written note costs to read can be computed in `i64`.
pub fn cost_fits_exec(coordinates: &Vec<i64>) -> (r: bool)
    ensures
        r == cost_fits(ints(coordinates@)),
{
    let ghost c = ints(coordinates@);
    if coordinates.len() < 2 {
        return false;
    }
    let mut total: i128 = 0;
    let mut k: usize = 0;
    while k < coordinates.len()
        invariant
            c == ints(coordinates@),
            2 <= coordinates.len(),
            k <= coordinates.len(),
            total == marks_prefix(c, k as int),
            0 <= total <= i64::MAX,
            forall|i: int| 0 <= i < k ==> #[trigger] c[i] > i64::MIN + NOMINAL_CENTRE,
        decreases coordinates.len() - k,
    {
        let x = coordinates[k];
        if x <= i64::MIN + NOMINAL_CENTRE {
            proof {
                assert(c[k as int] == x);
            }
            return false;
        }
        if k >= 2 {
            let magnitude: i128 = if x < 0 { 0 - (x as i128) } else { x as i128 };
            total = total + magnitude;
            if total > i64::MAX as i128 {
                proof {
                    lemma_marks_prefix_monotone(c, k + 1, c.len() as int);
                }
                return false;
            }
        }
        k = k + 1;
    }
    let fifths = coordinates[1] as i128 - NOMINAL_CENTRE as i128;
    let spread: i128 = if fifths < 0 { 0 - fifths } else { fifths };
    7 * total + 2 * spread <= i64::MAX as i128
}

/// What a written note costs to read: seven for each accidental mark and two
/// for each fifth away from `D`. The octave does not appear at all.
pub fn spelling_cost(coordinates: &Vec<i64>) -> (r: i64)
    requires
        cost_fits(ints(coordinates@)),
    ensures
        r == cost(ints(coordinates@)),
{
    let ghost c = ints(coordinates@);
    let mut total: i64 = 0;
    let mut k: usize = 2;
    proof {
        lemma_marks_prefix_monotone(c, c.len() as int, c.len() as int);
        assert(COST_MARK * marks(c) <= i64::MAX);
    }
    while k < coordinates.len()
        invariant
            c == ints(coordinates@),
            2 <= k <= coordinates.len(),
            cost_fits(c),
            marks(c) <= i64::MAX / 7,
            total == marks_prefix(c, k as int),
        decreases coordinates.len() - k,
    {
        proof {
            lemma_marks_prefix_monotone(c, k + 1, c.len() as int);
            lemma_marks_prefix_monotone(c, k as int, k as int);
            assert(c[k as int] > i64::MIN + NOMINAL_CENTRE);
        }
        let x = coordinates[k];
        let magnitude: i64 = if x < 0 { 0 - x } else { x };
        total = total + magnitude;
        k = k + 1;
    }
    proof {
        assert(c[1] > i64::MIN + NOMINAL_CENTRE);
    }
    let fifths = coordinates[1] - NOMINAL_CENTRE;
    let distance: i64 = if fifths < 0 { 0 - fifths } else { fifths };
    COST_MARK * total + COST_FIFTH * distance
}

/// The tie-breaker for [`spelling_cost`]: how far along the fifth chain from
/// `D`, so that of two equally cheap notes the one nearer the naturals wins.
pub fn spelling_break_ties(coordinates: &Vec<i64>) -> (r: i64)
    requires
        cost_fits(ints(coordinates@)),
    ensures
        r == ties(ints(coordinates@)),
{
    proof {
        let c = ints(coordinates@);
        lemma_marks_prefix_monotone(c, c.len() as int, c.len() as int);
        assert(c[1] > i64::MIN + NOMINAL_CENTRE);
    }
    let fifths = coordinates[1] - NOMINAL_CENTRE;
    if fifths < 0 {
        0 - fifths
    } else {
        fifths
    }
}

/// The degree of notation coordinates: how many letters up they sit. An
/// octave is seven letters and a fifth four; an accidental keeps the letter.
pub fn degree(coordinates: &Vec<i64>) -> (r: i64)
    requires
        coordinates.len() >= 1 ==> fits(DEGREE_OCTAVE * coordinates@[0]),
        coordinates.len() >= 2 ==> fits(DEGREE_FIFTH * coordinates@[1]) && fits(degree_spec(ints(coordinates@))),
    ensures
        r == degree_spec(ints(coordinates@)),
{
    if coordinates.len() == 0 {
        0
    } else if coordinates.len() == 1 {
        DEGREE_OCTAVE * coordinates[0]
    } else {
        DEGREE_OCTAVE * coordinates[0] + DEGREE_FIFTH * coordinates[1]
    }
}

/// A quadratic stand-in for [`spelling_cost`] over `rank` notation
/// coordinates, for the lattice algorithms, which want a form rather than a
/// count: the squares of what a fifth and a mark cost on the diagonal, and
/// nothing for the octave. Register costs nothing, so the form is only
/// semidefinite, but no enharmonic is a stack of octaves.
pub fn spelling_cost_l2(rank: usize) -> (w: Vec<Vec<i64>>)
    ensures
        w.len() == rank,
        forall|i: int| 0 <= i < rank ==> (#[trigger] w@[i]).len() == rank,
        forall|i: int, j: int|
            0 <= i < rank && 0 <= j < rank ==> #[trigger] w@[i]@[j] == if i != j || i == 0 {
                0
            } else if i == 1 {
                COST_FIFTH * COST_FIFTH
            } else {
                COST_MARK * COST_MARK
            },
{
    let mut w: Vec<Vec<i64>> = Vec::new();
    let mut i: usize = 0;
    while i < rank
        invariant
            i <= rank,
            w.len() == i,
            forall|a: int| 0 <= a < i ==> (#[trigger] w@[a]).len() == rank,
            forall|a: int, b: int|
                0 <= a < i && 0 <= b < rank ==> #[trigger] w@[a]@[b] == if a != b || a == 0 {
                    0
                } else if a == 1 {
                    COST_FIFTH * COST_FIFTH
                } else {
                    COST_MARK * COST_MARK
                },
        decreases rank - i,
    {
        let mut row: Vec<i64> = Vec::new();
        let mut j: usize = 0;
        while j < rank
            invariant
                j <= rank,
                i < rank,
                row.len() == j,
                forall|b: int|
                    0 <= b < j ==> #[trigger] row@[b] == if i != b || i == 0 {
                        0
                    } else if i == 1 {
                        COST_FIFTH * COST_FIFTH
                    } else {
                        COST_MARK * COST_MARK
                    },
            decreases rank - j,
        {
            let value = if i != j || i == 0 {
                0
            } else if i == 1 {
                COST_FIFTH * COST_FIFTH
            } else {
                COST_MARK * COST_MARK
            };
            row.push(value);
            j = j + 1;
        }
        w.push(row);
        i = i + 1;
    }
    w
}

} // verus!
