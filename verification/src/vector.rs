//! Integer vectors and matrices, with no music in them.
//!
//! A vector is a `Vec<i64>` and a matrix a `Vec<Vec<i64>>` of rows. Their
//! mathematical models are sequences of unbounded integers, so that sums and
//! products in contracts never wrap; every executable function states, as its
//! precondition, exactly which of its intermediate results must fit in an `i64`.

use vstd::prelude::*;

verus! {

/// Whether an integer fits in an `i64`.
pub open spec fn fits(x: int) -> bool {
    i64::MIN <= x <= i64::MAX
}

/// A vector as a sequence of unbounded integers.
pub open spec fn ints(v: Seq<i64>) -> Seq<int> {
    v.map_values(|x: i64| x as int)
}

/// A matrix as a sequence of rows of unbounded integers.
pub open spec fn rows_of(m: Seq<Vec<i64>>) -> Seq<Seq<int>> {
    m.map_values(|r: Vec<i64>| ints(r@))
}

/// The sum of the first `k` products `a[i] * b[i]`.
pub open spec fn dot_prefix(a: Seq<int>, b: Seq<int>, k: int) -> int
    decreases k,
{
    if k <= 0 {
        0
    } else {
        dot_prefix(a, b, k - 1) + a[k - 1] * b[k - 1]
    }
}

/// The dot product of two vectors, over the length of the first.
pub open spec fn dot(a: Seq<int>, b: Seq<int>) -> int {
    dot_prefix(a, b, a.len() as int)
}

/// Whether computing `dot(a, b)` left to right in `i64` never overflows: every
/// product and every partial sum fits.
pub open spec fn dot_fits(a: Seq<int>, b: Seq<int>) -> bool {
    forall|k: int| 0 <= k < a.len() ==> fits(#[trigger] (a[k] * b[k])) && fits(dot_prefix(a, b, k + 1))
}

/// The matrix `m` applied to the vector `v`: one dot product per row.
pub open spec fn apply(m: Seq<Seq<int>>, v: Seq<int>) -> Seq<int> {
    Seq::new(m.len(), |i: int| dot(m[i], v))
}

/// Whether `apply(m, v)` can be computed in `i64`.
pub open spec fn apply_fits(m: Seq<Seq<int>>, v: Seq<int>) -> bool {
    forall|i: int| 0 <= i < m.len() ==> dot_fits(#[trigger] m[i], v)
}

/// Column `j` of the matrix `m`.
pub open spec fn column(m: Seq<Seq<int>>, j: int) -> Seq<int> {
    Seq::new(m.len(), |k: int| m[k][j])
}

/// The combination `sum_k c[k] * m[k]` of the rows of `m`, over the first
/// `width` columns.
pub open spec fn combination(c: Seq<int>, m: Seq<Seq<int>>, width: nat) -> Seq<int> {
    Seq::new(width, |j: int| dot(c, column(m, j)))
}

/// Whether `combination(c, m, width)` can be computed in `i64`.
pub open spec fn combination_fits(c: Seq<int>, m: Seq<Seq<int>>, width: nat) -> bool {
    forall|j: int| 0 <= j < width ==> dot_fits(c, #[trigger] column(m, j))
}

/// Whether every row of `m` has length `width`.
pub open spec fn has_width(m: Seq<Seq<int>>, width: nat) -> bool {
    forall|i: int| 0 <= i < m.len() ==> (#[trigger] m[i]).len() == width
}

/// The zero vector of length `n`.
pub open spec fn zeros(n: nat) -> Seq<int> {
    Seq::new(n, |i: int| 0int)
}

/// `a + s * b`, entry by entry.
pub open spec fn add_scaled(a: Seq<int>, s: int, b: Seq<int>) -> Seq<int> {
    Seq::new(a.len(), |i: int| a[i] + s * b[i])
}

/// `a - b`, entry by entry.
pub open spec fn difference(a: Seq<int>, b: Seq<int>) -> Seq<int> {
    Seq::new(a.len(), |i: int| a[i] - b[i])
}

/// `-a`, entry by entry.
pub open spec fn neg(a: Seq<int>) -> Seq<int> {
    Seq::new(a.len(), |i: int| -a[i])
}

pub proof fn lemma_ints_len(v: Seq<i64>)
    ensures
        ints(v).len() == v.len(),
        forall|i: int| 0 <= i < v.len() ==> #[trigger] ints(v)[i] == v[i] as int,
{
}

/// A dot product over vectors that agree on the first `k` entries only
/// depends on those entries.
pub proof fn lemma_dot_prefix_agree(a: Seq<int>, b: Seq<int>, a2: Seq<int>, b2: Seq<int>, k: int)
    requires
        0 <= k,
        k <= a.len(),
        k <= a2.len(),
        k <= b.len(),
        k <= b2.len(),
        forall|i: int| 0 <= i < k ==> a[i] == a2[i] && b[i] == b2[i],
    ensures
        dot_prefix(a, b, k) == dot_prefix(a2, b2, k),
    decreases k,
{
    if k > 0 {
        lemma_dot_prefix_agree(a, b, a2, b2, k - 1);
    }
}

/// The dot product is linear in its first argument.
pub proof fn lemma_dot_prefix_linear_left(a: Seq<int>, s: int, c: Seq<int>, b: Seq<int>, k: int)
    requires
        0 <= k <= a.len(),
        a.len() == c.len(),
        k <= b.len(),
    ensures
        dot_prefix(add_scaled(a, s, c), b, k) == dot_prefix(a, b, k) + s * dot_prefix(c, b, k),
    decreases k,
{
    if k > 0 {
        lemma_dot_prefix_linear_left(a, s, c, b, k - 1);
        let x = a[k - 1];
        let y = c[k - 1];
        let z = b[k - 1];
        assert((x + s * y) * z == x * z + s * (y * z)) by (nonlinear_arith);
        let p = dot_prefix(c, b, k - 1);
        assert(s * (p + y * z) == s * p + s * (y * z)) by (nonlinear_arith);
    }
}

/// The dot product is linear in its second argument.
pub proof fn lemma_dot_prefix_linear_right(a: Seq<int>, b: Seq<int>, s: int, c: Seq<int>, k: int)
    requires
        0 <= k <= a.len(),
        k <= b.len(),
        b.len() == c.len(),
    ensures
        dot_prefix(a, add_scaled(b, s, c), k) == dot_prefix(a, b, k) + s * dot_prefix(a, c, k),
    decreases k,
{
    if k > 0 {
        lemma_dot_prefix_linear_right(a, b, s, c, k - 1);
        let x = a[k - 1];
        let y = b[k - 1];
        let z = c[k - 1];
        assert(x * (y + s * z) == x * y + s * (x * z)) by (nonlinear_arith);
        let p = dot_prefix(a, c, k - 1);
        assert(s * (p + x * z) == s * p + s * (x * z)) by (nonlinear_arith);
    }
}

/// A dot product with the zero vector is zero.
pub proof fn lemma_dot_prefix_zero_right(a: Seq<int>, b: Seq<int>, k: int)
    requires
        0 <= k <= b.len(),
        k <= a.len(),
        forall|i: int| 0 <= i < k ==> b[i] == 0,
    ensures
        dot_prefix(a, b, k) == 0,
    decreases k,
{
    if k > 0 {
        lemma_dot_prefix_zero_right(a, b, k - 1);
        assert(a[k - 1] * b[k - 1] == 0) by (nonlinear_arith)
            requires b[k - 1] == 0;
    }
}

/// A dot product whose first argument is zero is zero.
pub proof fn lemma_dot_prefix_zero_left(a: Seq<int>, b: Seq<int>, k: int)
    requires
        0 <= k <= a.len(),
        k <= b.len(),
        forall|i: int| 0 <= i < k ==> a[i] == 0,
    ensures
        dot_prefix(a, b, k) == 0,
    decreases k,
{
    if k > 0 {
        lemma_dot_prefix_zero_left(a, b, k - 1);
        assert(a[k - 1] * b[k - 1] == 0) by (nonlinear_arith)
            requires a[k - 1] == 0;
    }
}

/// The dot product with a unit vector picks out one entry.
pub proof fn lemma_dot_prefix_unit(a: Seq<int>, b: Seq<int>, index: int, k: int)
    requires
        0 <= k <= a.len(),
        k <= b.len(),
        forall|i: int| 0 <= i < k ==> b[i] == if i == index { 1int } else { 0int },
    ensures
        dot_prefix(a, b, k) == if 0 <= index < k { a[index] } else { 0 },
    decreases k,
{
    if k > 0 {
        lemma_dot_prefix_unit(a, b, index, k - 1);
    }
}

/// Whether `v` is sent to zero by the rows of `m`: `sum_k v[k] * m[k]` is the
/// zero vector of length `width`.
pub open spec fn kills(v: Seq<int>, m: Seq<Seq<int>>, width: nat) -> bool {
    combination(v, m, width) == zeros(width)
}

/// Combining the rows of `m` is linear in the coefficients.
pub proof fn lemma_combination_linear(a: Seq<int>, s: int, b: Seq<int>, m: Seq<Seq<int>>, width: nat)
    requires
        a.len() == b.len(),
        a.len() <= m.len(),
    ensures
        combination(add_scaled(a, s, b), m, width) =~= add_scaled(combination(a, m, width), s, combination(b, m, width)),
{
    assert forall|j: int| 0 <= j < width implies #[trigger] combination(add_scaled(a, s, b), m, width)[j] == add_scaled(
        combination(a, m, width),
        s,
        combination(b, m, width),
    )[j] by {
        lemma_dot_prefix_linear_left(a, s, b, column(m, j), a.len() as int);
    }
}

/// Adding a multiple of a vector `m` sends to zero leaves the combination
/// unchanged.
pub proof fn lemma_combination_shift(a: Seq<int>, s: int, b: Seq<int>, m: Seq<Seq<int>>, width: nat)
    requires
        a.len() == b.len(),
        a.len() <= m.len(),
        kills(b, m, width),
    ensures
        combination(add_scaled(a, s, b), m, width) == combination(a, m, width),
{
    lemma_combination_linear(a, s, b, m, width);
    assert(add_scaled(combination(a, m, width), s, combination(b, m, width)) =~= combination(a, m, width)) by {
        assert forall|j: int| 0 <= j < width implies #[trigger] combination(b, m, width)[j] == 0 by {
            assert(combination(b, m, width)[j] == zeros(width)[j]);
        }
    }
}

/// The combination `sum_{i < k} c[i] * basis[i]`, over vectors of length `n`.
pub open spec fn partial_combination(c: Seq<int>, basis: Seq<Seq<int>>, n: nat, k: int) -> Seq<int> {
    Seq::new(n, |t: int| dot_prefix(c, column(basis, t), k))
}

/// Subtracting a vector sent to zero leaves the combination unchanged.
pub proof fn lemma_combination_difference(a: Seq<int>, b: Seq<int>, m: Seq<Seq<int>>, width: nat)
    requires
        a.len() == b.len(),
        a.len() <= m.len(),
        kills(b, m, width),
    ensures
        combination(difference(a, b), m, width) == combination(a, m, width),
{
    lemma_combination_shift(a, -1, b, m, width);
    assert(add_scaled(a, -1, b) =~= difference(a, b));
}

/// The unit vector of length `n` with a one at `index`.
pub open spec fn unit(n: nat, index: int) -> Seq<int> {
    Seq::new(n, |j: int| if j == index { 1int } else { 0int })
}

/// Whether `w` is a left inverse of `m`: `sum_k w[i][k] * m[k]` is the `i`th
/// unit vector of length `width` for every row `i` of `w`.
pub open spec fn left_inverse(w: Seq<Seq<int>>, m: Seq<Seq<int>>, width: nat) -> bool {
    &&& w.len() == width
    &&& forall|i: int| 0 <= i < w.len() ==> (#[trigger] w[i]).len() == m.len() && combination(w[i], m, width) == unit(width, i)
}

/// The images of the rows of `g` under `m`.
pub open spec fn images_of(m: Seq<Seq<int>>, g: Seq<Seq<int>>) -> Seq<Seq<int>> {
    Seq::new(g.len(), |k: int| apply(m, g[k]))
}

/// Combining the rows of `m` by the combination `sum_i t[i] * w[i]` is
/// combining the combinations of the rows of `w`.
pub proof fn lemma_combination_compose(t: Seq<int>, w: Seq<Seq<int>>, n: nat, m: Seq<Seq<int>>, width: nat)
    requires
        t.len() == w.len(),
        n <= m.len(),
        forall|i: int| 0 <= i < w.len() ==> (#[trigger] w[i]).len() == n,
    ensures
        combination(combination(t, w, n), m, width) == combination(
            t,
            Seq::new(w.len(), |i: int| combination(w[i], m, width)),
            width,
        ),
{
    let wm = Seq::new(w.len(), |i: int| combination(w[i], m, width));
    assert forall|j: int| 0 <= j < width implies #[trigger] combination(combination(t, w, n), m, width)[j] == combination(
        t,
        wm,
        width,
    )[j] by {
        lemma_compose_prefix(t, w, n, m, width, j, t.len() as int);
        assert(partial_combination(t, w, n, t.len() as int) =~= combination(t, w, n));
    }
    assert(combination(combination(t, w, n), m, width) =~= combination(t, wm, width));
}

proof fn lemma_compose_prefix(t: Seq<int>, w: Seq<Seq<int>>, n: nat, m: Seq<Seq<int>>, width: nat, j: int, k: int)
    requires
        t.len() == w.len(),
        n <= m.len(),
        0 <= k <= t.len(),
        0 <= j < width,
        forall|i: int| 0 <= i < w.len() ==> (#[trigger] w[i]).len() == n,
    ensures
        dot(partial_combination(t, w, n, k), column(m, j)) == dot_prefix(
            t,
            column(Seq::new(w.len(), |i: int| combination(w[i], m, width)), j),
            k,
        ),
    decreases k,
{
    let wm = Seq::new(w.len(), |i: int| combination(w[i], m, width));
    if k == 0 {
        assert(partial_combination(t, w, n, 0) =~= zeros(n));
        lemma_dot_prefix_zero_left(zeros(n), column(m, j), n as int);
    } else {
        lemma_compose_prefix(t, w, n, m, width, j, k - 1);
        let prev = partial_combination(t, w, n, k - 1);
        assert(partial_combination(t, w, n, k) =~= add_scaled(prev, t[k - 1], w[k - 1]));
        lemma_dot_prefix_linear_left(prev, t[k - 1], w[k - 1], column(m, j), n as int);
        assert(column(wm, j)[k - 1] == combination(w[k - 1], m, width)[j]);
    }
}

/// Combining the unit vectors by `t` gives `t` back.
pub proof fn lemma_combination_units(t: Seq<int>, width: nat)
    requires
        t.len() == width,
    ensures
        combination(t, Seq::new(width, |i: int| unit(width, i)), width) == t,
{
    let units = Seq::new(width, |i: int| unit(width, i));
    assert forall|j: int| 0 <= j < width implies #[trigger] combination(t, units, width)[j] == t[j] by {
        lemma_dot_prefix_unit(t, column(units, j), j, t.len() as int);
    }
    assert(combination(t, units, width) =~= t);
}

/// With a left inverse `w` of `m`, `sum_i t[i] * w[i]` is a combination of
/// the rows of `m` that gives `t`.
pub proof fn lemma_left_inverse_solves(t: Seq<int>, w: Seq<Seq<int>>, m: Seq<Seq<int>>, width: nat)
    requires
        left_inverse(w, m, width),
        t.len() == width,
    ensures
        combination(combination(t, w, m.len()), m, width) == t,
{
    lemma_combination_compose(t, w, m.len(), m, width);
    assert(Seq::new(w.len(), |i: int| combination(w[i], m, width)) =~= Seq::new(width, |i: int| unit(width, i)));
    lemma_combination_units(t, width);
}

/// Applying `m` to a combination of the rows of `g` is combining their
/// images.
pub proof fn lemma_apply_combination(m: Seq<Seq<int>>, c: Seq<int>, g: Seq<Seq<int>>, n: nat)
    requires
        c.len() == g.len(),
        forall|k: int| 0 <= k < g.len() ==> (#[trigger] g[k]).len() == n,
        forall|i: int| 0 <= i < m.len() ==> (#[trigger] m[i]).len() == n,
    ensures
        apply(m, combination(c, g, n)) == combination(c, images_of(m, g), m.len()),
{
    let images = images_of(m, g);
    assert forall|i: int| 0 <= i < m.len() implies #[trigger] apply(m, combination(c, g, n))[i] == combination(
        c,
        images,
        m.len(),
    )[i] by {
        lemma_apply_prefix(m, c, g, n, i, c.len() as int);
        assert(partial_combination(c, g, n, c.len() as int) =~= combination(c, g, n));
    }
    assert(apply(m, combination(c, g, n)) =~= combination(c, images, m.len()));
}

proof fn lemma_apply_prefix(m: Seq<Seq<int>>, c: Seq<int>, g: Seq<Seq<int>>, n: nat, i: int, k: int)
    requires
        c.len() == g.len(),
        0 <= k <= c.len(),
        0 <= i < m.len(),
        forall|t: int| 0 <= t < g.len() ==> (#[trigger] g[t]).len() == n,
        forall|t: int| 0 <= t < m.len() ==> (#[trigger] m[t]).len() == n,
    ensures
        dot(m[i], partial_combination(c, g, n, k)) == dot_prefix(c, column(images_of(m, g), i), k),
    decreases k,
{
    if k == 0 {
        assert(partial_combination(c, g, n, 0) =~= zeros(n));
        lemma_dot_prefix_zero_right(m[i], zeros(n), n as int);
    } else {
        lemma_apply_prefix(m, c, g, n, i, k - 1);
        let prev = partial_combination(c, g, n, k - 1);
        assert(partial_combination(c, g, n, k) =~= add_scaled(prev, c[k - 1], g[k - 1]));
        lemma_dot_prefix_linear_right(m[i], prev, c[k - 1], g[k - 1], n as int);
        assert(column(images_of(m, g), i)[k - 1] == dot(m[i], g[k - 1]));
    }
}

/// Computes `dot(a, b)`, left to right.
pub fn dot_exec(a: &Vec<i64>, b: &Vec<i64>) -> (r: i64)
    requires
        a.len() <= b.len(),
        dot_fits(ints(a@), ints(b@)),
    ensures
        r == dot(ints(a@), ints(b@)),
{
    let mut total: i64 = 0;
    let mut k: usize = 0;
    while k < a.len()
        invariant
            a.len() <= b.len(),
            k <= a.len(),
            dot_fits(ints(a@), ints(b@)),
            total == dot_prefix(ints(a@), ints(b@), k as int),
        decreases a.len() - k,
    {
        proof {
            lemma_ints_len(a@);
            lemma_ints_len(b@);
            assert(fits(ints(a@)[k as int] * ints(b@)[k as int]));
        }
        let product = a[k] * b[k];
        total = total + product;
        k = k + 1;
    }
    total
}

/// Applies the matrix `m` to the vector `v`: one dot product per row.
pub fn apply_exec(m: &Vec<Vec<i64>>, v: &Vec<i64>) -> (r: Vec<i64>)
    requires
        forall|i: int| 0 <= i < m.len() ==> (#[trigger] m@[i]).len() <= v.len(),
        apply_fits(rows_of(m@), ints(v@)),
    ensures
        ints(r@) == apply(rows_of(m@), ints(v@)),
{
    let mut r: Vec<i64> = Vec::new();
    let mut i: usize = 0;
    while i < m.len()
        invariant
            i <= m.len(),
            r.len() == i,
            forall|t: int| 0 <= t < m.len() ==> (#[trigger] m@[t]).len() <= v.len(),
            apply_fits(rows_of(m@), ints(v@)),
            forall|t: int| 0 <= t < i ==> r@[t] as int == dot(rows_of(m@)[t], ints(v@)),
        decreases m.len() - i,
    {
        proof {
            assert(rows_of(m@)[i as int] == ints(m@[i as int]@));
            assert(dot_fits(rows_of(m@)[i as int], ints(v@)));
        }
        let x = dot_exec(&m[i], v);
        r.push(x);
        i = i + 1;
    }
    proof {
        assert(ints(r@) =~= apply(rows_of(m@), ints(v@)));
    }
    r
}

/// The combination `sum_k c[k] * m[k]` of the rows of `m`, over the first
/// `width` columns.
pub fn combination_exec(c: &Vec<i64>, m: &Vec<Vec<i64>>, width: usize) -> (r: Vec<i64>)
    requires
        c.len() <= m.len(),
        forall|k: int| 0 <= k < m.len() ==> (#[trigger] m@[k]).len() >= width,
        combination_fits(ints(c@), rows_of(m@), width as nat),
    ensures
        ints(r@) == combination(ints(c@), rows_of(m@), width as nat),
{
    let mut r: Vec<i64> = Vec::new();
    let mut j: usize = 0;
    while j < width
        invariant
            j <= width,
            r.len() == j,
            c.len() <= m.len(),
            forall|k: int| 0 <= k < m.len() ==> (#[trigger] m@[k]).len() >= width,
            combination_fits(ints(c@), rows_of(m@), width as nat),
            forall|t: int| 0 <= t < j ==> r@[t] as int == dot(ints(c@), column(rows_of(m@), t)),
        decreases width - j,
    {
        let ghost col = column(rows_of(m@), j as int);
        assert(dot_fits(ints(c@), col));
        let mut total: i64 = 0;
        let mut k: usize = 0;
        while k < c.len()
            invariant
                k <= c.len(),
                c.len() <= m.len(),
                j < width,
                forall|t: int| 0 <= t < m.len() ==> (#[trigger] m@[t]).len() >= width,
                col == column(rows_of(m@), j as int),
                dot_fits(ints(c@), col),
                total == dot_prefix(ints(c@), col, k as int),
            decreases c.len() - k,
        {
            proof {
                lemma_ints_len(c@);
                assert(col[k as int] == m@[k as int]@[j as int] as int);
                assert(fits(ints(c@)[k as int] * col[k as int]));
            }
            let product = c[k] * m[k][j];
            total = total + product;
            k = k + 1;
        }
        r.push(total);
        j = j + 1;
    }
    proof {
        assert(ints(r@) =~= combination(ints(c@), rows_of(m@), width as nat));
    }
    r
}

/// Whether every entry of `v` is zero.
pub fn is_zero(v: &Vec<i64>) -> (r: bool)
    ensures
        r == (forall|i: int| 0 <= i < v.len() ==> v@[i] == 0),
{
    let mut i: usize = 0;
    while i < v.len()
        invariant
            i <= v.len(),
            forall|t: int| 0 <= t < i ==> v@[t] == 0,
        decreases v.len() - i,
    {
        if v[i] != 0 {
            return false;
        }
        i = i + 1;
    }
    true
}

/// The transpose of a matrix whose rows all have length `width`.
pub fn transpose(m: &Vec<Vec<i64>>, width: usize) -> (t: Vec<Vec<i64>>)
    requires
        forall|i: int| 0 <= i < m.len() ==> (#[trigger] m@[i]).len() == width,
    ensures
        t.len() == width,
        forall|j: int| 0 <= j < width ==> (#[trigger] t@[j]).len() == m.len(),
        forall|j: int, i: int| 0 <= j < width && 0 <= i < m.len() ==> #[trigger] t@[j]@[i] == m@[i]@[j],
{
    let mut t: Vec<Vec<i64>> = Vec::new();
    let mut j: usize = 0;
    while j < width
        invariant
            j <= width,
            t.len() == j,
            forall|i: int| 0 <= i < m.len() ==> (#[trigger] m@[i]).len() == width,
            forall|a: int| 0 <= a < j ==> (#[trigger] t@[a]).len() == m.len(),
            forall|a: int, i: int| 0 <= a < j && 0 <= i < m.len() ==> #[trigger] t@[a]@[i] == m@[i]@[a],
        decreases width - j,
    {
        let mut row: Vec<i64> = Vec::new();
        let mut i: usize = 0;
        while i < m.len()
            invariant
                i <= m.len(),
                j < width,
                row.len() == i,
                forall|a: int| 0 <= a < m.len() ==> (#[trigger] m@[a]).len() == width,
                forall|a: int| 0 <= a < i ==> row@[a] == m@[a]@[j as int],
            decreases m.len() - i,
        {
            row.push(m[i][j]);
            i = i + 1;
        }
        t.push(row);
        j = j + 1;
    }
    t
}

/// `a - b`, entry by entry, for vectors of equal length.
pub fn subtract(a: &Vec<i64>, b: &Vec<i64>) -> (r: Vec<i64>)
    requires
        a.len() == b.len(),
        forall|i: int| 0 <= i < a.len() ==> fits(a@[i] - b@[i]),
    ensures
        ints(r@) == difference(ints(a@), ints(b@)),
{
    let mut r: Vec<i64> = Vec::new();
    let mut i: usize = 0;
    while i < a.len()
        invariant
            i <= a.len(),
            a.len() == b.len(),
            r.len() == i,
            forall|t: int| 0 <= t < a.len() ==> fits(a@[t] - b@[t]),
            forall|t: int| 0 <= t < i ==> r@[t] == a@[t] - b@[t],
        decreases a.len() - i,
    {
        r.push(a[i] - b[i]);
        i = i + 1;
    }
    proof {
        assert(ints(r@) =~= difference(ints(a@), ints(b@)));
    }
    r
}

/// Whether every entry of `v` fits in an `i64`.
pub open spec fn all_fit(v: Seq<int>) -> bool {
    forall|i: int| 0 <= i < v.len() ==> fits(#[trigger] v[i])
}

/// `a - b`, entry by entry, or `None` where an entry does not fit in an
/// `i64`.
pub fn checked_subtract(a: &Vec<i64>, b: &Vec<i64>) -> (r: Option<Vec<i64>>)
    requires
        a.len() == b.len(),
    ensures
        r is Some <==> all_fit(difference(ints(a@), ints(b@))),
        r matches Some(d) ==> ints(d@) == difference(ints(a@), ints(b@)),
{
    let mut i: usize = 0;
    while i < a.len()
        invariant
            i <= a.len(),
            a.len() == b.len(),
            forall|t: int| 0 <= t < i ==> fits(a@[t] - b@[t]),
        decreases a.len() - i,
    {
        let x = a[i] as i128 - b[i] as i128;
        if x < i64::MIN as i128 || x > i64::MAX as i128 {
            proof {
                assert(difference(ints(a@), ints(b@))[i as int] == a@[i as int] - b@[i as int]);
            }
            return None;
        }
        i = i + 1;
    }
    proof {
        assert forall|t: int| 0 <= t < difference(ints(a@), ints(b@)).len() implies fits(
            #[trigger] difference(ints(a@), ints(b@))[t],
        ) by {
            assert(difference(ints(a@), ints(b@))[t] == a@[t] - b@[t]);
        }
    }
    Some(subtract(a, b))
}

/// Whether `v` is an integer combination of the rows of `m`, over `width`
/// columns.
pub open spec fn in_lattice(v: Seq<int>, m: Seq<Seq<int>>, width: nat) -> bool {
    exists|c: Seq<int>| c.len() == m.len() && #[trigger] combination(c, m, width) == v
}

/// Whether the rows of `m` are linearly independent: the only combination of
/// them that vanishes is the empty one.
pub open spec fn independent_rows(m: Seq<Seq<int>>, width: nat) -> bool {
    forall|c: Seq<int>| c.len() == m.len() && #[trigger] combination(c, m, width) == zeros(width) ==> c == zeros(m.len())
}

/// Dot products whose terms agree are equal.
pub proof fn lemma_dot_prefix_terms_agree(a: Seq<int>, b: Seq<int>, a2: Seq<int>, b2: Seq<int>, k: int)
    requires
        forall|i: int| 0 <= i < k ==> a[i] * b[i] == a2[i] * b2[i],
    ensures
        dot_prefix(a, b, k) == dot_prefix(a2, b2, k),
    decreases k,
{
    if k > 0 {
        lemma_dot_prefix_terms_agree(a, b, a2, b2, k - 1);
    }
}

/// Turning some rows of `r` round spans the same lattice.
pub proof fn lemma_lattice_signs(v: Seq<int>, r: Seq<Seq<int>>, o: Seq<Seq<int>>, width: nat)
    requires
        r.len() == o.len(),
        forall|j: int| 0 <= j < r.len() ==> (#[trigger] r[j]).len() == width && (o[j] == r[j] || o[j] == neg(r[j])),
        in_lattice(v, r, width),
    ensures
        in_lattice(v, o, width),
{
    let c = choose|c: Seq<int>| c.len() == r.len() && #[trigger] combination(c, r, width) == v;
    let c2 = Seq::new(c.len(), |j: int| if o[j] == r[j] { c[j] } else { -c[j] });
    assert forall|t: int| 0 <= t < width implies #[trigger] combination(c2, o, width)[t] == combination(c, r, width)[t] by {
        assert forall|j: int| 0 <= j < c.len() implies c2[j] * column(o, t)[j] == c[j] * column(r, t)[j] by {
            assert(r[j].len() == width);
            if o[j] != r[j] {
                let x = c[j];
                let y = r[j][t];
                assert(o[j][t] == -y);
                assert((-x) * (-y) == x * y) by (nonlinear_arith);
            }
        }
        lemma_dot_prefix_terms_agree(c2, column(o, t), c, column(r, t), c.len() as int);
    }
    assert(combination(c2, o, width) =~= v);
}

/// What a matrix sends to zero, it sends to zero turned round too.
pub proof fn lemma_apply_neg(m: Seq<Seq<int>>, r: Seq<int>)
    requires
        forall|i: int| 0 <= i < m.len() ==> (#[trigger] m[i]).len() == r.len(),
        apply(m, r) == zeros(m.len()),
    ensures
        apply(m, neg(r)) == zeros(m.len()),
{
    assert forall|i: int| 0 <= i < m.len() implies #[trigger] apply(m, neg(r))[i] == zeros(m.len())[i] by {
        assert(neg(r) =~= add_scaled(zeros(r.len()), -1, r));
        lemma_dot_prefix_linear_right(m[i], zeros(r.len()), -1, r, m[i].len() as int);
        lemma_dot_prefix_zero_right(m[i], zeros(r.len()), m[i].len() as int);
        assert(apply(m, r)[i] == zeros(m.len())[i]);
    }
    assert(apply(m, neg(r)) =~= zeros(m.len()));
}

} // verus!
