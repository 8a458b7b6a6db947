//! Tests of notations, temperaments and simplification, end to end.
//!
//! The lattice algorithms the library takes the results of - solving integer
//! systems, kernels, reduction, closest vectors - are done here by a small
//! toolkit of plain integer linear algebra, so that every test builds its
//! notations the way a program using the library does.

use lib::accidental::{derive_accidentals, just_nominals, Accidental};
use lib::error::{Dimensions, Error, Unsupported};
use lib::notation::{NominalVerdict, Notation};
use lib::options::{options_from, recommended, with_count_from, NotationOptions};
use lib::simplify::{sopfr, Simplifier};
use lib::spelling::spelling_cost;
use lib::subgroup::Subgroup;
use lib::temperament::Temperament;

type Matrix = Vec<Vec<i64>>;

// ---------------------------------------------------------------------------
// Integer linear algebra.

fn ext_gcd(a: i64, b: i64) -> (i64, i64, i64) {
    if b == 0 {
        if a < 0 {
            (-a, -1, 0)
        } else {
            (a, 1, 0)
        }
    } else {
        let (g, x, y) = ext_gcd(b, a.rem_euclid(b));
        (g, y, x - a.div_euclid(b) * y)
    }
}

fn identity(n: usize) -> Matrix {
    (0..n).map(|i| (0..n).map(|j| if i == j { 1 } else { 0 }).collect()).collect()
}

/// Row Hermite normal form: `(h, u)` with `u * a == h`, `u` unimodular.
fn hnf(a: &Matrix, cols: usize) -> (Matrix, Matrix) {
    let rows = a.len();
    let mut h = a.clone();
    let mut u = identity(rows);
    let mut r = 0;
    for c in 0..cols {
        if r == rows {
            break;
        }
        for i in r + 1..rows {
            if h[i][c] != 0 {
                let (g, x, y) = ext_gcd(h[r][c], h[i][c]);
                let p = h[r][c] / g;
                let q = h[i][c] / g;
                for m in [&mut h, &mut u] {
                    let row_r = m[r].clone();
                    let row_i = m[i].clone();
                    m[r] = row_r.iter().zip(&row_i).map(|(a, b)| x * a + y * b).collect();
                    m[i] = row_r.iter().zip(&row_i).map(|(a, b)| -q * a + p * b).collect();
                }
            }
        }
        if h[r][c] == 0 {
            continue;
        }
        if h[r][c] < 0 {
            h[r] = h[r].iter().map(|x| -x).collect();
            u[r] = u[r].iter().map(|x| -x).collect();
        }
        for i in 0..r {
            let f = h[i][c].div_euclid(h[r][c]);
            if f != 0 {
                let hr = h[r].clone();
                let ur = u[r].clone();
                h[i] = h[i].iter().zip(&hr).map(|(a, b)| a - f * b).collect();
                u[i] = u[i].iter().zip(&ur).map(|(a, b)| a - f * b).collect();
            }
        }
        r += 1;
    }
    (h, u)
}

fn transpose(m: &Matrix, cols: usize) -> Matrix {
    (0..cols).map(|j| m.iter().map(|row| row[j]).collect()).collect()
}

/// A basis of the vectors `x` with `x * a == 0`.
fn left_kernel(a: &Matrix, cols: usize) -> Matrix {
    let (h, u) = hnf(a, cols);
    (0..a.len()).filter(|&r| h[r].iter().all(|&x| x == 0)).map(|r| u[r].clone()).collect()
}

/// A matrix `w` with `w * a` the identity, where there is one.
fn left_inverse(a: &Matrix, cols: usize) -> Option<Matrix> {
    let (h, u) = hnf(a, cols);
    for j in 0..cols {
        if j >= h.len() {
            return None;
        }
        for c in 0..cols {
            if h[j][c] != if j == c { 1 } else { 0 } {
                return None;
            }
        }
    }
    Some(u[..cols].to_vec())
}

/// A vector `x` with `x * a == target`, where there is one.
fn solve(a: &Matrix, cols: usize, target: &[i64]) -> Option<Vec<i64>> {
    let (h, u) = hnf(a, cols);
    let mut y = vec![0i64; a.len()];
    let mut residual = target.to_vec();
    for r in 0..h.len() {
        if let Some(c) = (0..cols).find(|&c| h[r][c] != 0) {
            if residual[c] % h[r][c] != 0 {
                return None;
            }
            y[r] = residual[c] / h[r][c];
            for k in 0..cols {
                residual[k] -= y[r] * h[r][k];
            }
        }
    }
    if residual.iter().any(|&x| x != 0) {
        return None;
    }
    Some((0..u[0].len()).map(|k| (0..a.len()).map(|r| y[r] * u[r][k]).sum()).collect())
}

fn form(a: &[f64], b: &[f64], w: &[f64]) -> f64 {
    a.iter().zip(b).zip(w).map(|((x, y), z)| x * y * z).sum()
}

/// Reduces a basis under the diagonal quadratic form `w`.
fn lll(basis: &Matrix, w: &[f64]) -> Matrix {
    let mut b: Matrix = basis.clone();
    let n = b.len();
    if n == 0 {
        return b;
    }
    let mut k = 1;
    let mut guard = 0;
    while k < n && guard < 100000 {
        guard += 1;
        let (star, mu) = gram_schmidt(&b, w);
        let mut reduced = false;
        for j in (0..k).rev() {
            let q = mu[k][j].round() as i64;
            if q != 0 {
                let bj = b[j].clone();
                b[k] = b[k].iter().zip(&bj).map(|(a, c)| a - q * c).collect();
                reduced = true;
                break;
            }
        }
        if reduced {
            continue;
        }
        let lhs = form(&star[k], &star[k], w);
        let rhs = (0.99 - mu[k][k - 1] * mu[k][k - 1]) * form(&star[k - 1], &star[k - 1], w);
        if lhs >= rhs {
            k += 1;
        } else {
            b.swap(k, k - 1);
            k = if k > 1 { k - 1 } else { 1 };
        }
    }
    b
}

fn gram_schmidt(b: &Matrix, w: &[f64]) -> (Vec<Vec<f64>>, Vec<Vec<f64>>) {
    let n = b.len();
    let f: Vec<Vec<f64>> = b.iter().map(|r| r.iter().map(|&x| x as f64).collect()).collect();
    let mut star: Vec<Vec<f64>> = Vec::new();
    let mut mu = vec![vec![0.0; n]; n];
    for i in 0..n {
        let mut v = f[i].clone();
        for j in 0..i {
            mu[i][j] = form(&f[i], &star[j], w) / form(&star[j], &star[j], w);
            for t in 0..v.len() {
                v[t] -= mu[i][j] * star[j][t];
            }
        }
        star.push(v);
    }
    (star, mu)
}

/// The member of the lattice `basis` closest to `target` under `w`.
fn cvp(target: &[i64], basis: &Matrix, w: &[f64]) -> Vec<i64> {
    let n = basis.len();
    let dim = target.len();
    let f: Vec<Vec<f64>> = basis.iter().map(|r| r.iter().map(|&x| x as f64).collect()).collect();
    let t: Vec<f64> = target.iter().map(|&x| x as f64).collect();
    // Gram matrix and right hand side, solved by elimination.
    let mut g = vec![vec![0.0; n + 1]; n];
    for i in 0..n {
        for j in 0..n {
            g[i][j] = form(&f[i], &f[j], w);
        }
        g[i][n] = form(&f[i], &t, w);
    }
    for i in 0..n {
        let p = (i..n).max_by(|&a, &b| g[a][i].abs().partial_cmp(&g[b][i].abs()).unwrap()).unwrap();
        g.swap(i, p);
        for r in 0..n {
            if r != i && g[i][i] != 0.0 {
                let factor = g[r][i] / g[i][i];
                for c in i..=n {
                    g[r][c] -= factor * g[i][c];
                }
            }
        }
    }
    let centre: Vec<i64> = (0..n).map(|i| if g[i][i] == 0.0 { 0 } else { (g[i][n] / g[i][i]).round() as i64 }).collect();
    let mut best: Option<(f64, Vec<i64>)> = None;
    let span = 2i64;
    let total = (2 * span + 1).pow(n as u32);
    for code in 0..total {
        let mut c = code;
        let mut point = vec![0i64; dim];
        for i in 0..n {
            let coefficient = centre[i] + (c % (2 * span + 1)) - span;
            c /= 2 * span + 1;
            for d in 0..dim {
                point[d] += coefficient * basis[i][d];
            }
        }
        let diff: Vec<f64> = (0..dim).map(|d| (target[d] - point[d]) as f64).collect();
        let distance = form(&diff, &diff, w);
        if best.as_ref().map_or(true, |(b, _)| distance < *b - 1e-9) {
            best = Some((distance, point));
        }
    }
    best.unwrap().1
}

// ---------------------------------------------------------------------------
// Building temperaments and notations as a program using the library does.

fn subgroup(text: &str) -> Subgroup {
    Subgroup::parse(text).unwrap()
}

/// The canonical form of a mapping: saturated, in Hermite normal form.
fn canonical(mapping: &Matrix, dim: usize) -> Matrix {
    let commas = left_kernel(&transpose(mapping, dim), mapping.len());
    let saturated = if commas.is_empty() { identity(dim) } else { left_kernel(&transpose(&commas, dim), commas.len()) };
    let (h, _) = hnf(&saturated, dim);
    h.into_iter().filter(|row| row.iter().any(|&x| x != 0)).collect()
}

fn from_mapping(mapping: &Matrix, s: &Subgroup) -> Result<Temperament, Error> {
    let dim = s.dim();
    let well_formed = !mapping.is_empty() && mapping.iter().all(|r| r.len() == dim);
    let c = if well_formed { canonical(mapping, dim) } else { Vec::new() };
    Temperament::from_mapping(mapping, s, c)
}

fn from_commas(commas: &Matrix, s: &Subgroup) -> Result<Temperament, Error> {
    let dim = s.dim();
    let well_formed = !commas.is_empty() && commas.iter().all(|r| r.len() == dim);
    let (mapping, c) = if well_formed {
        let m = left_kernel(&transpose(commas, dim), commas.len());
        let c = if m.is_empty() { Vec::new() } else { canonical(&m, dim) };
        (m, c)
    } else {
        (Vec::new(), Vec::new())
    };
    Temperament::from_commas(commas, s, mapping, c)
}

fn ratios(s: &Subgroup, commas: &[(u64, u64)]) -> Matrix {
    commas.iter().map(|&(n, d)| s.factorize(n, d).unwrap()).collect()
}

fn equal(divisions: i64, s: &Subgroup) -> Temperament {
    let map: Vec<i64> = s.basis().iter().map(|&p| (divisions as f64 * (p as f64).log2()).round() as i64).collect();
    from_mapping(&vec![map], s).unwrap()
}

fn tempered_by(text: &str, commas: &[(u64, u64)]) -> Temperament {
    let s = subgroup(text);
    from_commas(&ratios(&s, commas), &s).unwrap()
}

fn spelling_weights(rank: usize) -> Vec<f64> {
    (0..rank).map(|i| if i == 0 { 0.0 } else if i == 1 { 4.0 } else { 49.0 }).collect()
}

fn fifth_chain(dim: usize) -> Matrix {
    let mut octave = vec![0; dim];
    octave[0] = 1;
    let mut fifth = vec![0; dim];
    fifth[0] = -1;
    fifth[1] = 1;
    vec![octave, fifth]
}

fn build(t: &Temperament, accidentals: &Vec<Accidental>) -> Result<Notation, Error> {
    let dim = t.dim();
    let mut generators = fifth_chain(dim);
    generators.extend(accidentals.iter().map(|a| a.vector.clone()));
    if generators.iter().any(|g| g.len() != dim) {
        return Notation::from_accidentals(t, accidentals, None, Vec::new());
    }
    let images: Matrix = generators.iter().map(|g| t.map(g).unwrap()).collect();
    let inverse = left_inverse(&images, t.rank());
    let enharmonics = match inverse {
        Some(_) => lll(&left_kernel(&images, t.rank()), &spelling_weights(generators.len())),
        None => Vec::new(),
    };
    Notation::from_accidentals(t, accidentals, inverse, enharmonics)
}

fn notation(text: &str) -> Notation {
    Notation::from_ji(&subgroup(text)).unwrap()
}

/// The enharmonic of `lattice` closest to `coordinates`, measured from `D`.
fn nearest(coordinates: &[i64], lattice: &Matrix) -> Option<Vec<i64>> {
    if lattice.is_empty() {
        return None;
    }
    let mut centre = coordinates.to_vec();
    centre[1] -= 2;
    Some(cvp(&centre, lattice, &spelling_weights(coordinates.len())))
}

fn spell(n: &Notation, interval: &Vec<i64>) -> Result<Vec<i64>, Error> {
    if interval.len() != n.dim() {
        return n.spell(interval, &None);
    }
    let seed = n.spelling_seed(interval)?;
    let near = nearest(&seed, n.enharmonics());
    n.spell(interval, &near)
}

fn respell_within(n: &Notation, coordinates: &Vec<i64>, count: usize, width: i64) -> Result<Matrix, Error> {
    if coordinates.len() != n.rank() {
        return n.respell_within(coordinates, count, width, &None);
    }
    let near = nearest(coordinates, n.enharmonics());
    n.respell_within(coordinates, count, width, &near)
}

fn respell(n: &Notation, coordinates: &Vec<i64>, count: usize) -> Result<Matrix, Error> {
    respell_within(n, coordinates, count, 2)
}

fn unit(dim: usize, index: usize) -> Vec<i64> {
    (0..dim).map(|i| if i == index { 1 } else { 0 }).collect()
}

fn verdict(n: &Notation) -> Result<NominalVerdict, Error> {
    let dim = n.dim();
    let nominals = just_nominals(n.subgroup())?;
    let with_degree = n.with_degree();
    let cols = n.temperament().rank() + 1;
    let level = lll(&left_kernel(&with_degree, cols), &spelling_weights(n.rank()));
    let mut seeds = Vec::new();
    let mut nears = Vec::new();
    let mut prime_nears = Vec::new();
    for (index, nominal) in (2..dim).zip(nominals) {
        let prime = unit(dim, index);
        let mut target = n.temperament().map(&prime).unwrap();
        target.push(nominal.degree);
        let seed = solve(&with_degree, cols, &target);
        nears.push(seed.as_ref().and_then(|s| nearest(s, &level)));
        seeds.push(seed);
        let prime_seed = n.spelling_seed(&prime)?;
        prime_nears.push(nearest(&prime_seed, n.enharmonics()));
    }
    n.nominal_verdict(&level, &seeds, &nears, &prime_nears)
}

fn nominal_costs(n: &Notation) -> Vec<Option<i64>> {
    verdict(n).unwrap().costs
}

fn keeps_nominals(n: &Notation) -> bool {
    verdict(n).unwrap().failures == 0
}

/// The candidates of one size, built, with their verdicts.
fn candidates_of(t: &Temperament, o: &NotationOptions, size: usize) -> (Vec<Option<Notation>>, Vec<Option<NominalVerdict>>) {
    let mut built = Vec::new();
    let mut verdicts = Vec::new();
    for subset in o.candidates(size) {
        match build(t, &o.keep(&subset)) {
            Ok(n) => {
                verdicts.push(Some(verdict(&n).unwrap()));
                built.push(Some(n));
            }
            Err(_) => {
                verdicts.push(None);
                built.push(None);
            }
        }
    }
    (built, verdicts)
}

fn options_with(t: &Temperament, accidentals: &Vec<Accidental>) -> Result<Vec<Notation>, Error> {
    let o = NotationOptions::new(t, accidentals)?;
    let mut built = Vec::new();
    let mut verdicts = Vec::new();
    for size in 0..=o.accidentals().len() {
        let (b, v) = candidates_of(t, &o, size);
        built.push(b);
        verdicts.push(v);
    }
    let chosen = options_from(&verdicts)?;
    Ok(chosen.iter().map(|&(size, index)| built[size][index].clone().unwrap()).collect())
}

fn options(t: &Temperament) -> Result<Vec<Notation>, Error> {
    options_with(t, &derive_accidentals(t.subgroup())?)
}

fn with_count(t: &Temperament, accidentals: &Vec<Accidental>, count: usize) -> Result<Notation, Error> {
    let o = NotationOptions::new(t, accidentals)?;
    if count > o.accidentals().len() {
        return with_count_from(count, &Vec::new()).map(|_| unreachable!());
    }
    let (built, verdicts) = candidates_of(t, &o, count);
    let index = with_count_from(count, &verdicts)?;
    Ok(built[index].clone().unwrap())
}

fn from_temperament(t: &Temperament) -> Notation {
    let run = options(t).unwrap();
    let keeps: Vec<bool> = run.iter().map(keeps_nominals).collect();
    run[recommended(&keeps)].clone()
}

fn tempered(text: &str, commas: &[(u64, u64)]) -> Notation {
    from_temperament(&tempered_by(text, commas))
}

fn et_options(divisions: i64, text: &str) -> Vec<Notation> {
    options(&equal(divisions, &subgroup(text))).unwrap()
}

fn options_of(text: &str, commas: &[(u64, u64)]) -> Vec<Notation> {
    options(&tempered_by(text, commas)).unwrap()
}

fn ranks(options: &[Notation]) -> Vec<usize> {
    options.iter().map(|n| n.rank()).collect()
}

fn accidental_ratios(n: &Notation) -> Vec<(u64, u64)> {
    n.generators()[2..].iter().map(|a| n.subgroup().to_ratio(a).unwrap()).collect()
}

fn note_of(n: &Notation, num: u64, den: u64) -> String {
    let interval = n.subgroup().factorize(num, den).unwrap();
    n.note(&spell(n, &interval).unwrap())
}

fn cents(s: &Subgroup, interval: &Vec<i64>) -> f64 {
    s.basis().iter().zip(interval).map(|(&p, &e)| e as f64 * 1200.0 * (p as f64).log2()).sum()
}

// ---------------------------------------------------------------------------
// Notation.

#[test]
fn pythagorean_mapping() {
    let n = notation("2.3");
    assert_eq!(spell(&n, &vec![1, 0]).unwrap(), vec![1, 0]);
    assert_eq!(spell(&n, &vec![0, 1]).unwrap(), vec![1, 1]);
    assert_eq!(n.rank(), 2);
    assert_eq!(n.dim(), 2);
    assert!(accidental_ratios(&n).is_empty());
}

#[test]
fn generators_map_to_unit_vectors() {
    for text in ["2.3", "2.3.5", "2.3.7", "2.3.11", "2.3.5.7.11"] {
        let n = notation(text);
        for (index, generator) in n.generators().iter().enumerate() {
            assert_eq!(spell(&n, generator).unwrap(), unit(n.rank(), index));
        }
    }
}

#[test]
fn accidentals_are_small_and_ascending() {
    let n = notation("2.3.5.7.11.13");
    for a in &n.generators()[2..] {
        let c = cents(n.subgroup(), a);
        assert!(c > 0.0 && c < 56.842_503_028_855_52);
    }
}

#[test]
fn five_limit_mapping() {
    let n = notation("2.3.5");
    assert_eq!(spell(&n, &vec![0, 0, 1]).unwrap(), vec![0, 4, -1]);
    assert_eq!(n.generators(), &vec![vec![1, 0, 0], vec![-1, 1, 0], vec![-4, 4, -1]]);
}

#[test]
fn spelling_checks_dimensions() {
    let n = notation("2.3");
    assert!(spell(&n, &vec![1, 0, 0]).is_err());
    assert!(spell(&n, &vec![1]).is_err());
}

#[test]
fn notes_along_the_fifth_chain() {
    let n = notation("2.3");
    assert_eq!(n.note(&vec![0, 0]), "C5");
    assert_eq!(n.note(&vec![0, 1]), "G5");
    assert_eq!(n.note(&vec![0, 2]), "D6");
    assert_eq!(n.note(&vec![0, -1]), "F4");
    assert_eq!(n.note(&vec![0, -2]), "Bb3");
    assert_eq!(n.note(&vec![0, 6]), "F#8");
    assert_eq!(n.note(&vec![0, 13]), "F##12");
    assert_eq!(n.note(&vec![0, -8]), "Fb0");
}

#[test]
fn notes_across_octaves() {
    let n = notation("2.3");
    assert_eq!(n.note(&vec![1, 0]), "C6");
    assert_eq!(n.note(&vec![-1, 0]), "C4");
    assert_eq!(n.note(&vec![3, 0]), "C8");
    assert_eq!(n.note(&vec![-3, 5]), "B4");
    assert_eq!(n.note(&vec![-2, 5]), "B5");
}

#[test]
fn notes_from_ratios() {
    let n = notation("2.3");
    assert_eq!(note_of(&n, 1, 1), "C5");
    assert_eq!(note_of(&n, 3, 2), "G5");
    assert_eq!(note_of(&n, 9, 8), "D5");
    assert_eq!(note_of(&n, 4, 3), "F5");
    assert_eq!(note_of(&n, 16, 9), "Bb5");
    assert_eq!(note_of(&n, 2, 1), "C6");
    assert_eq!(note_of(&n, 1, 2), "C4");
    assert_eq!(note_of(&n, 81, 64), "E5");
    assert_eq!(note_of(&n, 2187, 2048), "C#5");
}

#[test]
fn accidentals_match_fjs() {
    let n = notation("2.3.5.7.11.13.17.19");
    let fjs_accidentals = [(81, 80), (64, 63), (33, 32), (1053, 1024), (4131, 4096), (513, 512)];
    for (i, a) in n.generators()[2..].iter().enumerate() {
        assert_eq!(n.subgroup().to_ratio(a).unwrap(), fjs_accidentals[i]);
    }
}

#[test]
fn notes_with_accidentals() {
    assert_eq!(note_of(&notation("2.3.5"), 5, 4), "vE5");
    assert_eq!(note_of(&notation("2.3.7"), 7, 4), "<Bb5");
    assert_eq!(note_of(&notation("2.3.11"), 11, 8), "tF5");
    let n = notation("2.3.5.7.11");
    assert_eq!(note_of(&n, 5, 4), "vE5");
    assert_eq!(note_of(&n, 7, 4), "<Bb5");
    assert_eq!(note_of(&n, 11, 8), "tF5");
    assert_eq!(note_of(&n, 25, 16), "vvG#5");
    assert_eq!(note_of(&n, 35, 32), "v<D5");
}

#[test]
fn tempering_out_an_accidental_drops_it() {
    let pythagorean = notation("2.3");
    for (text, comma) in [("2.3.5", (81, 80)), ("2.3.7", (64, 63))] {
        let n = tempered(text, &[comma]);
        assert_eq!(n.rank(), 2);
        assert!(accidental_ratios(&n).is_empty());
        let comma = n.subgroup().factorize(comma.0, comma.1).unwrap();
        assert_eq!(spell(&n, &comma).unwrap(), vec![0; n.rank()]);
        assert_eq!(n.generators()[0][..2], pythagorean.generators()[0][..]);
        assert_eq!(n.generators()[1][..2], pythagorean.generators()[1][..]);
    }
}

#[test]
fn tempered_primes_land_on_nominals() {
    let meantone = tempered("2.3.5", &[(81, 80)]);
    assert_eq!(spell(&meantone, &vec![0, 0, 1]).unwrap(), vec![0, 4]);
    assert_eq!(note_of(&meantone, 5, 4), "E5");
    assert_eq!(note_of(&meantone, 81, 64), "E5");

    let archytas = tempered("2.3.7", &[(64, 63)]);
    assert_eq!(spell(&archytas, &vec![0, 0, 1]).unwrap(), vec![4, -2]);
    assert_eq!(note_of(&archytas, 7, 4), "Bb5");
    assert_eq!(note_of(&archytas, 16, 9), "Bb5");
}

#[test]
fn only_tempered_accidentals_are_dropped() {
    let marvel = tempered("2.3.5.7", &[(225, 224)]);
    assert_eq!(marvel.rank(), 4);
    assert_eq!(marvel.generators(), notation("2.3.5.7").generators());
    assert_ne!(marvel.temperament(), notation("2.3.5.7").temperament());

    let n = tempered("2.3.5.7", &[(81, 80), (225, 224)]);
    assert_eq!(accidental_ratios(&n), vec![(64, 63)]);
    assert_eq!(note_of(&n, 5, 4), "E5");
    assert_eq!(note_of(&n, 7, 4), "<Bb5");
}

// ---------------------------------------------------------------------------
// Temperaments.

#[test]
fn mapping_must_match_subgroup() {
    let s = Subgroup::p_limit(5);
    assert!(from_mapping(&vec![vec![12, 19]], &s).is_err());
    assert!(from_commas(&vec![vec![-4, 4]], &s).is_err());
}

#[test]
fn meantone_from_comma() {
    let s = Subgroup::p_limit(5);
    let t = from_commas(&vec![vec![-4, 4, -1]], &s).unwrap();
    assert_eq!(t.rank(), 2);
    assert_eq!(t.map(&vec![-4, 4, -1]).unwrap(), vec![0, 0]);
}

// ---------------------------------------------------------------------------
// Simplification.

#[test]
fn the_wilson_norm_is_the_sum_of_prime_factors() {
    let primes = [2, 3, 5, 7, 11];
    assert_eq!(sopfr(&[-4, 4, -1, 0, 0], &primes), 25);
    assert_eq!(sopfr(&[-2, 2, 1, 0, -1], &primes), 26);
    assert_eq!(sopfr(&[1, 0, 0, 0, 0], &primes), 2);
    assert_eq!(sopfr(&[0; 5], &primes), 0);
}

#[test]
fn notation_12et_is_meantone() {
    let s = Subgroup::p_limit(5);
    let n = from_temperament(&equal(12, &s));
    let meantone = tempered("2.3.5", &[(81, 80)]);
    assert_eq!(n.generators(), meantone.generators());
    assert_eq!(note_of(&n, 5, 4), "E5");
}

#[test]
fn the_smallest_notation_drops_an_accidental_that_is_not_tempered_out() {
    let options = options_of("2.3.5.7", &[(81, 80), (225, 224)]);
    assert_eq!(ranks(&options), vec![2, 3]);
    assert!(accidental_ratios(&options[0]).is_empty());
    assert_eq!(note_of(&options[0], 5, 4), "E5");
    assert_eq!(note_of(&options[1], 5, 4), "E5");
    assert_eq!(note_of(&options[0], 7, 4), "A#5");
    assert_eq!(note_of(&options[1], 7, 4), "<Bb5");
}

#[test]
fn the_smallest_notation_has_the_rank_of_the_temperament() {
    let schismatic = options_of("2.3.5", &[(32805, 32768)]);
    assert_eq!(schismatic[0].rank(), 2);
    assert_eq!(note_of(&schismatic[0], 5, 4), "Fb5");

    let marvel = options_of("2.3.5.7", &[(225, 224)]);
    assert_eq!(marvel[0].rank(), 3);
    assert_eq!(accidental_ratios(&marvel[0]), vec![(81, 80)]);
    assert_eq!(note_of(&marvel[0], 5, 4), "vE5");
    assert_eq!(note_of(&marvel[0], 7, 4), "vvA#5");

    for (text, comma) in [("2.3.5", (81, 80)), ("2.3.7", (64, 63))] {
        assert_eq!(options_of(text, &[comma])[0].generators(), tempered(text, &[comma]).generators());
    }
}

#[test]
fn equal_temperament_offers_the_step_when_the_chain_reaches() {
    let options = et_options(22, "2.3.5.7");
    assert_eq!(ranks(&options), vec![2, 3]);
    assert!(accidental_ratios(&options[0]).is_empty());
    assert_eq!(note_of(&options[0], 5, 4), "D#5");
    assert_eq!(note_of(&options[0], 7, 4), "Bb5");
    assert_eq!(accidental_ratios(&options[1]), vec![(81, 80)]);
    assert_eq!(note_of(&options[1], 5, 4), "vE5");
    assert_eq!(note_of(&options[1], 7, 4), "Bb5");

    let options = et_options(31, "2.3.5.7");
    assert_eq!(ranks(&options), vec![2, 3]);
    assert_eq!(note_of(&options[0], 5, 4), "E5");
    assert_eq!(note_of(&options[0], 7, 4), "A#5");
    assert_eq!(accidental_ratios(&options[1]), vec![(64, 63)]);
    assert_eq!(note_of(&options[1], 7, 4), "<Bb5");
}

#[test]
fn equal_temperament_stacks_further_accidentals_on_the_step() {
    let options = et_options(41, "2.3.5.7.11");
    assert_eq!(ranks(&options), vec![2, 3, 4]);
    assert_eq!(accidental_ratios(&options[1]), vec![(81, 80)]);
    assert_eq!(note_of(&options[1], 7, 4), "vBb5");
    assert_eq!(note_of(&options[1], 11, 8), "^^F5");
    assert_eq!(accidental_ratios(&options[2]), vec![(81, 80), (33, 32)]);
    assert_eq!(note_of(&options[2], 11, 8), "tF5");

    let options = et_options(72, "2.3.5.7.11");
    assert_eq!(ranks(&options), vec![3, 4, 5]);
    assert_eq!(accidental_ratios(&options[0]), vec![(81, 80)]);
    assert_eq!(note_of(&options[0], 7, 4), "vvBb5");
    assert_eq!(note_of(&options[0], 11, 8), "^^^F5");
    assert_eq!(accidental_ratios(&options[2]), vec![(81, 80), (64, 63), (33, 32)]);
}

#[test]
fn an_accidental_worth_what_another_is_worth_is_not_offered() {
    for options in [et_options(41, "2.3.5.7"), et_options(41, "2.3.5.7.11")] {
        for n in &options {
            assert!(!accidental_ratios(n).contains(&(64, 63)));
        }
    }
    let options = options_of("2.3.5.7", &[(5120, 5103)]);
    assert_eq!(ranks(&options), vec![3]);
    assert_eq!(accidental_ratios(&options[0]), vec![(81, 80)]);
    assert_eq!(note_of(&options[0], 7, 4), "vBb5");

    let options = et_options(31, "2.3.5.7.11");
    assert_eq!(ranks(&options), vec![2, 3]);
    assert_eq!(accidental_ratios(&options[1]), vec![(64, 63)]);
    assert_eq!(note_of(&options[1], 11, 8), ">F5");
}

#[test]
fn equal_temperament_with_nothing_to_offer() {
    for divisions in [5, 7, 12, 19] {
        let options = et_options(divisions, "2.3.5");
        assert_eq!(ranks(&options), vec![2]);
        assert_eq!(note_of(&options[0], 5, 4), "E5");
    }
    for divisions in [15, 34] {
        let options = et_options(divisions, "2.3.5");
        assert_eq!(ranks(&options), vec![3]);
        assert_eq!(accidental_ratios(&options[0]), vec![(81, 80)]);
        assert_eq!(note_of(&options[0], 5, 4), "vE5");
    }
}

#[test]
fn equal_temperament_whose_accidental_is_worth_more_than_a_step() {
    for divisions in [25, 51, 54] {
        let t = equal(divisions, &subgroup("2.3.5"));
        assert_eq!(options(&t).err(), Some(Error::Unsupported(Unsupported::NoNotation)));
    }
    let options = et_options(24, "2.3.5.11");
    assert_eq!(ranks(&options), vec![3]);
    assert_eq!(accidental_ratios(&options[0]), vec![(33, 32)]);
    assert_eq!(note_of(&options[0], 5, 4), "E5");
    assert_eq!(note_of(&options[0], 11, 8), "tF5");
}

#[test]
fn equal_temperament_gets_single_step_accidental() {
    let s = subgroup("2.3.5.7");
    let t = from_mapping(&vec![vec![25, 40, 60, 69]], &s).unwrap();
    let options = options(&t).unwrap();
    assert_eq!(ranks(&options), vec![3]);
    assert_eq!(accidental_ratios(&options[0]), vec![(64, 63)]);
}

#[test]
fn no_rank_two_notation_when_the_fifth_chain_does_not_reach() {
    for comma in [(256, 243), (250, 243)] {
        let options = options_of("2.3.5", &[comma]);
        assert_eq!(ranks(&options), vec![3]);
        assert_eq!(note_of(&options[0], 5, 4), "vE5");
    }
}

#[test]
fn rank_two_temperaments_offer_the_whole_run() {
    let options = options_of("2.3.5.7.11", &[(81, 80), (126, 125), (99, 98)]);
    assert_eq!(ranks(&options), vec![2, 3, 4]);
    assert_eq!(accidental_ratios(&options[1]), vec![(64, 63)]);
    assert_eq!(accidental_ratios(&options[2]), vec![(64, 63), (33, 32)]);
    for n in &options {
        assert_eq!(note_of(n, 5, 4), "E5");
    }
    assert_eq!(note_of(&options[0], 7, 4), "A#5");
    assert_eq!(note_of(&options[1], 7, 4), "<Bb5");
    assert_eq!(note_of(&options[2], 11, 8), "tF5");
}

#[test]
fn a_dropped_accidental_becomes_a_stack_of_the_lower_ones() {
    let options = options_of("2.3.5.7.11", &[(225, 224), (385, 384)]);
    assert_eq!(ranks(&options), vec![3, 4, 5]);
    assert_eq!(note_of(&options[1], 11, 8), "^>F5");
    assert_eq!(note_of(&options[0], 11, 8), "^^^Gbb5");
}

#[test]
fn a_stack_is_the_shortest_one_that_works() {
    let options = et_options(72, "2.3.5.7.11");
    assert_eq!(ranks(&options), vec![3, 4, 5]);
    assert_eq!(note_of(&options[1], 11, 8), "^>F5");
    assert_eq!(note_of(&options[0], 11, 8), "^^^F5");
}

#[test]
fn spelling_the_spelled_settles() {
    for (divisions, text) in [(41, "2.3.5.7.11"), (31, "2.3.5.7"), (22, "2.3.5")] {
        let n = et_options(divisions, text).pop().unwrap();
        for ups in -20..=60 {
            let mut spelling = vec![0; n.rank()];
            spelling[2] = ups;
            let interval = n.to_just(&spelling).unwrap();
            let spelled = spell(&n, &interval).unwrap();
            let round_trip = spell(&n, &n.to_just(&spelled).unwrap()).unwrap();
            assert_eq!(round_trip, spelled, "{divisions}et over {text}, {ups} ups");
        }
    }
}

#[test]
fn the_recommendation_is_the_smallest_that_keeps_the_nominals() {
    let t = equal(41, &subgroup("2.3.5.7.11"));
    let run = options(&t).unwrap();
    assert_eq!(ranks(&run), vec![2, 3, 4]);
    assert_eq!(from_temperament(&t).generators(), run[1].generators());
    for (text, commas, wanted) in [
        ("2.3.5.7", &[(81, 80), (225, 224)][..], 1),
        ("2.3.5.7.11", &[(81, 80), (126, 125), (99, 98)][..], 1),
        ("2.3.5.7", &[(225, 224)][..], 1),
        ("2.3.5", &[(32805, 32768)][..], 1),
    ] {
        assert_eq!(tempered(text, commas).generators(), options_of(text, commas)[wanted].generators());
    }
}

#[test]
fn a_sharp_is_the_same_nominal() {
    let flattone = &[(45, 44), (81, 80)][..];
    let options = options_of("2.3.5.11", flattone);
    assert_eq!(ranks(&options), vec![2, 3]);
    assert_eq!(note_of(&options[0], 11, 8), "F#5");
    assert_eq!(note_of(&options[1], 11, 8), "F#5");
    assert!(keeps_nominals(&options[0]));
    assert_eq!(tempered("2.3.5.11", flattone).generators(), options[0].generators());
}

#[test]
fn a_prime_off_its_nominal_is_refused() {
    for (text, commas) in [
        ("2.3.5", &[(32805, 32768)][..]),
        ("2.3.5.7", &[(81, 80), (225, 224)][..]),
        ("2.3.5.7.11", &[(81, 80), (126, 125), (99, 98)][..]),
    ] {
        assert!(!keeps_nominals(&options_of(text, commas)[0]));
    }
    for text in ["2.3", "2.3.5", "2.3.5.7.11", "2.3.5.7.11.13"] {
        assert!(keeps_nominals(&notation(text)));
    }
}

#[test]
fn a_temperament_accepts_each_requested_11_limit_prefix() {
    let s = subgroup("2.3.5.7.11");
    let t = equal(41, &s);
    let accidentals = derive_accidentals(&s).unwrap();
    let notations: Vec<Notation> =
        (1..=accidentals.len()).map(|count| build(&t, &accidentals[..count].to_vec()).unwrap()).collect();
    assert_eq!(
        notations.iter().map(accidental_ratios).collect::<Vec<_>>(),
        vec![vec![(81, 80)], vec![(81, 80), (64, 63)], vec![(81, 80), (64, 63), (33, 32)]]
    );
    assert_eq!(note_of(&notations[0], 11, 8), "^^F5");
    assert_eq!(note_of(&notations[2], 11, 8), "tF5");
}

#[test]
fn an_accidental_list_must_reach_every_pitch() {
    let s = subgroup("2.3.5");
    let t = equal(25, &s);
    assert_eq!(build(&t, &Vec::new()).err(), Some(Error::Unsupported(Unsupported::DoesNotReach)));
    let syntonic = derive_accidentals(&s).unwrap()[0].clone();
    let n = build(&t, &vec![syntonic]).unwrap();
    assert_eq!(n.rank(), 3);
    assert_eq!(note_of(&n, 5, 4), "vE5");
}

/// Every octave-free interval with exponents in -2..=2 beyond the octave.
fn small_intervals(dim: usize) -> Vec<Vec<i64>> {
    (0..5i64.pow(dim as u32 - 1))
        .map(|mut code| {
            let mut interval = vec![0];
            for _ in 1..dim {
                interval.push(code % 5 - 2);
                code /= 5;
            }
            interval
        })
        .collect()
}

#[test]
fn register_does_not_change_the_spelling() {
    for n in et_options(22, "2.3.5.7").into_iter().chain(options_of("2.3.5.7.11", &[(441, 440), (896, 891)])) {
        for interval in small_intervals(n.dim()) {
            let spelling = spell(&n, &interval).unwrap();
            for octaves in [-12, -3, 4, 9] {
                let mut moved = interval.clone();
                moved[0] += octaves;
                let mut expected = spelling.clone();
                expected[0] += octaves;
                assert_eq!(spell(&n, &moved).unwrap(), expected);
            }
        }
    }
}

#[test]
fn respell_walks_wide_enough() {
    let options = options_of("2.3.5.7.11", &[(441, 440), (896, 891)]);
    let n = &options[1];
    let mut missed_at_one = 0;
    for interval in small_intervals(n.dim()) {
        let spelling = spell(n, &interval).unwrap();
        let wide = respell_within(n, &spelling, 3, 5).unwrap();
        assert_eq!(respell(n, &spelling, 3).unwrap(), wide);
        if respell_within(n, &spelling, 1, 1).unwrap()[0] != wide[0] {
            missed_at_one += 1;
        }
    }
    assert!(missed_at_one > 0);
}

#[test]
fn just_nominals_are_the_diatonic_degrees() {
    let s = subgroup("2.3.5.7.11.13");
    let nominals = just_nominals(&s).unwrap();
    let degrees: Vec<i64> = nominals.iter().map(|n| n.degree).collect();
    let costs: Vec<i64> = nominals.iter().map(|n| n.cost).collect();
    assert_eq!(degrees, vec![16, 20, 24, 26]);
    assert_eq!(costs, vec![11, 15, 13, 19]);
    let map: Vec<i64> = [7, 11].into_iter().chain(degrees).collect();
    for a in derive_accidentals(&s).unwrap() {
        let dot: i64 = a.vector.iter().zip(&map).map(|(x, d)| x * d).sum();
        assert_eq!(dot, 0);
    }
}

#[test]
fn nominal_costs_look_past_the_cheapest_spelling() {
    let options = options_of("2.3.5", &[(32805, 32768)]);
    assert_eq!(nominal_costs(&options[0]), vec![None]);
    assert_eq!(nominal_costs(&options[1]), vec![Some(11)]);

    let options = options_of("2.3.5.11", &[(45, 44), (81, 80)]);
    assert_eq!(nominal_costs(&options[0]), vec![Some(4), Some(8)]);

    let options = et_options(41, "2.3.5.7.11");
    assert_eq!(note_of(&options[2], 7, 4), "tA5");
    assert_eq!(nominal_costs(&options[2])[1], Some(15));
    assert!(keeps_nominals(&options[2]));
}

#[test]
fn a_cheaper_spelling_elsewhere_does_not_hide_the_nominal() {
    let semaphore = options_of("2.3.7", &[(49, 48)]);
    assert!(keeps_nominals(&semaphore[0]));
    let pele = tempered("2.3.5.7.11", &[(441, 440), (896, 891)]);
    assert_eq!(accidental_ratios(&pele), vec![(81, 80), (33, 32)]);
    assert!(keeps_nominals(&pele));
}

#[test]
fn a_tie_goes_to_the_lower_primes() {
    let miracle = &[(225, 224), (1029, 1024), (385, 384)][..];
    let options = options_of("2.3.5.7.11", miracle);
    assert_eq!(accidental_ratios(&options[1]), vec![(81, 80), (64, 63)]);
    assert_eq!(note_of(&options[1], 11, 8), "^>F5");
    assert_eq!(tempered("2.3.5.7.11", miracle).generators(), options[1].generators());
}

#[test]
fn a_notation_of_a_given_size() {
    let s = subgroup("2.3.5.7.11");
    let miracle = from_commas(&ratios(&s, &[(225, 224), (1029, 1024), (385, 384)]), &s).unwrap();
    let accidentals = derive_accidentals(&s).unwrap();
    assert!(with_count(&miracle, &accidentals, 0).is_err());
    let one = with_count(&miracle, &accidentals, 1).unwrap();
    assert_eq!(accidental_ratios(&one), vec![(81, 80)]);
    let three = with_count(&miracle, &accidentals, 3).unwrap();
    assert_eq!(three.rank(), 5);
    assert!(with_count(&miracle, &accidentals, 4).is_err());

    let s = subgroup("2.3.5.7");
    let t = equal(41, &s);
    let septimal = Accidental { vector: s.factorize(49, 48).unwrap(), symbols: ('^', 'v') };
    let n = with_count(&t, &vec![septimal], 1).unwrap();
    let syntonic = with_count(&t, &derive_accidentals(&s).unwrap()[..1].to_vec(), 1).unwrap();
    assert_eq!(n.enharmonics(), syntonic.enharmonics());
    assert_eq!(nominal_costs(&n), nominal_costs(&syntonic));
}

#[test]
fn primes_beyond_the_table_get_arbitrary_symbols() {
    let n = Notation::from_ji(&Subgroup::p_limit(199)).unwrap();
    assert_eq!(n.generators().len() - 2, 44);
    assert!(lib::accidental::check_symbols(&derive_accidentals(n.subgroup()).unwrap()).is_ok());
    assert_eq!(note_of(&notation("2.3.23"), 23, 16), "!Gb5");
}

#[test]
fn colliding_symbols_are_refused() {
    let s = subgroup("2.3.5.7");
    let t = Temperament::from_ji(&s);
    let mut accidentals = derive_accidentals(&s).unwrap();
    assert!(build(&t, &accidentals).is_ok());
    accidentals[1].symbols = ('^', '<');
    assert!(build(&t, &accidentals).is_err());
    accidentals[1].symbols = ('>', '>');
    assert!(build(&t, &accidentals).is_err());
    accidentals[1].symbols = ('>', 'b');
    assert!(build(&t, &accidentals).is_err());
}

#[test]
fn the_circle_of_fifths_never_closes() {
    let s = Subgroup::p_limit(5);
    let t = equal(12, &s);
    let n = build(&t, &Vec::new()).unwrap();
    assert_eq!(n.enharmonics().len(), 1);
    let e = if n.enharmonics()[0][1] < 0 { n.enharmonics()[0].iter().map(|x| -x).collect() } else { n.enharmonics()[0].clone() };
    assert_eq!(e, vec![-7, 12]);
    let comma = n.to_just(&e).unwrap();
    assert_eq!(s.to_ratio(&comma).unwrap(), (531441, 524288));
}

#[test]
fn enharmonics_are_the_freedom_over_the_temperament() {
    let s = subgroup("2.3.5.7");
    let t = equal(22, &s);
    let bare = build(&t, &Vec::new()).unwrap();
    let syntonic = derive_accidentals(&s).unwrap()[0].clone();
    let raised = build(&t, &vec![syntonic]).unwrap();
    assert_eq!(bare.enharmonics().len(), 1);
    assert_eq!(raised.enharmonics().len(), 2);
    for e in raised.enharmonics() {
        assert_eq!(raised.pitch(e).unwrap(), vec![0]);
    }
    for (divisions, text) in [(12, "2.3.5"), (22, "2.3.5.7"), (41, "2.3.5.7.11")] {
        let s = subgroup(text);
        let t = equal(divisions, &s);
        let accidentals = derive_accidentals(&s).unwrap();
        for count in 0..=accidentals.len() {
            let Ok(n) = build(&t, &accidentals[..count].to_vec()) else {
                continue;
            };
            assert_eq!(n.enharmonics().len(), n.rank() - t.rank());
            for e in n.enharmonics() {
                assert_eq!(n.pitch(e).unwrap(), vec![0; t.rank()]);
                assert!(e.iter().any(|&x| x != 0));
            }
        }
    }
}

#[test]
fn a_bijection_has_no_enharmonics() {
    let s = subgroup("2.3.5.7");
    let t = from_commas(&vec![vec![-4, 4, -1, 0], vec![1, 2, -3, 1]], &s).unwrap();
    let n = build(&t, &Vec::new()).unwrap();
    assert_eq!(n.rank(), t.rank());
    assert!(n.enharmonics().is_empty());
}

#[test]
fn spelling_cost_agrees_l2() {
    let rank = 5;
    let weights = lib::spelling::spelling_cost_l2(5);
    assert_eq!(spelling_cost(&vec![5, 2, 0, 0, 0]), 0);
    for i in 1..rank {
        let mut interval = vec![-1, 2, 0, 0, 0];
        interval[i] += 1;
        let w_l1 = spelling_cost(&interval);
        let w_l2 = weights[i][i];
        assert_eq!(w_l1 * w_l1, w_l2);
    }
}

#[test]
fn custom_accidental_25edo() {
    let s = subgroup("2.3.5");
    let t = equal(25, &s);
    assert!(options(&t).is_err());
    let custom = Accidental { vector: s.factorize(25, 24).unwrap(), symbols: ('^', 'v') };
    let options = options_with(&t, &vec![custom]).unwrap();
    assert_eq!(ranks(&options), vec![3]);
    assert_eq!(note_of(&options[0], 5, 4), "vvE5");
}

#[test]
fn custom_accidental_41edo() {
    let s = subgroup("2.3.5.7");
    let t = equal(41, &s);
    let acc_49_48 = Accidental { vector: s.factorize(49, 48).unwrap(), symbols: ('^', 'v') };
    let acc_50_49 = Accidental { vector: s.factorize(50, 49).unwrap(), symbols: ('^', 'v') };
    assert_eq!(options_with(&t, &vec![acc_49_48]).unwrap().last().unwrap().rank(), 3);
    assert_eq!(options_with(&t, &vec![acc_50_49]).unwrap().last().unwrap().rank(), 3);
}

// ---------------------------------------------------------------------------
// Temperaments from equal divisions and from commas.

fn wilson_weights(s: &Subgroup) -> Vec<f64> {
    s.basis().iter().map(|&p| (p as f64) * (p as f64)).collect()
}

fn reduced_commas(t: &Temperament) -> Matrix {
    let dim = t.dim();
    let columns = transpose(&left_kernel(&transpose(t.mapping(), dim), t.rank()), dim);
    let commas = t.comma_basis(&columns).unwrap();
    let reduced = lll(&commas, &wilson_weights(t.subgroup()));
    t.reduced_comma_basis(&reduced).unwrap()
}

#[test]
fn et_12edo_5limit() {
    let s = Subgroup::p_limit(5);
    let t = equal(12, &s);
    assert_eq!(t.mapping(), &vec![vec![12, 19, 28]]);
}

#[test]
fn et_over_subgroup() {
    let s = subgroup("2.3.7");
    let t = equal(12, &s);
    assert_eq!(t.mapping(), &vec![vec![12, 19, 34]]);
    assert_eq!(t.subgroup(), &s);
    assert_eq!(t.dim(), 3);
    assert_eq!(t.rank(), 1);
}

#[test]
fn reduced_commas_of_12et() {
    let s = Subgroup::p_limit(5);
    let t = equal(12, &s);
    let commas = reduced_commas(&t);
    assert_eq!(commas.len(), 2);
    for comma in &commas {
        assert_eq!(t.map(comma).unwrap(), vec![0]);
        assert!(cents(&s, comma) > 0.0);
        assert!(cents(&s, comma) < 100.0);
    }
}

#[test]
fn reduced_commas_of_miracle() {
    let s = Subgroup::p_limit(11);
    let m31 = equal(31, &s);
    let m41 = equal(41, &s);
    assert_eq!(m31.mapping(), &vec![vec![31, 49, 72, 87, 107]]);
    assert_eq!(m41.mapping(), &vec![vec![41, 65, 95, 115, 142]]);
    let mapping = vec![m31.mapping()[0].clone(), m41.mapping()[0].clone()];
    let miracle = from_mapping(&mapping, &s).unwrap();
    assert_eq!(miracle.rank(), 2);
    let ratios: Vec<(u64, u64)> = reduced_commas(&miracle).iter().map(|c| s.to_ratio(c).unwrap()).collect();
    assert_eq!(ratios, vec![(225, 224), (385, 384), (441, 440)]);
}

// ---------------------------------------------------------------------------
// Simplification.

fn simplifier_of(n: &Notation) -> Simplifier {
    let t = n.temperament();
    let dim = t.dim();
    let commas = left_kernel(&transpose(t.mapping(), dim), t.rank());
    Simplifier::new(n, lll(&commas, &wilson_weights(t.subgroup()))).unwrap()
}

fn simplify_within(n: &Notation, s: &Simplifier, interval: &Vec<i64>, radius: i64, count: usize) -> Result<Matrix, Error> {
    let near = if s.lattice().is_empty() || interval.len() != n.dim() {
        None
    } else {
        Some(cvp(interval, s.lattice(), &wilson_weights(n.subgroup())))
    };
    s.simplify_within(interval, radius, count, &near)
}

fn simplify(n: &Notation, s: &Simplifier, interval: &Vec<i64>) -> Result<Vec<i64>, Error> {
    simplify_within(n, s, interval, 2, 1).map(|mut found| found.swap_remove(0))
}

fn simplifier(divisions: i64, text: &str) -> (Notation, Simplifier) {
    let n = et_options(divisions, text).pop().unwrap();
    let s = simplifier_of(&n);
    (n, s)
}

fn stack(n: &Notation, ups: i64) -> Vec<i64> {
    let mut spelling = vec![0; n.rank()];
    spelling[2] = ups;
    n.to_just(&spelling).unwrap()
}

fn simplified(n: &Notation, s: &Simplifier, interval: &Vec<i64>) -> (u64, u64) {
    n.subgroup().to_ratio(&simplify(n, s, interval).unwrap()).unwrap()
}

#[test]
fn a_stack_of_ups_simplifies_to_the_octave() {
    let (n, s) = simplifier(41, "2.3.5.7.11");
    let stacked = stack(&n, 41);
    assert_eq!(stacked, vec![-164, 164, -41, 0, 0]);
    let simplest = simplify(&n, &s, &stacked).unwrap();
    assert_eq!(simplest, vec![1, 0, 0, 0, 0]);
    assert_eq!(n.note(&spell(&n, &simplest).unwrap()), "C6");
}

#[test]
fn forty_one_ups_are_the_interval_table_of_41et() {
    let (n, s) = simplifier(41, "2.3.5.7.11");
    for (ups, ratio) in [
        (0, (1, 1)),
        (8, (8, 7)),
        (9, (7, 6)),
        (11, (6, 5)),
        (13, (5, 4)),
        (17, (4, 3)),
        (19, (11, 8)),
        (24, (3, 2)),
        (28, (8, 5)),
        (30, (5, 3)),
        (33, (7, 4)),
        (37, (15, 8)),
    ] {
        assert_eq!(simplified(&n, &s, &stack(&n, ups)), ratio, "{ups} ups");
    }
}

#[test]
fn the_l1_norm_is_what_decides() {
    let (n, s) = simplifier(41, "2.3.5.7.11");
    assert_eq!(simplified(&n, &s, &stack(&n, 1)), (64, 63));
    let seed = simplify_within(&n, &s, &stack(&n, 1), 0, 1).unwrap();
    assert_eq!(n.subgroup().to_ratio(&seed[0]).unwrap(), (45, 44));
}

#[test]
fn a_radius_of_two_is_enough_and_a_radius_of_one_is_not() {
    {
        let (n, s) = simplifier(9, "2.3.5.7");
        let far = vec![-15, 0, 0, 0];
        let ratio = |interval: &Vec<i64>| n.subgroup().to_ratio(interval).unwrap();
        assert_eq!(ratio(&simplify_within(&n, &s, &far, 1, 1).unwrap()[0]), (1, 34560));
        assert_eq!(ratio(&simplify_within(&n, &s, &far, 2, 1).unwrap()[0]), (1, 39366));
        let primes = n.subgroup().basis();
        assert_eq!(sopfr(&[-8, 3, 1, 0], primes), 30);
        assert_eq!(sopfr(&[-1, 9, 0, 0], primes), 29);
    }
    for (divisions, text) in [(15, "2.3.5"), (22, "2.3.5"), (19, "2.3.5.7"), (31, "2.3.5.7"), (41, "2.3.5.7.11"), (72, "2.3.5.7.11")] {
        let (n, s) = simplifier(divisions, text);
        assert!(n.rank() > 2, "{divisions}et over {text} has no accidental");
        for ups in -30..=60 {
            let stacked = stack(&n, ups);
            assert_eq!(
                simplify_within(&n, &s, &stacked, 3, 1).unwrap()[0],
                simplify_within(&n, &s, &stacked, 2, 1).unwrap()[0],
                "{divisions}et over {text}, {ups} ups: a wider step moved the answer"
            );
        }
    }
}

#[test]
fn simplifying_keeps_the_pitch_and_settles() {
    for (divisions, text) in [(41, "2.3.5.7.11"), (31, "2.3.5.7"), (22, "2.3.5")] {
        let (n, s) = simplifier(divisions, text);
        assert!(n.rank() > 2, "{divisions}et over {text} has no accidental");
        let t = n.temperament();
        for ups in -20..=60 {
            let stacked = stack(&n, ups);
            let simplest = simplify(&n, &s, &stacked).unwrap();
            assert_eq!(t.map(&simplest).unwrap(), t.map(&stacked).unwrap());
            assert!(sopfr(&simplest, n.subgroup().basis()) <= sopfr(&stacked, n.subgroup().basis()));
            assert_eq!(simplify(&n, &s, &simplest).unwrap(), simplest);
        }
    }
}

#[test]
fn every_notation_of_a_temperament_simplifies_alike() {
    let sg = subgroup("2.3.5.7.11");
    let t = equal(41, &sg);
    let run = options(&t).unwrap();
    assert_eq!(run.len(), 3);
    let interval = sg.factorize(45, 32).unwrap();
    let simplest = simplify(&run[0], &simplifier_of(&run[0]), &interval).unwrap();
    for option in &run {
        assert_eq!(simplify(option, &simplifier_of(option), &interval).unwrap(), simplest);
    }
}

#[test]
fn the_candidates_are_ranked_readings_of_one_pitch() {
    let (n, s) = simplifier(41, "2.3.5.7.11");
    let sg = n.subgroup();
    let target = stack(&n, 15);
    let candidates = simplify_within(&n, &s, &target, 2, 3).unwrap();
    let found: Vec<(u64, u64)> = candidates.iter().map(|c| sg.to_ratio(c).unwrap()).collect();
    assert_eq!(found, vec![(9, 7), (32, 25), (35, 27)]);
    assert_eq!(candidates[0], simplify(&n, &s, &target).unwrap());
    let pitch = n.temperament().map(&target).unwrap();
    let mut norms = Vec::new();
    for candidate in simplify_within(&n, &s, &target, 2, usize::MAX).unwrap() {
        assert_eq!(n.temperament().map(&candidate).unwrap(), pitch);
        norms.push(sopfr(&candidate, sg.basis()));
    }
    assert!(norms.windows(2).all(|pair| pair[0] <= pair[1]));
    assert_eq!(norms.len(), 625);
    assert_eq!(simplify_within(&n, &s, &target, 2, 900).unwrap().len(), 625);
    assert_eq!(simplify_within(&n, &s, &target, 2, 0).unwrap().len(), 0);
}

#[test]
fn just_intonation_has_nothing_to_simplify() {
    let sg = subgroup("2.3.5.7");
    let n = Notation::from_ji(&sg).unwrap();
    let s = simplifier_of(&n);
    assert!(s.lattice().is_empty());
    let interval = sg.factorize(225, 224).unwrap();
    assert_eq!(simplify(&n, &s, &interval).unwrap(), interval);
}

#[test]
fn the_coordinates_have_to_fit_the_subgroup() {
    let (n, s) = simplifier(41, "2.3.5.7.11");
    assert!(simplify(&n, &s, &vec![0, 0]).is_err());
}
