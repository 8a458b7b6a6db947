//! Exact values, error cases and the laws of the library on concrete inputs.

use lib::accidental::{check_symbols, derive_accidental_vector, derive_accidentals, fallback_symbols, Accidental};
use lib::error::{Dimensions, Error, Unsupported};
use lib::notation::{NominalVerdict, Notation};
use lib::options::{best_of_size, equal_up_to_sign, recommended, subsets, with_count_from, NotationOptions};
use lib::simplify::{sopfr, Simplifier};
use lib::spelling::{degree, spelling_break_ties, spelling_cost};
use lib::subgroup::Subgroup;
use lib::temperament::Temperament;

fn meantone() -> Temperament {
    let s = Subgroup::parse("2.3.5").unwrap();
    Temperament::from_commas(
        &vec![vec![-4, 4, -1]],
        &s,
        vec![vec![1, 0, -4], vec![0, 1, 4]],
        vec![vec![1, 0, -4], vec![0, 1, 4]],
    )
    .unwrap()
}

/// Twelve equal divisions of the octave over `2.3.5`, notated by the fifth
/// chain alone: the octave is twelve steps and the fifth seven, three octaves
/// less five fifths is a step, and twelve fifths less seven octaves is the
/// one enharmonic.
fn twelve() -> Notation {
    let s = Subgroup::parse("2.3.5").unwrap();
    let t = Temperament::from_mapping(&vec![vec![12, 19, 28]], &s, vec![vec![12, 19, 28]]).unwrap();
    Notation::from_accidentals(&t, &Vec::new(), Some(vec![vec![3, -5]]), vec![vec![-7, 12]]).unwrap()
}

#[test]
fn subgroups_parse_and_refuse() {
    let s = Subgroup::parse("2.3.7").unwrap();
    assert_eq!(s.basis(), &vec![2, 3, 7]);
    assert_eq!(s.dim(), 3);
    assert_eq!(Subgroup::parse("2.5").err(), Some(Error::InvalidSubgroup));
    assert_eq!(Subgroup::parse("2.3.9").err(), Some(Error::InvalidSubgroup));
    assert_eq!(Subgroup::parse("2.3.x").err(), Some(Error::InvalidSubgroup));
    assert_eq!(Subgroup::new(vec![2, 3, 5]).unwrap().basis(), &vec![2, 3, 5]);
    assert_eq!(Subgroup::p_limit(13).basis(), &vec![2, 3, 5, 7, 11, 13]);
}

#[test]
fn ratios_factor_and_multiply_back() {
    let s = Subgroup::parse("2.3.5").unwrap();
    assert_eq!(s.factorize(81, 80).unwrap(), vec![-4, 4, -1]);
    assert_eq!(s.to_ratio(&vec![-4, 4, -1]).unwrap(), (81, 80));
    assert_eq!(s.factorize(7, 4).err(), Some(Error::NotInSubgroup));
    assert_eq!(s.factorize(0, 4).err(), Some(Error::NotInSubgroup));
    assert_eq!(s.to_ratio(&vec![70, 0, 0]).err(), Some(Error::Overflow));
    assert!(!s.is_descending(&vec![-4, 4, -1]));
    assert!(s.is_descending(&vec![4, -4, 1]));
    assert!(!s.is_descending(&vec![-130, 83, 0]));
    assert!(s.is_descending(&vec![-130, 82, 0]));
}

#[test]
fn commas_too_large_for_machine_words_are_turned_upward() {
    let s = Subgroup::parse("2.3.5").unwrap();
    let mapping = vec![vec![83, 131, 0], vec![0, 0, 1]];
    let t = Temperament::from_mapping(&mapping, &s, mapping.clone()).unwrap();
    assert_eq!(t.map(&vec![131, -83, 0]).unwrap(), vec![0, 0]);
    assert_eq!(t.reduced_comma_basis(&vec![vec![131, -83, 0]]).unwrap(), vec![vec![-131, 83, 0]]);
    assert_eq!(t.reduced_comma_basis(&vec![vec![-131, 83, 0]]).unwrap(), vec![vec![-131, 83, 0]]);
}

#[test]
fn mappings_of_the_wrong_shape_are_refused() {
    let s = Subgroup::parse("2.3.5").unwrap();
    assert_eq!(
        Temperament::from_mapping(&Vec::new(), &s, Vec::new()).err(),
        Some(Error::InvalidDimensions(Dimensions::EmptyMapping))
    );
    assert_eq!(
        Temperament::from_mapping(&vec![vec![12, 19]], &s, Vec::new()).err(),
        Some(Error::InvalidDimensions(Dimensions::MappingRow { found: 2, expected: 3 }))
    );
    assert_eq!(
        Temperament::from_commas(&Vec::new(), &s, Vec::new(), Vec::new()).err(),
        Some(Error::InvalidDimensions(Dimensions::NoCommas))
    );
    assert_eq!(
        Temperament::from_commas(&vec![vec![-4, 4]], &s, Vec::new(), Vec::new()).err(),
        Some(Error::InvalidDimensions(Dimensions::Comma { found: 2, expected: 3 }))
    );
    let everything = vec![vec![1, 0, 0], vec![0, 1, 0], vec![0, 0, 1]];
    assert_eq!(
        Temperament::from_commas(&everything, &s, Vec::new(), Vec::new()).err(),
        Some(Error::InvalidDimensions(Dimensions::RankZero))
    );
    assert_eq!(
        meantone().map(&vec![1, 0]).err(),
        Some(Error::InvalidDimensions(Dimensions::Interval { found: 2, expected: 3 }))
    );
}

#[test]
fn a_temperament_maps_and_tempers_out_its_commas() {
    let t = meantone();
    assert_eq!(t.map(&vec![0, 0, 1]).unwrap(), vec![-4, 4]);
    assert_eq!(t.map(&vec![-4, 4, -1]).unwrap(), vec![0, 0]);
    assert_eq!(t.map_all(&vec![vec![1, 0, 0], vec![-1, 1, 0]]).unwrap(), vec![vec![1, 0], vec![-1, 1]]);
    assert_eq!(t.rank(), 2);
    assert_eq!(t.dim(), 3);
    let commas = t.comma_basis(&vec![vec![4], vec![-4], vec![1]]).unwrap();
    assert_eq!(commas, vec![vec![4, -4, 1]]);
    assert_eq!(t.reduced_comma_basis(&commas).unwrap(), vec![vec![-4, 4, -1]]);
    let ji = Temperament::from_ji(&Subgroup::parse("2.3").unwrap());
    assert_eq!(ji.mapping(), &vec![vec![1, 0], vec![0, 1]]);
}

#[test]
fn what_a_written_note_costs() {
    assert_eq!(spelling_cost(&vec![0, 2, 0]), 0);
    assert_eq!(spelling_cost(&vec![9, 2, 0]), 0);
    assert_eq!(spelling_cost(&vec![0, 4, -1]), 11);
    assert_eq!(spelling_cost(&vec![0, -5, 2, -1]), 14 + 21);
    assert_eq!(spelling_break_ties(&vec![0, -5, 2]), 7);
    assert_eq!(degree(&vec![1, 1, 3]), 11);
    assert_eq!(degree(&vec![-2, 4]), 2);
}

#[test]
fn moving_by_octaves_costs_nothing() {
    for octaves in [-7, -1, 3, 40] {
        assert_eq!(spelling_cost(&vec![octaves, 4, -1]), spelling_cost(&vec![0, 4, -1]));
        assert_eq!(spelling_break_ties(&vec![octaves, 4, -1]), spelling_break_ties(&vec![0, 4, -1]));
    }
}

#[test]
fn accidentals_are_derived_per_prime() {
    let s = Subgroup::parse("2.3.5.7.11").unwrap();
    assert_eq!(derive_accidental_vector(&s, 2).unwrap(), vec![-4, 4, -1, 0, 0]);
    assert_eq!(derive_accidental_vector(&s, 3).unwrap(), vec![6, -2, 0, -1, 0]);
    assert_eq!(derive_accidental_vector(&s, 4).unwrap(), vec![-5, 1, 0, 0, 1]);
    let symbols: Vec<(char, char)> = derive_accidentals(&s).unwrap().iter().map(|a| a.symbols).collect();
    assert_eq!(symbols, vec![('^', 'v'), ('>', '<'), ('t', 'd')]);
}

#[test]
fn arbitrary_symbols_run_on_past_the_ascii_ones() {
    assert_eq!(fallback_symbols(0), ('!', '?'));
    assert_eq!(fallback_symbols(4), ('\'', ','));
    assert_eq!(fallback_symbols(5), ('α', 'β'));
    assert_eq!(fallback_symbols(16), ('χ', 'ψ'));
    assert_eq!(fallback_symbols(17), ('一', '丁'));
    assert_eq!(fallback_symbols(18), ('丂', '七'));
}

#[test]
fn symbol_errors_name_the_symbol() {
    let s = Subgroup::parse("2.3.5.7").unwrap();
    let mut accidentals = derive_accidentals(&s).unwrap();
    assert_eq!(check_symbols(&accidentals), Ok(()));
    accidentals[1].symbols = ('^', '<');
    assert_eq!(check_symbols(&accidentals), Err(Error::Unsupported(Unsupported::RepeatedSymbol('^'))));
    accidentals[1].symbols = ('>', 'b');
    assert_eq!(check_symbols(&accidentals), Err(Error::Unsupported(Unsupported::ReservedSymbol('b'))));
    accidentals[0].symbols = ('7', 'v');
    assert_eq!(check_symbols(&accidentals), Err(Error::Unsupported(Unsupported::ReservedSymbol('7'))));
}

#[test]
fn a_notation_checks_its_accidentals() {
    let s = Subgroup::parse("2.3.5").unwrap();
    let t = Temperament::from_ji(&s);
    let short = Accidental { vector: vec![-4, 4], symbols: ('^', 'v') };
    assert_eq!(
        Notation::from_accidentals(&t, &vec![short], None, Vec::new()).err(),
        Some(Error::InvalidDimensions(Dimensions::Interval { found: 2, expected: 3 }))
    );
    let twelve_et = Temperament::from_mapping(&vec![vec![12, 19, 28]], &s, vec![vec![12, 19, 28]]).unwrap();
    let syntonic = derive_accidentals(&s).unwrap();
    assert_eq!(
        Notation::from_accidentals(&twelve_et, &syntonic, None, Vec::new()).err(),
        Some(Error::Unsupported(Unsupported::DoesNotReach))
    );
}

#[test]
fn twelve_equal_spells_by_fifths() {
    let n = twelve();
    assert_eq!(n.rank(), 2);
    assert_eq!(n.dim(), 3);
    assert_eq!(n.enharmonics(), &vec![vec![-7, 12]]);
    // The just third is four steps: the seed is four steps spelt 12 octaves
    // and -20 fifths, and the walk settles on E.
    let third = vec![-2, 0, 1];
    let seed = n.spelling_seed(&third).unwrap();
    assert_eq!(seed, vec![12, -20]);
    // The enharmonic closest to the seed is one pythagorean comma down twice.
    let spelled = n.spell(&third, &Some(vec![14, -24])).unwrap();
    assert_eq!(spelled, vec![-2, 4]);
    assert_eq!(n.note(&spelled), "E5");
    assert_eq!(n.pitch(&spelled).unwrap(), vec![4]);
    assert_eq!(n.pitch(&seed).unwrap(), vec![4]);
    // C# and Db are one pitch.
    let sharp = n.respell(&vec![-4, 7], 3, &Some(vec![-7, 12])).unwrap();
    assert_eq!(sharp, vec![vec![-4, 7], vec![3, -5], vec![-11, 19]]);
    for s in &sharp {
        assert_eq!(n.pitch(s).unwrap(), vec![1]);
    }
    assert_eq!(n.note(&vec![3, -5]), "Db5");
    assert_eq!(n.note(&vec![-4, 7]), "C#5");
}

#[test]
fn coordinates_of_the_wrong_length_are_refused() {
    let n = twelve();
    let coordinates = Error::InvalidDimensions(Dimensions::Coordinates { found: 3, expected: 2 });
    assert_eq!(n.pitch(&vec![0, 0, 0]).err(), Some(coordinates.clone()));
    assert_eq!(n.to_just(&vec![0, 0, 0]).err(), Some(coordinates.clone()));
    assert_eq!(n.respell(&vec![0, 0, 0], 1, &None).err(), Some(coordinates));
    assert_eq!(
        n.spell(&vec![0, 0], &None).err(),
        Some(Error::InvalidDimensions(Dimensions::Interval { found: 2, expected: 3 }))
    );
}

#[test]
fn reading_a_spelling_as_just_keeps_its_pitch() {
    let n = twelve();
    for c in [vec![0, 0], vec![-4, 7], vec![3, -5], vec![2, 9]] {
        let just = n.to_just(&c).unwrap();
        assert_eq!(n.temperament().map(&just).unwrap(), n.pitch(&c).unwrap());
    }
    assert_eq!(n.to_just(&vec![-7, 12]).unwrap(), vec![-19, 12, 0]);
}

#[test]
fn just_intonation_has_no_enharmonics() {
    let n = Notation::from_ji(&Subgroup::parse("2.3.5.7").unwrap()).unwrap();
    assert!(n.enharmonics().is_empty());
    assert_eq!(n.rank(), n.temperament().rank());
    let seed = n.spelling_seed(&vec![0, 0, 0, 1]).unwrap();
    assert_eq!(seed, vec![4, -2, 0, -1]);
    assert_eq!(n.note(&n.spell(&vec![0, 0, 0, 1], &None).unwrap()), "<Bb7");
}

#[test]
fn notes_carry_marks_sharps_and_octaves() {
    let n = Notation::from_ji(&Subgroup::parse("2.3.5.7").unwrap()).unwrap();
    assert_eq!(n.note(&vec![0, 0, 0, 0]), "C5");
    assert_eq!(n.note(&vec![0, 0, 2, -1]), "^^<C5");
    assert_eq!(n.note(&vec![0, 7, 0, 0]), "C#9");
    assert_eq!(n.note(&vec![-20, 0, 0, 0]), "C-15");
    assert_eq!(n.note(&vec![0, -15, -1, 0]), "vFbb-4");
}

#[test]
fn with_degree_puts_the_letters_beside_the_images() {
    let n = twelve();
    assert_eq!(n.with_degree(), vec![vec![12, 7], vec![7, 4]]);
}

#[test]
fn options_offer_what_is_not_tempered_out() {
    let s = Subgroup::parse("2.3.5.7.11").unwrap();
    let t = Temperament::from_mapping(&vec![vec![41, 65, 95, 115, 142]], &s, vec![vec![41, 65, 95, 115, 142]]).unwrap();
    let o = NotationOptions::new(&t, &derive_accidentals(&s).unwrap()).unwrap();
    // 64/63 is worth what 81/80 is, so only 81/80 and 33/32 are offered.
    assert_eq!(o.indices(), &vec![0, 2]);
    assert_eq!(o.candidates(0), vec![Vec::<usize>::new()]);
    // An equal temperament keeping one accidental keeps the step.
    assert_eq!(o.candidates(1), vec![vec![0]]);
    assert_eq!(o.candidates(2), vec![vec![0, 1]]);
    assert_eq!(o.keep(&vec![1])[0].vector, vec![-5, 1, 0, 0, 1]);
    let short = Accidental { vector: vec![1], symbols: ('^', 'v') };
    assert!(NotationOptions::new(&t, &vec![short]).is_err());
}

#[test]
fn subsets_come_in_lexicographic_order() {
    assert_eq!(subsets(&vec![3, 5, 7], 2), vec![vec![3, 5], vec![3, 7], vec![5, 7]]);
    assert_eq!(subsets(&vec![3, 5, 7], 0), vec![Vec::<usize>::new()]);
    assert_eq!(subsets(&vec![3, 5], 3), Vec::<Vec<usize>>::new());
    assert!(equal_up_to_sign(&vec![1, -2], &vec![-1, 2]));
    assert!(equal_up_to_sign(&vec![1, -2], &vec![1, -2]));
    assert!(!equal_up_to_sign(&vec![1, -2], &vec![1, 2]));
}

#[test]
fn the_best_of_a_size_has_fewest_failures_then_lowest_costs() {
    let v = |costs: Vec<Option<i64>>, failures: usize| Some(NominalVerdict { costs, failures });
    let verdicts = vec![
        None,
        v(vec![Some(11), Some(15)], 1),
        v(vec![Some(11), Some(20)], 0),
        v(vec![Some(11), Some(19)], 0),
        v(vec![Some(12), Some(18)], 0),
        v(vec![Some(11), Some(19)], 0),
        v(vec![None, Some(1)], 0),
    ];
    assert_eq!(best_of_size(&verdicts), Some(3));
    assert_eq!(best_of_size(&vec![None, None]), None);
    assert_eq!(with_count_from(2, &vec![None]).err(), Some(Error::Unsupported(Unsupported::NoNotationOfSize(2))));
    assert_eq!(recommended(&vec![false, true, true]), 1);
    assert_eq!(recommended(&vec![false, false]), 0);
}

#[test]
fn simplifying_stays_on_the_pitch() {
    let s = Subgroup::parse("2.3.5").unwrap();
    let t = meantone();
    let n = Notation::from_accidentals(&t, &Vec::new(), Some(vec![vec![1, 0], vec![1, 1]]), Vec::new()).unwrap();
    let simplifier = Simplifier::new(&n, vec![vec![-4, 4, -1]]).unwrap();
    assert_eq!(simplifier.lattice(), &vec![vec![-4, 4, -1]]);
    // The pythagorean third is a just third to meantone.
    let third = s.factorize(81, 64).unwrap();
    let simplest = simplifier.simplify(&third, &Some(vec![-4, 4, -1])).unwrap();
    assert_eq!(s.to_ratio(&simplest).unwrap(), (5, 4));
    assert_eq!(t.map(&simplest).unwrap(), t.map(&third).unwrap());
    let readings = simplifier.candidates(&third, 2, &Some(vec![-4, 4, -1])).unwrap();
    assert_eq!(readings[0], simplest);
    assert_eq!(t.map(&readings[1]).unwrap(), t.map(&third).unwrap());
    assert_eq!(
        Simplifier::new(&n, vec![vec![1, 2]]).err(),
        Some(Error::InvalidDimensions(Dimensions::Comma { found: 2, expected: 3 }))
    );
}

#[test]
fn arbitrary_symbols_step_over_the_surrogates_to_the_end_of_unicode() {
    assert_eq!(fallback_symbols(17000), (char::from_u32(0x4E00 + 2 * 16983).unwrap(), char::from_u32(0x4E00 + 2 * 16983 + 1).unwrap()));
    assert_eq!(fallback_symbols(17680), ('\u{D7FE}', '\u{D7FF}'));
    assert_eq!(fallback_symbols(17681), ('\u{E000}', '\u{E001}'));
    assert_eq!(fallback_symbols(18705), ('\u{E800}', '\u{E801}'));
    assert_eq!(fallback_symbols(546064), ('\u{10FFFE}', '\u{10FFFF}'));
}

#[test]
fn a_walk_that_leaves_sixty_four_bits_is_refused() {
    let n = twelve();
    assert_eq!(n.respell(&vec![i64::MAX, 0], 1, &None).err(), Some(Error::Overflow));
    assert_eq!(n.respell(&vec![i64::MIN, 0], 1, &Some(vec![7, -12])).err(), Some(Error::Overflow));
    // Far from the edge the same walk is fine.
    assert_eq!(n.respell(&vec![1_000_000_000_000, 0], 1, &None).unwrap(), vec![vec![1_000_000_000_000, 0]]);
}

#[test]
fn a_simplification_that_leaves_sixty_four_bits_is_refused() {
    let t = meantone();
    let n = Notation::from_accidentals(&t, &Vec::new(), Some(vec![vec![1, 0], vec![1, 1]]), Vec::new()).unwrap();
    let simplifier = Simplifier::new(&n, vec![vec![-4, 4, -1]]).unwrap();
    assert_eq!(simplifier.simplify(&vec![i64::MAX, 0, 0], &None).err(), Some(Error::Overflow));
}

#[test]
fn reading_a_just_spelling_as_just_gives_the_interval_back() {
    let n = Notation::from_ji(&Subgroup::parse("2.3.5.7.11").unwrap()).unwrap();
    for x in [vec![0, 0, 0, 1, 0], vec![-3, 2, 1, 0, 0], vec![5, -1, 0, -2, 1], vec![0, 0, 0, 0, -1]] {
        let s = n.spell(&x, &None).unwrap();
        assert_eq!(n.to_just(&s).unwrap(), x);
    }
}

#[test]
fn spelling_the_spelled_settles_in_twelve() {
    let n = twelve();
    let third = vec![-2, 0, 1];
    let near = Some(vec![14, -24]);
    let spelled = n.spell(&third, &near).unwrap();
    let just = n.to_just(&spelled).unwrap();
    assert_eq!(n.spelling_seed(&just).unwrap(), n.spelling_seed(&third).unwrap());
    assert_eq!(n.spell(&just, &near).unwrap(), spelled);
}

#[test]
fn fewer_candidates_are_a_prefix_and_the_first_is_the_simplest() {
    let s = Subgroup::parse("2.3.5").unwrap();
    let t = meantone();
    let n = Notation::from_accidentals(&t, &Vec::new(), Some(vec![vec![1, 0], vec![1, 1]]), Vec::new()).unwrap();
    let simplifier = Simplifier::new(&n, vec![vec![-4, 4, -1]]).unwrap();
    let third = s.factorize(81, 64).unwrap();
    let near = Some(vec![-4, 4, -1]);
    let five = simplifier.candidates(&third, 5, &near).unwrap();
    for k in 0..=5 {
        let fewer = simplifier.candidates(&third, k, &near).unwrap();
        assert_eq!(fewer[..], five[..k.min(five.len())]);
    }
    assert_eq!(five[0], simplifier.simplify(&third, &near).unwrap());
}

#[test]
fn the_wilson_norm_is_a_norm() {
    let primes = vec![2, 3, 5];
    let x = vec![-4, 4, -1];
    let y = vec![2, -1, 0];
    assert_eq!(sopfr(&x, &primes), 25);
    assert_eq!(sopfr(&[4, -4, 1], &primes), 25);
    assert_eq!(sopfr(&[0, 0, 0], &primes), 0);
    let sum: Vec<i64> = x.iter().zip(&y).map(|(a, b)| a + b).collect();
    assert!(sopfr(&sum, &primes) <= sopfr(&x, &primes) + sopfr(&y, &primes));
}
