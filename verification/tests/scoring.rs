use spsa_report::record::{Error, UciOption};
use spsa_report::score::{pair, rank, score, Score, ScoredPair};

const UNIT: i64 = 1_000_000_000;

fn rec(name: &str, value: i64, min: Option<i64>, max: Option<i64>) -> UciOption {
    UciOption { name: name.into(), value, min, max, step: None }
}

fn pair_of(before: UciOption, after: UciOption, index: usize) -> ScoredPair {
    let frac = score(&before, &after);
    ScoredPair { before, after, frac, index }
}

#[test]
fn range_normalized_fraction() {
    // (5.0 - 6.0) / (50.0 - 1.0) == -1/49
    let b = rec("A", 6 * UNIT, Some(UNIT), Some(50 * UNIT));
    let a = rec("A", 5 * UNIT, None, None);
    assert_eq!(
        score(&b, &a),
        Score::Finite { num: -(UNIT as i128), den: 49 * UNIT as u128 }
    );
}

#[test]
fn unchanged_value_scores_zero() {
    // (73.0 - 73.0) / (200.0 - 40.0) == 0
    let b = rec("A", 73 * UNIT, Some(40 * UNIT), Some(200 * UNIT));
    let a = rec("A", 73 * UNIT, None, None);
    assert_eq!(score(&b, &a), Score::Finite { num: 0, den: 160 * UNIT as u128 });
}

#[test]
fn missing_bounds_score_zero_despite_change() {
    let b = rec("A", 6 * UNIT, None, None);
    let a = rec("A", 900 * UNIT, None, None);
    assert_eq!(score(&b, &a), Score::Finite { num: 0, den: 1 });
    let b = rec("A", 6 * UNIT, Some(UNIT), None);
    assert_eq!(score(&b, &a), Score::Finite { num: 0, den: 1 });
    let b = rec("A", 6 * UNIT, None, Some(50 * UNIT));
    assert_eq!(score(&b, &a), Score::Finite { num: 0, den: 1 });
}

#[test]
fn zero_width_range_is_maximal_change() {
    let b = rec("A", 6 * UNIT, Some(7 * UNIT), Some(7 * UNIT));
    let a = rec("A", 6 * UNIT, None, None);
    assert_eq!(score(&b, &a), Score::Maximal);
}

#[test]
fn reversed_bounds_fold_the_sign() {
    // (5.0 - 6.0) / (1.0 - 50.0) == +1/49
    let b = rec("A", 6 * UNIT, Some(50 * UNIT), Some(UNIT));
    let a = rec("A", 5 * UNIT, None, None);
    assert_eq!(
        score(&b, &a),
        Score::Finite { num: UNIT as i128, den: 49 * UNIT as u128 }
    );
}

#[test]
fn pairing_rejects_unequal_lengths() {
    let before = vec![rec("A", UNIT, None, None), rec("B", UNIT, None, None)];
    let after = vec![rec("A", UNIT, None, None)];
    assert_eq!(pair(&before, &after).unwrap_err(), Error::PairingMismatch);
}

#[test]
fn pairing_rejects_mismatched_names() {
    let before = vec![rec("A", UNIT, None, None), rec("B", UNIT, None, None)];
    let after = vec![rec("A", UNIT, None, None), rec("C", UNIT, None, None)];
    assert_eq!(pair(&before, &after).unwrap_err(), Error::PairingMismatch);
}

#[test]
fn pairing_scores_in_position_order() {
    let before = vec![
        rec("A", 6 * UNIT, Some(UNIT), Some(50 * UNIT)),
        rec("B", 73 * UNIT, Some(40 * UNIT), Some(200 * UNIT)),
    ];
    let after = vec![rec("A", 5 * UNIT, None, None), rec("B", 73 * UNIT, None, None)];
    let pairs = pair(&before, &after).unwrap();
    assert_eq!(pairs.len(), 2);
    assert_eq!(pairs[0].index, 0);
    assert_eq!(pairs[1].index, 1);
    assert_eq!(
        pairs[0].frac,
        Score::Finite { num: -(UNIT as i128), den: 49 * UNIT as u128 }
    );
    assert_eq!(pairs[1].frac, Score::Finite { num: 0, den: 160 * UNIT as u128 });
}

#[test]
fn ranking_descends_by_magnitude() {
    // |changeFraction| = 0.5, 0.02, 0.1 must come out as 0.5, 0.1, 0.02.
    let mk = |name: &str, num: i128, den: u128, index: usize| ScoredPair {
        before: rec(name, 0, None, None),
        after: rec(name, 0, None, None),
        frac: Score::Finite { num, den },
        index,
    };
    let pairs = vec![mk("HALF", 1, 2, 0), mk("FIFTIETH", 2, 100, 1), mk("TENTH", -1, 10, 2)];
    let ranked = rank(pairs);
    let names: Vec<&str> = ranked.iter().map(|p| p.before.name.as_str()).collect();
    assert_eq!(names, vec!["HALF", "TENTH", "FIFTIETH"]);
}

#[test]
fn ranking_keeps_ties_in_original_order() {
    let b = || rec("X", 0, Some(0), Some(10 * UNIT));
    let a = || rec("X", 5 * UNIT, None, None);
    let p0 = pair_of(b(), a(), 0);
    let p1 = pair_of(b(), a(), 1);
    let p2 = pair_of(b(), a(), 2);
    let ranked = rank(vec![p1, p0, p2]);
    let order: Vec<usize> = ranked.iter().map(|p| p.index).collect();
    assert_eq!(order, vec![0, 1, 2]);
}

#[test]
fn maximal_change_ranks_first() {
    let quiet = ScoredPair {
        before: rec("QUIET", 0, None, None),
        after: rec("QUIET", 0, None, None),
        frac: Score::Finite { num: 1, den: 3 },
        index: 0,
    };
    let loud = ScoredPair {
        before: rec("LOUD", 0, None, None),
        after: rec("LOUD", 0, None, None),
        frac: Score::Maximal,
        index: 1,
    };
    let ranked = rank(vec![quiet, loud]);
    assert_eq!(ranked[0].before.name, "LOUD");
    assert_eq!(ranked[1].before.name, "QUIET");
}
