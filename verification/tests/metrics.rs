use tocsin::metrics::{confusion, ranking, Confusion, Fraction, Ranking};
use tocsin::order::{descending_order, Score};

fn scores(values: &[f32]) -> Vec<Score> {
    values.iter().map(|v| Score { bits: v.to_bits() }).collect()
}

fn ratio(fraction: Fraction) -> f64 {
    if fraction.denominator == 0 {
        0.0
    } else {
        fraction.numerator as f64 / fraction.denominator as f64
    }
}

fn average_precision(r: &Ranking) -> f64 {
    let (mut ap, mut before) = (0.0, 0.0);
    for cut in &r.cuts {
        let (tp, fp) = (cut.tp as f64, cut.fp as f64);
        if r.positives > 0 {
            ap += (tp - before) / r.positives as f64 * tp / (tp + fp);
        }
        before = tp;
    }
    ap
}

fn best_f1(r: &Ranking) -> f64 {
    match r.best {
        Some(best) => {
            let cut = r.cuts[best];
            2.0 * cut.tp as f64 / (cut.tp + cut.fp + r.positives) as f64
        }
        None => 0.0,
    }
}

#[test]
fn perfect_ranking() {
    let r = ranking(&scores(&[0.9, 0.8, 0.2, 0.1]), &[true, true, false, false]);
    assert_eq!(
        (average_precision(&r), ratio(r.roc_auc()), best_f1(&r)),
        (1.0, 1.0, 1.0)
    );
    assert_eq!(f32::from_bits(r.cuts[r.best.unwrap()].threshold.bits), 0.8);
}

#[test]
fn ranking_matches_reference_values() {
    let labels = [false, false, true, true];
    let r = ranking(&scores(&[0.1, 0.4, 0.35, 0.8]), &labels);
    assert!((average_precision(&r) - 0.8333333).abs() < 1e-6);
    assert!((ratio(r.roc_auc()) - 0.75).abs() < 1e-9);
}

#[test]
fn tied_scores_are_one_threshold() {
    let r = ranking(&scores(&[0.5, 0.5, 0.5, 0.5]), &[true, false, true, false]);
    assert!((average_precision(&r) - 0.5).abs() < 1e-9);
    assert!((ratio(r.roc_auc()) - 0.5).abs() < 1e-9);
    assert_eq!(r.cuts.len(), 1);
}

#[test]
fn signed_zeros_tie() {
    let r = ranking(&scores(&[0.0, -0.0]), &[true, false]);
    assert_eq!((average_precision(&r), ratio(r.roc_auc())), (0.5, 0.5));
}

#[test]
fn non_finite_scores_terminate() {
    let r = ranking(&scores(&[f32::NAN, 0.9, f32::NAN]), &[true, false, true]);
    assert!(ratio(r.roc_auc()).is_finite());
}

#[test]
fn confusion_counts() {
    let half = Score { bits: 0.5f32.to_bits() };
    let c = confusion(&scores(&[0.9, 0.6, 0.4, 0.1]), &[true, false, true, false], half);
    assert_eq!(
        c,
        Confusion {
            tp: 1,
            fp: 1,
            fn_: 1,
            tn: 1
        }
    );
    assert_eq!(
        (ratio(c.precision()), ratio(c.recall()), ratio(c.f1())),
        (0.5, 0.5, 0.5)
    );
}

#[test]
fn cuts_count_what_their_thresholds_flag() {
    let values = scores(&[0.3, 0.9, 0.3, 0.7]);
    let labels = [true, false, false, true];
    let r = ranking(&values, &labels);
    let expected = [(0.9f32, 0, 1), (0.7, 1, 1), (0.3, 2, 2)];
    let found: Vec<(f32, u64, u64)> = r
        .cuts
        .iter()
        .map(|c| (f32::from_bits(c.threshold.bits), c.tp, c.fp))
        .collect();
    assert_eq!(found, expected);
    for cut in &r.cuts {
        let counts = confusion(&values, &labels, cut.threshold);
        assert_eq!((counts.tp, counts.fp), (cut.tp, cut.fp));
    }
    assert_eq!((r.positives, r.negatives), (2, 2));
    assert_eq!(r.best, Some(2));
}

#[test]
fn the_area_counts_pairs() {
    let r = ranking(&scores(&[0.9, 0.5, 0.5, 0.1]), &[true, true, false, false]);
    assert_eq!(r.roc_auc(), Fraction { numerator: 7, denominator: 8 });
}

#[test]
fn rankings_without_alerts_have_no_best_cut() {
    let r = ranking(&scores(&[0.9, 0.5]), &[false, false]);
    assert_eq!(r.best, None);
    assert_eq!(r.roc_auc(), Fraction { numerator: 0, denominator: 0 });
    let empty = ranking(&[], &[]);
    assert!(empty.cuts.is_empty());
    assert_eq!(empty.best, None);
}

#[test]
fn no_number_reaches_no_threshold() {
    let nan = Score { bits: f32::NAN.to_bits() };
    let one = Score { bits: 1.0f32.to_bits() };
    let infinity = Score { bits: f32::INFINITY.to_bits() };
    assert!(!nan.at_least(one));
    assert!(!one.at_least(nan));
    assert!(infinity.at_least(one));
    assert!(!one.at_least(infinity));
    let negative = Score { bits: (-0.0f32).to_bits() };
    assert!(negative.at_least(Score { bits: 0 }));
    assert_eq!(negative.total_place(), -1);
    assert_eq!(negative.place(), 0);
}

#[test]
fn orders_are_stable_and_descending() {
    let keys = vec![(1, 5), (2, 0), (1, 7), (1, 5), (-3, 9)];
    assert_eq!(descending_order(&keys), vec![1, 2, 0, 3, 4]);
    assert!(descending_order(&Vec::new()).is_empty());
}

#[test]
fn confusions_give_exact_shares() {
    let c = Confusion { tp: 3, fp: 1, fn_: 2, tn: 4 };
    assert_eq!(c.precision(), Fraction { numerator: 3, denominator: 4 });
    assert_eq!(c.recall(), Fraction { numerator: 3, denominator: 5 });
    assert_eq!(c.f1(), Fraction { numerator: 6, denominator: 9 });
    assert_eq!(Confusion::default(), Confusion { tp: 0, fp: 0, fn_: 0, tn: 0 });
}
