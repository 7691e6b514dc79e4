use tocsin::judge::{first_area, grade, Rules, Verdict};
use tocsin::order::Score;
use tocsin::route::{Route, Thresholds};

fn score(value: f32) -> Score {
    Score { bits: value.to_bits() }
}

fn verdict(pageable: f32, detail: f32, severity: f32) -> Verdict {
    Verdict {
        pageable: score(pageable),
        detail: score(detail),
        severity: score(severity),
        area: "other".into(),
        attention: score(pageable * (1.0 - detail)),
    }
}

#[test]
fn rules_rank_by_keyword_severity() {
    let rules = Rules::new().unwrap();
    assert_eq!(rules.verdict("kernel panic - not syncing").severity, score(3.0));
    assert_eq!(rules.verdict("connection to <*> failed").pageable, score(0.7));
    assert_eq!(rules.verdict("retrying request <NUM>").pageable, score(0.3));
    assert_eq!(rules.verdict("GET /health <NUM>").pageable, score(0.05));
}

#[test]
fn rules_pick_an_area() {
    let rules = Rules::new().unwrap();
    assert_eq!(rules.verdict("ssh login failed for root").area, "security");
    assert_eq!(rules.verdict("disk <*> is full").area, "storage");
    assert_eq!(rules.verdict("order <NUM> shipped").area, "application");
}

#[test]
fn routes_on_attention() {
    let thresholds = Thresholds::default();
    assert_eq!(thresholds.route(&verdict(0.97, 0.05, 2.0)), Route::Page);
    assert_eq!(thresholds.route(&verdict(0.97, 0.3, 2.0)), Route::Ticket);
    assert_eq!(thresholds.route(&verdict(0.95, 0.9, 2.0)), Route::Log);
    assert_eq!(thresholds.route(&verdict(0.2, 0.0, 2.0)), Route::Log);
}

#[test]
fn rules_judge_without_tokens() {
    let rules = Rules::new().unwrap();
    let judged = rules.judge("link is down: fatal");
    assert_eq!(judged.input_tokens, 0);
    assert_eq!(judged.model, "rules");
    assert_eq!(rules.fingerprint(), "rules-v1");
    assert_eq!(judged.verdict.pageable, score(0.9));
    assert_eq!(judged.verdict.attention(), score(0.9));
    assert_eq!(judged.verdict.detail, score(0.0));
    assert_eq!(judged.verdict.area, "network");
    assert!(judged.verdict.is_valid());
}

#[test]
fn rules_know_all_areas() {
    let rules = Rules::new().unwrap();
    assert_eq!(rules.verdict("ECC parity trouble").area, "hardware");
    assert_eq!(rules.verdict("systemd stopped").area, "operating_system");
    assert_eq!(rules.verdict("tcp reset").area, "network");
    assert_eq!(rules.level("slow query"), (score(0.3), score(1.0)));
    assert_eq!(rules.level("all quiet"), (score(0.05), score(0.0)));
}

#[test]
fn verdicts_out_of_range_are_invalid() {
    assert!(verdict(0.0, 1.0, 3.0).is_valid());
    assert!(verdict(-0.0, 0.0, 0.0).is_valid());
    assert!(!verdict(1.1, 0.0, 0.0).is_valid());
    assert!(!verdict(0.5, -0.1, 0.0).is_valid());
    assert!(!verdict(0.5, 0.5, 3.5).is_valid());
    assert!(!verdict(f32::NAN, 0.5, 1.0).is_valid());
    assert!(!verdict(0.5, 0.5, f32::INFINITY).is_valid());
}

#[test]
fn thresholds_are_inclusive() {
    let thresholds = Thresholds::default();
    assert_eq!(thresholds.route(&verdict(0.75, 0.0, 1.0)), Route::Page);
    assert_eq!(thresholds.route(&verdict(0.5, 0.0, 1.0)), Route::Ticket);
    assert_eq!(thresholds.route(&verdict(f32::NAN, 0.0, 1.0)), Route::Log);
}

#[test]
fn copies_hold_the_same() {
    let original = verdict(0.25, 0.5, 1.5);
    assert_eq!(original.copy(), original);
    assert_eq!(original.copy().attention(), score(0.125));
}

#[test]
fn the_gravest_words_decide() {
    assert_eq!(grade(true, true, true), (score(0.9), score(3.0)));
    assert_eq!(grade(false, true, true), (score(0.7), score(2.0)));
    assert_eq!(grade(false, false, true), (score(0.3), score(1.0)));
    assert_eq!(grade(false, false, false), (score(0.05), score(0.0)));
    assert_eq!(first_area(false, true, true, true, true), "storage");
    assert_eq!(first_area(false, false, false, false, false), "application");
}
