use std::collections::HashMap;
use tocsin::eval::{
    breakdown, ceiling, is_full, parse_line, percentile, score_batch, summarize, wants_line, BinLine,
    Labeled, Report, RouteLine, ScorerLine, BATCH,
};
use tocsin::judge::{Rules, Verdict};
use tocsin::order::Score;
use tocsin::pipeline::Triaged;
use tocsin::route::Route;

fn score(value: f32) -> Score {
    Score { bits: value.to_bits() }
}

fn labeled_row(cluster: usize, attention: f32, label: bool) -> Labeled {
    Labeled {
        template: "t".into(),
        label,
        attention: score(attention),
        pageable: score(attention),
        keywords: score(0.05),
        cluster,
        route: if attention >= 0.75 {
            Route::Page
        } else {
            Route::Log
        },
    }
}

fn rarity(rows: &[Labeled]) -> HashMap<u64, Score> {
    breakdown(rows)
        .iter()
        .map(|g| (g.lines, score(1.0 / g.lines as f32)))
        .collect()
}

#[test]
fn summarize_scores_the_shipped_threshold() {
    let rows = vec![
        labeled_row(1, 0.9, true),
        labeled_row(1, 0.9, true),
        labeled_row(2, 0.1, false),
        labeled_row(2, 0.1, false),
        labeled_row(3, 0.9, false),
    ];
    let summary = summarize(&rows, &Vec::new(), score(0.75), &rarity(&rows));

    assert_eq!(
        (summary.lines, summary.positives, breakdown(&rows).len()),
        (5, 2, 3)
    );
    let tocsin = &summary.scorers[0].at_threshold;
    assert_eq!((tocsin.tp, tocsin.fp, tocsin.fn_, tocsin.tn), (2, 1, 0, 2));
    assert_eq!(summary.scorers[0].flagged_templates, 2);
    let ceiling_f1 = summary.ceiling.f1();
    assert_eq!(ceiling_f1.numerator as f64 / ceiling_f1.denominator as f64, 1.0);
    let paged = summary
        .routes
        .iter()
        .find(|r| r.route == Route::Page)
        .unwrap();
    assert_eq!((paged.lines, paged.templates), (3, 2));
    assert_eq!(paged.hits, 2);
}

/// Rows of clusters with so many lines and alerts each.
fn rows_of(shape: &[(usize, u64, u64)]) -> Vec<Labeled> {
    let mut rows = Vec::new();
    for &(cluster, lines, alerts) in shape {
        for i in 0..lines {
            rows.push(labeled_row(cluster, 0.5, i < alerts));
        }
    }
    rows
}

#[test]
fn the_ceiling_is_the_best_choice_of_templates() {
    for step in 0u64..200 {
        let shape: Vec<(usize, u64, u64)> = (0..5u64)
            .map(|c| {
                let lines = 1 + (step * 7 + c * c * 5 + step * c) % 9;
                (c as usize, lines, (step * 3 + c * 11) % (lines + 1))
            })
            .collect();
        let best = ceiling(&rows_of(&shape));
        let all: u64 = shape.iter().map(|s| s.2).sum();
        assert_eq!(best.positives, all);
        let f1 = |tp: u64, flagged: u64| {
            if tp == 0 {
                0.0
            } else {
                2.0 * tp as f64 / (flagged + all) as f64
            }
        };
        let reached = (0u32..32)
            .map(|choice| {
                let chosen = shape.iter().filter(|s| choice & (1 << s.0) != 0);
                let (flagged, tp) = chosen.fold((0, 0), |(f, t), s| (f + s.1, t + s.2));
                f1(tp, flagged)
            })
            .fold(0.0, f64::max);
        assert_eq!(f1(best.tp, best.tp + best.fp), reached);
    }
}

#[test]
fn the_ceiling_of_one_file_is_exact() {
    let rows = rows_of(&[(1, 4, 3), (2, 3, 1), (3, 5, 0), (4, 2, 2), (5, 6, 2)]);
    let best = ceiling(&rows);
    assert_eq!((best.positives, best.tp, best.fp), (8, 5, 1));
    let f1 = best.f1();
    assert_eq!((f1.numerator, f1.denominator), (10, 14));
    let quiet = ceiling(&rows_of(&[(1, 3, 0)]));
    assert_eq!((quiet.positives, quiet.tp, quiet.fp), (0, 0, 0));
    let none = ceiling(&[]);
    assert_eq!((none.positives, none.tp, none.fp), (0, 0, 0));
}

#[test]
fn rare_templates_score_by_the_lines_of_their_cluster() {
    let rows = rows_of(&[(1, 4, 0), (2, 1, 1), (3, 2, 2)]);
    let summary = summarize(&rows, &Vec::new(), score(0.75), &rarity(&rows));
    let rare = &summary.scorers[3];
    assert_eq!(rare.threshold, score(0.5));
    let counts = rare.at_threshold;
    assert_eq!((counts.tp, counts.fp, counts.fn_, counts.tn), (3, 0, 0, 4));
    assert_eq!(rare.flagged_templates, 2);
}

#[test]
fn summaries_name_their_scorers() {
    let rows = vec![labeled_row(1, 0.9, true), labeled_row(2, 0.1, false)];
    let summary = summarize(&rows, &vec![30, 10, 20], score(0.75), &rarity(&rows));
    let names: Vec<&str> = summary.scorers.iter().map(|s| s.name).collect();
    assert_eq!(
        names,
        vec!["tocsin", "jev pageable only", "keyword rules", "rare templates"]
    );
    let oracle: Vec<bool> = summary.scorers.iter().map(|s| s.threshold_is_oracle).collect();
    assert_eq!(oracle, vec![false, true, false, true]);
    assert_eq!(summary.scorers[1].threshold, score(0.9));
    assert_eq!(summary.scorers[2].threshold, score(0.5));
    assert_eq!((summary.latency_p50_ms, summary.latency_p95_ms), (20, 30));
    let lines: u64 = summary.routes.iter().map(|r| r.lines).sum();
    assert_eq!(lines, 2);
}

#[test]
fn a_scorer_without_alerts_flags_nothing() {
    let rows = vec![labeled_row(1, 0.9, false)];
    let summary = summarize(&rows, &Vec::new(), score(0.75), &rarity(&rows));
    assert_eq!(summary.scorers[1].threshold, score(f32::INFINITY));
    assert_eq!(summary.scorers[1].flagged_templates, 0);
    assert_eq!((summary.latency_p50_ms, summary.latency_p95_ms), (0, 0));
}

#[test]
fn eval_rejects_unknown_labels() {
    assert_eq!(parse_line("0\tjob started\n", 1).unwrap(), (false, "job started".to_string()));
    let bad = parse_line("true\tkernel panic\n", 2).unwrap_err();
    assert_eq!(bad.message(), "line 2: label must be 0 or 1, got \"true\"");
    let quoted = parse_line("a\"b\tkernel panic\n", 10).unwrap_err();
    assert_eq!(quoted.message(), "line 10: label must be 0 or 1, got \"a\\\"b\"");
}

#[test]
fn labeled_lines_need_a_tab() {
    let bad = parse_line("kernel panic \r\n", 3).unwrap_err();
    assert_eq!(bad.message(), "expected `<0|1>\\t<log line>`, got: kernel panic");
    assert_eq!(
        parse_line("1\ta\tb \r\n", 4).unwrap(),
        (true, "a\tb ".to_string())
    );
}

#[test]
fn the_limit_counts_lines_that_wait() {
    assert!(wants_line(3, 1, Some(5)));
    assert!(!wants_line(3, 2, Some(5)));
    assert!(!wants_line(0, 0, Some(0)));
    assert!(wants_line(10, 10, None));
    assert!(is_full(BATCH));
    assert!(!is_full(BATCH - 1));
}

#[test]
fn batches_are_scored_by_keywords_too() {
    let rules = Rules::new().unwrap();
    let verdict = Verdict {
        pageable: score(0.8),
        detail: score(0.5),
        severity: score(1.0),
        area: "other".into(),
        attention: score(0.4),
    };
    let triaged = vec![Triaged {
        cluster: 9,
        template: "kernel <*>".into(),
        verdict: verdict.into(),
        route: Route::Log,
    }];
    let mut rows = vec![labeled_row(1, 0.9, true)];
    score_batch(
        &mut rows,
        &triaged,
        &["kernel panic".to_string(), "left over".to_string()],
        &[true, false],
        &rules,
    );
    assert_eq!(rows.len(), 2);
    let row = &rows[1];
    assert_eq!((row.cluster, row.label, row.route), (9, true, Route::Log));
    assert_eq!(
        (row.attention, row.pageable, row.keywords),
        (score(0.4), score(0.8), score(0.9))
    );
    assert_eq!(&*row.template, "kernel <*>");
}

#[test]
fn breakdowns_start_with_the_largest_cluster() {
    let mut rows = vec![
        labeled_row(5, 0.1, false),
        labeled_row(6, 0.1, true),
        labeled_row(6, 0.1, false),
    ];
    rows[2].template = "later".into();
    let groups = breakdown(&rows);
    let found: Vec<(usize, &str, u64, u64)> = groups
        .iter()
        .map(|g| (g.cluster, &*g.template, g.lines, g.alerts))
        .collect();
    assert_eq!(found, vec![(6, "later", 2, 1), (5, "t", 1, 0)]);
}

#[test]
fn percentiles_round_to_the_nearest_sample() {
    let samples: Vec<u32> = (0..11).rev().map(|i| i * 10).collect();
    assert_eq!(percentile(&samples, 50), 50);
    assert_eq!(percentile(&samples, 95), 100);
    assert_eq!(percentile(&vec![7, 3], 50), 7);
    assert_eq!(percentile(&vec![5, 5, 1], 0), 1);
    assert_eq!(percentile(&Vec::new(), 95), 0);
    for n in 1usize..200 {
        let samples: Vec<u32> = (0..n as u32).collect();
        for (percent, q) in [(50, 0.5f64), (95, 0.95)] {
            let place = ((n as f64 - 1.0) * q).round() as u32;
            assert_eq!(percentile(&samples, percent), place);
        }
    }
}

#[test]
fn reports_are_printed_as_markdown() {
    let report = Report {
        dataset: "unit.tsv".into(),
        model: None,
        lines: 5,
        positives: 2,
        templates: 3,
        judged_templates: 3,
        cached_verdicts: 7,
        fallbacks: 0,
        input_tokens: 1_000,
        usd: "0.0420".into(),
        per_line_usd: "0.04".into(),
        latency_p50_ms: 378,
        latency_p95_ms: 460,
        templating_lines_per_sec: "389846".into(),
        wall_secs: "55.4".into(),
        template_ceiling_f1: "1.000".into(),
        scorers: vec![
            ScorerLine {
                name: "tocsin".into(),
                threshold: "0.750".into(),
                threshold_is_oracle: false,
                precision: "0.667".into(),
                recall: "1.000".into(),
                f1: "0.800".into(),
                flagged_templates: 2,
                average_precision: "0.667".into(),
                roc_auc: "0.833".into(),
            },
            ScorerLine {
                name: "rare templates".into(),
                threshold: "0.500".into(),
                threshold_is_oracle: true,
                precision: "0.400".into(),
                recall: "1.000".into(),
                f1: "0.571".into(),
                flagged_templates: 3,
                average_precision: "0.400".into(),
                roc_auc: "0.333".into(),
            },
        ],
        routes: vec![RouteLine {
            route: Route::Page,
            lines: 3,
            templates: 2,
            precision: "0.667".into(),
        }],
        line_brier: "0.0747".into(),
        line_ece: "0.1868".into(),
        template_brier: "0.2535".into(),
        template_ece: "0.4571".into(),
        bins: vec![
            BinLine {
                lo: "0.0".into(),
                hi: "0.1".into(),
                count: 0,
                mean_predicted: "0.000".into(),
                observed_rate: "0.000".into(),
            },
            BinLine {
                lo: "0.1".into(),
                hi: "0.2".into(),
                count: 1,
                mean_predicted: "0.100".into(),
                observed_rate: "0.000".into(),
            },
        ],
    };
    let expected = "## unit.tsv · unknown model\n\n5 lines (2 alerts) → 3 templates → 3 new judgements, 7 cached verdicts · 1000 input tokens · $0.0420 (judging every line: $0.04)\ntemplating 389846 lines/s · judge latency p50 378 ms, p95 460 ms · wall 55.4s · fallbacks 0\n\n| scorer | threshold | precision | recall | F1 | templates flagged | PR-AUC | ROC-AUC |\n|---|---:|---:|---:|---:|---:|---:|---:|\n| tocsin | 0.750 | 0.667 | 1.000 | 0.800 | 2 | 0.667 | 0.833 |\n| rare templates | 0.500* | 0.400 | 1.000 | 0.571 | 3 | 0.400 | 0.333 |\n\n\\* threshold picked with the labels (best case for that scorer)\n\nbest F1 reachable with one decision per template: 1.000\n\n| route | lines | templates | alert precision |\n|---|---:|---:|---:|\n| Page | 3 | 2 | 0.667 |\n\ncalibration · line-weighted Brier 0.0747, ECE 0.1868 · per-template Brier 0.2535, ECE 0.4571\n\n| predicted | templates | mean predicted | observed alert rate |\n|---|---:|---:|---:|\n| 0.1–0.2 | 1 | 0.100 | 0.000 |\n";
    assert_eq!(report.markdown(), expected);
}
