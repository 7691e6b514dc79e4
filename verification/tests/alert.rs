use std::sync::Arc;
use tocsin::alert::{after_failure, one_line, Board, Delivery, ATTEMPTS, MAX_ROWS};
use tocsin::judge::Verdict;
use tocsin::order::Score;
use tocsin::pipeline::Triaged;
use tocsin::route::Route;

const SECOND: u128 = 1_000_000_000;

fn score(value: f32) -> Score {
    Score { bits: value.to_bits() }
}

fn verdict(pageable: f32) -> Verdict {
    Verdict {
        pageable: score(pageable),
        detail: score(0.0),
        severity: score(2.5),
        area: "storage".into(),
        attention: score(pageable),
    }
}

fn triaged(cluster: usize, route: Route) -> Triaged {
    Triaged {
        cluster,
        template: "disk <*> full".into(),
        verdict: Arc::new(verdict(0.9)),
        route,
    }
}

#[test]
fn pages_once_per_template_within_cooldown() {
    let mut board = Board::default();
    let lines = vec!["disk a full".to_string(), "disk b full".to_string()];
    let batch = vec![triaged(7, Route::Page), triaged(7, Route::Page)];
    let cooldown = 600 * SECOND;
    let start = 5 * SECOND;

    board.record(&lines, &batch);
    let first = board.due(start, cooldown, false);
    board.record(&lines, &batch);
    let within = board.due(start + SECOND, cooldown, false);
    let after = board.due(start + cooldown, cooldown, false);

    assert_eq!(first.len(), 1);
    assert_eq!(first[0].count, 2);
    assert!(within.is_empty());
    assert_eq!(after[0].count, 2);
    let rows = board.snapshot();
    assert_eq!(rows.iter().find(|r| r.cluster == 7).unwrap().count, 4);
}

#[test]
fn shutdown_flushes_pending_alerts() {
    let mut board = Board::default();
    let lines = vec!["disk a full".to_string()];
    let now = 5 * SECOND;
    board.record(&lines, &[triaged(1, Route::Page)]);
    board.due(now, 600 * SECOND, false);
    board.record(&lines, &[triaged(1, Route::Page)]);

    assert!(board.due(now, 600 * SECOND, false).is_empty());
    assert_eq!(board.due(now, 600 * SECOND, true)[0].count, 1);
}

#[test]
fn logs_never_page() {
    let mut board = Board::default();
    board.record(&["ok".to_string()], &[triaged(1, Route::Log)]);
    assert!(board.due(SECOND, 0, true).is_empty());
}

#[test]
fn eviction_keeps_recent_and_pending_rows() {
    let mut board = Board::default();
    for cluster in 0..10 {
        let route = if cluster == 0 { Route::Page } else { Route::Ticket };
        board.record(&["x".to_string()], &[triaged(cluster, route)]);
    }
    board.evict(3);

    let mut kept: Vec<_> = board.snapshot().iter().map(|r| r.cluster).collect();
    kept.sort();
    assert_eq!(kept, vec![0, 7, 8, 9]);
}

#[test]
fn snapshot_sorts_by_attention() {
    let mut board = Board::default();
    board.record(&["a".to_string()], &[triaged(1, Route::Log)]);
    let mut quiet = triaged(2, Route::Log);
    quiet.verdict = Arc::new(verdict(0.1));
    board.record(&["b".to_string()], &[quiet]);

    let rows = board.snapshot();
    assert!(f32::from_bits(rows[0].attention.bits) > f32::from_bits(rows[1].attention.bits));
}

#[test]
fn equal_attention_is_sorted_by_count() {
    let mut board = Board::default();
    let lines: Vec<String> = (0..3).map(|i| format!("line {i}")).collect();
    board.record(
        &lines,
        &[triaged(1, Route::Log), triaged(2, Route::Log), triaged(2, Route::Log)],
    );
    let clusters: Vec<usize> = board.snapshot().iter().map(|r| r.cluster).collect();
    assert_eq!(clusters, vec![2, 1]);
}

#[test]
fn the_example_is_the_last_line_to_page_for() {
    let mut board = Board::default();
    let lines: Vec<String> = ["first", "paged", "later"].iter().map(|l| l.to_string()).collect();
    board.record(
        &lines,
        &[triaged(1, Route::Log), triaged(1, Route::Page), triaged(1, Route::Ticket)],
    );
    let row = board.snapshot().pop().unwrap();
    assert_eq!(row.example, "paged");
    assert_eq!((row.count, row.unnotified, row.seen_at), (3, 1, 3));
    assert_eq!(row.route, Route::Ticket);
}

#[test]
fn lines_without_a_triage_are_left_out() {
    let mut board = Board::default();
    board.record(
        &["a".to_string(), "b".to_string()],
        &[triaged(1, Route::Log)],
    );
    assert_eq!(board.snapshot().len(), 1);
    assert_eq!(board.snapshot()[0].count, 1);
}

#[test]
fn alerts_tell_what_happened() {
    let mut board = Board::default();
    board.record(&["disk a full".to_string()], &[triaged(3, Route::Page)]);
    let alert = board.due(SECOND, 0, false).pop().unwrap();
    assert_eq!(alert.cluster, 3);
    assert_eq!(alert.example, "disk a full");
    assert_eq!(alert.attention, score(0.9));
    let text = alert.text("0.90", "2.5");
    assert_eq!(
        text,
        "tocsin · storage · attention=0.90 severity=2.5 · 1 new occurrence(s)\ndisk <*> full"
    );
    assert_eq!(
        one_line(&text),
        "tocsin · storage · attention=0.90 severity=2.5 · 1 new occurrence(s) · disk <*> full"
    );
}

#[test]
fn a_cooldown_of_zero_holds_nothing_back() {
    let mut board = Board::default();
    let lines = vec!["disk a full".to_string()];
    board.record(&lines, &[triaged(1, Route::Page)]);
    assert_eq!(board.due(9 * SECOND, 0, false).len(), 1);
    board.record(&lines, &[triaged(1, Route::Page)]);
    assert_eq!(board.due(4 * SECOND, 0, false).len(), 1);
    board.record(&lines, &[triaged(1, Route::Page)]);
    assert!(board.due(2 * SECOND, 1, false).is_empty());
}

#[test]
fn a_full_board_drops_its_oldest_rows() {
    let mut board = Board::default();
    let lines = vec!["x".to_string(); MAX_ROWS + 1];
    let batch: Vec<Triaged> = (0..=MAX_ROWS).map(|c| triaged(c, Route::Log)).collect();
    board.record(&lines, &batch);
    let rows = board.snapshot();
    assert_eq!(rows.len(), MAX_ROWS / 2);
    assert!(rows.iter().all(|r| r.cluster > MAX_ROWS / 2));
}

/// Lines of so many new clusters that older rows are dropped.
fn flood(board: &mut Board, first: usize) {
    let lines = vec!["x".to_string(); MAX_ROWS + 1];
    let batch: Vec<Triaged> = (0..=MAX_ROWS).map(|c| triaged(first + c, Route::Log)).collect();
    board.record(&lines, &batch);
}

#[test]
fn the_cooldown_outlasts_dropped_rows() {
    let mut board = Board::default();
    let page = ["disk a full".to_string()];
    let cooldown = 600 * SECOND;
    board.record(&page, &[triaged(7, Route::Page)]);
    assert_eq!(board.due(5 * SECOND, cooldown, false).len(), 1);
    flood(&mut board, 1_000);
    assert!(board.snapshot().iter().all(|r| r.cluster != 7));

    board.record(&page, &[triaged(7, Route::Page)]);
    assert!(board.due(6 * SECOND, cooldown, false).is_empty());
    flood(&mut board, 1_000_000);
    assert!(board.due(604 * SECOND, cooldown, false).is_empty());
    let late = board.due(605 * SECOND, cooldown, false);
    assert_eq!(late.len(), 1);
    assert_eq!((late[0].cluster, late[0].count), (7, 1));
}

#[test]
fn times_of_dropped_rows_are_forgotten_after_the_cooldown() {
    let mut board = Board::default();
    let page = ["disk a full".to_string()];
    board.record(&page, &[triaged(7, Route::Page)]);
    board.due(5 * SECOND, 10 * SECOND, false);
    flood(&mut board, 1_000);
    assert!(board.due(15 * SECOND, 10 * SECOND, false).is_empty());
    board.record(&page, &[triaged(7, Route::Page)]);
    assert_eq!(board.due(16 * SECOND, 10 * SECOND, false).len(), 1);
}

#[test]
fn each_page_is_told_once() {
    let mut board = Board::default();
    let lines = vec!["disk a full".to_string(); 2];
    let batch = [triaged(7, Route::Page), triaged(7, Route::Log)];
    let mut told = 0;
    for i in 0..20u128 {
        board.record(&lines, &batch);
        if i % 7 == 3 {
            board.evict(1);
            flood(&mut board, 1_000);
        }
        told += board
            .due(i * SECOND, 4 * SECOND, false)
            .iter()
            .map(|a| a.count)
            .sum::<u64>();
        let pending: u64 = board.snapshot().iter().map(|r| r.unnotified).sum();
        assert_eq!(told + pending, i as u64 + 1);
    }
    told += board.due(20 * SECOND, 4 * SECOND, true).iter().map(|a| a.count).sum::<u64>();
    assert_eq!(told, 20);
    assert!(board.due(90 * SECOND, 4 * SECOND, true).is_empty());
}

#[test]
fn deliveries_back_off_and_give_up() {
    assert_eq!(after_failure(1, None), Delivery::Retry { seconds: 1 });
    assert_eq!(after_failure(2, Some(503)), Delivery::Retry { seconds: 2 });
    assert_eq!(after_failure(3, Some(429)), Delivery::Retry { seconds: 4 });
    assert_eq!(after_failure(ATTEMPTS, Some(503)), Delivery::GiveUp);
    assert_eq!(after_failure(1, Some(404)), Delivery::GiveUp);
}
