use std::sync::Arc;
use tocsin::cache::Cache;
use tocsin::judge::{Judged, Rules, Verdict};
use tocsin::order::Score;
use tocsin::pipeline::{
    next_batch, selected, Fill, Pipeline, Step, Triaged, CHECKPOINT, MAX_LATENCY_SAMPLES,
};
use tocsin::route::{Route, Thresholds};
use tocsin::template::{Assignment, Config, Templater};

fn score(value: f32) -> Score {
    Score { bits: value.to_bits() }
}

/// Judges by what a template says, and counts how often it is asked.
#[derive(Default)]
struct Scripted {
    seen: Vec<String>,
}

impl Scripted {
    fn judge(&mut self, template: &str) -> Option<Judged> {
        self.seen.push(template.to_string());
        if template.contains("explode") {
            return None;
        }
        let pageable = if template.contains("failed") { 0.95 } else { 0.02 };
        Some(Judged {
            verdict: Verdict {
                pageable: score(pageable),
                detail: score(0.0),
                severity: score(pageable * 3.0),
                area: "application".into(),
                attention: score(pageable),
            },
            input_tokens: 100,
            model: "scripted-1".into(),
        })
    }
}

struct Harness {
    pipeline: Pipeline,
    templater: Templater,
    rules: Rules,
    judge: Scripted,
    most: usize,
    messages: Vec<String>,
}

fn harness() -> Harness {
    Harness {
        pipeline: Pipeline::new(Cache::memory("scripted".into()), Thresholds::default(), 4, 0),
        templater: Templater::new(Config::default()).unwrap(),
        rules: Rules::new().unwrap(),
        judge: Scripted::default(),
        most: 0,
        messages: Vec::new(),
    }
}

impl Harness {
    /// Each masked line is its own template.
    fn assign(&mut self, line: &str) -> Assignment {
        let message = self.templater.message(line);
        let known = self.messages.iter().position(|m| *m == message.text);
        let cluster = known.unwrap_or_else(|| {
            self.messages.push(message.text.clone());
            self.messages.len() - 1
        });
        self.templater.assign(&message.key, cluster, known.is_none(), &message.text)
    }

    fn process(&mut self, lines: &[String]) -> Vec<Triaged> {
        let assigned = lines.iter().map(|line| self.assign(line)).collect();
        let mut batch = self.pipeline.begin(assigned);
        let mut running: Vec<Arc<str>> = Vec::new();
        loop {
            match self.pipeline.step(&mut batch) {
                Step::Judge(template) => {
                    running.push(template);
                    self.most = self.most.max(running.len());
                }
                Step::Wait => {
                    let template = running.remove(0);
                    match self.judge.judge(&template) {
                        Some(judged) => self.pipeline.succeed(&mut batch, &template, judged, 12),
                        None => {
                            let fallback = self.rules.verdict(&template);
                            self.pipeline.fail(&mut batch, &template, fallback);
                        }
                    }
                }
                Step::Done => return self.pipeline.finish(&batch),
            }
        }
    }
}

#[test]
fn judges_each_template_once_across_batches() {
    let mut h = harness();
    let lines: Vec<String> = (0..1000)
        .map(|i| {
            if i % 10 == 0 {
                format!("payment {i} failed for card {i}")
            } else {
                format!("GET /items/{i} 200")
            }
        })
        .collect();

    let first = h.process(&lines[..500]);
    let second = h.process(&lines[500..]);

    assert_eq!(first.len() + second.len(), 1000);
    assert_eq!(first[0].route, Route::Page);
    assert_eq!(first[1].route, Route::Log);
    let stats = h.pipeline.stats();
    assert_eq!(h.judge.seen.len(), stats.judged as usize);
    assert!(stats.judged <= 4, "judged {} times", stats.judged);
    assert_eq!(stats.input_tokens, stats.judged * 100);
    assert_eq!(stats.model.as_deref(), Some("scripted-1"));
    assert_eq!(stats.lines, 1000);
    assert_eq!(h.pipeline.cached(), 2);
    assert_eq!(stats.latencies_ms, vec![12, 12]);
}

#[test]
fn failed_judgements_fall_back_and_are_retried() {
    let mut h = harness();
    let lines = ["disk explode failed".to_string()];

    let first = h.process(&lines);
    let second = h.process(&lines);

    assert_eq!(first[0].verdict.pageable, score(0.7));
    assert_eq!(second[0].route, Route::Ticket);
    assert_eq!(h.pipeline.stats().fallbacks, 2);
    assert_eq!(h.judge.seen.len(), 2);
    assert_eq!(h.pipeline.cached(), 0);
}

#[test]
fn batches_flush_on_size_or_linger() {
    let mut waiting: Vec<i32> = (0..5).collect();
    let mut batches: Vec<Option<Vec<i32>>> = Vec::new();
    for _ in 0..3 {
        let (max, mut batch) = (3, Vec::new());
        let mut room = max;
        let closed = loop {
            let held = batch.len();
            let taken = room.min(waiting.len());
            batch.extend(waiting.drain(..taken));
            match next_batch(max, held, taken) {
                Fill::More { room: more } => room = more,
                Fill::Ready => break false,
                Fill::Closed => break true,
            }
        };
        batches.push(if closed { None } else { Some(batch) });
    }
    assert_eq!(batches, vec![Some(vec![0, 1, 2]), Some(vec![3, 4]), None]);
}

#[test]
fn writes_only_selected_routes() {
    let verdict = Arc::new(Verdict {
        pageable: score(0.9),
        detail: score(0.0),
        severity: score(2.4),
        area: "storage".into(),
        attention: score(0.9),
    });
    let triaged = |route| Triaged {
        cluster: 1,
        template: "disk <*> full".into(),
        verdict: verdict.clone(),
        route,
    };
    let lines = ["disk a full", "ok"];
    let all = [triaged(Route::Page), triaged(Route::Log)];
    let chosen = selected(lines.len(), &all, &[Route::Page]);
    assert_eq!(chosen.len(), 1);
    assert_eq!(all[chosen[0]].route, Route::Page);
    assert_eq!(lines[chosen[0]], "disk a full");
    assert_eq!(selected(lines.len(), &all, &[]), Vec::<usize>::new());
    assert_eq!(selected(1, &all, &[Route::Log, Route::Page]), vec![0]);
}

#[test]
fn judgements_keep_to_the_concurrency() {
    let mut h = harness();
    let lines: Vec<String> = ["a", "b", "c", "d", "e", "f"].iter().map(|l| l.to_string()).collect();
    h.process(&lines);
    assert_eq!(h.most, 4);
    assert_eq!(h.judge.seen, lines);
}

#[test]
fn at_least_one_judgement_runs() {
    let mut h = harness();
    h.pipeline = Pipeline::new(Cache::memory("s".into()), Thresholds::default(), 0, 0);
    h.process(&["a".to_string(), "b".to_string()]);
    assert_eq!(h.most, 1);
}

#[test]
fn cached_verdicts_are_used() {
    let mut cache = Cache::memory("scripted".into());
    let mut scripted = Scripted::default();
    cache.insert("up".into(), scripted.judge("up").unwrap().verdict, "older");
    let mut h = harness();
    h.pipeline = Pipeline::new(cache, Thresholds::default(), 4, 0);
    assert_eq!(h.pipeline.stats().model.as_deref(), Some("older"));
    let triaged = h.process(&["up".to_string(), "up".to_string()]);
    assert!(h.judge.seen.is_empty());
    assert_eq!(triaged.len(), 2);
    assert_eq!(triaged[1].route, Route::Log);
}

#[test]
fn latencies_are_thinned() {
    let mut pipeline = Pipeline::new(Cache::memory("s".into()), Thresholds::default(), 1, 0);
    let mut scripted = Scripted::default();
    for i in 0..MAX_LATENCY_SAMPLES + 2 {
        let template: Arc<str> = format!("t{i}").into();
        let mut batch = pipeline.begin(vec![Assignment { cluster: i, template }]);
        let Step::Judge(name) = pipeline.step(&mut batch) else {
            panic!("a new template is judged");
        };
        let judged = scripted.judge(&name).unwrap();
        pipeline.succeed(&mut batch, &name, judged, i as u128);
    }
    let samples = &pipeline.stats().latencies_ms;
    assert_eq!(samples.len(), MAX_LATENCY_SAMPLES / 2 + 1);
    assert_eq!(&samples[..3], &[0, 2, 4]);
    assert_eq!(*samples.last().unwrap() as usize, MAX_LATENCY_SAMPLES + 1);
}

#[test]
fn checkpoints_come_after_half_a_minute() {
    let mut pipeline = Pipeline::new(Cache::memory("s".into()), Thresholds::default(), 1, 7);
    assert!(!pipeline.checkpoint(7 + CHECKPOINT - 1));
    assert!(pipeline.checkpoint(7 + CHECKPOINT));
    pipeline.save(7 + CHECKPOINT);
    pipeline.saved();
    assert!(!pipeline.checkpoint(8 + CHECKPOINT));
    assert!(!pipeline.checkpoint(0));
    assert!(!pipeline.cache().is_dirty());
    assert_eq!(pipeline.thresholds().page, score(0.75));
}

#[test]
fn stats_are_summed_up_in_one_line() {
    let mut h = harness();
    h.process(&["a".to_string(), "a".to_string(), "explode".to_string()]);
    assert_eq!(
        h.pipeline.stats().summary(2),
        "tocsin: 3 lines → 2 templates → 1 judged (100 input tokens, 1 fallbacks)"
    );
}
