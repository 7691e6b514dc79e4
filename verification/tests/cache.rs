use std::sync::Arc;
use tocsin::cache::{Cache, MAX_ENTRIES};
use tocsin::judge::Verdict;
use tocsin::order::Score;

fn score(value: f32) -> Score {
    Score { bits: value.to_bits() }
}

fn verdict() -> Verdict {
    Verdict {
        pageable: score(0.9),
        detail: score(0.1),
        severity: score(2.5),
        area: "storage".into(),
        attention: score(0.9 * (1.0 - 0.1)),
    }
}

/// What a saved cache holds.
struct Saved {
    fingerprint: String,
    model: Option<String>,
    verdicts: Vec<(String, Verdict)>,
}

fn save(cache: &mut Cache) -> Saved {
    let saved = Saved {
        fingerprint: cache.fingerprint().to_string(),
        model: cache.model().map(str::to_string),
        verdicts: cache
            .contents()
            .iter()
            .map(|(template, verdict)| (template.to_string(), verdict.copy()))
            .collect(),
    };
    cache.mark_saved();
    saved
}

fn open(saved: &Saved, fingerprint: &str) -> Cache {
    let mut cache = Cache::memory(fingerprint.to_string());
    if cache.accepts(&saved.fingerprint) {
        cache.load(saved.model.clone(), &saved.verdicts);
    }
    cache
}

#[test]
fn round_trips_and_invalidates_on_fingerprint_change() {
    let mut cache = Cache::memory("a".into());
    cache.insert("disk <*> is full".into(), verdict(), "jev-1");
    let saved = save(&mut cache);

    let reopened = open(&saved, "a");
    assert_eq!(
        reopened.get("disk <*> is full").map(|v| v.as_ref()),
        Some(&verdict())
    );
    assert_eq!(reopened.model(), Some("jev-1"));
    assert!(open(&saved, "b").is_empty());

    let mut upgraded = open(&saved, "a");
    upgraded.insert("disk <*> is gone".into(), verdict(), "jev-2");
    assert!(upgraded.get("disk <*> is full").is_none());
    assert_eq!(upgraded.model(), Some("jev-2"));

    let old = Saved {
        fingerprint: "old".into(),
        model: None,
        verdicts: vec![("x".to_string(), verdict())],
    };
    assert!(open(&old, "a").is_empty());
}

#[test]
fn invalid_verdicts_are_not_loaded() {
    let mut broken = verdict();
    broken.pageable = score(1.5);
    let mut cache = Cache::memory("a".into());
    cache.load(
        Some("jev-1".into()),
        &vec![
            ("good".to_string(), verdict()),
            ("bad".to_string(), broken),
        ],
    );
    assert_eq!(cache.len(), 1);
    assert!(cache.get("bad").is_none());
    assert!(!cache.is_dirty());
}

#[test]
fn a_cache_is_dirty_until_it_is_saved() {
    let mut cache = Cache::memory("a".into());
    assert!(!cache.is_dirty());
    let stored = cache.insert("t".into(), verdict(), "m");
    assert!(Arc::ptr_eq(&stored, cache.get("t").unwrap()));
    assert!(cache.is_dirty());
    save(&mut cache);
    assert!(!cache.is_dirty());
    assert_eq!(cache.len(), 1);
}

#[test]
fn one_template_has_one_verdict() {
    let mut cache = Cache::memory("a".into());
    cache.insert("t".into(), verdict(), "m");
    let mut other = verdict();
    other.area = "network".into();
    cache.insert("t".into(), other, "m");
    assert_eq!(cache.len(), 1);
    assert_eq!(cache.get("t").unwrap().area, "network");
    assert_eq!(cache.contents().len(), 1);
}

#[test]
fn a_full_cache_starts_over() {
    let mut cache = Cache::memory("a".into());
    for i in 0..MAX_ENTRIES {
        cache.insert(format!("template {i}").into(), verdict(), "m");
    }
    assert_eq!(cache.len(), MAX_ENTRIES);
    cache.insert("one more".into(), verdict(), "m");
    assert_eq!(cache.len(), 1);
    assert!(cache.get("one more").is_some());
}
