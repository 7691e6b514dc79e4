use std::sync::Arc;
use tocsin::template::{status_key, Assignment, Config, Masker, Templater};

/// Clusters messages that have the same first word and number of words.
struct Clusterer {
    templates: Vec<Vec<String>>,
}

impl Clusterer {
    fn add(&mut self, message: &str) -> (usize, bool, String) {
        let words: Vec<String> = message.split(' ').map(str::to_string).collect();
        let found = self
            .templates
            .iter()
            .position(|t| t.len() == words.len() && t[0] == words[0]);
        let (id, changed) = match found {
            Some(id) => {
                let merged: Vec<String> = self.templates[id]
                    .iter()
                    .zip(&words)
                    .map(|(a, b)| if a == b { a.clone() } else { "<*>".to_string() })
                    .collect();
                let changed = merged != self.templates[id];
                self.templates[id] = merged;
                (id, changed)
            }
            None => {
                self.templates.push(words);
                (self.templates.len() - 1, true)
            }
        };
        (id + 1, changed, self.templates[id].join(" "))
    }
}

struct Assigner {
    templater: Templater,
    clusterer: Clusterer,
}

impl Assigner {
    fn new() -> Self {
        Assigner {
            templater: Templater::new(Config::default()).unwrap(),
            clusterer: Clusterer { templates: Vec::new() },
        }
    }

    fn assign(&mut self, line: &str) -> Assignment {
        let message = self.templater.message(line);
        let (cluster, changed, template) = self.clusterer.add(&message.text);
        self.templater.assign(&message.key, cluster, changed, &template)
    }
}

fn mask(line: &str) -> String {
    Masker::new().unwrap().mask(line)
}

#[test]
fn masks_variable_values() {
    assert_eq!(
        mask(
            "user a@b.io from 10.0.0.12 id 0x1f req 5f0c2a9e-7d4b-4c1a-9f2e-3b6a8c1d2e4f took 42 ms"
        ),
        "user <EMAIL> from <IP> id <HEX> req <UUID> took <NUM> ms"
    );
}

#[test]
fn keeps_http_status_classes() {
    assert_eq!(mask("GET /checkout 500"), "GET /checkout <5xx>");
    assert_eq!(
        mask("GET /items/42 200 12 ms"),
        "GET /items/<NUM> <2xx> <NUM> ms"
    );
    assert_eq!(
        mask(r#""POST /v1/pay HTTP/1.1" 404 512"#),
        r#""POST /v1/pay HTTP/<NUM>.<NUM>" <4xx> <NUM>"#
    );
    assert_eq!(mask("upstream status=503"), "upstream status=<5xx>");
    assert_eq!(mask("wrote 500 records"), "wrote <NUM> records");
    assert_eq!(mask("GET /checkout 5١٢"), "GET /checkout <NUM>");
}

#[test]
fn never_merges_different_status_classes() {
    let mut t = Assigner::new();
    let ok = t.assign("GET /checkout 200 12 ms");
    let failed = t.assign("GET /checkout 500 12 ms");
    let failed_again = t.assign("GET /checkout 503 40 ms");
    assert_ne!(ok.cluster, failed.cluster);
    assert_eq!(failed.cluster, failed_again.cluster);
    assert_eq!(&*ok.template, "GET /checkout <2xx> <NUM> ms");
    assert_eq!(&*failed_again.template, "GET /checkout <5xx> <NUM> ms");
}

#[test]
fn collapses_repeated_patterns() {
    let mut t = Assigner::new();
    let a = t.assign("connection to alpha failed after 3 retries");
    let b = t.assign("connection to beta failed after 7 retries");
    let c = t.assign("GET /health 200");
    assert_eq!(a.cluster, b.cluster);
    assert_ne!(a.cluster, c.cluster);
    assert_eq!(&*b.template, "connection to <*> failed after <NUM> retries");
    assert_eq!(t.clusterer.templates.len(), 2);
}

#[test]
fn unchanged_lines_share_the_template_allocation() {
    let mut t = Assigner::new();
    t.assign("worker is ready on shard alpha");
    let b = t.assign("worker is ready on shard beta");
    let c = t.assign("worker is ready on shard gamma");
    assert!(Arc::ptr_eq(&b.template, &c.template));
}

#[test]
fn status_keys_name_the_classes_in_order() {
    assert_eq!(status_key("GET /a <NUM>"), None);
    assert_eq!(status_key("<5xx>").as_deref(), Some("http-servererror"));
    assert_eq!(
        status_key("<2xx> then <4xx> and <1xx><3xx>").as_deref(),
        Some("http-success+clienterror+info+redirect")
    );
    assert_eq!(status_key("<6xx> <<5x>").as_deref(), None);
}

#[test]
fn messages_start_with_the_status_key() {
    let t = Templater::new(Config::default()).unwrap();
    let message = t.message("GET /a 404");
    assert_eq!(message.key.as_deref(), Some("http-clienterror"));
    assert_eq!(message.text, "http-clienterror GET /a <4xx>");
    let plain = t.message("job 7 done");
    assert_eq!(plain.key, None);
    assert_eq!(plain.text, "job <NUM> done");
}

#[test]
fn templates_lose_their_key() {
    let mut t = Templater::new(Config::default()).unwrap();
    let key = Some("http-success".to_string());
    let bare = t.assign(&key, 1, true, "http-success  GET <*>");
    assert_eq!(&*bare.template, "GET <*>");
    let odd = t.assign(&key, 2, true, " <*> GET");
    assert_eq!(&*odd.template, "<*> GET");
    let whole = t.assign(&None, 3, true, " kept");
    assert_eq!(&*whole.template, " kept");
}

#[test]
fn known_templates_are_recalled_until_they_change() {
    let mut t = Templater::new(Config { depth: 4, similarity: 0.7f64.to_bits(), max_clusters: 1 })
        .unwrap();
    t.assign(&None, 1, true, "one");
    assert_eq!(&*t.assign(&None, 1, false, "other").template, "one");
    assert_eq!(&*t.assign(&None, 1, true, "changed").template, "changed");
    t.assign(&None, 2, true, "two");
    t.assign(&None, 3, true, "three");
    assert_eq!(&*t.assign(&None, 1, false, "learned anew").template, "learned anew");
}

#[test]
fn clustering_has_defaults() {
    let config = Config::default();
    assert_eq!(config.depth, 4);
    assert_eq!(f64::from_bits(config.similarity), 0.7);
    assert_eq!(config.max_clusters, 100_000);
}
