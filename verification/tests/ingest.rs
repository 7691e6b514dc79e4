use tocsin::ingest::{
    attribute, event, join, lines, normalize, otlp, read_request, request_lines, severity_name,
    Attribute, Record, Resource, LINE_LIMIT, MAX_FIELD, MAX_LINE,
};

#[test]
fn parses_otlp_json() {
    let body = br#"{"resourceLogs":[{"resource":{"attributes":[{"key":"service.name","value":{"stringValue":"checkout"}}]},
            "scopeLogs":[{"logRecords":[
                {"severityText":"ERROR","body":{"stringValue":"payment declined"}},
                {"body":{"kvlistValue":{"values":[]}}},
                {"body":{"stringValue":"  "}},
                {"severityNumber":21,"body":{"stringValue":"disk gone"}},
                {"severityText":"ERROR","attributes":[
                    {"key":"exception.type","value":{"stringValue":"TimeoutError"}},
                    {"key":"exception.message","value":{"stringValue":"upstream took 30s"}}
                ]}
            ]}]}]}"#;
    assert_eq!(
        otlp(body).unwrap(),
        vec![
            "checkout ERROR payment declined",
            r#"checkout {"values":[]}"#,
            "checkout FATAL disk gone",
            "checkout ERROR TimeoutError: upstream took 30s",
        ]
    );
}

#[test]
fn caps_field_sizes() {
    let service = "s".repeat(10_000);
    let body = format!(
        r#"{{"resourceLogs":[{{"resource":{{"attributes":[{{"key":"service.name","value":{{"stringValue":"{service}"}}}}]}},"scopeLogs":[{{"logRecords":[{{"body":{{"stringValue":"ok"}}}}]}}]}}]}}"#
    );
    let lines = otlp(body.as_bytes()).unwrap();
    assert_eq!(lines[0].len(), MAX_FIELD + " ok".len());
    assert_eq!(normalize(&"é".repeat(MAX_LINE)).unwrap().len(), MAX_LINE);
}

#[test]
fn normalizes_structured_and_plain_lines() {
    let body = "{\"level\":\"warn\",\"msg\":\"cache miss\",\"service\":\"api\"}\nplain text line\n\n{\"no\":\"message\"}";
    assert_eq!(
        lines(body),
        vec![
            "api warn cache miss",
            "plain text line",
            "{\"no\":\"message\"}"
        ]
    );
}

#[test]
fn rejects_malformed_otlp() {
    let refused = otlp(b"{not json").unwrap_err();
    assert_eq!(refused.message, "key must be a string at line 1 column 2");
    assert_eq!(
        tocsin::serve::malformed_message(&refused),
        "invalid OTLP/JSON: key must be a string at line 1 column 2"
    );
    assert_eq!(tocsin::serve::BAD_REQUEST, 400);
}

#[test]
fn blank_lines_yield_nothing() {
    assert_eq!(normalize(""), None);
    assert_eq!(normalize(" \t\u{3000}\r\n"), None);
    assert_eq!(normalize("  kept \n"), Some("kept".to_string()));
}

#[test]
fn line_ends_are_dropped() {
    assert_eq!(lines("a\r\nb\n\r\nc\r"), vec!["a", "b", "c"]);
    assert!(lines("").is_empty());
}

#[test]
fn the_first_key_with_a_text_is_the_message() {
    assert_eq!(
        normalize(r#"{"message":7,"msg":"second","text":"last"}"#).unwrap(),
        "second"
    );
    assert_eq!(
        normalize(r#"{"message":"","msg":"second"}"#).unwrap(),
        r#"{"message":"","msg":"second"}"#
    );
    assert_eq!(
        normalize(r#"{"app":"shop","lvl":"info","log":"up"}"#).unwrap(),
        "shop info up"
    );
    assert_eq!(normalize("{broken").unwrap(), "{broken");
}

#[test]
fn records_show_every_kind_of_value() {
    let doc: serde_json::Value = serde_json::from_str(
        r#"{"resourceLogs":[{"scopeLogs":[{"logRecords":[
            {"body":{"intValue":"42"}},
            {"body":{"doubleValue":1.5}},
            {"body":{"boolValue":true}},
            {"body":"bare"},
            {"body":17},
            {"body":{"unknown":1}},
            {"severityNumber":9,"body":{"stringValue":"started"}},
            {"severityNumber":25,"body":{"stringValue":"odd"}},
            {"attributes":[{"key":"event.name","value":{"stringValue":"deploy"}}]}
        ]}]},{"scopeLogs":7},{}]}"#,
    )
    .unwrap();
    assert_eq!(
        request_lines(&read_request(&doc)),
        vec!["42", "1.5", "true", "bare", "17", "INFO started", "odd", "deploy"]
    );
    assert!(read_request(&serde_json::Value::Null).is_empty());
}

fn attribute_with(key: &str, value: Option<&str>) -> Attribute {
    Attribute {
        key: Some(key.to_string()),
        value: value.map(str::to_string),
    }
}

#[test]
fn the_first_attribute_with_a_key_counts() {
    let attributes = [
        Attribute { key: None, value: Some("unnamed".to_string()) },
        attribute_with("exception.type", None),
        attribute_with("exception.type", Some("TimeoutError")),
        attribute_with("event.name", Some("deploy")),
        attribute_with("exception.message", Some("upstream took 30s")),
    ];
    assert_eq!(attribute(&attributes, "exception.type"), None);
    assert_eq!(attribute(&attributes, "event.name"), Some("deploy"));
    assert_eq!(attribute(&attributes, "service.name"), None);
    assert_eq!(event(&attributes).unwrap(), "upstream took 30s: deploy");
    assert_eq!(event(&attributes[..3]), None);
}

#[test]
fn records_become_lines_of_their_service() {
    let record = |text: Option<&str>, number: Option<u64>, body: Option<&str>| Record {
        severity_text: text.map(str::to_string),
        severity_number: number,
        body: body.map(str::to_string),
        attributes: vec![attribute_with("event.name", Some("deploy"))],
    };
    let first = Resource {
        attributes: vec![attribute_with("service.name", Some("checkout"))],
        records: vec![
            record(Some("ERROR"), Some(9), Some("payment declined")),
            record(None, Some(21), Some(" \u{3000}")),
            record(None, None, None),
        ],
    };
    let second = Resource {
        attributes: Vec::new(),
        records: vec![
            record(Some(""), Some(9), Some(" kept as it is ")),
            Record {
                severity_text: None,
                severity_number: None,
                body: Some("  ".to_string()),
                attributes: Vec::new(),
            },
        ],
    };
    assert_eq!(
        request_lines(&[first, second]),
        vec![
            "checkout ERROR payment declined",
            "checkout FATAL deploy",
            "checkout deploy",
            " kept as it is ",
        ]
    );
}

#[test]
fn severities_come_in_fours() {
    assert_eq!(severity_name(0), None);
    assert_eq!(severity_name(1), Some("TRACE"));
    assert_eq!(severity_name(8), Some("DEBUG"));
    assert_eq!(severity_name(12), Some("INFO"));
    assert_eq!(severity_name(13), Some("WARN"));
    assert_eq!(severity_name(20), Some("ERROR"));
    assert_eq!(severity_name(24), Some("FATAL"));
    assert_eq!(severity_name(25), None);
    assert_eq!(severity_name(u64::MAX), None);
}

#[test]
fn lines_keep_to_their_limit() {
    let long = "x".repeat(40_000);
    let line = join(Some(&long), Some(&long), Some(&long));
    assert_eq!(line.len(), LINE_LIMIT);
    assert_eq!(join(None, None, None), "");
    assert_eq!(join(Some("api"), None, Some("up")), "api up");
}
