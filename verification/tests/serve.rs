use tocsin::serve::{accepted, enqueue, Handed, Refusal, LINE_OVERHEAD, MAX_QUEUED_BYTES};

#[test]
fn lines_take_their_bytes_and_some_more() {
    let lines = vec!["é".to_string(), "".to_string()];
    assert_eq!(enqueue(&lines), Ok(Some(2 + 2 * LINE_OVERHEAD as u32)));
    assert_eq!(enqueue(&Vec::new()), Ok(None));
}

#[test]
fn too_many_lines_are_refused() {
    let count = MAX_QUEUED_BYTES / LINE_OVERHEAD;
    let mut lines = vec![String::new(); count];
    assert_eq!(enqueue(&lines), Ok(Some(MAX_QUEUED_BYTES as u32)));
    lines.push(String::new());
    let refusal = enqueue(&lines).unwrap_err();
    assert_eq!(refusal, Refusal::TooManyLines);
    assert_eq!(refusal.status(), 413);
    assert_eq!(refusal.message(), "request has too many lines");
}

#[test]
fn a_full_or_closed_queue_refuses() {
    assert_eq!(accepted(Handed::Taken), Ok(()));
    let full = accepted(Handed::Full).unwrap_err();
    assert_eq!((full.status(), full.message()), (429, "ingest queue is full, retry later"));
    let closed = accepted(Handed::Closed).unwrap_err();
    assert_eq!((closed.status(), closed.message()), (503, "shutting down"));
}
