use url2md::batch::{Action, BatchState, FetchEvent, Outcome};

fn queue(urls: &[&str]) -> Vec<String> {
    urls.iter().map(|u| u.to_string()).collect()
}

#[test]
fn test_retry_bound_exhausts_attempts() {
    let mut b = BatchState::new(queue(&["http://always.fails"]), 3);
    // Two failures burn attempts without recording anything.
    for _ in 0..2 {
        match b.next_action() {
            Action::Fetch { url } => assert_eq!(url, "http://always.fails"),
            _ => panic!("expected a fetch"),
        }
        b.step(FetchEvent::Failure { error: "connection refused".to_string() });
        assert_eq!(b.results.len(), 0);
        assert!(!b.is_complete());
    }
    // The third failure spends the last attempt: exactly one error outcome.
    b.step(FetchEvent::Failure { error: "connection refused".to_string() });
    assert!(b.is_complete());
    assert_eq!(b.results.len(), 1);
    match &b.results[0] {
        Outcome::Failure { url, error } => {
            assert_eq!(url, "http://always.fails");
            assert!(error.contains("Error fetching markdown for URL: http://always.fails"));
            assert!(error.contains("connection refused"));
        },
        Outcome::Success { .. } => panic!("expected an error outcome"),
    }
    // The URL is never attempted again.
    assert!(matches!(b.next_action(), Action::Done));
}

#[test]
fn test_pause_resume_keeps_position() {
    let mut b = BatchState::new(queue(&["http://a", "http://b", "http://c"]), 2);
    b.step(FetchEvent::Success { html: "<p>one</p>".to_string() });
    b.step(FetchEvent::Success { html: "<p>two</p>".to_string() });
    assert_eq!(b.results.len(), 2);
    // Pause before the third URL: nothing is recorded for it.
    b.pause();
    assert!(matches!(b.next_action(), Action::Wait));
    assert_eq!(b.results.len(), 2);
    assert_eq!(b.cursor, 2);
    // Resume: the batch continues at the third URL, without re-processing.
    b.resume();
    match b.next_action() {
        Action::Fetch { url } => assert_eq!(url, "http://c"),
        _ => panic!("expected a fetch of the third URL"),
    }
    b.step(FetchEvent::Success { html: "<p>three</p>".to_string() });
    assert!(b.is_complete());
    assert_eq!(b.results.len(), 3);
    match &b.results[0] {
        Outcome::Success { url, .. } => assert_eq!(url, "http://a"),
        _ => panic!("first outcome should be a success"),
    }
    match &b.results[2] {
        Outcome::Success { url, markdown } => {
            assert_eq!(url, "http://c");
            assert!(markdown.contains("three"));
        },
        _ => panic!("third outcome should be a success"),
    }
}

#[test]
fn test_success_after_failures_records_markdown() {
    let mut b = BatchState::new(queue(&["http://x"]), 3);
    b.step(FetchEvent::Failure { error: "timeout".to_string() });
    b.step(FetchEvent::Success { html: "<h1>T</h1>".to_string() });
    assert!(b.is_complete());
    assert_eq!(b.results.len(), 1);
    match &b.results[0] {
        Outcome::Success { url, markdown } => {
            assert_eq!(url, "http://x");
            assert_eq!(markdown, "# Content from: http://x\n\n# T");
        },
        _ => panic!("expected a success outcome"),
    }
}

#[test]
fn test_results_follow_queue_order() {
    let mut b = BatchState::new(queue(&["http://one", "http://two"]), 1);
    b.step(FetchEvent::Failure { error: "down".to_string() });
    b.step(FetchEvent::Success { html: "<p>fine</p>".to_string() });
    assert_eq!(b.results.len(), 2);
    assert!(!b.results[0].is_success());
    assert!(b.results[1].is_success());
}

#[test]
fn test_aggregate_joins_with_separator() {
    let mut b = BatchState::new(queue(&["http://one", "http://two"]), 1);
    b.step(FetchEvent::Success { html: "<p>first</p>".to_string() });
    b.step(FetchEvent::Success { html: "<p>second</p>".to_string() });
    let all = b.aggregate();
    assert_eq!(
        all,
        "# Content from: http://one\n\nfirst\n\n---\n\n# Content from: http://two\n\nsecond"
    );
}

#[test]
fn test_export_entries_skip_errors_by_variant() {
    let mut b = BatchState::new(queue(&["http://site.io/good", "http://site.io/bad"]), 1);
    b.step(FetchEvent::Success { html: "<p>ok</p>".to_string() });
    b.step(FetchEvent::Failure { error: "gone".to_string() });
    let entries = b.export_entries();
    assert_eq!(entries.len(), 1);
    assert_eq!(entries[0].0, "good.md");
    assert!(entries[0].1.contains("ok"));
}

#[test]
fn test_empty_queue_is_complete_immediately() {
    let b = BatchState::new(Vec::new(), 3);
    assert!(b.is_complete());
    assert!(matches!(b.next_action(), Action::Done));
    assert_eq!(b.aggregate(), "");
}

#[test]
fn test_parse_url_lines_filters_blanks() {
    let content = "http://a\n\n   \nhttp://b\r\nhttp://c";
    let urls = url2md::batch::parse_url_lines(content);
    assert_eq!(
        urls,
        vec!["http://a".to_string(), "http://b".to_string(), "http://c".to_string()]
    );
}

#[test]
fn test_parse_url_lines_empty_input() {
    assert!(url2md::batch::parse_url_lines("").is_empty());
    assert!(url2md::batch::parse_url_lines("\n\n  \n").is_empty());
}
