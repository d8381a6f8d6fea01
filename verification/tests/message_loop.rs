use office_audit_collector::engine::{
    MessageLoopEngine, RetryDecision, StatusMessage,
};

#[test]
fn test_happy_path_accounting() {
    // one seeded page walk finds ten blobs; all are retrieved
    let mut e = MessageLoopEngine::new(3);
    e.note_seeded_url();
    for _ in 0..10 {
        assert!(!e.handle_status(StatusMessage::FoundNewContentBlob, 0));
    }
    assert!(!e.handle_status(StatusMessage::FinishedContentBlobs, 0));
    for i in 0..10 {
        let done = e.handle_status(StatusMessage::RetrievedContentBlob, 0);
        assert_eq!(done, i == 9);
    }
    assert_eq!(e.state.stats.blobs_found, 10);
    assert_eq!(e.state.stats.blobs_successful, 10);
    assert_eq!(e.state.stats.blobs_error, 0);
    assert_eq!(e.state.stats.blobs_retried, 0);
}

#[test]
fn test_retry_then_success() {
    // one blob errs twice, then its fetch succeeds
    let mut e = MessageLoopEngine::new(3);
    e.note_seeded_url();
    e.handle_status(StatusMessage::FoundNewContentBlob, 0);
    e.handle_status(StatusMessage::FinishedContentBlobs, 0);
    assert_eq!(e.handle_content_error("https://x/blob"), RetryDecision::Resend);
    assert_eq!(e.handle_content_error("https://x/blob"), RetryDecision::Resend);
    assert!(e.handle_status(StatusMessage::RetrievedContentBlob, 0));
    assert_eq!(e.state.stats.blobs_retried, 2);
    assert_eq!(e.state.stats.blobs_successful, 1);
    assert_eq!(e.state.stats.blobs_error, 0);
}

#[test]
fn test_retry_exhaustion() {
    // one blob always errs; with three retries the fourth error gives up
    let mut e = MessageLoopEngine::new(3);
    e.note_seeded_url();
    e.handle_status(StatusMessage::FoundNewContentBlob, 0);
    e.handle_status(StatusMessage::FinishedContentBlobs, 0);
    assert_eq!(e.handle_content_error("https://x/blob"), RetryDecision::Resend);
    assert_eq!(e.handle_content_error("https://x/blob"), RetryDecision::Resend);
    assert_eq!(e.handle_content_error("https://x/blob"), RetryDecision::Resend);
    assert_eq!(e.handle_content_error("https://x/blob"), RetryDecision::GiveUp);
    assert_eq!(e.state.stats.blobs_retried, 3);
    assert_eq!(e.state.stats.blobs_successful, 0);
    assert_eq!(e.state.stats.blobs_error, 1);
    assert_eq!(e.state.awaiting_content_blobs, 0);
    // the ledger holds no entry for the abandoned URL
    assert_eq!(e.ledger_len(), 0);
}

#[test]
fn test_rate_limit_backoff() {
    let mut e = MessageLoopEngine::new(3);
    e.note_seeded_url();
    for _ in 0..3 {
        e.handle_status(StatusMessage::FoundNewContentBlob, 0);
    }
    // the first throttle starts the backoff; later ones do not extend it
    e.handle_status(StatusMessage::BeingThrottled, 1_000);
    assert!(e.state.rate_limited);
    e.handle_status(StatusMessage::BeingThrottled, 2_000);
    e.handle_status(StatusMessage::BeingThrottled, 2_500);

    // errors while limited re-send without drawing on the budget
    assert_eq!(e.handle_content_error("https://x/one"), RetryDecision::Resend);
    assert_eq!(e.handle_content_error("https://x/one"), RetryDecision::Resend);
    assert_eq!(e.handle_content_error("https://x/one"), RetryDecision::Resend);
    assert_eq!(e.handle_content_error("https://x/one"), RetryDecision::Resend);

    // the backoff lasts thirty seconds from the first throttle
    e.tick(30_999);
    assert!(e.state.rate_limited);
    e.tick(31_000);
    assert!(!e.state.rate_limited);

    // afterwards the budget is consumed again
    assert_eq!(e.handle_content_error("https://x/one"), RetryDecision::Resend);
    assert_eq!(e.handle_content_error("https://x/one"), RetryDecision::Resend);
    assert_eq!(e.handle_content_error("https://x/one"), RetryDecision::GiveUp);
}

#[test]
fn test_discovery_page_give_up() {
    // a failing list page draws on the same ledger but closes a page walk
    let mut e = MessageLoopEngine::new(1);
    e.note_seeded_url();
    assert_eq!(e.handle_blob_error("https://x/page"), RetryDecision::Resend);
    assert_eq!(e.handle_blob_error("https://x/page"), RetryDecision::GiveUp);
    assert_eq!(e.state.awaiting_content_types, 0);
    assert_eq!(e.state.stats.blobs_error, 1);
    assert_eq!(e.state.stats.blobs_retried, 1);
}

#[test]
fn test_completion_verdict() {
    let mut e = MessageLoopEngine::new(3);
    assert!(e.check_done());
    e.note_seeded_url();
    assert!(!e.check_done());
    assert!(e.handle_status(StatusMessage::FinishedContentBlobs, 0));
}
