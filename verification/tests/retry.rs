use cxporter::failure::Failure;
use cxporter::retry::{is_retryable_error, retry_delay, retry_operation, RetryDecision, RetryOptions};

#[test]
fn refused_requests_are_not_retryable() {
    assert!(!is_retryable_error("unknown MCP server 'x'"));
    assert!(!is_retryable_error("call: unknown tool 'y'"));
    assert!(!is_retryable_error("ambiguous tool alias 'z'"));
    assert!(!is_retryable_error("arguments do not satisfy a/b"));
    assert!(!is_retryable_error("tool arguments must be a JSON object"));
    assert!(is_retryable_error("temporary failure"));
    assert!(is_retryable_error(""));
}

#[test]
fn messages_of_refused_requests_are_not_retryable() {
    let failures = vec![
        Failure::UnknownServer { server: "s".to_string() },
        Failure::UnknownTool { server: "s".to_string(), tool: "t".to_string() },
        Failure::AmbiguousTool {
            server: "s".to_string(),
            tool: "t".to_string(),
            candidates: Vec::new(),
        },
        Failure::ArgumentsNotObject,
    ];
    for failure in failures {
        assert!(!is_retryable_error(&failure.message()));
    }
}

#[test]
fn pauses_double_and_stop_at_the_limit() {
    assert_eq!(retry_delay(250, 1), 250);
    assert_eq!(retry_delay(250, 2), 500);
    assert_eq!(retry_delay(250, 4), 2000);
    assert_eq!(retry_delay(0, 9), 0);
    assert_eq!(retry_delay(1, 64), 1 << 63);
    assert_eq!(retry_delay(2, 64), u64::MAX);
    assert_eq!(retry_delay(1, 65), u64::MAX);
    assert_eq!(retry_delay(1, 0), 1);
}

#[test]
fn call_retries_transient_tool_call_errors_when_requested() {
    let options = RetryOptions { retry: 1, retry_delay_ms: 0 };
    assert_eq!(
        retry_operation(options, 1, "temporary failure"),
        RetryDecision::RetryAfter { delay_ms: 0, attempt: 2 }
    );
    assert_eq!(retry_operation(options, 2, "temporary failure"), RetryDecision::GiveUp);
}

#[test]
fn without_retries_the_first_error_stands() {
    let options = RetryOptions { retry: 0, retry_delay_ms: 250 };
    assert_eq!(retry_operation(options, 1, "temporary failure"), RetryDecision::GiveUp);
}

#[test]
fn refused_requests_are_not_repeated() {
    let options = RetryOptions { retry: 5, retry_delay_ms: 250 };
    assert_eq!(retry_operation(options, 1, "unknown tool 'x'"), RetryDecision::GiveUp);
}

#[test]
fn the_number_of_attempts_does_not_wrap() {
    let options = RetryOptions { retry: u32::MAX, retry_delay_ms: 0 };
    assert_eq!(retry_operation(options, u32::MAX, "e"), RetryDecision::GiveUp);
    assert_eq!(
        retry_operation(options, u32::MAX - 1, "e"),
        RetryDecision::RetryAfter { delay_ms: 0, attempt: u32::MAX }
    );
}

#[test]
fn a_longer_base_makes_longer_pauses() {
    assert!(retry_delay(200, 3) < retry_delay(250, 3));
    assert_eq!(retry_delay(250, 3), 2 * retry_delay(250, 2));
    assert_eq!(retry_delay(u64::MAX, 3), retry_delay(u64::MAX - 1, 3));
}

#[test]
fn a_missing_schema_may_be_tried_again() {
    let options = RetryOptions { retry: 1, retry_delay_ms: 5 };
    let failure = Failure::MissingInputSchema { tool: "bare".to_string() };
    assert_eq!(
        retry_operation(options, 1, &failure.message()),
        RetryDecision::RetryAfter { delay_ms: 5, attempt: 2 }
    );
}
