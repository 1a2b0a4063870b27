use fair_shuffle::executor::{
    classify_status, reorder_respecting_rate_limiting, AttemptState, FatalError, MoveAttempt,
    MoveError, MoveRequest, MAX_ATTEMPTS, RANGE_LENGTH, THROTTLED_STATUS,
};
use fair_shuffle::retry_after::parse_seconds;
use std::cell::RefCell;

fn throttled(seconds: u64) -> Result<String, MoveError> {
    Err(MoveError::Throttled { retry_after: Some(seconds) })
}

fn request(from: usize, to: usize, token: Option<&str>) -> MoveRequest {
    MoveRequest { from, to, range_length: 1, prior_token: token.map(|t| t.to_string()) }
}

/// A list service that answers from a script and records what it was sent.
struct Script {
    answers: RefCell<Vec<Result<String, MoveError>>>,
    requests: RefCell<Vec<MoveRequest>>,
    waits: RefCell<Vec<u64>>,
}

impl Script {
    fn new(mut answers: Vec<Result<String, MoveError>>) -> Script {
        answers.reverse();
        Script {
            answers: RefCell::new(answers),
            requests: RefCell::new(Vec::new()),
            waits: RefCell::new(Vec::new()),
        }
    }

    fn run(&self, from: usize, to: usize, token: &mut Option<String>) -> Result<u32, FatalError> {
        reorder_respecting_rate_limiting(
            &|request: MoveRequest| {
                self.requests.borrow_mut().push(request);
                self.answers.borrow_mut().pop().unwrap()
            },
            &|seconds: u64| self.waits.borrow_mut().push(seconds),
            from,
            to,
            token,
        )
    }
}

#[test]
fn success_stores_the_returned_token() {
    let script = Script::new(vec![Ok("s1".to_string())]);
    let mut token = None;
    assert_eq!(script.run(4, 0, &mut token), Ok(1));
    assert_eq!(token, Some("s1".to_string()));
    assert_eq!(*script.requests.borrow(), vec![request(4, 0, None)]);
    assert!(script.waits.borrow().is_empty());
}

#[test]
fn throttling_is_waited_out_and_the_move_made_again() {
    let script = Script::new(vec![throttled(3), Ok("s2".to_string())]);
    let mut token = Some("s1".to_string());
    assert_eq!(script.run(5, 2, &mut token), Ok(2));
    assert_eq!(token, Some("s2".to_string()));
    assert_eq!(*script.waits.borrow(), vec![3]);
    // the same positions and the same token both times
    assert_eq!(*script.requests.borrow(), vec![request(5, 2, Some("s1")); 2]);
}

#[test]
fn tokens_are_chained_from_move_to_move() {
    let script = Script::new(vec![
        Ok("t1".to_string()),
        throttled(1),
        Ok("t2".to_string()),
        Ok("t3".to_string()),
    ]);
    let mut token = None;
    assert_eq!(script.run(3, 0, &mut token), Ok(1));
    assert_eq!(script.run(2, 1, &mut token), Ok(2));
    assert_eq!(script.run(2, 2, &mut token), Ok(1));
    assert_eq!(token, Some("t3".to_string()));
    assert_eq!(
        *script.requests.borrow(),
        vec![
            request(3, 0, None),
            request(2, 1, Some("t1")),
            request(2, 1, Some("t1")),
            request(2, 2, Some("t2")),
        ]
    );
}

#[test]
fn ten_throttled_attempts_exhaust_the_move() {
    let answers = (1..=10).map(throttled).collect();
    let script = Script::new(answers);
    let mut token = Some("s".to_string());
    assert_eq!(script.run(1, 0, &mut token), Err(FatalError::AttemptsExhausted));
    assert_eq!(token, Some("s".to_string()));
    assert_eq!(script.requests.borrow().len(), 10);
    assert_eq!(*script.waits.borrow(), vec![1, 2, 3, 4, 5, 6, 7, 8, 9, 10]);
}

#[test]
fn success_on_the_tenth_attempt_still_counts() {
    let mut answers: Vec<Result<String, MoveError>> = (1..=9).map(throttled).collect();
    answers.push(Ok("late".to_string()));
    let script = Script::new(answers);
    let mut token = None;
    assert_eq!(script.run(1, 0, &mut token), Ok(10));
    assert_eq!(token, Some("late".to_string()));
    assert_eq!(script.waits.borrow().len(), 9);
}

#[test]
fn throttling_without_a_delay_is_fatal() {
    let script = Script::new(vec![Err(MoveError::Throttled { retry_after: None })]);
    let mut token = Some("s".to_string());
    assert_eq!(script.run(1, 0, &mut token), Err(FatalError::ThrottledWithoutDelay));
    assert_eq!(token, Some("s".to_string()));
    assert!(script.waits.borrow().is_empty());
    assert_eq!(script.requests.borrow().len(), 1);
}

#[test]
fn another_status_is_fatal() {
    let script = Script::new(vec![
        throttled(2),
        Err(MoveError::Other { status: 409, body: "stale snapshot".to_string() }),
    ]);
    let mut token = Some("s".to_string());
    assert_eq!(
        script.run(1, 0, &mut token),
        Err(FatalError::Status { status: 409, body: "stale snapshot".to_string() })
    );
    assert_eq!(token, Some("s".to_string()));
    assert_eq!(*script.waits.borrow(), vec![2]);
    assert_eq!(script.requests.borrow().len(), 2);
}

#[test]
fn a_transport_error_is_fatal() {
    let script = Script::new(vec![Err(MoveError::Transport { cause: "timed out".to_string() })]);
    let mut token = None;
    assert_eq!(
        script.run(1, 0, &mut token),
        Err(FatalError::Transport { cause: "timed out".to_string() })
    );
    assert_eq!(token, None);
}

#[test]
fn attempt_walks_through_its_states() {
    let mut token = Some("s0".to_string());
    let mut attempt = MoveAttempt::new(7, 3);
    assert_eq!(
        attempt,
        MoveAttempt { from: 7, to: 3, attempts: 0, state: AttemptState::Attempting }
    );
    assert_eq!(attempt.request(&token), request(7, 3, Some("s0")));
    assert_eq!(attempt.request(&token).range_length, RANGE_LENGTH);

    attempt.on_response(&mut token, throttled(3));
    assert_eq!(attempt.state, AttemptState::RateLimited(3));
    assert_eq!(attempt.attempts, 0);
    assert_eq!(token, Some("s0".to_string()));

    attempt.on_wait_elapsed();
    assert_eq!(attempt.state, AttemptState::Attempting);
    assert_eq!(attempt.attempts, 1);
    assert_eq!(attempt.request(&token), request(7, 3, Some("s0")));

    attempt.on_response(&mut token, Ok("s1".to_string()));
    assert_eq!(attempt.state, AttemptState::Succeeded);
    assert_eq!(attempt.attempts, 1);
    assert_eq!(token, Some("s1".to_string()));
}

#[test]
fn attempt_fails_when_the_cap_is_reached() {
    let mut token = None;
    let mut attempt = MoveAttempt::new(0, 0);
    for round in 1..MAX_ATTEMPTS {
        attempt.on_response(&mut token, throttled(1));
        attempt.on_wait_elapsed();
        assert_eq!(attempt.state, AttemptState::Attempting);
        assert_eq!(attempt.attempts, round);
    }
    attempt.on_response(&mut token, throttled(1));
    attempt.on_wait_elapsed();
    assert_eq!(attempt.attempts, 10);
    assert_eq!(attempt.state, AttemptState::Failed(FatalError::AttemptsExhausted));
}

#[test]
fn attempt_fails_on_what_cannot_be_retried() {
    let mut token = Some("s".to_string());
    let mut attempt = MoveAttempt::new(0, 0);
    attempt.on_response(&mut token, Err(MoveError::Throttled { retry_after: None }));
    assert_eq!(attempt.state, AttemptState::Failed(FatalError::ThrottledWithoutDelay));

    let mut attempt = MoveAttempt::new(0, 0);
    attempt.on_response(&mut token, Err(MoveError::Other { status: 500, body: "x".to_string() }));
    assert_eq!(
        attempt.state,
        AttemptState::Failed(FatalError::Status { status: 500, body: "x".to_string() })
    );

    let mut attempt = MoveAttempt::new(0, 0);
    attempt.on_response(&mut token, Err(MoveError::Transport { cause: "reset".to_string() }));
    assert_eq!(
        attempt.state,
        AttemptState::Failed(FatalError::Transport { cause: "reset".to_string() })
    );
    assert_eq!(token, Some("s".to_string()));
}

#[test]
fn status_429_with_a_delay_is_throttling() {
    assert_eq!(THROTTLED_STATUS, 429);
    assert_eq!(
        classify_status(429, Some("3"), "slow down".to_string()),
        MoveError::Throttled { retry_after: Some(3) }
    );
}

#[test]
fn status_429_without_a_usable_delay_has_none() {
    assert_eq!(
        classify_status(429, None, String::new()),
        MoveError::Throttled { retry_after: None }
    );
    assert_eq!(
        classify_status(429, Some("soon"), String::new()),
        MoveError::Throttled { retry_after: None }
    );
    assert_eq!(
        classify_status(429, Some("Wed, 21 Oct 2015 07:28:00 GMT"), String::new()),
        MoveError::Throttled { retry_after: None }
    );
}

#[test]
fn another_status_keeps_its_body() {
    assert_eq!(
        classify_status(404, Some("3"), "no such list".to_string()),
        MoveError::Other { status: 404, body: "no such list".to_string() }
    );
    assert_eq!(
        classify_status(428, None, String::new()),
        MoveError::Other { status: 428, body: String::new() }
    );
}

#[test]
fn seconds_are_read_from_decimal_digits() {
    assert_eq!(parse_seconds("3"), Some(3));
    assert_eq!(parse_seconds("0"), Some(0));
    assert_eq!(parse_seconds("120"), Some(120));
    assert_eq!(parse_seconds("+45"), Some(45));
    assert_eq!(parse_seconds("007"), Some(7));
    assert_eq!(parse_seconds("18446744073709551615"), Some(u64::MAX));
}

#[test]
fn seconds_are_not_read_from_anything_else() {
    assert_eq!(parse_seconds(""), None);
    assert_eq!(parse_seconds("+"), None);
    assert_eq!(parse_seconds("-3"), None);
    assert_eq!(parse_seconds("++3"), None);
    assert_eq!(parse_seconds("3+"), None);
    assert_eq!(parse_seconds(" 3"), None);
    assert_eq!(parse_seconds("3 "), None);
    assert_eq!(parse_seconds("3.5"), None);
    assert_eq!(parse_seconds("3s"), None);
    assert_eq!(parse_seconds("0x10"), None);
    assert_eq!(parse_seconds("\u{ff13}"), None);
    assert_eq!(parse_seconds("3\u{e9}"), None);
    assert_eq!(parse_seconds("18446744073709551616"), None);
    assert_eq!(parse_seconds("99999999999999999999999"), None);
}

#[test]
fn seconds_agree_with_the_standard_library() {
    let texts = [
        "", "+", "-", "0", "+0", "-0", "1", "10", "0010", "+0010", "18446744073709551615",
        "18446744073709551616", "18446744073709551620", "184467440737095516150", "1_000", "1e3",
        "\u{661}", "12a", "a12", "4 2", "+-1", "3\n",
    ];
    for text in texts {
        assert_eq!(parse_seconds(text), text.parse::<u64>().ok(), "{:?}", text);
    }
}
