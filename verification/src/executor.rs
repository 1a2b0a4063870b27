//! The rate-limited move executor: one move at a time against the remote
//! list, with a concurrency token threaded from move to move and a bounded
//! number of retries when the service throttles.

use crate::retry_after::{parse_seconds, parsed_seconds};
use vstd::prelude::*;

verus! {

/// The number of throttled attempts after which a move is given up.
pub const MAX_ATTEMPTS: u32 = 10;

/// The status with which the list service signals throttling.
pub const THROTTLED_STATUS: u16 = 429;

/// The number of entries that one move carries.
pub const RANGE_LENGTH: u32 = 1;

/// One move as it is submitted to the list service: the entry at `from` is
/// to stand at `to`. `prior_token` is the token that the service returned for
/// the last mutation, absent on the first.
#[derive(Clone, Debug, PartialEq, Eq)]
pub struct MoveRequest {
    pub from: usize,
    pub to: usize,
    pub range_length: u32,
    pub prior_token: Option<String>,
}

/// What the list service answers when it does not make a move.
#[derive(Clone, Debug, PartialEq, Eq)]
pub enum MoveError {
    /// The service throttles. `retry_after` is the number of seconds it asks
    /// the caller to wait, if it named one.
    Throttled { retry_after: Option<u64> },
    /// The service refused with another status.
    Other { status: u16, body: String },
    /// The request did not reach the service, or its answer was not received.
    Transport { cause: String },
}

/// Why a move was given up for good.
#[derive(Clone, Debug, PartialEq, Eq)]
pub enum FatalError {
    /// The service throttled without naming a delay.
    ThrottledWithoutDelay,
    /// The service refused with a status other than throttling.
    Status { status: u16, body: String },
    /// The request did not reach the service, or its answer was not received.
    Transport { cause: String },
    /// The service throttled `MAX_ATTEMPTS` attempts in a row.
    AttemptsExhausted,
}

/// The state of one move.
#[derive(Clone, Debug, PartialEq, Eq)]
pub enum AttemptState {
    /// The move is to be submitted.
    Attempting,
    /// The service made the move.
    Succeeded,
    /// The service throttled; the move is to be submitted again after this
    /// many seconds.
    RateLimited(u64),
    /// The move was given up.
    Failed(FatalError),
}

/// One move on its way through the executor.
#[derive(Clone, Debug, PartialEq, Eq)]
pub struct MoveAttempt {
    pub from: usize,
    pub to: usize,
    /// The number of throttled attempts that were waited out.
    pub attempts: u32,
    pub state: AttemptState,
}

/// The request for a move from `from` to `to` after a mutation that returned
/// `token`.
pub open spec fn move_request(from: usize, to: usize, token: Option<String>) -> MoveRequest {
    MoveRequest { from, to, range_length: RANGE_LENGTH, prior_token: token }
}

/// The delay after which a refused move is submitted again: the one that a
/// throttling service named. Every other refusal has none, and is fatal.
pub open spec fn retry_delay(error: MoveError) -> Option<u64> {
    match error {
        MoveError::Throttled { retry_after: Some(seconds) } => Some(seconds),
        _ => None,
    }
}

/// The fatal error that a refusal without a retry delay becomes.
pub open spec fn fatal_of(error: MoveError) -> FatalError {
    match error {
        MoveError::Throttled { .. } => FatalError::ThrottledWithoutDelay,
        MoveError::Other { status, body } => FatalError::Status { status, body },
        MoveError::Transport { cause } => FatalError::Transport { cause },
    }
}

/// The state that follows `Attempting` on a response of the service.
pub open spec fn state_after_response(response: Result<String, MoveError>) -> AttemptState {
    match response {
        Ok(_) => AttemptState::Succeeded,
        Err(error) => match retry_delay(error) {
            Some(seconds) => AttemptState::RateLimited(seconds),
            None => AttemptState::Failed(fatal_of(error)),
        },
    }
}

/// The stored token after a response: the one that a success returned, else
/// the one stored before.
pub open spec fn token_after(token: Option<String>, response: Result<String, MoveError>) -> Option<
    String,
> {
    match response {
        Ok(new_token) => Some(new_token),
        Err(_) => token,
    }
}

/// The state that follows `RateLimited` when the wait is over, for a move
/// that had `attempts` throttled attempts before this one.
pub open spec fn state_after_wait(attempts: u32) -> AttemptState {
    if attempts + 1 < MAX_ATTEMPTS {
        AttemptState::Attempting
    } else {
        AttemptState::Failed(FatalError::AttemptsExhausted)
    }
}

/// What the service's answer to a refused move means: a throttling status
/// with the delay that the `Retry-After` text names, if it names one, or
/// another status with the body of the answer.
pub open spec fn refusal(status: u16, retry_after: Option<Seq<char>>, body: String) -> MoveError {
    if status == THROTTLED_STATUS {
        MoveError::Throttled {
            retry_after: match retry_after {
                Some(text) => parsed_seconds(text),
                None => None,
            },
        }
    } else {
        MoveError::Other { status, body }
    }
}

/// Classifies the service's answer to a refused move by its status, the text
/// of its `Retry-After` header if it has one, and its body.
pub fn classify_status(status: u16, retry_after: Option<&str>, body: String) -> (error: MoveError)
    ensures
        error == refusal(
            status,
            match retry_after {
                Some(text) => Some(text@),
                None => None,
            },
            body,
        ),
{
    if status == THROTTLED_STATUS {
        let delay = match retry_after {
            Some(text) => parse_seconds(text),
            None => None,
        };
        MoveError::Throttled { retry_after: delay }
    } else {
        MoveError::Other { status, body }
    }
}

impl MoveAttempt {
    /// The attempt counter is within its cap, and a move that is still under
    /// way has attempts left.
    pub open spec fn wf(self) -> bool {
        &&& self.attempts <= MAX_ATTEMPTS
        &&& (self.state is Attempting || self.state is RateLimited) ==> self.attempts
            < MAX_ATTEMPTS
    }

    /// The attempt after the service answered its submission. Only a move
    /// that is to be submitted takes a response; in any other state the
    /// response changes nothing.
    pub open spec fn responded(self, response: Result<String, MoveError>) -> MoveAttempt {
        if self.state is Attempting {
            MoveAttempt { state: state_after_response(response), ..self }
        } else {
            self
        }
    }

    /// The attempt after the wait that throttling imposed: one attempt more
    /// is counted, up to the cap. Only a throttled move waits; in any other
    /// state the end of a wait changes nothing.
    pub open spec fn waited(self) -> MoveAttempt {
        if self.state is RateLimited {
            MoveAttempt {
                attempts: if self.attempts < MAX_ATTEMPTS {
                    (self.attempts + 1) as u32
                } else {
                    self.attempts
                },
                state: state_after_wait(self.attempts),
                ..self
            }
        } else {
            self
        }
    }

    /// Starts a move: to be submitted, no attempt made.
    pub fn new(from: usize, to: usize) -> (attempt: MoveAttempt)
        ensures
            attempt == (MoveAttempt { from, to, attempts: 0, state: AttemptState::Attempting }),
            attempt.wf(),
    {
        MoveAttempt { from, to, attempts: 0, state: AttemptState::Attempting }
    }

    /// The request to submit for this move, with the stored token.
    pub fn request(&self, token: &Option<String>) -> (request: MoveRequest)
        ensures
            request == move_request(self.from, self.to, *token),
    {
        let prior_token = match token {
            Some(text) => Some(text.clone()),
            None => None,
        };
        MoveRequest { from: self.from, to: self.to, range_length: RANGE_LENGTH, prior_token }
    }

    /// Takes the service's response to the submission. A success ends the
    /// move, and its token replaces the stored one. Throttling with a delay
    /// leads to a wait. Anything else ends the move as failed. Only a
    /// success touches the stored token. A move that is not to be submitted
    /// takes no response: the call then changes nothing.
    pub fn on_response(&mut self, token: &mut Option<String>, response: Result<String, MoveError>)
        ensures
            *final(self) == old(self).responded(response),
            *final(token) == if old(self).state is Attempting {
                token_after(*old(token), response)
            } else {
                *old(token)
            },
            old(self).wf() ==> final(self).wf(),
    {
        if !self.is_attempting() {
            return ;
        }
        match response {
            Ok(new_token) => {
                *token = Some(new_token);
                self.state = AttemptState::Succeeded;
            },
            Err(MoveError::Throttled { retry_after: Some(seconds) }) => {
                self.state = AttemptState::RateLimited(seconds);
            },
            Err(MoveError::Throttled { retry_after: None }) => {
                self.state = AttemptState::Failed(FatalError::ThrottledWithoutDelay);
            },
            Err(MoveError::Other { status, body }) => {
                self.state = AttemptState::Failed(FatalError::Status { status, body });
            },
            Err(MoveError::Transport { cause }) => {
                self.state = AttemptState::Failed(FatalError::Transport { cause });
            },
        }
    }

    /// Takes note that the wait is over: the attempt is counted, and the move
    /// is to be submitted again, with the same positions, unless the cap on
    /// attempts is reached, which ends the move as failed. A move that is
    /// not waiting is left as it is.
    pub fn on_wait_elapsed(&mut self)
        ensures
            *final(self) == old(self).waited(),
            old(self).wf() ==> final(self).wf(),
    {
        match self.state {
            AttemptState::RateLimited(_) => {
                if self.attempts < MAX_ATTEMPTS - 1 {
                    self.attempts = self.attempts + 1;
                    self.state = AttemptState::Attempting;
                } else {
                    if self.attempts < MAX_ATTEMPTS {
                        self.attempts = self.attempts + 1;
                    }
                    self.state = AttemptState::Failed(FatalError::AttemptsExhausted);
                }
            },
            _ => {},
        }
    }

    /// Whether the move is to be submitted.
    pub fn is_attempting(&self) -> (b: bool)
        ensures
            b == (self.state is Attempting),
    {
        match self.state {
            AttemptState::Attempting => true,
            _ => false,
        }
    }
}

/// The steps that a move under way still has before it: two for each
/// attempt left, one more while it is to be submitted.
pub open spec fn steps_left(attempt: MoveAttempt) -> int {
    2 * (MAX_ATTEMPTS - attempt.attempts) + if attempt.state is Attempting {
        1int
    } else {
        0int
    }
}

/// `submit` can refuse `request` with throttling that names a delay.
pub open spec fn can_throttle<S: Fn(MoveRequest) -> Result<String, MoveError>>(
    submit: &S,
    request: MoveRequest,
) -> bool {
    exists|refused: MoveError|
        #[trigger] call_ensures(submit, (request,), Err::<String, MoveError>(refused))
            && retry_delay(refused) is Some
}

/// `error` is what a move ends with when `submit` refuses `request`: for some
/// refusal that `submit` can give, `error` is the fatal error it stands for
/// if it has no retry delay, and `AttemptsExhausted` if it has one.
pub open spec fn gives_up_with<S: Fn(MoveRequest) -> Result<String, MoveError>>(
    submit: &S,
    request: MoveRequest,
    error: FatalError,
) -> bool {
    exists|refused: MoveError|
        {
            &&& #[trigger] call_ensures(submit, (request,), Err::<String, MoveError>(refused))
            &&& match retry_delay(refused) {
                Some(_) => error == FatalError::AttemptsExhausted,
                None => error == fatal_of(refused),
            }
        }
}

/// Makes one move on the remote list, waiting out throttling.
///
/// The move of the entry at `current_index` to `target_index` is handed to
/// `submit`, together with the token in `last_snapshot_id`. When `submit`
/// succeeds, the token it returns replaces the one in `last_snapshot_id`, and
/// the number of submissions made is returned. When it reports throttling
/// with a delay, `wait` is called with the delay in seconds, and the same
/// move is submitted again with the same token; after `MAX_ATTEMPTS`
/// throttled attempts the move is given up as `AttemptsExhausted`. Any other
/// refusal ends the move at once with the fatal error it stands for. A move
/// that fails leaves `last_snapshot_id` as it was.
pub fn reorder_respecting_rate_limiting<S, W>(
    submit: &S,
    wait: &W,
    current_index: usize,
    target_index: usize,
    last_snapshot_id: &mut Option<String>,
) -> (r: Result<u32, FatalError>) where
    S: Fn(MoveRequest) -> Result<String, MoveError>,
    W: Fn(u64) -> (),

    requires
        call_requires(
            submit,
            (move_request(current_index, target_index, *old(last_snapshot_id)),),
        ),
        forall|seconds: u64| call_requires(wait, (seconds,)),
    ensures
        match r {
            Ok(submissions) => {
                &&& 1 <= submissions <= MAX_ATTEMPTS
                &&& *final(last_snapshot_id) matches Some(token)
                &&& call_ensures(
                    submit,
                    (move_request(current_index, target_index, *old(last_snapshot_id)),),
                    Ok::<String, MoveError>(token),
                )
                &&& submissions > 1 ==> can_throttle(
                    submit,
                    move_request(current_index, target_index, *old(last_snapshot_id)),
                )
            },
            Err(error) => {
                &&& *final(last_snapshot_id) == *old(last_snapshot_id)
                &&& gives_up_with(
                    submit,
                    move_request(current_index, target_index, *old(last_snapshot_id)),
                    error,
                )
            },
        },
{
    let ghost request = move_request(current_index, target_index, *last_snapshot_id);
    let mut attempt = MoveAttempt::new(current_index, target_index);
    let mut submissions: u32 = 0;
    loop
        invariant
            request == move_request(current_index, target_index, *old(last_snapshot_id)),
            attempt.wf(),
            attempt.from == current_index,
            attempt.to == target_index,
            attempt.state is Attempting ==> submissions == attempt.attempts,
            attempt.state is RateLimited || attempt.state is Succeeded ==> submissions
                == attempt.attempts + 1,
            attempt.state is Succeeded ==> {
                &&& attempt.attempts < MAX_ATTEMPTS
                &&& *last_snapshot_id matches Some(token)
                &&& call_ensures(submit, (request,), Ok::<String, MoveError>(token))
            },
            !(attempt.state is Succeeded) ==> *last_snapshot_id == *old(last_snapshot_id),
            attempt.state matches AttemptState::Failed(error) ==> gives_up_with(
                submit,
                request,
                error,
            ),
            attempt.attempts > 0 || attempt.state is RateLimited ==> can_throttle(submit, request),
            call_requires(submit, (request,)),
            forall|seconds: u64| call_requires(wait, (seconds,)),
        decreases steps_left(attempt),
    {
        match attempt.state {
            AttemptState::Attempting => {
                let response = submit(attempt.request(last_snapshot_id));
                assert(call_ensures(submit, (request,), response));
                submissions = submissions + 1;
                attempt.on_response(last_snapshot_id, response);
            },
            AttemptState::RateLimited(seconds) => {
                wait(seconds);
                attempt.on_wait_elapsed();
                proof {
                    if attempt.state is Failed {
                        let refused = choose|refused: MoveError|
                            #[trigger] call_ensures(
                                submit,
                                (request,),
                                Err::<String, MoveError>(refused),
                            ) && retry_delay(refused) is Some;
                        assert(call_ensures(submit, (request,), Err::<String, MoveError>(refused)));
                    }
                }
            },
            AttemptState::Succeeded => {
                return Ok(submissions);
            },
            AttemptState::Failed(error) => {
                return Err(error);
            },
        }
    }
}

/// The token that is stored before move number `n` (counted from 0) of a run
/// of successful moves that starts with `initial` stored and in which the
/// service returns the tokens `returned`, one for each move.
pub open spec fn token_before(initial: Option<String>, returned: Seq<String>, n: nat) -> Option<
    String,
>
    decreases n,
{
    if n == 0 {
        initial
    } else {
        token_after(
            token_before(initial, returned, (n - 1) as nat),
            Ok(returned[n - 1]),
        )
    }
}

/// The token that move number `n` of a run submits, when the service
/// returned `returned` for the moves before it: none for the first move, and
/// for every other the token returned for the move just before.
pub open spec fn submitted_token(returned: Seq<String>, n: int) -> Option<String> {
    if n == 0 {
        None
    } else {
        Some(returned[n - 1])
    }
}

/// Tokens form a chain: in a run of successful moves that starts without a
/// token, the first move is submitted without a token, and every later move
/// with the token that the service returned for the move before it.
pub proof fn lemma_token_chain(returned: Seq<String>, n: nat, from: usize, to: usize)
    requires
        n <= returned.len(),
    ensures
        token_before(None, returned, n) == submitted_token(returned, n as int),
        move_request(from, to, token_before(None, returned, n)).prior_token == submitted_token(
            returned,
            n as int,
        ),
{
}

/// Throttling with a delay is waited out and the move made again: a move
/// under way that is throttled with a delay of `seconds` waits that long,
/// then counts one attempt more and, with attempts left, is submitted again
/// with the same positions; a success then ends it, and the token that the
/// service returned is stored.
pub proof fn lemma_retry_after_throttling(
    attempt: MoveAttempt,
    token: Option<String>,
    seconds: u64,
    new_token: String,
)
    requires
        attempt.state is Attempting,
        attempt.attempts + 1 < MAX_ATTEMPTS,
    ensures
        ({
            let throttled: Result<String, MoveError> = Err(
                MoveError::Throttled { retry_after: Some(seconds) },
            );
            let waiting = attempt.responded(throttled);
            let again = waiting.waited();
            let done = again.responded(Ok(new_token));
            &&& waiting.state == AttemptState::RateLimited(seconds)
            &&& token_after(token, throttled) == token
            &&& again == (MoveAttempt {
                attempts: (attempt.attempts + 1) as u32,
                state: AttemptState::Attempting,
                ..attempt
            })
            &&& done.state == AttemptState::Succeeded
            &&& done.attempts == attempt.attempts + 1
            &&& token_after(token, Ok(new_token)) == Some(new_token)
        }),
{
}

} // verus!
