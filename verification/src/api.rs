use vstd::prelude::*;

verus! {

/// How an attempt at a request to the game server ended.
#[derive(Clone, Copy, PartialEq, Eq, Structural, Debug)]
pub enum Outcome {
    /// The server answered with this status code.
    Answered(i32),
    /// No answer came.
    Failed,
}

/// What to do after an attempt.
#[derive(Clone, Copy, PartialEq, Eq, Structural, Debug)]
pub enum Step {
    /// The answer is good: use it.
    Accept,
    /// The server refused the request (a 4xx code): give up at once.
    Refuse(i32),
    /// Give up: the last attempt failed.
    GiveUp,
    /// Wait and try again; this many attempts are left after the next one.
    Retry(u32),
}

/// The number of attempts at a request.
pub const ATTEMPTS: u32 = 5;

/// Decides what follows an attempt, with `attempts_left` attempts left
/// counting the one just made: a 200 is accepted, a 4xx refused, and
/// anything else retried while attempts remain.
pub fn next_step(outcome: Outcome, attempts_left: u32) -> (r: Step)
    requires
        attempts_left >= 1,
    ensures
        r == match outcome {
            Outcome::Answered(200) => Step::Accept,
            Outcome::Answered(code) => if 400 <= code <= 499 {
                Step::Refuse(code)
            } else if attempts_left == 1 {
                Step::GiveUp
            } else {
                Step::Retry((attempts_left - 1) as u32)
            },
            Outcome::Failed => if attempts_left == 1 {
                Step::GiveUp
            } else {
                Step::Retry((attempts_left - 1) as u32)
            },
        },
{
    match outcome {
        Outcome::Answered(200) => Step::Accept,
        Outcome::Answered(code) if 400 <= code && code <= 499 => Step::Refuse(code),
        _ => {
            if attempts_left == 1 {
                Step::GiveUp
            } else {
                Step::Retry(attempts_left - 1)
            }
        },
    }
}

} // verus!
