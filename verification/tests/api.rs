use rbc::api::{next_step, Outcome, Step, ATTEMPTS};

#[test]
fn a_good_answer_is_taken() {
    assert_eq!(next_step(Outcome::Answered(200), ATTEMPTS), Step::Accept);
}

#[test]
fn a_refusal_ends_at_once() {
    assert_eq!(next_step(Outcome::Answered(404), ATTEMPTS), Step::Refuse(404));
    assert_eq!(next_step(Outcome::Answered(400), 1), Step::Refuse(400));
}

#[test]
fn other_troubles_are_retried_until_the_last_attempt() {
    assert_eq!(next_step(Outcome::Answered(503), 5), Step::Retry(4));
    assert_eq!(next_step(Outcome::Failed, 2), Step::Retry(1));
    assert_eq!(next_step(Outcome::Failed, 1), Step::GiveUp);
    assert_eq!(next_step(Outcome::Answered(500), 1), Step::GiveUp);
}
