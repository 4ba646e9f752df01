use rbc::game::{Color, Move, Square};
use rbc::interact::{outcome, summary_line, Action, Reply, Stage, Turn};

#[test]
fn a_white_game_polls_plays_a_turn_and_ends() {
    let mut t = Turn::new(Color::White);
    assert_eq!(t.stage, Stage::Status);
    assert_eq!(t.halfmove_number, 0);
    assert_eq!(t.step(Reply::Status { is_over: false, is_my_turn: false }), Action::Pause);
    assert_eq!(t.stage, Stage::Status);
    assert_eq!(t.step(Reply::Status { is_over: false, is_my_turn: true }), Action::Ask(Stage::Clock));
    assert_eq!(t.step(Reply::Done), Action::Ask(Stage::OpponentMove));
    assert_eq!(t.step(Reply::Capture(None)), Action::Ask(Stage::Sense));
    assert_eq!(t.step(Reply::Done), Action::Ask(Stage::Move));
    assert_eq!(t.step(Reply::Done), Action::Ask(Stage::EndTurn));
    assert_eq!(t.step(Reply::Done), Action::Pause);
    assert_eq!(t.halfmove_number, 2);
    assert_eq!(t.step(Reply::Status { is_over: false, is_my_turn: true }), Action::Ask(Stage::Clock));
    assert_eq!(t.step(Reply::Done), Action::Ask(Stage::OpponentMove));
    assert_eq!(t.step(Reply::Capture(Some(Square(12)))), Action::Opponent(Some(Square(12))));
    assert_eq!(t.stage, Stage::Sense);
    assert_eq!(t.step(Reply::Refused), Action::Ask(Stage::Confirm));
    assert_eq!(t.step(Reply::Status { is_over: true, is_my_turn: false }), Action::Finish);
    assert_eq!(t.halfmove_number, 2);
}

#[test]
fn a_capture_before_the_first_move_is_an_error() {
    let mut t = Turn::new(Color::White);
    t.step(Reply::Status { is_over: false, is_my_turn: true });
    t.step(Reply::Done);
    assert_eq!(t.step(Reply::Capture(Some(Square(8)))), Action::Fail);
}

#[test]
fn black_hears_of_captures_from_its_first_turn() {
    let mut t = Turn::new(Color::Black);
    assert_eq!(t.halfmove_number, 1);
    t.step(Reply::Status { is_over: false, is_my_turn: true });
    t.step(Reply::Done);
    assert_eq!(t.step(Reply::Capture(None)), Action::Opponent(None));
}

#[test]
fn a_refusal_while_the_game_goes_on_is_an_error() {
    let mut t = Turn::new(Color::White);
    t.step(Reply::Status { is_over: false, is_my_turn: true });
    assert_eq!(t.step(Reply::Refused), Action::Ask(Stage::Confirm));
    assert_eq!(t.step(Reply::Status { is_over: false, is_my_turn: true }), Action::Fail);
    let mut u = Turn::new(Color::White);
    u.step(Reply::Status { is_over: false, is_my_turn: true });
    assert_eq!(u.step(Reply::Failed), Action::Fail);
    let mut v = Turn::new(Color::White);
    assert_eq!(v.step(Reply::Status { is_over: true, is_my_turn: false }), Action::Finish);
}

#[test]
fn outcomes_and_summaries() {
    assert_eq!(outcome(None, Color::White), "draw");
    assert_eq!(outcome(Some(Color::Black), Color::Black), "won");
    assert_eq!(outcome(Some(Color::White), Color::Black), "lost");
    assert_eq!(summary_line(42, "won", "bot", "KING_CAPTURE"), "42: won against bot (KING_CAPTURE)");
    assert_eq!(summary_line(-3, "draw", "x", "TIMEOUT"), "-3: draw against x (TIMEOUT)");
}

#[test]
fn uci_texts_are_parsed_or_refused() {
    assert_eq!(Move::parse_uci("e2e4"), Some(Move::from_uci("e2e4")));
    assert_eq!(Move::parse_uci("a7a8q"), Some(Move::from_uci("a7a8q")));
    assert_eq!(Move::parse_uci("a1a1"), Some(Move::from_uci("a1a1")));
    assert_eq!(Move::parse_uci("e2e9"), None);
    assert_eq!(Move::parse_uci("e2e4x"), None);
    assert_eq!(Move::parse_uci("i2e4"), None);
    assert_eq!(Move::parse_uci("e2"), None);
}
