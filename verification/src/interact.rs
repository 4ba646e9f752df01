use vstd::prelude::*;
use crate::game::{Color, Square};
use crate::text::push_str;
use crate::stats::{push_signed, signed_decimal};

verus! {

/// The request that the client makes to the game server next.
#[derive(Clone, Copy, PartialEq, Eq, Structural, Debug)]
pub enum Stage {
    /// Ask whether the game is over and whose turn it is.
    Status,
    /// Ask how much time is left.
    Clock,
    /// Ask where the opponent's last move captured.
    OpponentMove,
    /// Sense a square.
    Sense,
    /// Request a move.
    Move,
    /// End the turn.
    EndTurn,
    /// Ask again after a refused request, which is only in order when the
    /// game has ended.
    Confirm,
}

/// What the server answered.
#[derive(Clone, Copy, PartialEq, Eq, Structural, Debug)]
pub enum Reply {
    /// The state of the game.
    Status { is_over: bool, is_my_turn: bool },
    /// Where the opponent's last move captured, if anywhere.
    Capture(Option<Square>),
    /// The request went through.
    Done,
    /// The server refused the request (status 400).
    Refused,
    /// Any other failure.
    Failed,
}

/// What the client does next.
#[derive(Clone, Copy, PartialEq, Eq, Structural, Debug)]
pub enum Action {
    /// Make the request of this stage.
    Ask(Stage),
    /// Wait a second, then ask for the state of the game.
    Pause,
    /// Tell the player where the opponent captured, then sense.
    Opponent(Option<Square>),
    /// The game is over: read its history.
    Finish,
    /// Give up: the server answered what it should not have.
    Fail,
}

/// Where a game stands for the client: the request made last and the
/// number of the half move that it plays next (0 or 1 at the start, by
/// color, then two more after each turn).
#[derive(Clone, Copy, PartialEq, Eq, Structural, Debug)]
pub struct Turn {
    pub stage: Stage,
    pub halfmove_number: i32,
}

/// The stage that an action asks for next, where it asks for one.
pub open spec fn next_stage(a: Action, old_stage: Stage) -> Stage {
    match a {
        Action::Ask(s) => s,
        Action::Pause => Stage::Status,
        Action::Opponent(_) => Stage::Sense,
        _ => old_stage,
    }
}

/// What follows a reply to the request of `stage`, the client playing half
/// move `halfmove_number` next.
pub open spec fn step_action(stage: Stage, halfmove_number: int, reply: Reply) -> Action {
    match stage {
        Stage::Status => match reply {
            Reply::Status { is_over, is_my_turn } => if is_over {
                Action::Finish
            } else if is_my_turn {
                Action::Ask(Stage::Clock)
            } else {
                Action::Pause
            },
            _ => Action::Fail,
        },
        Stage::Confirm => match reply {
            Reply::Status { is_over, is_my_turn } => if is_over {
                Action::Finish
            } else {
                Action::Fail
            },
            _ => Action::Fail,
        },
        _ => match reply {
            Reply::Refused => Action::Ask(Stage::Confirm),
            Reply::Failed => Action::Fail,
            Reply::Status { .. } => Action::Fail,
            Reply::Capture(cs) => if stage == Stage::OpponentMove {
                if halfmove_number > 0 {
                    Action::Opponent(cs)
                } else if cs is None {
                    Action::Ask(Stage::Sense)
                } else {
                    Action::Fail
                }
            } else {
                Action::Fail
            },
            Reply::Done => match stage {
                Stage::Clock => Action::Ask(Stage::OpponentMove),
                Stage::Sense => Action::Ask(Stage::Move),
                Stage::Move => Action::Ask(Stage::EndTurn),
                Stage::EndTurn => Action::Pause,
                _ => Action::Fail,
            },
        },
    }
}

impl Turn {
    /// The start of a game played with `color`: white plays half move 0,
    /// black half move 1; the first request asks for the state of the game.
    pub fn new(color: Color) -> (t: Turn)
        ensures
            t.stage == Stage::Status,
            t.halfmove_number == match color {
                Color::White => 0int,
                Color::Black => 1int,
            },
    {
        Turn {
            stage: Stage::Status,
            halfmove_number: match color {
                Color::White => 0,
                Color::Black => 1,
            },
        }
    }

    /// Takes in the reply to the request of the current stage and decides
    /// what to do next: the game's state is polled until it is the client's
    /// turn; a turn asks the clock, the opponent's capture (which the player
    /// hears of from its second turn on, and which must be none on its
    /// first), a sense, a move, and ends; a refused request is only in
    /// order once the game is over, which the next status must show.
    pub fn step(&mut self, reply: Reply) -> (a: Action)
        requires
            old(self).halfmove_number <= i32::MAX - 2,
        ensures
            a == step_action(old(self).stage, old(self).halfmove_number as int, reply),
            final(self).stage == next_stage(a, old(self).stage),
            final(self).halfmove_number == if old(self).stage == Stage::EndTurn && reply == Reply::Done {
                old(self).halfmove_number + 2
            } else {
                old(self).halfmove_number as int
            },
    {
        let a = match self.stage {
            Stage::Status => match reply {
                Reply::Status { is_over, is_my_turn } => {
                    if is_over {
                        Action::Finish
                    } else if is_my_turn {
                        Action::Ask(Stage::Clock)
                    } else {
                        Action::Pause
                    }
                },
                _ => Action::Fail,
            },
            Stage::Confirm => match reply {
                Reply::Status { is_over, is_my_turn: _ } => {
                    if is_over {
                        Action::Finish
                    } else {
                        Action::Fail
                    }
                },
                _ => Action::Fail,
            },
            stage => match reply {
                Reply::Refused => Action::Ask(Stage::Confirm),
                Reply::Failed => Action::Fail,
                Reply::Status { .. } => Action::Fail,
                Reply::Capture(cs) => {
                    if stage == Stage::OpponentMove {
                        if self.halfmove_number > 0 {
                            Action::Opponent(cs)
                        } else if cs.is_none() {
                            Action::Ask(Stage::Sense)
                        } else {
                            Action::Fail
                        }
                    } else {
                        Action::Fail
                    }
                },
                Reply::Done => match stage {
                    Stage::Clock => Action::Ask(Stage::OpponentMove),
                    Stage::Sense => Action::Ask(Stage::Move),
                    Stage::Move => Action::Ask(Stage::EndTurn),
                    Stage::EndTurn => {
                        self.halfmove_number = self.halfmove_number + 2;
                        Action::Pause
                    },
                    _ => Action::Fail,
                },
            },
        };
        match a {
            Action::Ask(s) => {
                self.stage = s;
            },
            Action::Pause => {
                self.stage = Stage::Status;
            },
            Action::Opponent(_) => {
                self.stage = Stage::Sense;
            },
            _ => {},
        }
        a
    }
}

/// How a finished game ended for the side that played `color`.
pub open spec fn outcome_word(winner: Option<Color>, color: Color) -> Seq<char> {
    match winner {
        None => "draw"@,
        Some(c) => if c == color {
            "won"@
        } else {
            "lost"@
        },
    }
}

/// How a finished game ended for the side that played `color`: "draw",
/// "won" or "lost".
pub fn outcome(winner: Option<Color>, color: Color) -> (r: &'static str)
    ensures
        r@ == outcome_word(winner, color),
{
    match winner {
        None => "draw",
        Some(c) => {
            if c == color {
                "won"
            } else {
                "lost"
            }
        },
    }
}

/// The line that sums up a finished game: its number, how it ended, the
/// opponent and why it ended.
pub fn summary_line(game_id: i32, outcome: &str, opponent: &str, reason: &str) -> (r: String)
    ensures
        r@ == signed_decimal(game_id as int) + ": "@ + outcome@ + " against "@ + opponent@ + " ("@ + reason@ + ")"@,
{
    let mut r = String::new();
    push_signed(&mut r, game_id as i64);
    push_str(&mut r, ": ");
    push_str(&mut r, outcome);
    push_str(&mut r, " against ");
    push_str(&mut r, opponent);
    push_str(&mut r, " (");
    push_str(&mut r, reason);
    push_str(&mut r, ")");
    r
}

} // verus!
