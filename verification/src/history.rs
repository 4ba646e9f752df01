use vstd::prelude::*;
use crate::game::{Square, Color, Piece};

verus! {

/// One turn of a finished game: the sense and what it showed, the move
/// asked for and the move made (in UCI), the square of the piece taken,
/// and the positions before and after the move (in FEN).
pub struct MoveHistory {
    pub sense: Option<Square>,
    pub sense_result: Vec<(Square, Option<Piece>)>,
    pub requested_move: Option<String>,
    pub taken_move: Option<String>,
    pub capture_square: Option<Square>,
    pub fen_before: String,
    pub fen_after: String,
}

/// A finished game: the players, the winner (`None` for a draw), why the
/// game ended, and every turn, white's first.
pub struct GameHistory {
    pub white_name: String,
    pub black_name: String,
    pub winner_color: Option<Color>,
    pub win_reason: String,
    pub moves: Vec<MoveHistory>,
}

/// What one side did over a game, one entry per turn in each list.
pub struct SideHistory {
    pub senses: Vec<Option<Square>>,
    pub sense_results: Vec<Vec<(Square, Option<Piece>)>>,
    pub requested_moves: Vec<Option<String>>,
    pub taken_moves: Vec<Option<String>>,
    pub capture_squares: Vec<Option<Square>>,
    pub fens_before_move: Vec<String>,
    pub fens_after_move: Vec<String>,
}

/// `y` is `x` or one more: a side may have sensed and then resigned or
/// run out of time before moving.
pub open spec fn same_or_one_more(x: nat, y: nat) -> bool {
    x == y || x + 1 == y
}

/// The view of an optional text.
pub open spec fn opt_text(t: Option<String>) -> Option<Seq<char>> {
    match t {
        Some(s) => Some(s@),
        None => None,
    }
}

impl SideHistory {
    /// The number of moves the side made.
    pub open spec fn turns(self) -> nat {
        self.taken_moves@.len()
    }

    /// Every list has an entry per move made, the senses and what they
    /// showed possibly one more.
    pub open spec fn consistent(self) -> bool {
        &&& same_or_one_more(self.turns(), self.senses@.len())
        &&& same_or_one_more(self.turns(), self.sense_results@.len())
        &&& self.requested_moves@.len() == self.turns()
        &&& self.capture_squares@.len() == self.turns()
        &&& self.fens_before_move@.len() == self.turns()
        &&& self.fens_after_move@.len() == self.turns()
    }

    /// Whether the lists agree in length as `consistent` asks.
    pub fn is_consistent(&self) -> (r: bool)
        ensures
            r == self.consistent(),
    {
        let n = self.taken_moves.len();
        let ok = |m: usize| -> (b: bool)
            ensures
                b == same_or_one_more(n as nat, m as nat),
            { m == n || (n < usize::MAX && m == n + 1) };
        ok(self.senses.len()) && ok(self.sense_results.len()) && self.requested_moves.len() == n
            && self.capture_squares.len() == n && self.fens_before_move.len() == n && self.fens_after_move.len() == n
    }

    /// Turn `k` of the side is recorded in `m`.
    pub open spec fn recorded(self, k: int, m: MoveHistory) -> bool {
        &&& m.sense == self.senses@[k]
        &&& m.sense_result@ == self.sense_results@[k]@
        &&& opt_text(m.requested_move) == opt_text(self.requested_moves@[k])
        &&& opt_text(m.taken_move) == opt_text(self.taken_moves@[k])
        &&& m.capture_square == self.capture_squares@[k]
        &&& m.fen_before@ == self.fens_before_move@[k]@
        &&& m.fen_after@ == self.fens_after_move@[k]@
    }
}

/// A copy of an optional text.
fn copy_text(t: &Option<String>) -> (r: Option<String>)
    ensures
        opt_text(r) == opt_text(*t),
{
    match t {
        Some(s) => Some(s.clone()),
        None => None,
    }
}

/// A copy of what a sense showed.
fn copy_sense(v: &Vec<(Square, Option<Piece>)>) -> (r: Vec<(Square, Option<Piece>)>)
    ensures
        r@ == v@,
{
    let mut r: Vec<(Square, Option<Piece>)> = Vec::new();
    let mut i: usize = 0;
    while i < v.len()
        invariant
            0 <= i <= v.len(),
            r@ == v@.take(i as int),
        decreases v.len() - i,
    {
        r.push(v[i]);
        assert(r@ =~= v@.take(i + 1));
        i = i + 1;
    }
    assert(v@.take(v@.len() as int) =~= v@);
    r
}

/// The record of turn `k` of the side.
fn turn_record(side: &SideHistory, k: usize) -> (m: MoveHistory)
    requires
        side.consistent(),
        k < side.turns(),
    ensures
        side.recorded(k as int, m),
{
    MoveHistory {
        sense: side.senses[k],
        sense_result: copy_sense(&side.sense_results[k]),
        requested_move: copy_text(&side.requested_moves[k]),
        taken_move: copy_text(&side.taken_moves[k]),
        capture_square: side.capture_squares[k],
        fen_before: side.fens_before_move[k].clone(),
        fen_after: side.fens_after_move[k].clone(),
    }
}

impl GameHistory {
    /// The game from what each side did: white's turns and black's in
    /// turn, white's first.
    pub fn from_sides(
        white_name: String,
        black_name: String,
        winner_color: Option<Color>,
        win_reason: String,
        white: &SideHistory,
        black: &SideHistory,
    ) -> (h: GameHistory)
        requires
            white.consistent(),
            black.consistent(),
            same_or_one_more(black.turns(), white.turns()),
        ensures
            h.white_name@ == white_name@,
            h.black_name@ == black_name@,
            h.winner_color == winner_color,
            h.win_reason@ == win_reason@,
            h.moves@.len() == white.turns() + black.turns(),
            forall|i: int|
                0 <= i < h.moves@.len() ==> if i % 2 == 0 {
                    white.recorded(i / 2, #[trigger] h.moves@[i])
                } else {
                    black.recorded(i / 2, h.moves@[i])
                },
    {
        let mut moves: Vec<MoveHistory> = Vec::new();
        let mut k: usize = 0;
        while k < white.taken_moves.len()
            invariant
                white.consistent(),
                black.consistent(),
                same_or_one_more(black.turns(), white.turns()),
                0 <= k <= white.turns(),
                k <= black.turns() + 1,
                moves@.len() == k + if k <= black.turns() { k as int } else { black.turns() as int },
                forall|j: int|
                    0 <= j < moves@.len() ==> if j % 2 == 0 {
                        white.recorded(j / 2, #[trigger] moves@[j])
                    } else {
                        black.recorded(j / 2, moves@[j])
                    },
            decreases white.turns() - k,
        {
            moves.push(turn_record(white, k));
            if k < black.taken_moves.len() {
                moves.push(turn_record(black, k));
            }
            k = k + 1;
        }
        GameHistory { white_name, black_name, winner_color, win_reason, moves }
    }
}

} // verus!
