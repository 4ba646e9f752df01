use vstd::prelude::*;
use crate::game::{Square, Color, Piece, Move, BoardState, fogged, sense_squares, lemma_small_bits, lemma_board_determined, piece_code, piece_of_code, WHITE_TO_PLAY};
use crate::text::{digit_char, spaces, decimal, digit, push_char, push_str, push_spaces, push_decimal};
use crate::moves::{replay, listed, fog_rights, lost_rights, castle_mask, lemma_turn_flips};
use crate::obs::{NullObs, lemma_null_steps_ok};
use crate::notation::is_initial;

verus! {

/// What one side knows of the game: its own view of the board, and every
/// position of the whole board that agrees with all it has seen.
pub struct Infoset {
    pub color: Color,
    pub fog_state: BoardState,
    pub possible_states: Vec<BoardState>,
}

/// `t` is the board that `s` becomes when `m` is played on it (`None`
/// passes).
#[verifier::opaque]
pub open spec fn played(s: BoardState, m: Option<Move>, t: BoardState) -> bool {
    &&& t.wf()
    &&& t.squares() == replay(s.squares(), s.move_writes(m))
    &&& t.flags.bits == s.flags_after(m)
    &&& t.en_passant_square == s.ep_after(m)
}

/// `fog` is what side `color` sees of `s`: its own pieces, every castling
/// right of the other side, no en passant square.
pub open spec fn fog_view(fog: BoardState, s: BoardState, color: Color) -> bool {
    &&& fog.wf()
    &&& fog.squares() == fogged(s.squares(), color)
    &&& fog.flags.bits == s.flags.bits | fog_rights(color)
    &&& fog.en_passant_square is None
}

/// On `s`, the side to play can make the move `m` (a listed move, or a
/// pass), and it takes a piece on `capture_square` exactly when `m` does.
#[verifier::opaque]
pub open spec fn opponent_option(s: BoardState, m: Option<Move>, capture_square: Option<Square>) -> bool {
    &&& s.all_moves_ok()
    &&& match m {
        None => true,
        Some(mv) => listed(s, mv),
    }
    &&& s.move_ok(m)
    &&& s.capture_after(m) == capture_square
}

/// The move that the request `requested` makes on `s` (`None` passes).
pub open spec fn taken_on(s: BoardState, requested: Option<Move>) -> Option<Move> {
    match requested {
        None => None,
        Some(r) => s.taken(r),
    }
}

/// `s` agrees with one's own move: the request turns into `taken_move` on
/// it, and that move takes a piece on `capture_square`.
#[verifier::opaque]
pub open spec fn own_move_fits(
    s: BoardState,
    requested: Option<Move>,
    taken_move: Option<Move>,
    capture_square: Option<Square>,
) -> bool {
    &&& match requested {
        None => true,
        Some(r) => s.taken_ok(r),
    }
    &&& taken_on(s, requested) == taken_move
    &&& s.move_ok(taken_move)
    &&& s.capture_after(taken_move) == capture_square
}

/// What a sense centered on `p` shows of `s`.
pub open spec fn sense_view(s: BoardState, p: Square) -> Seq<(Square, Option<Piece>)> {
    sense_squares(p).map_values(|q: Square| (q, s.at(q.0 as int)))
}

/// The fog view after an unseen move of the other side that took a piece
/// on `capture_square`, if any.
pub open spec fn fog_after_capture(f0: BoardState, capture_square: Option<Square>, f1: BoardState) -> bool {
    &&& f1.wf()
    &&& f1.en_passant_square == f0.en_passant_square
    &&& match capture_square {
        None => {
            &&& f1.squares() == f0.squares()
            &&& f1.flags.bits == f0.flags.bits ^ WHITE_TO_PLAY
        },
        Some(sq) => {
            &&& f1.squares() == f0.squares().update(sq.0 as int, None)
            &&& f1.flags.bits == (f0.flags.bits ^ WHITE_TO_PLAY) & !lost_rights(f0.turn().other(), sq.0)
        },
    }
}

/// `b` begins with the boards of `a`.
pub open spec fn extends(a: Seq<BoardState>, b: Seq<BoardState>) -> bool {
    &&& a.len() <= b.len()
    &&& forall|k: int| 0 <= k < a.len() ==> #[trigger] b[k] == a[k]
}

/// No board occurs twice.
pub open spec fn distinct(v: Seq<BoardState>) -> bool {
    forall|i: int, j: int| 0 <= i < j < v.len() ==> v[i] != v[j]
}

/// Every board is well formed, with side `turn` to play.
pub open spec fn all_to_play(v: Seq<BoardState>, turn: Color) -> bool {
    forall|i: int| #![trigger v[i]] 0 <= i < v.len() ==> v[i].wf() && v[i].turn() == turn
}

/// Playing a move or passing hands the turn to the other side.
pub proof fn lemma_played_turn(s: BoardState, m: Option<Move>, t: BoardState)
    requires
        played(s, m, t),
    ensures
        t.turn() == s.turn().other(),
{
    reveal(played);
    match m {
        None => lemma_turn_flips(s.flags.bits, 0, 0, 0),
        Some(mv) => lemma_turn_flips(s.flags.bits, mv.from.0, mv.to.0, 0),
    }
}

/// The parts of an option of the side to play make the option.
proof fn lemma_option_intro(s: BoardState, m: Option<Move>, capture_square: Option<Square>)
    requires
        s.all_moves_ok(),
        match m {
            None => true,
            Some(mv) => listed(s, mv),
        },
        s.move_ok(m),
        s.capture_after(m) == capture_square,
    ensures
        opponent_option(s, m, capture_square),
{
    reveal(opponent_option);
}

/// An option of the side to play is made of its parts.
proof fn lemma_option_elim(s: BoardState, m: Option<Move>, capture_square: Option<Square>)
    requires
        opponent_option(s, m, capture_square),
    ensures
        s.all_moves_ok(),
        match m {
            None => true,
            Some(mv) => listed(s, mv),
        },
        s.move_ok(m),
        s.capture_after(m) == capture_square,
{
    reveal(opponent_option);
}

/// Whether `v` holds `x`.
fn contains_board(v: &Vec<BoardState>, x: &BoardState) -> (r: bool)
    ensures
        r == v@.contains(*x),
{
    let mut i: usize = 0;
    while i < v.len()
        invariant
            0 <= i <= v.len(),
            forall|k: int| 0 <= k < i ==> v@[k] != *x,
        decreases v.len() - i,
    {
        if v[i] == *x {
            return true;
        }
        i = i + 1;
    }
    false
}

/// The boards of `v`, each once, in the order of their first occurrence.
fn dedup_boards(v: Vec<BoardState>) -> (r: Vec<BoardState>)
    ensures
        distinct(r@),
        forall|t: BoardState| #[trigger] r@.contains(t) <==> v@.contains(t),
{
    let mut r: Vec<BoardState> = Vec::new();
    let mut i: usize = 0;
    while i < v.len()
        invariant
            0 <= i <= v.len(),
            distinct(r@),
            forall|t: BoardState| #[trigger] r@.contains(t) <==> exists|k: int| 0 <= k < i && v@[k] == t,
        decreases v.len() - i,
    {
        let x = v[i].clone();
        let ghost prev = r@;
        if !contains_board(&r, &x) {
            r.push(x);
            proof {
                assert forall|a: int, b: int| 0 <= a < b < r@.len() implies r@[a] != r@[b] by {
                    if b == r@.len() - 1 && r@[a] == r@[b] {
                        assert(prev.contains(x));
                    }
                }
            }
        }
        proof {
            assert forall|t: BoardState| #[trigger] r@.contains(t) <==> exists|k: int| 0 <= k < i + 1 && v@[k] == t by {
                if r@.contains(t) && !prev.contains(t) {
                    assert(t == x);
                    assert(v@[i as int] == t);
                }
                if prev.contains(t) {
                    let k = choose|k: int| 0 <= k < i && v@[k] == t;
                    assert(0 <= k < i + 1 && v@[k] == t);
                }
                if exists|k: int| 0 <= k < i + 1 && v@[k] == t {
                    let k = choose|k: int| 0 <= k < i + 1 && v@[k] == t;
                    if k < i {
                        assert(prev.contains(t));
                        let j = choose|j: int| 0 <= j < prev.len() && prev[j] == t;
                        assert(r@[j] == t);
                    } else if prev.contains(t) {
                        let j = choose|j: int| 0 <= j < prev.len() && prev[j] == t;
                        assert(r@[j] == t);
                    } else {
                        assert(r@[r@.len() - 1] == t);
                    }
                }
            }
        }
        i = i + 1;
    }
    proof {
        assert forall|t: BoardState| #[trigger] r@.contains(t) <==> v@.contains(t) by {
            if v@.contains(t) {
                let k = choose|k: int| 0 <= k < v@.len() && v@[k] == t;
                assert(exists|k: int| 0 <= k < i && v@[k] == t);
            }
        }
    }
    r
}

/// Plays `m` on a copy of `s` and adds the result to `out` if the move can
/// be made and takes a piece on `capture_square` exactly when it does.
fn try_move(s: &BoardState, m: Option<Move>, capture_square: Option<Square>, out: &mut Vec<BoardState>)
    requires
        s.wf(),
    ensures
        extends(old(out)@, final(out)@),
        if s.move_ok(m) && s.capture_after(m) == capture_square {
            &&& final(out)@.len() == old(out)@.len() + 1
            &&& played(*s, m, final(out)@.last())
        } else {
            final(out)@.len() == old(out)@.len()
        },
{
    if s.can_make_move(m) {
        let mut t = s.clone();
        let mut null = NullObs;
        proof {
            lemma_null_steps_ok(s.move_edits(m));
        }
        let c = t.make_move(m, &mut null);
        if c == capture_square {
            let ghost prev = out@;
            out.push(t);
            proof {
                reveal(played);
            }
        }
    }
}

/// `t` is a board that an option of the side to play on `s` makes.
pub open spec fn option_result(s: BoardState, capture_square: Option<Square>, t: BoardState) -> bool {
    exists|m: Option<Move>| #[trigger] opponent_option(s, m, capture_square) && played(s, m, t)
}

/// From index `lo` on, `v` holds the board that `m` makes of `s`.
pub open spec fn holds_result(v: Seq<BoardState>, lo: int, s: BoardState, m: Option<Move>) -> bool {
    exists|k: int| lo <= k < v.len() && played(s, m, #[trigger] v[k])
}

/// `t` is a board that an option makes of one of the first `n` boards of
/// `states`.
pub open spec fn gathered_from(states: Seq<BoardState>, n: int, capture_square: Option<Square>, t: BoardState) -> bool {
    exists|j: int| 0 <= j < n && #[trigger] option_result(states[j], capture_square, t)
}

/// A board held by a sequence is held by every sequence that extends it.
proof fn lemma_holds_extends(a: Seq<BoardState>, b: Seq<BoardState>, lo: int, s: BoardState, m: Option<Move>)
    requires
        0 <= lo,
        extends(a, b),
        holds_result(a, lo, s, m),
    ensures
        holds_result(b, lo, s, m),
{
    let k = choose|k: int| lo <= k < a.len() && played(s, m, #[trigger] a[k]);
    assert(b[k] == a[k]);
}

/// Adds to `out` every board that the side to play on `s` can reach with
/// one move or a pass that takes a piece on `capture_square` exactly when
/// it does.
fn opponent_successors(s: &BoardState, capture_square: Option<Square>, out: &mut Vec<BoardState>)
    requires
        s.wf(),
    ensures
        extends(old(out)@, final(out)@),
        forall|k: int|
            old(out)@.len() <= k < final(out)@.len() ==> #[trigger] option_result(*s, capture_square, final(out)@[k]),
        forall|m: Option<Move>|
            #[trigger] opponent_option(*s, m, capture_square) ==> holds_result(final(out)@, old(out)@.len() as int, *s, m),
{
    let ghost start = out@.len() as int;
    let ghost out0 = out@;
    if !s.can_list_moves() {
        proof {
            assert forall|m: Option<Move>| !#[trigger] opponent_option(*s, m, capture_square) by {
                if opponent_option(*s, m, capture_square) {
                    lemma_option_elim(*s, m, capture_square);
                }
            }
        }
        return;
    }
    let moves = s.all_moves();
    try_move(s, None, capture_square, out);
    proof {
        if s.move_ok(None) && s.capture_after(None) == capture_square {
            lemma_option_intro(*s, None, capture_square);
            let j = out@.len() - 1;
            assert(out@[j] == out@.last());
            assert(option_result(*s, capture_square, out@[j]));
            assert(holds_result(out@, start, *s, None));
        }
    }
    let mut k: usize = 0;
    while k < moves.len()
        invariant
            s.wf(),
            s.all_moves_ok(),
            forall|mv: Move| #[trigger] moves@.contains(mv) <==> listed(*s, mv),
            0 <= k <= moves.len(),
            start == out0.len(),
            extends(out0, out@),
            forall|j: int| start <= j < out@.len() ==> #[trigger] option_result(*s, capture_square, out@[j]),
            s.move_ok(None) && s.capture_after(None) == capture_square ==> holds_result(out@, start, *s, None),
            forall|i: int|
                0 <= i < k && s.move_ok(Some(moves@[i])) && s.capture_after(Some(moves@[i])) == capture_square
                    ==> #[trigger] holds_result(out@, start, *s, Some(moves@[i])),
        decreases moves.len() - k,
    {
        let mv = moves[k];
        let ghost prev = out@;
        try_move(s, Some(mv), capture_square, out);
        proof {
            assert(moves@.contains(mv));
            assert forall|j: int| start <= j < out@.len() implies #[trigger] option_result(*s, capture_square, out@[j]) by {
                if j < prev.len() {
                    assert(out@[j] == prev[j]);
                } else {
                    lemma_option_intro(*s, Some(mv), capture_square);
                    assert(out@[j] == out@.last());
                }
            }
            if s.move_ok(None) && s.capture_after(None) == capture_square {
                lemma_holds_extends(prev, out@, start, *s, None);
            }
            assert forall|i: int|
                0 <= i < k + 1 && s.move_ok(Some(moves@[i])) && s.capture_after(Some(moves@[i])) == capture_square
                    implies #[trigger] holds_result(out@, start, *s, Some(moves@[i])) by {
                if i < k {
                    lemma_holds_extends(prev, out@, start, *s, Some(moves@[i]));
                } else {
                    let j = out@.len() - 1;
                    assert(out@[j] == out@.last());
                }
            }
            assert(extends(out0, out@)) by {
                assert forall|j: int| 0 <= j < out0.len() implies #[trigger] out@[j] == out0[j] by {
                    assert(prev[j] == out0[j]);
                }
            }
        }
        k = k + 1;
    }
    proof {
        assert forall|m: Option<Move>| #[trigger] opponent_option(*s, m, capture_square) implies holds_result(
            out@,
            start,
            *s,
            m,
        ) by {
            lemma_option_elim(*s, m, capture_square);
            match m {
                None => {},
                Some(mv) => {
                    assert(moves@.contains(mv));
                    let i = choose|i: int| 0 <= i < moves@.len() && moves@[i] == mv;
                    assert(s.move_ok(Some(moves@[i])));
                },
            }
        }
    }
}

/// The boards gathered from every possible board, each once, are the
/// boards that the options of the side to play make.
proof fn lemma_gathered(
    states: Seq<BoardState>,
    next: Seq<BoardState>,
    deduped: Seq<BoardState>,
    capture_square: Option<Square>,
    turn: Color,
)
    requires
        all_to_play(states, turn),
        forall|k: int| 0 <= k < next.len() ==> #[trigger] gathered_from(states, states.len() as int, capture_square, next[k]),
        forall|j: int, m: Option<Move>|
            0 <= j < states.len() && #[trigger] opponent_option(states[j], m, capture_square) ==> holds_result(
                next,
                0,
                states[j],
                m,
            ),
        forall|t: BoardState| #[trigger] deduped.contains(t) <==> next.contains(t),
    ensures
        all_to_play(deduped, turn.other()),
        forall|t: BoardState|
            #[trigger] deduped.contains(t) ==> exists|s: BoardState, m: Option<Move>|
                states.contains(s) && #[trigger] opponent_option(s, m, capture_square) && played(s, m, t),
        forall|s: BoardState, m: Option<Move>|
            states.contains(s) && #[trigger] opponent_option(s, m, capture_square) ==> exists|t: BoardState|
                #[trigger] deduped.contains(t) && played(s, m, t),
{
    assert forall|t: BoardState| #[trigger] deduped.contains(t) implies exists|s: BoardState, m: Option<Move>|
        states.contains(s) && #[trigger] opponent_option(s, m, capture_square) && played(s, m, t) by {
        let k = choose|k: int| 0 <= k < next.len() && next[k] == t;
        assert(gathered_from(states, states.len() as int, capture_square, next[k]));
        let j = choose|j: int| 0 <= j < states.len() && #[trigger] option_result(states[j], capture_square, t);
        let m = choose|m: Option<Move>| #[trigger] opponent_option(states[j], m, capture_square) && played(states[j], m, t);
        assert(states.contains(states[j]));
    }
    assert forall|s: BoardState, m: Option<Move>|
        states.contains(s) && #[trigger] opponent_option(s, m, capture_square) implies exists|t: BoardState|
            #[trigger] deduped.contains(t) && played(s, m, t) by {
        let j = choose|j: int| 0 <= j < states.len() && states[j] == s;
        assert(holds_result(next, 0, states[j], m));
        let k = choose|k: int| 0 <= k < next.len() && played(states[j], m, #[trigger] next[k]);
        assert(next.contains(next[k]));
        assert(deduped.contains(next[k]));
    }
    assert forall|k: int| #![trigger deduped[k]] 0 <= k < deduped.len() implies deduped[k].wf() && deduped[k].turn() == turn.other() by {
        let t = deduped[k];
        assert(deduped.contains(t));
        let (s, m) = choose|s: BoardState, m: Option<Move>|
            states.contains(s) && #[trigger] opponent_option(s, m, capture_square) && played(s, m, t);
        lemma_played_turn(s, m, t);
        let j = choose|j: int| 0 <= j < states.len() && states[j] == s;
        assert(states[j].turn() == turn);
        reveal(played);
    }
}

/// `t` is the board that one's own move makes of one of the first `n`
/// boards of `states` that agree with it.
pub open spec fn own_result(
    states: Seq<BoardState>,
    n: int,
    requested: Option<Move>,
    taken_move: Option<Move>,
    capture_square: Option<Square>,
    t: BoardState,
) -> bool {
    exists|j: int|
        0 <= j < n && #[trigger] own_move_fits(states[j], requested, taken_move, capture_square) && played(
            states[j],
            taken_move,
            t,
        )
}

/// Adds to `out` the board that one's own move makes of `s`, if `s`
/// agrees with it.
fn own_successor(
    s: &BoardState,
    requested: Option<Move>,
    taken_move: Option<Move>,
    capture_square: Option<Square>,
    out: &mut Vec<BoardState>,
)
    requires
        s.wf(),
    ensures
        extends(old(out)@, final(out)@),
        if own_move_fits(*s, requested, taken_move, capture_square) {
            &&& final(out)@.len() == old(out)@.len() + 1
            &&& played(*s, taken_move, final(out)@.last())
        } else {
            final(out)@.len() == old(out)@.len()
        },
{
    proof {
        reveal(own_move_fits);
    }
    let t = match requested {
        None => None,
        Some(r) => {
            if !s.can_take(r) {
                return;
            }
            s.requested_to_taken(r)
        },
    };
    if t == taken_move {
        try_move(s, taken_move, capture_square, out);
    }
}

/// The boards kept from every possible board, each once, are the boards
/// that one's own move makes of the boards that agree with it.
proof fn lemma_kept(
    states: Seq<BoardState>,
    next: Seq<BoardState>,
    deduped: Seq<BoardState>,
    requested: Option<Move>,
    taken_move: Option<Move>,
    capture_square: Option<Square>,
    turn: Color,
)
    requires
        all_to_play(states, turn),
        forall|k: int|
            0 <= k < next.len() ==> #[trigger] own_result(
                states,
                states.len() as int,
                requested,
                taken_move,
                capture_square,
                next[k],
            ),
        forall|j: int|
            0 <= j < states.len() && #[trigger] own_move_fits(states[j], requested, taken_move, capture_square)
                ==> holds_result(next, 0, states[j], taken_move),
        forall|t: BoardState| #[trigger] deduped.contains(t) <==> next.contains(t),
    ensures
        all_to_play(deduped, turn.other()),
        forall|t: BoardState|
            #[trigger] deduped.contains(t) ==> exists|s: BoardState|
                states.contains(s) && #[trigger] own_move_fits(s, requested, taken_move, capture_square) && played(
                    s,
                    taken_move,
                    t,
                ),
        forall|s: BoardState|
            states.contains(s) && #[trigger] own_move_fits(s, requested, taken_move, capture_square) ==> exists|
                t: BoardState,
            | #[trigger] deduped.contains(t) && played(s, taken_move, t),
{
    assert forall|t: BoardState| #[trigger] deduped.contains(t) implies exists|s: BoardState|
        states.contains(s) && #[trigger] own_move_fits(s, requested, taken_move, capture_square) && played(
            s,
            taken_move,
            t,
        ) by {
        let k = choose|k: int| 0 <= k < next.len() && next[k] == t;
        assert(own_result(states, states.len() as int, requested, taken_move, capture_square, next[k]));
        let j = choose|j: int|
            0 <= j < states.len() && #[trigger] own_move_fits(states[j], requested, taken_move, capture_square)
                && played(states[j], taken_move, t);
        assert(states.contains(states[j]));
    }
    assert forall|s: BoardState|
        states.contains(s) && #[trigger] own_move_fits(s, requested, taken_move, capture_square) implies exists|
            t: BoardState,
        | #[trigger] deduped.contains(t) && played(s, taken_move, t) by {
        let j = choose|j: int| 0 <= j < states.len() && states[j] == s;
        assert(holds_result(next, 0, states[j], taken_move));
        let k = choose|k: int| 0 <= k < next.len() && played(states[j], taken_move, #[trigger] next[k]);
        assert(next.contains(next[k]));
        assert(deduped.contains(next[k]));
    }
    assert forall|k: int| #![trigger deduped[k]] 0 <= k < deduped.len() implies deduped[k].wf() && deduped[k].turn()
        == turn.other() by {
        let t = deduped[k];
        assert(deduped.contains(t));
        let s = choose|s: BoardState|
            states.contains(s) && #[trigger] own_move_fits(s, requested, taken_move, capture_square) && played(
                s,
                taken_move,
                t,
            );
        lemma_played_turn(s, taken_move, t);
        let j = choose|j: int| 0 <= j < states.len() && states[j] == s;
        assert(states[j].turn() == turn);
        reveal(played);
    }
}

/// Whether a sense shows exactly `expected`.
fn same_sense(shown: &Vec<(Square, Option<Piece>)>, expected: &[(Square, Option<Piece>)]) -> (r: bool)
    ensures
        r == (shown@ == expected@),
{
    if shown.len() != expected.len() {
        return false;
    }
    let mut k: usize = 0;
    while k < shown.len()
        invariant
            shown@.len() == expected@.len(),
            0 <= k <= shown.len(),
            forall|j: int| 0 <= j < k ==> shown@[j] == expected@[j],
        decreases shown.len() - k,
    {
        let a = shown[k];
        let b = expected[k];
        if !(a.0 == b.0 && a.1 == b.1) {
            return false;
        }
        k = k + 1;
    }
    assert(shown@ =~= expected@);
    true
}

/// Some board of `v` holds the piece of code `c` (0 for none) on `sq`.
pub open spec fn has_code(v: Seq<BoardState>, sq: int, c: int) -> bool {
    exists|k: int| 0 <= k < v.len() && piece_code(#[trigger] v[k].at(sq)) == c
}

/// The letter of the piece of code `c`, '.' for none.
pub open spec fn code_letter(c: int) -> char {
    match piece_of_code(c as u32) {
        None => '.',
        Some(p) => p.letter(),
    }
}

/// The letters of the codes below `n` that some board of `v` holds on `sq`.
pub open spec fn letters_upto(v: Seq<BoardState>, sq: int, n: nat) -> Seq<char>
    decreases n,
{
    if n == 0 {
        Seq::empty()
    } else {
        letters_upto(v, sq, (n - 1) as nat) + if has_code(v, sq, n - 1) {
            seq![code_letter(n - 1)]
        } else {
            Seq::empty()
        }
    }
}

/// A square of the possibilities board, six columns wide: the letters of
/// what the possible boards hold there, centered, or "???" for seven or
/// more of them.
pub open spec fn cell_text(v: Seq<BoardState>, sq: int) -> Seq<char> {
    let ps = letters_upto(v, sq, 13);
    let t = if ps.len() >= 7 {
        "???"@
    } else {
        ps
    };
    let d = 6 - t.len();
    spaces(d / 2) + t + spaces((d + 1) / 2)
}

/// The first `n` squares of rank `rank`, each after a space.
pub open spec fn cells_upto(v: Seq<BoardState>, rank: int, n: nat) -> Seq<char>
    decreases n,
{
    if n == 0 {
        Seq::empty()
    } else {
        cells_upto(v, rank, (n - 1) as nat) + seq![' '] + cell_text(v, rank * 8 + n - 1)
    }
}

/// The line of rank `rank` (0 for the first) of the possibilities board.
pub open spec fn possibilities_line(v: Seq<BoardState>, rank: int) -> Seq<char> {
    seq![digit_char(rank + 1), ' ', ' '] + cells_upto(v, rank, 8)
}

/// Which codes the boards of `v` hold on each square: entry `13 * sq + c`
/// tells whether some board holds the piece of code `c` on `sq`.
pub(crate) fn codes_seen(v: &Vec<BoardState>) -> (seen: Vec<bool>)
    requires
        forall|k: int| 0 <= k < v@.len() ==> #[trigger] v@[k].wf(),
    ensures
        seen@.len() == 64 * 13,
        forall|sq: int, c: int| 0 <= sq < 64 && 0 <= c < 13 ==> seen@[13 * sq + c] == has_code(v@, sq, c),
{
    let mut seen: Vec<bool> = vec![false; 64 * 13];
    let mut i: usize = 0;
    while i < v.len()
        invariant
            0 <= i <= v.len(),
            seen@.len() == 64 * 13,
            forall|k: int| 0 <= k < v@.len() ==> #[trigger] v@[k].wf(),
            forall|sq: int, c: int|
                0 <= sq < 64 && 0 <= c < 13 ==> #[trigger] seen@[13 * sq + c] == has_code(v@.take(i as int), sq, c),
        decreases v.len() - i,
    {
        let ghost before = seen@;
        let mut sq: usize = 0;
        while sq < 64
            invariant
                0 <= i < v.len(),
                0 <= sq <= 64,
                seen@.len() == 64 * 13,
                v@[i as int].wf(),
                forall|q: int, c: int|
                    0 <= q < 64 && 0 <= c < 13 ==> #[trigger] seen@[13 * q + c] == (before[13 * q + c] || (q < sq
                        && piece_code(v@[i as int].at(q)) == c)),
            decreases 64 - sq,
        {
            let c = Piece::to_int(v[i].get_piece(Square(sq as i8)));
            seen.set(13 * sq + c as usize, true);
            proof {
                assert forall|q: int, c2: int| 0 <= q < 64 && 0 <= c2 < 13 implies #[trigger] seen@[13 * q + c2] == (
                before[13 * q + c2] || (q < sq + 1 && piece_code(v@[i as int].at(q)) == c2)) by {
                    if 13 * q + c2 == 13 * sq + c {
                        assert(q == sq && c2 == c);
                    } else {
                        assert(!(q == sq && c2 == c));
                    }
                }
            }
            sq = sq + 1;
        }
        proof {
            let w = v@.take(i + 1);
            assert forall|q: int, c: int| 0 <= q < 64 && 0 <= c < 13 implies #[trigger] seen@[13 * q + c] == has_code(w, q, c) by {
                if has_code(w, q, c) {
                    let k = choose|k: int| 0 <= k < w.len() && piece_code(#[trigger] w[k].at(q)) == c;
                    if k < i {
                        assert(v@.take(i as int)[k] == w[k]);
                        assert(has_code(v@.take(i as int), q, c));
                    }
                }
                if has_code(v@.take(i as int), q, c) {
                    let k = choose|k: int| 0 <= k < i && piece_code(#[trigger] v@.take(i as int)[k].at(q)) == c;
                    assert(w[k] == v@.take(i as int)[k]);
                }
                if piece_code(v@[i as int].at(q)) == c {
                    assert(w[i as int] == v@[i as int]);
                    assert(piece_code(w[i as int].at(q)) == c);
                }
            }
        }
        i = i + 1;
    }
    assert(v@.take(v@.len() as int) =~= v@);
    seen
}

/// Appends the text of square `sq` of the possibilities board, read from
/// the codes seen on the boards of `v`.
fn push_cell(line: &mut String, seen: &Vec<bool>, Ghost(v): Ghost<Seq<BoardState>>, sq: usize)
    requires
        sq < 64,
        seen@.len() == 64 * 13,
        forall|q: int, c: int| 0 <= q < 64 && 0 <= c < 13 ==> seen@[13 * q + c] == has_code(v, q, c),
    ensures
        final(line)@ == old(line)@ + cell_text(v, sq as int),
{
    let mut ps = String::new();
    let mut c: usize = 0;
    while c < 13
        invariant
            0 <= c <= 13,
            sq < 64,
            seen@.len() == 64 * 13,
            forall|q: int, c: int| 0 <= q < 64 && 0 <= c < 13 ==> seen@[13 * q + c] == has_code(v, q, c),
            ps@ == letters_upto(v, sq as int, c as nat),
            ps@.len() <= c,
        decreases 13 - c,
    {
        if seen[13 * sq + c] {
            let ch = match Piece::from_int(c as u32) {
                None => '.',
                Some(p) => p.to_char(),
            };
            push_char(&mut ps, ch);
        }
        proof {
            assert(seen@[13 * sq + c] == has_code(v, sq as int, c as int));
        }
        c = c + 1;
    }
    let mut n: usize = ps.as_str().unicode_len();
    if n >= 7 {
        ps = String::new();
        push_str(&mut ps, "???");
        proof {
            reveal_strlit("???");
        }
        n = 3;
    }
    let d = 6 - n;
    push_spaces(line, d / 2);
    push_str(line, ps.as_str());
    push_spaces(line, (d + 1) / 2);
    proof {
        reveal_strlit("???");
    }
}

/// `new` is what `opponent_move(capture_square)` makes of `old`: the view
/// loses the piece taken, if any, and the turn passes; the possible boards
/// are, each once, the boards that a move or pass of the other side makes
/// of a possible board, taking a piece exactly on `capture_square`.
pub open spec fn opponent_move_result(old: Infoset, capture_square: Option<Square>, new: Infoset) -> bool {
    &&& new.wf()
    &&& new.color == old.color
    &&& fog_after_capture(old.fog_state, capture_square, new.fog_state)
    &&& distinct(new.possible_states@)
    &&& forall|t: BoardState|
        #[trigger] new.possible_states@.contains(t) ==> exists|s: BoardState, m: Option<Move>|
            old.possible_states@.contains(s) && #[trigger] opponent_option(s, m, capture_square) && played(s, m, t)
    &&& forall|s: BoardState, m: Option<Move>|
        old.possible_states@.contains(s) && #[trigger] opponent_option(s, m, capture_square) ==> exists|t: BoardState|
            #[trigger] new.possible_states@.contains(t) && played(s, m, t)
}

/// `new` is what `my_move(requested, taken_move, capture_square)` makes of
/// `old`: the view plays the move taken; the possible boards are, each
/// once, the boards that the move makes of the possible boards that agree
/// with it.
pub open spec fn my_move_result(
    old: Infoset,
    requested: Option<Move>,
    taken_move: Option<Move>,
    capture_square: Option<Square>,
    new: Infoset,
) -> bool {
    &&& new.wf()
    &&& new.color == old.color
    &&& played(old.fog_state, taken_move, new.fog_state)
    &&& distinct(new.possible_states@)
    &&& forall|t: BoardState|
        #[trigger] new.possible_states@.contains(t) ==> exists|s: BoardState|
            old.possible_states@.contains(s) && #[trigger] own_move_fits(s, requested, taken_move, capture_square)
                && played(s, taken_move, t)
    &&& forall|s: BoardState|
        old.possible_states@.contains(s) && #[trigger] own_move_fits(s, requested, taken_move, capture_square)
            ==> exists|t: BoardState| #[trigger] new.possible_states@.contains(t) && played(s, taken_move, t)
}

/// The board on the table stays possible through the other side's move:
/// if it was possible, and the other side's move or pass took a piece
/// exactly on `capture_square`, the board it made is possible after.
pub proof fn lemma_opponent_move_keeps_truth(
    old: Infoset,
    capture_square: Option<Square>,
    new: Infoset,
    b: BoardState,
    m: Option<Move>,
    b2: BoardState,
)
    requires
        opponent_move_result(old, capture_square, new),
        old.possible_states@.contains(b),
        opponent_option(b, m, capture_square),
        played(b, m, b2),
    ensures
        new.possible_states@.contains(b2),
{
    let t = choose|t: BoardState| #[trigger] new.possible_states@.contains(t) && played(b, m, t);
    reveal(played);
    lemma_board_determined(t, b2);
}

/// The board on the table stays possible through one's own move: if it
/// was possible, and on it the request became `taken_move`, taking a piece
/// exactly on `capture_square`, the board the move made is possible after.
pub proof fn lemma_my_move_keeps_truth(
    old: Infoset,
    requested: Option<Move>,
    taken_move: Option<Move>,
    capture_square: Option<Square>,
    new: Infoset,
    b: BoardState,
    b2: BoardState,
)
    requires
        my_move_result(old, requested, taken_move, capture_square, new),
        old.possible_states@.contains(b),
        own_move_fits(b, requested, taken_move, capture_square),
        played(b, taken_move, b2),
    ensures
        new.possible_states@.contains(b2),
{
    let t = choose|t: BoardState| #[trigger] new.possible_states@.contains(t) && played(b, taken_move, t);
    reveal(played);
    lemma_board_determined(t, b2);
}

/// The board on the table stays possible through a sense: filtering the
/// possible boards by what a sense shows on it keeps it.
pub proof fn lemma_sense_keeps_truth(states: Seq<BoardState>, p: Square, b: BoardState)
    requires
        states.contains(b),
    ensures
        states.filter(|s: BoardState| sense_view(s, p) == sense_view(b, p)).contains(b),
{
    let k = choose|k: int| 0 <= k < states.len() && states[k] == b;
    states.lemma_filter_contains(|s: BoardState| sense_view(s, p) == sense_view(b, p), k);
}

/// What a sense shows narrows the possible boards and never adds one.
pub proof fn lemma_sense_only_narrows(states: Seq<BoardState>, p: Square, result: Seq<(Square, Option<Piece>)>, t: BoardState)
    requires
        states.filter(|s: BoardState| sense_view(s, p) == result).contains(t),
    ensures
        states.contains(t),
        sense_view(t, p) == result,
{
    let pred = |s: BoardState| sense_view(s, p) == result;
    states.lemma_filter_contains_rev(pred, t);
    let k = choose|k: int| 0 <= k < states.filter(pred).len() && states.filter(pred)[k] == t;
    states.lemma_filter_pred(pred, k);
}

impl Infoset {
    /// The boards are well formed, and the side to play is the same on the
    /// view and on every possible board.
    pub open spec fn wf(self) -> bool {
        &&& self.fog_state.wf()
        &&& all_to_play(self.possible_states@, self.fog_state.turn())
    }

    /// What side `color` knows before the first move: the starting
    /// position, and its own view of it.
    pub fn new(color: Color) -> (r: Infoset)
        ensures
            r.wf(),
            r.color == color,
            r.possible_states@.len() == 1,
            is_initial(r.possible_states@[0]),
            fog_view(r.fog_state, r.possible_states@[0], color),
    {
        let start_state = BoardState::initial();
        let mut fog_state = start_state.clone();
        fog_state.fog_of_war(color);
        proof {
            let x = start_state.flags.bits;
            lemma_small_bits(x, 0, 0, 0, 0);
            assert((x | 24u8) & 1u8 == x & 1u8);
            assert((x | 6u8) & 1u8 == x & 1u8);
        }
        let possible_states = vec![start_state];
        Infoset { color, fog_state, possible_states }
    }

    /// Takes in the other side's unseen move, which took one's piece on
    /// `capture_square` if any: every possible board is replaced by the
    /// boards that a move or pass fitting the capture makes of it, each once.
    pub fn opponent_move(&mut self, capture_square: Option<Square>)
        requires
            old(self).wf(),
            old(self).fog_state.turn() != old(self).color,
            match capture_square {
                None => true,
                Some(sq) => sq.valid() && old(self).fog_state.at(sq.0 as int) is Some && old(self).fog_state.at(
                    sq.0 as int,
                ).unwrap().color == old(self).color,
            },
        ensures
            opponent_move_result(*old(self), capture_square, *final(self)),
    {
        let ghost states = self.possible_states@;
        let ghost turn = self.fog_state.turn();
        let mut next: Vec<BoardState> = Vec::new();
        let mut i: usize = 0;
        while i < self.possible_states.len()
            invariant
                self.possible_states@ == states,
                all_to_play(states, turn),
                0 <= i <= states.len(),
                forall|k: int| 0 <= k < next@.len() ==> #[trigger] gathered_from(states, i as int, capture_square, next@[k]),
                forall|j: int, m: Option<Move>|
                    0 <= j < i && #[trigger] opponent_option(states[j], m, capture_square) ==> holds_result(
                        next@,
                        0,
                        states[j],
                        m,
                    ),
            decreases states.len() - i,
        {
            let ghost prev = next@;
            opponent_successors(&self.possible_states[i], capture_square, &mut next);
            proof {
                assert forall|k: int| 0 <= k < next@.len() implies #[trigger] gathered_from(
                    states,
                    i + 1,
                    capture_square,
                    next@[k],
                ) by {
                    if k < prev.len() {
                        assert(next@[k] == prev[k]);
                        assert(gathered_from(states, i as int, capture_square, prev[k]));
                        let j = choose|j: int| 0 <= j < i && #[trigger] option_result(states[j], capture_square, prev[k]);
                    } else {
                        assert(option_result(states[i as int], capture_square, next@[k]));
                    }
                }
                assert forall|j: int, m: Option<Move>|
                    0 <= j < i + 1 && #[trigger] opponent_option(states[j], m, capture_square) implies holds_result(
                        next@,
                        0,
                        states[j],
                        m,
                    ) by {
                    if j < i {
                        lemma_holds_extends(prev, next@, 0, states[j], m);
                    } else {
                        let k = choose|k: int| prev.len() <= k < next@.len() && played(states[j], m, #[trigger] next@[k]);
                    }
                }
            }
            i = i + 1;
        }
        let deduped = dedup_boards(next);
        proof {
            lemma_gathered(states, next@, deduped@, capture_square, turn);
        }
        self.possible_states = deduped;
        self.fog_state.make_move_under_fog(capture_square);
        proof {
            let x = old(self).fog_state.flags.bits;
            match capture_square {
                None => lemma_turn_flips(x, 0, 0, 0),
                Some(sq) => lemma_turn_flips(x, 0, 0, sq.0),
            }
        }
    }

    /// The possibilities board: for each square, from the eighth rank down,
    /// what the possible boards hold there (blank lines between ranks);
    /// then how many boards are possible, then one's own view.
    pub fn render(&self) -> (r: Vec<String>)
        requires
            self.wf(),
        ensures
            r.len() == 26,
            forall|k: int| 0 <= k < 8 ==> #[trigger] r[2 * k]@ == possibilities_line(self.possible_states@, 7 - k),
            forall|k: int| 0 <= k < 7 ==> #[trigger] r[2 * k + 1]@ == Seq::<char>::empty(),
            r[15]@ == decimal(self.possible_states@.len()) + " possibilities"@,
            r[16]@ == self.fog_state.render_header(),
            forall|k: int| 1 <= k < 9 ==> #[trigger] r[16 + k]@ == self.fog_state.render_line(8 - k),
            r[25]@ == "  a b c d e f g h"@,
    {
        let ghost v = self.possible_states@;
        let seen = codes_seen(&self.possible_states);
        let mut result: Vec<String> = Vec::new();
        let mut rank: usize = 8;
        while rank > 0
            invariant
                0 <= rank <= 8,
                seen@.len() == 64 * 13,
                forall|q: int, c: int| 0 <= q < 64 && 0 <= c < 13 ==> seen@[13 * q + c] == has_code(v, q, c),
                result.len() == if rank == 8 {
                    0
                } else {
                    2 * (8 - rank) - 1
                },
                forall|k: int| 0 <= k < 8 - rank ==> #[trigger] result[2 * k]@ == possibilities_line(v, 7 - k),
                forall|k: int| 0 <= k < 7 - rank ==> #[trigger] result[2 * k + 1]@ == Seq::<char>::empty(),
            decreases rank,
        {
            rank = rank - 1;
            let mut line = String::new();
            push_char(&mut line, digit((rank + 1) as u32));
            push_str(&mut line, "  ");
            proof {
                reveal_strlit("  ");
            }
            let ghost head = line@;
            let mut file: usize = 0;
            while file < 8
                invariant
                    0 <= file <= 8,
                    0 <= rank < 8,
                    seen@.len() == 64 * 13,
                    forall|q: int, c: int| 0 <= q < 64 && 0 <= c < 13 ==> seen@[13 * q + c] == has_code(v, q, c),
                    line@ == head + cells_upto(v, rank as int, file as nat),
                decreases 8 - file,
            {
                push_char(&mut line, ' ');
                push_cell(&mut line, &seen, Ghost(v), rank * 8 + file);
                assert(line@ =~= head + cells_upto(v, rank as int, (file + 1) as nat));
                file = file + 1;
            }
            assert(line@ =~= possibilities_line(v, rank as int));
            if rank < 7 {
                result.push(String::new());
            }
            result.push(line);
        }
        let mut count = String::new();
        push_decimal(&mut count, self.possible_states.len() as u64);
        push_str(&mut count, " possibilities");
        result.push(count);
        let mut fog_lines = self.fog_state.render();
        result.append(&mut fog_lines);
        result
    }

    /// Keeps the possible boards on which a sense centered on `sense` shows
    /// exactly `sense_result`, in their order.
    pub fn sense(&mut self, sense: Square, sense_result: &[(Square, Option<Piece>)])
        requires
            old(self).wf(),
            old(self).fog_state.turn() == old(self).color,
            sense.valid(),
        ensures
            final(self).wf(),
            final(self).color == old(self).color,
            final(self).fog_state == old(self).fog_state,
            final(self).possible_states@ == old(self).possible_states@.filter(
                |s: BoardState| sense_view(s, sense) == sense_result@,
            ),
    {
        let ghost states = self.possible_states@;
        let ghost turn = self.fog_state.turn();
        let ghost pred = |s: BoardState| sense_view(s, sense) == sense_result@;
        let mut kept: Vec<BoardState> = Vec::new();
        let mut i: usize = 0;
        while i < self.possible_states.len()
            invariant
                self.possible_states@ == states,
                all_to_play(states, turn),
                sense.valid(),
                pred == (|s: BoardState| sense_view(s, sense) == sense_result@),
                0 <= i <= states.len(),
                kept@ == states.take(i as int).filter(pred),
            decreases states.len() - i,
        {
            let shown = self.possible_states[i].sense(sense);
            proof {
                reveal(Seq::filter);
                assert(states.take(i + 1).drop_last() =~= states.take(i as int));
                assert(states.take(i + 1).last() == states[i as int]);
            }
            if same_sense(&shown, sense_result) {
                kept.push(self.possible_states[i].clone());
            }
            i = i + 1;
        }
        proof {
            assert(states.take(states.len() as int) =~= states);
            let f = states.filter(pred);
            assert forall|k: int| #![trigger f[k]] 0 <= k < f.len() implies f[k].wf() && f[k].turn() == turn by {
                assert(f.contains(f[k]));
                states.lemma_filter_contains_rev(pred, f[k]);
            }
        }
        self.possible_states = kept;
    }

    /// Takes in one's own move: `requested_move` was asked for, it became
    /// `taken_move`, which took a piece on `capture_square` if any. Every
    /// possible board on which the request becomes that move, taking that
    /// piece, is replaced by the board the move makes of it, each once.
    pub fn my_move(&mut self, requested_move: Option<Move>, taken_move: Option<Move>, capture_square: Option<Square>)
        requires
            old(self).wf(),
            old(self).fog_state.turn() == old(self).color,
            old(self).fog_state.move_ok(taken_move),
        ensures
            my_move_result(*old(self), requested_move, taken_move, capture_square, *final(self)),
    {
        let ghost states = self.possible_states@;
        let ghost turn = self.fog_state.turn();
        let mut next: Vec<BoardState> = Vec::new();
        let mut i: usize = 0;
        while i < self.possible_states.len()
            invariant
                self.possible_states@ == states,
                all_to_play(states, turn),
                0 <= i <= states.len(),
                forall|k: int|
                    0 <= k < next@.len() ==> #[trigger] own_result(
                        states,
                        i as int,
                        requested_move,
                        taken_move,
                        capture_square,
                        next@[k],
                    ),
                forall|j: int|
                    0 <= j < i && #[trigger] own_move_fits(states[j], requested_move, taken_move, capture_square)
                        ==> holds_result(next@, 0, states[j], taken_move),
            decreases states.len() - i,
        {
            let ghost prev = next@;
            own_successor(&self.possible_states[i], requested_move, taken_move, capture_square, &mut next);
            proof {
                assert forall|k: int| 0 <= k < next@.len() implies #[trigger] own_result(
                    states,
                    i + 1,
                    requested_move,
                    taken_move,
                    capture_square,
                    next@[k],
                ) by {
                    if k < prev.len() {
                        assert(next@[k] == prev[k]);
                        assert(own_result(states, i as int, requested_move, taken_move, capture_square, prev[k]));
                        let j = choose|j: int|
                            0 <= j < i && #[trigger] own_move_fits(states[j], requested_move, taken_move, capture_square)
                                && played(states[j], taken_move, prev[k]);
                    } else {
                        assert(next@[k] == next@.last());
                        assert(own_move_fits(states[i as int], requested_move, taken_move, capture_square));
                    }
                }
                assert forall|j: int|
                    0 <= j < i + 1 && #[trigger] own_move_fits(states[j], requested_move, taken_move, capture_square)
                        implies holds_result(next@, 0, states[j], taken_move) by {
                    if j < i {
                        lemma_holds_extends(prev, next@, 0, states[j], taken_move);
                    } else {
                        let k = next@.len() - 1;
                        assert(next@[k] == next@.last());
                    }
                }
            }
            i = i + 1;
        }
        let deduped = dedup_boards(next);
        proof {
            lemma_kept(states, next@, deduped@, requested_move, taken_move, capture_square, turn);
        }
        self.possible_states = deduped;
        let mut null = NullObs;
        proof {
            lemma_null_steps_ok(self.fog_state.move_edits(taken_move));
        }
        self.fog_state.make_move(taken_move, &mut null);
        proof {
            reveal(played);
            lemma_played_turn(old(self).fog_state, taken_move, self.fog_state);
        }
    }
}

} // verus!
