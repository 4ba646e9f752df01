use vstd::prelude::*;
use crate::game::{Square, Piece, BoardState, BoardFlags, WHITE_TO_PLAY, WHITE_CAN_OO, WHITE_CAN_OOO, BLACK_CAN_OO, BLACK_CAN_OOO};
use crate::obs::NullObs;

verus! {

/// The starting position in Forsyth-Edwards notation.
pub const STARTING_FEN: &'static str = "rnbqkbnr/pppppppp/8/8/8/8/PPPPPPPP/RNBQKBNR w KQkq - 0 1";

/// What a board takes from a FEN record: the letter of the piece on each
/// square, a1 first; whether white is to play; the castling rights KQkq;
/// the en passant square.
pub struct FenFields {
    pub pieces: Vec<Option<char>>,
    pub white_to_play: bool,
    pub white_can_oo: bool,
    pub white_can_ooo: bool,
    pub black_can_oo: bool,
    pub black_can_ooo: bool,
    pub en_passant: Option<u8>,
}

/// The fields that the `fen` crate reads from the record `s`, `None` where
/// it refuses it.
pub uninterp spec fn fen_read(s: Seq<char>) -> Option<(Seq<Option<char>>, (bool, bool, bool, bool, bool), Option<u8>)>;

/// The number of squares that the character `c` of a placement field
/// describes: a digit that many, anything else one.
pub open spec fn squares_of(c: char) -> int {
    if '0' <= c <= '9' {
        c as int - 48
    } else {
        1
    }
}

/// The squares described so far in the current rank after the first `n`
/// characters of a placement field.
pub open spec fn rank_fill(s: Seq<char>, n: nat) -> int
    decreases n,
{
    if n == 0 {
        0
    } else if s[n - 1] == '/' {
        0
    } else {
        rank_fill(s, (n - 1) as nat) + squares_of(s[n - 1])
    }
}

/// No rank of the placement field, the text before the first space,
/// describes more than eight squares, and the record is ASCII.
pub open spec fn fen_safe(s: Seq<char>) -> bool {
    &&& forall|i: int| 0 <= i < s.len() ==> (s[i] as int) < 128
    &&& forall|n: nat| n <= s.len() && (forall|j: int| 0 <= j < n ==> s[j] != ' ') ==> #[trigger] rank_fill(s, n) <= 8
}

/// `fen::BoardState::from_fen` on `s`, with each piece turned into its
/// letter. Claimed of it: the result is the named function of the text; a
/// board has 64 squares, each empty or holding a piece letter, and an en
/// passant square on the board. It is called only on records where no rank
/// describes more than eight squares and that are ASCII: on others the crate
/// can index past its board.
#[verifier::external_body]
fn read_fen(s: &str) -> (r: Option<FenFields>)
    requires
        fen_safe(s@),
    ensures
        match r {
            None => fen_read(s@) is None,
            Some(f) => {
                &&& fen_read(s@) == Some(
                    (
                        f.pieces@,
                        (f.white_to_play, f.white_can_oo, f.white_can_ooo, f.black_can_oo, f.black_can_ooo),
                        f.en_passant,
                    ),
                )
                &&& f.pieces.len() == 64
                &&& forall|i: int| 0 <= i < 64 ==> (#[trigger] f.pieces@[i] matches Some(c) ==> Piece::is_letter(c))
                &&& f.en_passant matches Some(e) ==> e < 64
            },
        },
{
    match fen::BoardState::from_fen(s) {
        Err(_) => None,
        Ok(b) => Some(FenFields {
            pieces: b.pieces.iter().map(|p| p.as_ref().map(|p| p.to_string().chars().next().unwrap())).collect(),
            white_to_play: b.side_to_play == fen::Color::White,
            white_can_oo: b.white_can_oo,
            white_can_ooo: b.white_can_ooo,
            black_can_oo: b.black_can_oo,
            black_can_ooo: b.black_can_ooo,
            en_passant: b.en_passant_square,
        }),
    }
}

/// Whether no rank of the placement field of `s` describes more than eight
/// squares and `s` is ASCII.
pub fn is_fen_safe(s: &str) -> (r: bool)
    ensures
        r == fen_safe(s@),
{
    let n = s.unicode_len();
    let mut i: usize = 0;
    let mut fill: i64 = 0;
    let mut in_placement = true;
    while i < n
        invariant
            n == s@.len(),
            i <= n,
            forall|k: int| 0 <= k < i ==> (s@[k] as int) < 128,
            in_placement == (forall|j: int| 0 <= j < i ==> s@[j] != ' '),
            in_placement ==> fill == rank_fill(s@, i as nat),
            forall|m: nat| m <= i && (forall|j: int| 0 <= j < m ==> s@[j] != ' ') ==> #[trigger] rank_fill(s@, m) <= 8,
            0 <= fill <= 8,
        decreases n - i,
    {
        let c = s.get_char(i);
        if (c as u32) >= 128 {
            proof {
                assert(!fen_safe(s@));
            }
            return false;
        }
        if c == ' ' {
            in_placement = false;
        } else if in_placement {
            if c == '/' {
                fill = 0;
            } else if '0' <= c && c <= '9' {
                fill = fill + (c as i64 - 48);
            } else {
                fill = fill + 1;
            }
            if fill > 8 {
                proof {
                    assert(rank_fill(s@, (i + 1) as nat) > 8);
                    assert forall|j: int| 0 <= j < i + 1 implies s@[j] != ' ' by {}
                }
                return false;
            }
        }
        proof {
            assert forall|m: nat| m <= i + 1 && (forall|j: int| 0 <= j < m ==> s@[j] != ' ') implies #[trigger] rank_fill(
                s@,
                m,
            ) <= 8 by {
                if m == i + 1 {
                    assert(s@[i as int] != ' ');
                }
            }
        }
        i = i + 1;
    }
    true
}

/// The board flags for the side to play and the castling rights.
pub open spec fn fen_flags(w: bool, oo: bool, ooo: bool, boo: bool, booo: bool) -> u8 {
    ((if w {
        WHITE_TO_PLAY as int
    } else {
        0
    }) + (if oo {
        WHITE_CAN_OO as int
    } else {
        0
    }) + (if ooo {
        WHITE_CAN_OOO as int
    } else {
        0
    }) + (if boo {
        BLACK_CAN_OO as int
    } else {
        0
    }) + (if booo {
        BLACK_CAN_OOO as int
    } else {
        0
    })) as u8
}

/// Each field of a FEN record sets its own flag, whatever the others: white
/// to play, then the castling letters K, Q, k and q.
pub proof fn lemma_fen_flags(w: bool, oo: bool, ooo: bool, boo: bool, booo: bool)
    ensures
        (BoardFlags { bits: fen_flags(w, oo, ooo, boo, booo) }).has(WHITE_TO_PLAY) == w,
        (BoardFlags { bits: fen_flags(w, oo, ooo, boo, booo) }).has(WHITE_CAN_OO) == oo,
        (BoardFlags { bits: fen_flags(w, oo, ooo, boo, booo) }).has(WHITE_CAN_OOO) == ooo,
        (BoardFlags { bits: fen_flags(w, oo, ooo, boo, booo) }).has(BLACK_CAN_OO) == boo,
        (BoardFlags { bits: fen_flags(w, oo, ooo, boo, booo) }).has(BLACK_CAN_OOO) == booo,
        fen_flags(w, oo, ooo, boo, booo) < 32,
{
    let a: u8 = if w { 1 } else { 0 };
    let b: u8 = if oo { 2 } else { 0 };
    let c: u8 = if ooo { 4 } else { 0 };
    let d: u8 = if boo { 8 } else { 0 };
    let e: u8 = if booo { 16 } else { 0 };
    let x = fen_flags(w, oo, ooo, boo, booo);
    assert(x == a + b + c + d + e);
    assert(a == 0 || a == 1);
    assert(b == 0 || b == 2);
    assert(c == 0 || c == 4);
    assert(d == 0 || d == 8);
    assert(e == 0 || e == 16);
    assert({
        &&& (a + b + c + d + e) as u8 & 1u8 == 1u8 <==> a == 1
        &&& (a + b + c + d + e) as u8 & 2u8 == 2u8 <==> b == 2
        &&& (a + b + c + d + e) as u8 & 4u8 == 4u8 <==> c == 4
        &&& (a + b + c + d + e) as u8 & 8u8 == 8u8 <==> d == 8
        &&& (a + b + c + d + e) as u8 & 16u8 == 16u8 <==> e == 16
    }) by (bit_vector)
        requires
            a == 0 || a == 1,
            b == 0 || b == 2,
            c == 0 || c == 4,
            d == 0 || d == 8,
            e == 0 || e == 16,
    ;
}

/// The piece on a square of a read record.
pub open spec fn piece_of_letter(c: Option<char>) -> Option<Piece> {
    match c {
        None => None,
        Some(c) => Some(Piece::from_letter(c)),
    }
}

/// `b` is the starting position as the `fen` crate reads it (or, were it
/// to refuse it, some well-formed board).
pub open spec fn is_initial(b: BoardState) -> bool {
    &&& b.wf()
    &&& fen_safe(STARTING_FEN@) && fen_read(STARTING_FEN@) is Some ==> {
        let f = fen_read(STARTING_FEN@).unwrap();
        &&& forall|i: int| 0 <= i < 64 ==> #[trigger] b.squares()[i] == piece_of_letter(f.0[i])
        &&& b.flags.bits == fen_flags(f.1.0, f.1.1, f.1.2, f.1.3, f.1.4)
    }
}

impl BoardState {
    /// The board that the fields of a FEN record describe.
    pub fn from_fen_fields(f: &FenFields) -> (b: BoardState)
        requires
            f.pieces.len() == 64,
            forall|i: int| 0 <= i < 64 ==> (#[trigger] f.pieces@[i] matches Some(c) ==> Piece::is_letter(c)),
            f.en_passant matches Some(e) ==> e < 64,
        ensures
            b.wf(),
            forall|i: int| 0 <= i < 64 ==> #[trigger] b.squares()[i] == piece_of_letter(f.pieces@[i]),
            b.flags.bits == fen_flags(f.white_to_play, f.white_can_oo, f.white_can_ooo, f.black_can_oo, f.black_can_ooo),
            b.flags.has(WHITE_TO_PLAY) == f.white_to_play,
            b.flags.has(WHITE_CAN_OO) == f.white_can_oo,
            b.flags.has(WHITE_CAN_OOO) == f.white_can_ooo,
            b.flags.has(BLACK_CAN_OO) == f.black_can_oo,
            b.flags.has(BLACK_CAN_OOO) == f.black_can_ooo,
            b.en_passant_square == match f.en_passant {
                None => None,
                Some(e) => Some(Square(e as i8)),
            },
    {
        let mut bits: u8 = 0;
        if f.white_to_play {
            bits = bits + WHITE_TO_PLAY;
        }
        if f.white_can_oo {
            bits = bits + WHITE_CAN_OO;
        }
        if f.white_can_ooo {
            bits = bits + WHITE_CAN_OOO;
        }
        if f.black_can_oo {
            bits = bits + BLACK_CAN_OO;
        }
        if f.black_can_ooo {
            bits = bits + BLACK_CAN_OOO;
        }
        let mut result = BoardState::empty();
        let mut sq: i8 = 0;
        while sq < 64
            invariant
                0 <= sq <= 64,
                f.pieces.len() == 64,
                forall|i: int| 0 <= i < 64 ==> (#[trigger] f.pieces@[i] matches Some(c) ==> Piece::is_letter(c)),
                result.wf(),
                result.en_passant_square is None,
                forall|i: int| 0 <= i < sq ==> #[trigger] result.squares()[i] == piece_of_letter(f.pieces@[i]),
                forall|i: int| sq <= i < 64 ==> #[trigger] result.squares()[i] is None,
            decreases 64 - sq,
        {
            match f.pieces[sq as usize] {
                Some(c) => {
                    proof {
                        assert(f.pieces@[sq as int] == Some(c));
                    }
                    let p = Piece::from_char(c);
                    let mut null = NullObs;
                    result.replace_piece(Square(sq), Some(p), &mut null);
                },
                None => {},
            }
            sq = sq + 1;
        }
        let ghost before = result;
        result.flags = BoardFlags { bits };
        result.en_passant_square = match f.en_passant {
            None => None,
            Some(e) => Some(Square(e as i8)),
        };
        assert(result.squares() =~= before.squares());
        proof {
            lemma_fen_flags(f.white_to_play, f.white_can_oo, f.white_can_ooo, f.black_can_oo, f.black_can_ooo);
        }
        result
    }

    /// The board of the FEN record `s`: `None` where the `fen` crate refuses
    /// it, and where a rank describes more than eight squares or `s` is not
    /// ASCII.
    pub fn from_fen(s: &str) -> (r: Option<BoardState>)
        ensures
            r is None <==> (!fen_safe(s@) || fen_read(s@) is None),
            r matches Some(b) ==> {
                let f = fen_read(s@).unwrap();
                &&& b.wf()
                &&& forall|i: int| 0 <= i < 64 ==> #[trigger] b.squares()[i] == piece_of_letter(f.0[i])
                &&& b.flags.bits == fen_flags(f.1.0, f.1.1, f.1.2, f.1.3, f.1.4)
                &&& b.flags.has(WHITE_TO_PLAY) == f.1.0
                &&& b.flags.has(WHITE_CAN_OO) == f.1.1
                &&& b.flags.has(WHITE_CAN_OOO) == f.1.2
                &&& b.flags.has(BLACK_CAN_OO) == f.1.3
                &&& b.flags.has(BLACK_CAN_OOO) == f.1.4
                &&& b.en_passant_square == match f.2 {
                    None => None,
                    Some(e) => Some(Square(e as i8)),
                }
            },
    {
        if !is_fen_safe(s) {
            return None;
        }
        match read_fen(s) {
            None => None,
            Some(f) => Some(BoardState::from_fen_fields(&f)),
        }
    }

    /// The starting position, as the `fen` crate reads it; the empty board
    /// if it were to refuse it.
    pub fn initial() -> (b: BoardState)
        ensures
            is_initial(b),
    {
        match BoardState::from_fen(STARTING_FEN) {
            Some(b) => b,
            None => BoardState::empty(),
        }
    }
}

} // verus!
