use vstd::prelude::*;
use vstd::std_specs::bits::{u64_trailing_zeros, axiom_u64_trailing_zeros};
use rand::{Rng, SeedableRng};
use crate::game::{Square, Color, PieceKind, Piece, BoardState, first_king, lemma_first_king, lemma_no_king, lemma_small_bits, WHITE_TO_PLAY, WHITE_CAN_OO, WHITE_CAN_OOO, BLACK_CAN_OO, BLACK_CAN_OOO};
use crate::obs::NullObs;
use crate::bitboard::{lemma_bits64, bit, ones, ones_below, count_ones, lemma_ones_below, lemma_bit_set, lemma_bit_zero, lemma_bit_or, lemma_bit_values, Pattern, attacks, attack_mask, between, aligned, in_between};

verus! {

/// The first `n` numbers drawn from the standard generator of `rand`
/// seeded with `seed`.
pub uninterp spec fn seeded_u64s(seed: u64, n: nat) -> Seq<u64>;

/// `rand::rngs::StdRng::seed_from_u64(seed)` followed by `n` calls of
/// `Rng::gen::<u64>`: the numbers depend on the seed and `n` alone, which is
/// all that is claimed of them.
#[verifier::external_body]
fn seeded_random_u64s(seed: u64, n: usize) -> (r: Vec<u64>)
    ensures
        r@ == seeded_u64s(seed as u64, n as nat),
        r.len() == n,
{
    let mut rng = rand::rngs::StdRng::seed_from_u64(seed);
    let mut r = Vec::with_capacity(n);
    for _ in 0..n {
        r.push(rng.gen::<u64>());
    }
    r
}

/// The number of Zobrist keys: one per piece and square, sixteen for the
/// castling rights, nine for the en passant file, one for the side to play.
pub const NUM_KEYS: usize = 794;

/// Index of the first castling key.
pub const CASTLING_KEYS: usize = 768;

/// Index of the first en passant key.
pub const EP_KEYS: usize = 784;

/// Index of the key for black to play.
pub const BLACK_KEY: usize = 793;

/// The packed fields of a move.
pub open spec fn encode(from: u32, to: u32, from_kind: u32, to_kind: u32, cap: u32, ep_file: u32) -> u32 {
    from | to << 6 | from_kind << 12 | to_kind << 15 | cap << 18 | ep_file << 21
}

pub proof fn lemma_encode(from: u32, to: u32, from_kind: u32, to_kind: u32, cap: u32, ep_file: u32)
    by (bit_vector)
    requires
        from < 64,
        to < 64,
        from_kind < 8,
        to_kind < 8,
        cap < 8,
        ep_file < 16,
    ensures
        encode(from, to, from_kind, to_kind, cap, ep_file) & 63 == from,
        (encode(from, to, from_kind, to_kind, cap, ep_file) >> 6) & 63 == to,
        (encode(from, to, from_kind, to_kind, cap, ep_file) >> 12) & 7 == from_kind,
        (encode(from, to, from_kind, to_kind, cap, ep_file) >> 15) & 7 == to_kind,
        (encode(from, to, from_kind, to_kind, cap, ep_file) >> 18) & 7 == cap,
        (encode(from, to, from_kind, to_kind, cap, ep_file) >> 21) & 15 == ep_file,
        encode(from, to, from_kind, to_kind, cap, ep_file) >> 25 == 0,
{
}

/// Two packed moves with the same fields are the same move.
proof fn lemma_decode(x: u32)
    by (bit_vector)
    requires
        x >> 25 == 0,
    ensures
        x == encode(x & 63, (x >> 6) & 63, (x >> 12) & 7, (x >> 15) & 7, (x >> 18) & 7, (x >> 21) & 15),
{
}

/// A move packed in 32 bits: from and to squares, the kind that moves and
/// the kind it becomes, the captured kind plus one (0 for none), and the
/// file on which the opponent may capture en passant next (8 for none).
#[derive(Clone, Copy, PartialEq, Eq, Structural, Debug)]
pub struct Move(pub u32);

impl Move {
    #[verifier::allow_in_spec]
    pub fn from(self) -> u32
        returns
            self.0 & 63,
    {
        self.0 & 63
    }

    #[verifier::allow_in_spec]
    pub fn to(self) -> u32
        returns
            (self.0 >> 6) & 63,
    {
        (self.0 >> 6) & 63
    }

    #[verifier::allow_in_spec]
    pub fn from_kind(self) -> u32
        returns
            (self.0 >> 12) & 7,
    {
        (self.0 >> 12) & 7
    }

    #[verifier::allow_in_spec]
    pub fn to_kind(self) -> u32
        returns
            (self.0 >> 15) & 7,
    {
        (self.0 >> 15) & 7
    }

    #[verifier::allow_in_spec]
    pub fn cap(self) -> u32
        returns
            (self.0 >> 18) & 7,
    {
        (self.0 >> 18) & 7
    }

    #[verifier::allow_in_spec]
    pub fn ep_file(self) -> u32
        returns
            (self.0 >> 21) & 15,
    {
        (self.0 >> 21) & 15
    }

    /// The fields are in range and nothing else is set.
    pub open spec fn wf(self) -> bool {
        &&& self.0 >> 25 == 0
        &&& self.from_kind() < 6
        &&& self.to_kind() < 6
        &&& self.cap() <= 6
        &&& self.ep_file() <= 8
    }

    pub fn new(from: u32, to: u32, from_kind: u32, to_kind: u32, cap: u32, ep_file: u32) -> (m: Move)
        requires
            from < 64,
            to < 64,
            from_kind < 6,
            to_kind < 6,
            cap <= 6,
            ep_file <= 8,
        ensures
            m.0 == encode(from, to, from_kind, to_kind, cap, ep_file),
            m.from() == from,
            m.to() == to,
            m.from_kind() == from_kind,
            m.to_kind() == to_kind,
            m.cap() == cap,
            m.ep_file() == ep_file,
            m.wf(),
    {
        proof {
            lemma_encode(from, to, from_kind, to_kind, cap, ep_file);
        }
        Move(from | to << 6 | from_kind << 12 | to_kind << 15 | cap << 18 | ep_file << 21)
    }

    pub open spec fn null_spec() -> Move {
        Move(encode(1, 1, 0, 0, 0, 8))
    }

    /// The move that stands for passing: from b1 to b1.
    pub fn null() -> (m: Move)
        ensures
            m == Move::null_spec(),
            m.wf(),
            m.from() == 1 && m.to() == 1 && m.from_kind() == 0 && m.to_kind() == 0 && m.cap() == 0 && m.ep_file() == 8,
    {
        Move::new(1, 1, 0, 0, 0, 8)
    }

    pub fn to_sq(self) -> (sq: Square)
        ensures
            sq == Square(self.to() as i8),
            sq.valid(),
    {
        let x = self.0;
        proof {
            lemma_small_bits(0, 0, 0, x, 0);
        }
        Square(self.to() as i8)
    }

    /// The move of the board representation that this move stands for; `None`
    /// for the null move.
    pub open spec fn simple(self) -> Option<crate::game::Move> {
        if self == Move::null_spec() {
            None
        } else {
            Some(
                crate::game::Move {
                    from: Square(self.from() as i8),
                    to: Square(self.to() as i8),
                    promotion: if self.from_kind() == self.to_kind() {
                        None
                    } else {
                        Some(PieceKind::from_index(self.to_kind()))
                    },
                },
            )
        }
    }

    pub fn to_simple_move(self) -> (r: Option<crate::game::Move>)
        requires
            self.wf(),
        ensures
            r == self.simple(),
    {
        if self == Move::null() {
            return None;
        }
        let x = self.0;
        proof {
            lemma_small_bits(0, 0, 0, x, 0);
        }
        let promotion = if self.from_kind() == self.to_kind() {
            None
        } else {
            Some(PieceKind::from_int(self.to_kind()))
        };
        Some(crate::game::Move { from: Square(self.from() as i8), to: Square(self.to() as i8), promotion })
    }
}

/// What `unmake_move` needs to restore besides the pieces.
#[derive(Clone, Copy, PartialEq, Eq, Structural, Debug)]
pub struct UndoEntry {
    pub hash: u64,
    pub flags: u8,
    pub ep_file: u8,
}

/// A position as bitboards: one mask per color and per kind, the castling
/// rights (bits 0 to 3: KQkq) and the side to play (bit 4: black), the en
/// passant file (8 for none), the Zobrist hash and the Zobrist keys.
#[derive(Clone, PartialEq, Eq, Debug)]
pub struct State {
    pub by_color: [u64; 2],
    pub by_kind: [u64; 6],
    pub flags: u8,
    pub ep_file: u8,
    pub hash: u64,
    pub keys: Vec<u64>,
}

/// 1 where `b` holds, else 0.
pub open spec fn ind(b: bool) -> int {
    if b {
        1
    } else {
        0
    }
}

impl State {
    pub open spec fn occupied(self, q: int) -> bool {
        bit(self.by_color[0], q) || bit(self.by_color[1], q)
    }

    /// How many kind masks have square `q`.
    pub open spec fn kind_count(self, q: int) -> int {
        ind(bit(self.by_kind[0], q)) + ind(bit(self.by_kind[1], q)) + ind(bit(self.by_kind[2], q)) + ind(
            bit(self.by_kind[3], q),
        ) + ind(bit(self.by_kind[4], q)) + ind(bit(self.by_kind[5], q))
    }

    /// The first kind whose mask has square `q`, 6 if none.
    pub open spec fn kind_at(self, q: int) -> u32 {
        if bit(self.by_kind[0], q) {
            0
        } else if bit(self.by_kind[1], q) {
            1
        } else if bit(self.by_kind[2], q) {
            2
        } else if bit(self.by_kind[3], q) {
            3
        } else if bit(self.by_kind[4], q) {
            4
        } else if bit(self.by_kind[5], q) {
            5
        } else {
            6
        }
    }

    /// The kind on square `q` plus one, or 0 for an empty square.
    pub open spec fn opt_kind(self, q: int) -> u32 {
        if self.occupied(q) {
            (self.kind_at(q) + 1) as u32
        } else {
            0
        }
    }

    /// Square `q` is in at most one color mask, and in one kind mask if it
    /// is in a color mask, else in none.
    pub open spec fn square_ok(self, q: int) -> bool {
        &&& !(bit(self.by_color[0], q) && bit(self.by_color[1], q))
        &&& self.kind_count(q) == ind(self.occupied(q))
    }

    pub open spec fn at(self, q: int) -> Option<Piece> {
        if !self.occupied(q) {
            None
        } else {
            Some(
                Piece {
                    color: if bit(self.by_color[0], q) {
                        Color::White
                    } else {
                        Color::Black
                    },
                    kind: PieceKind::from_index(self.kind_at(q)),
                },
            )
        }
    }

    pub open spec fn squares(self) -> Seq<Option<Piece>> {
        Seq::new(64, |q: int| self.at(q))
    }

    /// 0 when white is to play, 1 when black is.
    pub open spec fn side(self) -> u8 {
        self.flags >> 4
    }

    pub open spec fn turn(self) -> Color {
        if self.side() == 0 {
            Color::White
        } else {
            Color::Black
        }
    }

    /// Every square is consistent across the masks.
    pub open spec fn boards_ok(self) -> bool {
        forall|q: int| 0 <= q < 64 ==> #[trigger] self.square_ok(q)
    }

    pub open spec fn wf(self) -> bool {
        &&& self.boards_ok()
        &&& self.flags < 32
        &&& self.ep_file <= 8
        &&& self.keys.len() == NUM_KEYS
    }

    /// The empty board, white to play, no castling rights, and the Zobrist
    /// keys drawn from the generator seeded with 43.
    pub fn empty() -> (s: State)
        ensures
            s.wf(),
            forall|q: int| 0 <= q < 64 ==> #[trigger] s.at(q) is None,
            s.flags == 0,
            s.ep_file == 0,
            s.hash == 0,
            s.keys@ == seeded_u64s(43, NUM_KEYS as nat),
    {
        let s = State {
            by_color: [0, 0],
            by_kind: [0, 0, 0, 0, 0, 0],
            flags: 0,
            ep_file: 0,
            hash: 0,
            keys: seeded_random_u64s(43, NUM_KEYS),
        };
        proof {
            assert forall|q: int| 0 <= q < 64 implies #[trigger] s.square_ok(q) && s.at(q) is None by {
                lemma_bit_zero(q as u64);
            }
            assert forall|q: int| 0 <= q < 64 implies #[trigger] s.at(q) is None by {
                assert(s.square_ok(q));
            }
        }
        s
    }

    fn side_to_play_(&self) -> (r: u8)
        requires
            self.wf(),
        ensures
            r == self.side(),
            r < 2,
    {
        let f = self.flags;
        proof {
            lemma_small_bits(f, 0, 0, 0, 0);
        }
        f >> 4
    }

    pub fn side_to_play(&self) -> (c: Color)
        requires
            self.wf(),
        ensures
            c == self.turn(),
    {
        if self.side_to_play_() == 0 {
            Color::White
        } else {
            Color::Black
        }
    }

    pub fn hash(&self) -> (h: u64)
        ensures
            h == self.hash,
    {
        self.hash
    }

    /// The kind on an occupied square, by its number.
    fn get_kind(&self, sq: i8) -> (k: u32)
        requires
            self.boards_ok(),
            0 <= sq < 64,
            self.occupied(sq as int),
        ensures
            k == self.kind_at(sq as int),
            k < 6,
    {
        let q = sq as u64;
        let a = ((self.by_kind[1] | self.by_kind[3] | self.by_kind[5]) >> q) & 1;
        let b = ((self.by_kind[2] | self.by_kind[3]) >> q) & 1;
        let c = ((self.by_kind[4] | self.by_kind[5]) >> q) & 1;
        proof {
            assert(self.square_ok(sq as int));
            lemma_bit_or(self.by_kind[1], self.by_kind[3], q);
            lemma_bit_or(self.by_kind[1] | self.by_kind[3], self.by_kind[5], q);
            lemma_bit_or(self.by_kind[2], self.by_kind[3], q);
            lemma_bit_or(self.by_kind[4], self.by_kind[5], q);
            lemma_bit_values(self.by_kind[1] | self.by_kind[3] | self.by_kind[5], q);
            lemma_bit_values(self.by_kind[2] | self.by_kind[3], q);
            lemma_bit_values(self.by_kind[4] | self.by_kind[5], q);
            lemma_bit_values(self.by_kind[0], q);
            lemma_bit_values(self.by_kind[1], q);
            lemma_bit_values(self.by_kind[2], q);
            lemma_bit_values(self.by_kind[3], q);
            lemma_bit_values(self.by_kind[4], q);
            lemma_bit_values(self.by_kind[5], q);
        }
        (a + b * 2 + c * 4) as u32
    }

    /// The kind on a square plus one, or 0 for an empty square.
    fn get_opt_kind(&self, sq: i8) -> (k: u32)
        requires
            self.boards_ok(),
            0 <= sq < 64,
        ensures
            k == self.opt_kind(sq as int),
            k <= 6,
    {
        let q = sq as u64;
        let a = ((self.by_kind[0] | self.by_kind[2] | self.by_kind[4]) >> q) & 1;
        let b = ((self.by_kind[1] | self.by_kind[2] | self.by_kind[5]) >> q) & 1;
        let c = ((self.by_kind[3] | self.by_kind[4] | self.by_kind[5]) >> q) & 1;
        proof {
            assert(self.square_ok(sq as int));
            lemma_bit_or(self.by_kind[0], self.by_kind[2], q);
            lemma_bit_or(self.by_kind[0] | self.by_kind[2], self.by_kind[4], q);
            lemma_bit_or(self.by_kind[1], self.by_kind[2], q);
            lemma_bit_or(self.by_kind[1] | self.by_kind[2], self.by_kind[5], q);
            lemma_bit_or(self.by_kind[3], self.by_kind[4], q);
            lemma_bit_or(self.by_kind[3] | self.by_kind[4], self.by_kind[5], q);
            lemma_bit_values(self.by_kind[0] | self.by_kind[2] | self.by_kind[4], q);
            lemma_bit_values(self.by_kind[1] | self.by_kind[2] | self.by_kind[5], q);
            lemma_bit_values(self.by_kind[3] | self.by_kind[4] | self.by_kind[5], q);
            lemma_bit_values(self.by_kind[0], q);
            lemma_bit_values(self.by_kind[1], q);
            lemma_bit_values(self.by_kind[2], q);
            lemma_bit_values(self.by_kind[3], q);
            lemma_bit_values(self.by_kind[4], q);
            lemma_bit_values(self.by_kind[5], q);
            lemma_bit_values(self.by_color[0], q);
            lemma_bit_values(self.by_color[1], q);
        }
        (a + b * 2 + c * 4) as u32
    }

    pub fn get_piece(&self, sq: Square) -> (p: Option<Piece>)
        requires
            self.boards_ok(),
            sq.valid(),
        ensures
            p == self.at(sq.0 as int),
    {
        let q = sq.0 as u64;
        proof {
            lemma_bit_values(self.by_color[0], q);
            lemma_bit_values(self.by_color[1], q);
        }
        let color = if (self.by_color[0] >> q) & 1 != 0 {
            Color::White
        } else if (self.by_color[1] >> q) & 1 != 0 {
            Color::Black
        } else {
            return None;
        };
        let kind = self.get_kind(sq.0);
        Some(Piece { color, kind: PieceKind::from_int(kind) })
    }

    pub fn find_king(&self, color: Color) -> (r: Option<Square>)
        requires
            self.boards_ok(),
        ensures
            r == first_king(self.squares(), color),
    {
        let c: usize = match color {
            Color::White => 0,
            Color::Black => 1,
        };
        let ks = self.by_color[c] & self.by_kind[5];
        let king = Some(Piece { color, kind: PieceKind::King });
        proof {
            assert forall|q: int| 0 <= q < 64 implies (bit(ks, q) <==> #[trigger] self.squares()[q] == king) by {
                lemma_bit_and(self.by_color[c as int], self.by_kind[5], q as u64);
                assert(self.square_ok(q));
            }
        }
        if ks == 0 {
            proof {
                assert forall|q: int| 0 <= q < 64 implies #[trigger] self.squares()[q] != king by {
                    lemma_bit_zero(q as u64);
                }
                lemma_no_king(self.squares(), color);
            }
            None
        } else {
            let t = ks.trailing_zeros();
            proof {
                axiom_u64_trailing_zeros(ks);
                assert(bit(ks, t as int));
                assert forall|j: int| 0 <= j < t implies #[trigger] self.squares()[j] != king by {
                    assert((ks >> (j as u64)) & 1u64 == 0u64);
                }
                lemma_first_king(self.squares(), color, t as int);
            }
            Some(Square(t as i8))
        }
    }
}

/// A bit of `a & b` is set where it is set in both.
pub proof fn lemma_bit_and(a: u64, b: u64, q: u64)
    requires
        q < 64,
    ensures
        (((a & b) >> q) & 1 == 1) == (((a >> q) & 1 == 1) && ((b >> q) & 1 == 1)),
{
    lemma_bits64(a, b, 0, q);
}

/// A bit of `x` with bit `p` flipped is the bit of `x`, flipped at `p`.
pub proof fn lemma_bit_flip(x: u64, p: u64, q: u64)
    requires
        p < 64,
        q < 64,
    ensures
        (((x ^ (1u64 << p)) >> q) & 1 == 1) == (((x >> q) & 1 == 1) != (p == q)),
{
    lemma_bits64(x, 0, p, q);
}

pub open spec fn color_of(c: int) -> Color {
    if c == 0 {
        Color::White
    } else {
        Color::Black
    }
}

pub open spec fn color_index(c: Color) -> int {
    match c {
        Color::White => 0,
        Color::Black => 1,
    }
}

/// For a king move without capture between these squares, the rook's
/// from and to squares and its color.
pub open spec fn castle_rook(m: Move) -> Option<(int, int, Color)> {
    if m.from_kind() == 5 && m.cap() == 0 {
        if m.from() == 4 && m.to() == 6 {
            Some((7, 5, Color::White))
        } else if m.from() == 60 && m.to() == 62 {
            Some((63, 61, Color::Black))
        } else if m.from() == 4 && m.to() == 2 {
            Some((0, 3, Color::White))
        } else if m.from() == 60 && m.to() == 58 {
            Some((56, 59, Color::Black))
        } else {
            None
        }
    } else {
        None
    }
}

/// For a pawn move without capture onto the en passant square of file
/// `ep_file` by side `c`, the square of the pawn taken en passant.
pub open spec fn ep_victim(ep_file: int, c: int, m: Move) -> Option<int> {
    if m.cap() == 0 && m.from_kind() == 0 && ep_file < 8 {
        if c == 0 && m.to() == 40 + ep_file {
            Some(32 + ep_file)
        } else if c == 1 && m.to() == 16 + ep_file {
            Some(24 + ep_file)
        } else {
            None
        }
    } else {
        None
    }
}

/// The board after side `c` plays `m`, the en passant file being `ep_file`.
pub open spec fn after_squares(sq: Seq<Option<Piece>>, c: int, ep_file: int, m: Move) -> Seq<Option<Piece>> {
    let moved = sq.update(m.from() as int, None).update(
        m.to() as int,
        Some(Piece { color: color_of(c), kind: PieceKind::from_index(m.to_kind()) }),
    );
    match castle_rook(m) {
        Some((rf, rt, col)) => moved.update(rf, None).update(rt, Some(Piece { color: col, kind: PieceKind::Rook })),
        None => match ep_victim(ep_file, c, m) {
            Some(v) => moved.update(v, None),
            None => moved,
        },
    }
}

/// The board before side `c` played `m`, the en passant file having been
/// `ep_file`.
pub open spec fn before_squares(sq: Seq<Option<Piece>>, c: int, ep_file: int, m: Move) -> Seq<Option<Piece>> {
    let back = sq.update(
        m.to() as int,
        if m.cap() == 0 {
            None
        } else {
            Some(Piece { color: color_of(1 - c), kind: PieceKind::from_index((m.cap() - 1) as u32) })
        },
    ).update(m.from() as int, Some(Piece { color: color_of(c), kind: PieceKind::from_index(m.from_kind()) }));
    match castle_rook(m) {
        Some((rf, rt, col)) => back.update(rt, None).update(rf, Some(Piece { color: col, kind: PieceKind::Rook })),
        None => match ep_victim(ep_file, c, m) {
            Some(v) => back.update(v, Some(Piece { color: color_of(1 - c), kind: PieceKind::Pawn })),
            None => back,
        },
    }
}

/// Whether side `c` can play `m` on the board `sq`: its piece of the moving
/// kind stands on the from square, the to square holds the captured piece
/// or nothing, and the rook of a castling or the pawn taken en passant is
/// in place.
pub open spec fn move_ok_sq(sq: Seq<Option<Piece>>, c: int, ep_file: int, m: Move) -> bool {
    &&& m.wf()
    &&& m.from() != m.to()
    &&& sq[m.from() as int] == Some(Piece { color: color_of(c), kind: PieceKind::from_index(m.from_kind()) })
    &&& sq[m.to() as int] == if m.cap() == 0 {
        None
    } else {
        Some(Piece { color: color_of(1 - c), kind: PieceKind::from_index((m.cap() - 1) as u32) })
    }
    &&& match castle_rook(m) {
        Some((rf, rt, col)) => col == color_of(c) && sq[rf] == Some(Piece { color: col, kind: PieceKind::Rook })
            && sq[rt] is None,
        None => true,
    }
    &&& match ep_victim(ep_file, c, m) {
        Some(v) => sq[v] == Some(Piece { color: color_of(1 - c), kind: PieceKind::Pawn }),
        None => true,
    }
}

/// Whether `m` can be taken back on the board `sq`, side `c` having played
/// it with en passant file `ep_file`.
pub open spec fn unmake_ok_sq(sq: Seq<Option<Piece>>, c: int, ep_file: int, m: Move) -> bool {
    &&& m.wf()
    &&& m.from() != m.to()
    &&& sq[m.to() as int] == Some(Piece { color: color_of(c), kind: PieceKind::from_index(m.to_kind()) })
    &&& sq[m.from() as int] is None
    &&& match castle_rook(m) {
        Some((rf, rt, col)) => col == color_of(c) && sq[rt] == Some(Piece { color: col, kind: PieceKind::Rook })
            && sq[rf] is None,
        None => true,
    }
    &&& match ep_victim(ep_file, c, m) {
        Some(v) => sq[v] is None && v != m.from(),
        None => true,
    }
}

/// The castling rights that stay when a piece moves from or to square `q`:
/// all of them, except those of a king or rook on its home square.
pub open spec fn castle_filter(q: int) -> u8 {
    if q == 0 {
        0xfd
    } else if q == 4 {
        0xfc
    } else if q == 7 {
        0xfe
    } else if q == 56 {
        0xf7
    } else if q == 60 {
        0xf3
    } else if q == 63 {
        0xfb
    } else {
        0xff
    }
}

fn castling_filter(q: u32) -> (r: u8)
    ensures
        r == castle_filter(q as int),
{
    if q == 0 {
        0xfd
    } else if q == 4 {
        0xfc
    } else if q == 7 {
        0xfe
    } else if q == 56 {
        0xf7
    } else if q == 60 {
        0xf3
    } else if q == 63 {
        0xfb
    } else {
        0xff
    }
}

/// Xor facts for the hash of a position.
proof fn lemma_xor(a: u64, b: u64, c: u64, d: u64)
    by (bit_vector)
    ensures
        ((a ^ b) ^ b) ^ c == a ^ c,
        ((a ^ c) ^ d) ^ b == ((a ^ b) ^ c) ^ d,
        a ^ 0u64 == a,
        0u64 ^ a == a,
        a ^ a == 0u64,
        (a ^ b) ^ c == a ^ (b ^ c),
        ((a ^ b) ^ c) ^ d == ((a ^ b) ^ d) ^ c,
        (a ^ b) ^ c == (a ^ c) ^ b,
{
}

/// Changing one square changes the key of the pieces by the keys of what
/// was there and what is there now.
pub proof fn lemma_pieces_key_update(keys: Seq<u64>, sq: Seq<Option<Piece>>, q: int, v: Option<Piece>, n: nat)
    requires
        0 <= q < sq.len(),
        n <= sq.len(),
    ensures
        pieces_key(keys, sq.update(q, v), n) == if q < n {
            pieces_key(keys, sq, n) ^ square_key(keys, sq[q], q) ^ square_key(keys, v, q)
        } else {
            pieces_key(keys, sq, n)
        },
    decreases n,
{
    if n > 0 {
        lemma_pieces_key_update(keys, sq, q, v, (n - 1) as nat);
        let up = sq.update(q, v);
        let p = pieces_key(keys, sq, (n - 1) as nat);
        if q == n - 1 {
            lemma_xor(p, square_key(keys, sq[q], q), square_key(keys, v, q), 0);
        } else if q < n - 1 {
            lemma_xor(p, square_key(keys, sq[n - 1], n - 1), square_key(keys, sq[q], q), square_key(keys, v, q));
        }
    }
}

/// The hash of a move's position: the keys of the side to play, the
/// castling rights and the en passant file, and those of the squares it
/// changes, cancel out and come in by xor.
proof fn lemma_xor_hash(
    hash: u64,
    p: u64,
    black: u64,
    bk: u64,
    c0: u64,
    e0: u64,
    kf: u64,
    kt: u64,
    z: u64,
    h3: u64,
    pa: u64,
    c1: u64,
    e1: u64,
)
    by (bit_vector)
    requires
        hash == ((p ^ black) ^ c0) ^ e0,
        h3 == ((((hash ^ e0) ^ c0) ^ kf) ^ kt) ^ z,
        pa == ((p ^ kf) ^ kt) ^ z,
    ensures
        ((h3 ^ e1) ^ bk) ^ c1 == ((pa ^ (black ^ bk)) ^ c1) ^ e1,
{
}

/// The hash that `make_move` leaves is the Zobrist hash of the position it
/// makes, where the hash it starts from is that of the position before.
pub proof fn lemma_hash_kept(s: State, m: Move, t: State)
    requires
        s.wf(),
        s.move_ok(m),
        s.hash == s.zobrist(),
        t.keys@ == s.keys@,
        t.squares() == after_squares(s.squares(), s.side() as int, s.ep_file as int, m),
        t.flags == s.flags_after(m),
        t.ep_file == m.ep_file(),
        t.hash == s.hash_after(m),
    ensures
        t.hash == t.zobrist(),
{
    let keys = s.keys@;
    let sq = s.squares();
    let c = s.side() as int;
    let f = m.from() as int;
    let to = m.to() as int;
    lemma_small_bits(s.flags, 0, 0, m.0, 0);
    lemma_filter_bits(f);
    lemma_filter_bits(to);
    lemma_flags_after(s.flags, castle_filter(f), castle_filter(to), 1);
    assert(t.side() == 1 - c);
    let bk = s.keys[BLACK_KEY as int];
    let black = if c == 1 {
        bk
    } else {
        0u64
    };
    let black2 = if 1 - c == 1 {
        bk
    } else {
        0u64
    };
    lemma_xor(bk, 0, 0, 0);
    assert(black2 == black ^ bk);
    let c0 = s.keys[CASTLING_KEYS + (s.flags & 15)];
    let e0 = s.keys[EP_KEYS + s.ep_file];
    let c1 = s.keys[CASTLING_KEYS + (s.flags_after(m) & 15)];
    let e1 = s.keys[EP_KEYS + m.ep_file()];
    let p = pieces_key(keys, sq, 64);
    let kf = s.key(m.from_kind() as int, c, f);
    let kt = s.key(m.to_kind() as int, c, to);
    let np = Piece { color: color_of(c), kind: PieceKind::from_index(m.to_kind()) };
    assert(square_key(keys, sq[f], f) == kf);
    assert(square_key(keys, Some(np), to) == kt);
    let sq1 = sq.update(f, None);
    let moved = sq1.update(to, Some(np));
    lemma_pieces_key_update(keys, sq, f, None, 64);
    lemma_pieces_key_update(keys, sq1, to, Some(np), 64);
    lemma_xor(p ^ kf, 0, 0, 0);
    let x = square_key(keys, sq[to], to);
    assert(sq1[to] == sq[to]);
    assert(pieces_key(keys, moved, 64) == ((p ^ kf) ^ x) ^ kt);
    lemma_xor(p ^ kf, x, kt, 0);
    assert(pieces_key(keys, moved, 64) == ((p ^ kf) ^ kt) ^ x);
    let h2 = (((s.hash ^ e0) ^ c0) ^ kf) ^ kt;
    if m.cap() != 0 {
        assert(x == s.key(m.cap() - 1, 1 - c, to));
        assert(t.squares() =~= moved);
        lemma_xor_hash(s.hash, p, black, bk, c0, e0, kf, kt, x, h2 ^ x, pieces_key(keys, moved, 64), c1, e1);
    } else {
        assert(x == 0);
        lemma_xor(h2, 0, 0, 0);
        lemma_xor((p ^ kf) ^ kt, 0, 0, 0);
        match castle_rook(m) {
            Some((rf, rt, col)) => {
                let rook = Piece { color: col, kind: PieceKind::Rook };
                let krf = s.key(3, color_index(col), rf);
                let krt = s.key(3, color_index(col), rt);
                assert(square_key(keys, moved[rf], rf) == krf);
                assert(square_key(keys, Some(rook), rt) == krt);
                let m2 = moved.update(rf, None);
                lemma_pieces_key_update(keys, moved, rf, None, 64);
                lemma_pieces_key_update(keys, m2, rt, Some(rook), 64);
                assert(m2[rt] is None);
                let pm = (p ^ kf) ^ kt;
                lemma_xor(pm, krf, 0, 0);
                lemma_xor(pm ^ krf, 0, 0, 0);
                lemma_xor(pm, krf, krt, 0);
                lemma_xor(h2, krf, krt, 0);
                assert(t.squares() =~= m2.update(rt, Some(rook)));
                lemma_xor_hash(s.hash, p, black, bk, c0, e0, kf, kt, krf ^ krt, (h2 ^ krf) ^ krt, (pm ^ krf) ^ krt, c1, e1);
            },
            None => {
                match ep_victim(s.ep_file as int, c, m) {
                    Some(v) => {
                        let kv = s.key(0, 1 - c, v);
                        assert(square_key(keys, moved[v], v) == kv);
                        lemma_pieces_key_update(keys, moved, v, None, 64);
                        let pm = (p ^ kf) ^ kt;
                        lemma_xor(pm ^ kv, 0, 0, 0);
                        assert(t.squares() =~= moved.update(v, None));
                        lemma_xor_hash(s.hash, p, black, bk, c0, e0, kf, kt, kv, h2 ^ kv, pm ^ kv, c1, e1);
                    },
                    None => {
                        assert(t.squares() =~= moved);
                        lemma_xor_hash(s.hash, p, black, bk, c0, e0, kf, kt, 0, h2 ^ 0, ((p ^ kf) ^ kt) ^ 0, c1, e1);
                    },
                }
            },
        }
    }
}

/// Xor and flag facts for passing: the key of the moved square goes out and
/// comes back, and the castling rights stay.
proof fn lemma_xor_null(flags: u8, hash: u64, p: u64, black: u64, bk: u64, c0: u64, e0: u64, kf: u64, e1: u64)
    by (bit_vector)
    requires
        hash == ((p ^ black) ^ c0) ^ e0,
    ensures
        ((((((hash ^ e0) ^ c0) ^ kf) ^ kf) ^ e1) ^ bk) ^ c0 == ((p ^ (black ^ bk)) ^ c0) ^ e1,
        ((flags & 0xffu8 & 0xffu8) ^ 16) & 15 == flags & 15,
{
}

/// The hash that `make_move` leaves after passing is the Zobrist hash of the
/// position with the other side to play and no en passant file.
pub proof fn lemma_hash_kept_null(s: State, m: Move, t: State)
    requires
        s.wf(),
        m == Move::null_spec(),
        s.hash == s.zobrist(),
        t.keys@ == s.keys@,
        t.squares() == s.squares(),
        t.flags == s.flags_after(m),
        t.ep_file == m.ep_file(),
        t.hash == s.hash_after(m),
    ensures
        t.hash == t.zobrist(),
{
    lemma_encode(1, 1, 0, 0, 0, 8);
    lemma_small_bits(s.flags, 0, 0, 0, 0);
    lemma_filter_bits(1);
    lemma_flags_after(s.flags, castle_filter(1), castle_filter(1), 1);
    let c = s.side() as int;
    assert(t.side() == 1 - c);
    let bk = s.keys[BLACK_KEY as int];
    let black = if c == 1 {
        bk
    } else {
        0u64
    };
    lemma_xor(bk, 0, 0, 0);
    let c0 = s.keys[CASTLING_KEYS + (s.flags & 15)];
    let e0 = s.keys[EP_KEYS + s.ep_file];
    let e1 = s.keys[EP_KEYS + m.ep_file()];
    let p = pieces_key(s.keys@, s.squares(), 64);
    let kf = s.key(0, c, 1);
    lemma_xor_null(s.flags, s.hash, p, black, bk, c0, e0, kf, e1);
    assert(s.flags_after(m) & 15 == s.flags & 15);
}

impl State {
    /// The Zobrist key of a piece of kind `kind` and color `color` on `q`.
    pub open spec fn key(self, kind: int, color: int, q: int) -> u64 {
        self.keys[(kind * 2 + color) * 64 + q]
    }

    pub open spec fn move_ok(self, m: Move) -> bool {
        move_ok_sq(self.squares(), self.side() as int, self.ep_file as int, m)
    }

    /// The flags after `m`: castling rights of the squares it touches go,
    /// and the other side is to play.
    pub open spec fn flags_after(self, m: Move) -> u8 {
        (self.flags & castle_filter(m.from() as int) & castle_filter(m.to() as int)) ^ 16
    }

    /// Adds a piece to an empty square, or removes the piece that is there.
    pub fn toggle_piece(&mut self, q: u32, color: usize, kind: usize)
        requires
            old(self).boards_ok(),
            q < 64,
            color < 2,
            kind < 6,
            old(self).squares()[q as int] is None || old(self).squares()[q as int] == Some(
                Piece { color: color_of(color as int), kind: PieceKind::from_index(kind as u32) },
            ),
        ensures
            final(self).boards_ok(),
            final(self).squares() == old(self).squares().update(
                q as int,
                if old(self).squares()[q as int] is None {
                    Some(Piece { color: color_of(color as int), kind: PieceKind::from_index(kind as u32) })
                } else {
                    None
                },
            ),
            final(self).flags == old(self).flags,
            final(self).ep_file == old(self).ep_file,
            final(self).hash == old(self).hash,
            final(self).keys@ == old(self).keys@,
            final(self).keys == old(self).keys,
    {
        let bit_q: u64 = 1u64 << (q as u64);
        self.by_color[color] = self.by_color[color] ^ bit_q;
        self.by_kind[kind] = self.by_kind[kind] ^ bit_q;
        proof {
            let o = *old(self);
            assert(o.square_ok(q as int));
            assert forall|j: int| 0 <= j < 64 implies #[trigger] self.square_ok(j) && self.at(j) == (if j == q {
                if o.at(q as int) is None {
                    Some(Piece { color: color_of(color as int), kind: PieceKind::from_index(kind as u32) })
                } else {
                    None
                }
            } else {
                o.at(j)
            }) by {
                assert(o.square_ok(j));
                let jj = j as u64;
                lemma_bit_flip(o.by_color[color as int], q as u64, jj);
                lemma_bit_flip(o.by_kind[kind as int], q as u64, jj);
                assert(forall|i: int| 0 <= i < 2 && i != color ==> self.by_color[i] == o.by_color[i]);
                assert(forall|i: int| 0 <= i < 6 && i != kind ==> self.by_kind[i] == o.by_kind[i]);
                if j == q {
                    if o.at(q as int) is None {
                    } else {
                    }
                }
            }
            let nv = if o.at(q as int) is None {
                Some(Piece { color: color_of(color as int), kind: PieceKind::from_index(kind as u32) })
            } else {
                None
            };
            assert forall|j: int| 0 <= j < 64 implies #[trigger] self.squares()[j] == o.squares().update(q as int, nv)[j] by {
                assert(self.square_ok(j));
            }
            assert(self.squares() =~= o.squares().update(
                q as int,
                if o.at(q as int) is None {
                    Some(Piece { color: color_of(color as int), kind: PieceKind::from_index(kind as u32) })
                } else {
                    None
                },
            ));
        }
    }
}

impl State {
    /// The hash after `m`, updated key by key as `make_move` does: the old
    /// en passant and castling keys out, the pieces that move or go, and the
    /// new en passant, side and castling keys in.
    pub open spec fn hash_after(self, m: Move) -> u64 {
        let c = self.side() as int;
        let f = m.from() as int;
        let t = m.to() as int;
        let h1 = self.hash ^ self.keys[EP_KEYS + self.ep_file] ^ self.keys[CASTLING_KEYS + (self.flags & 15)];
        let h2 = h1 ^ self.key(m.from_kind() as int, c, f) ^ self.key(m.to_kind() as int, c, t);
        let h3 = if m.cap() != 0 {
            h2 ^ self.key(m.cap() - 1, 1 - c, t)
        } else {
            match castle_rook(m) {
                Some((rf, rt, col)) => h2 ^ self.key(3, color_index(col), rf) ^ self.key(3, color_index(col), rt),
                None => match ep_victim(self.ep_file as int, c, m) {
                    Some(v) => h2 ^ self.key(0, 1 - c, v),
                    None => h2,
                },
            }
        };
        h3 ^ self.keys[EP_KEYS + m.ep_file()] ^ self.keys[BLACK_KEY as int] ^ self.keys[CASTLING_KEYS + (
        self.flags_after(m) & 15)]
    }

    /// Plays `m`, which must fit the position, and records on `undo_log`
    /// what `unmake_move` needs to take it back.
    pub fn make_move(&mut self, m: Move, undo_log: &mut Vec<UndoEntry>)
        requires
            old(self).wf(),
            old(self).move_ok(m) || m == Move::null_spec(),
        ensures
            final(self).wf(),
            final(undo_log)@ == old(undo_log)@.push(
                UndoEntry { hash: old(self).hash, flags: old(self).flags, ep_file: old(self).ep_file },
            ),
            m.from() != m.to() ==> final(self).squares() == after_squares(
                old(self).squares(),
                old(self).side() as int,
                old(self).ep_file as int,
                m,
            ),
            m.from() == m.to() ==> final(self).squares() == old(self).squares(),
            final(self).flags == old(self).flags_after(m),
            final(self).ep_file == m.ep_file(),
            final(self).hash == old(self).hash_after(m),
            final(self).keys@ == old(self).keys@,
            final(self).keys == old(self).keys,
            old(self).hash == old(self).zobrist() ==> final(self).hash == final(self).zobrist(),
    {
        undo_log.push(UndoEntry { hash: self.hash, flags: self.flags, ep_file: self.ep_file });
        let ghost o = *self;
        let c = self.side_to_play_() as usize;
        let from = m.from();
        let to = m.to();
        let fk = m.from_kind() as usize;
        let tk = m.to_kind() as usize;
        let cap = m.cap();
        let ep = self.ep_file as usize;
        proof {
            let x = m.0;
            lemma_small_bits(0, 0, 0, x, 0);
            lemma_small_bits(self.flags, 0, 0, 0, 0);
            lemma_encode(1, 1, 0, 0, 0, 8);
        }
        let mut h = self.hash ^ self.keys[EP_KEYS + ep];
        h = h ^ self.keys[CASTLING_KEYS + (self.flags & 15) as usize];
        if from != to {
            if cap != 0 {
                self.toggle_piece(to, 1 - c, (cap - 1) as usize);
            }
            self.toggle_piece(from, c, fk);
            self.toggle_piece(to, c, tk);
        }
        h = h ^ self.keys[(fk * 2 + c) * 64 + from as usize];
        h = h ^ self.keys[(tk * 2 + c) * 64 + to as usize];
        let ghost moved = self.squares();
        if cap != 0 {
            h = h ^ self.keys[((cap - 1) as usize * 2 + 1 - c) * 64 + to as usize];
        } else if fk == 5 {
            if from == 4 && to == 6 {
                self.toggle_piece(7, 0, 3);
                self.toggle_piece(5, 0, 3);
                h = h ^ self.keys[(3 * 2 + 0) * 64 + 7] ^ self.keys[(3 * 2 + 0) * 64 + 5];
            } else if from == 60 && to == 62 {
                self.toggle_piece(63, 1, 3);
                self.toggle_piece(61, 1, 3);
                h = h ^ self.keys[(3 * 2 + 1) * 64 + 63] ^ self.keys[(3 * 2 + 1) * 64 + 61];
            } else if from == 4 && to == 2 {
                self.toggle_piece(0, 0, 3);
                self.toggle_piece(3, 0, 3);
                h = h ^ self.keys[(3 * 2 + 0) * 64 + 0] ^ self.keys[(3 * 2 + 0) * 64 + 3];
            } else if from == 60 && to == 58 {
                self.toggle_piece(56, 1, 3);
                self.toggle_piece(59, 1, 3);
                h = h ^ self.keys[(3 * 2 + 1) * 64 + 56] ^ self.keys[(3 * 2 + 1) * 64 + 59];
            }
        } else if ep < 8 && fk == 0 {
            if c == 0 && to as usize == 40 + ep {
                self.toggle_piece((32 + ep) as u32, 1, 0);
                h = h ^ self.keys[(0 * 2 + 1) * 64 + 32 + ep];
            } else if c == 1 && to as usize == 16 + ep {
                self.toggle_piece((24 + ep) as u32, 0, 0);
                h = h ^ self.keys[(0 * 2 + 0) * 64 + 24 + ep];
            }
        }
        let filter = castling_filter(from) & castling_filter(to);
        let new_flags = (self.flags & filter) ^ 16;
        let new_ep = m.ep_file() as u8;
        h = h ^ self.keys[EP_KEYS + new_ep as usize];
        h = h ^ self.keys[BLACK_KEY];
        proof {
            lemma_small_bits(new_flags, 0, 0, 0, 0);
        }
        h = h ^ self.keys[CASTLING_KEYS + (new_flags & 15) as usize];
        let ghost before = *self;
        self.flags = new_flags;
        self.ep_file = new_ep;
        self.hash = h;
        proof {
            let f0 = o.flags;
            let f1 = castle_filter(from as int);
            let f2 = castle_filter(to as int);
            lemma_small_bits(f0, f1, f2, 0, 0);
            lemma_wf_fields(before, *self);
            if from != to {
                assert(self.squares() =~= after_squares(o.squares(), o.side() as int, o.ep_file as int, m));
                if o.hash == o.zobrist() {
                    lemma_hash_kept(o, m, *self);
                }
            } else {
                if o.hash == o.zobrist() {
                    lemma_hash_kept_null(o, m, *self);
                }
            }
        }
    }

    /// Takes back `m`, the last move made, restoring what the top of
    /// `undo_log` recorded.
    pub fn unmake_move(&mut self, m: Move, undo_log: &mut Vec<UndoEntry>)
        requires
            old(self).wf(),
            old(undo_log).len() > 0,
            old(undo_log)@.last().flags < 32,
            old(undo_log)@.last().ep_file <= 8,
            unmake_ok_sq(
                old(self).squares(),
                (old(undo_log)@.last().flags >> 4) as int,
                old(undo_log)@.last().ep_file as int,
                m,
            ) || m == Move::null_spec(),
        ensures
            final(self).wf(),
            final(undo_log)@ == old(undo_log)@.drop_last(),
            m.from() == m.to() ==> final(self).squares() == old(self).squares(),
            m.from() != m.to() ==> final(self).squares() == before_squares(
                old(self).squares(),
                (old(undo_log)@.last().flags >> 4) as int,
                old(undo_log)@.last().ep_file as int,
                m,
            ),
            final(self).hash == old(undo_log)@.last().hash,
            final(self).flags == old(undo_log)@.last().flags,
            final(self).ep_file == old(undo_log)@.last().ep_file,
            final(self).keys@ == old(self).keys@,
            final(self).keys == old(self).keys,
    {
        let ghost o = *self;
        let u = undo_log.pop().unwrap();
        self.hash = u.hash;
        self.flags = u.flags;
        self.ep_file = u.ep_file;
        proof {
            lemma_wf_fields(o, *self);
        }
        let c = self.side_to_play_() as usize;
        let from = m.from();
        let to = m.to();
        let fk = m.from_kind() as usize;
        let tk = m.to_kind() as usize;
        let cap = m.cap();
        let ep = self.ep_file as usize;
        proof {
            let x = m.0;
            lemma_small_bits(0, 0, 0, x, 0);
            lemma_encode(1, 1, 0, 0, 0, 8);
        }
        if from == to {
            return;
        }
        self.toggle_piece(to, c, tk);
        self.toggle_piece(from, c, fk);
        if cap != 0 {
            self.toggle_piece(to, 1 - c, (cap - 1) as usize);
        } else if fk == 5 {
            if from == 4 && to == 6 {
                self.toggle_piece(5, 0, 3);
                self.toggle_piece(7, 0, 3);
            } else if from == 60 && to == 62 {
                self.toggle_piece(61, 1, 3);
                self.toggle_piece(63, 1, 3);
            } else if from == 4 && to == 2 {
                self.toggle_piece(3, 0, 3);
                self.toggle_piece(0, 0, 3);
            } else if from == 60 && to == 58 {
                self.toggle_piece(59, 1, 3);
                self.toggle_piece(56, 1, 3);
            }
        } else if ep < 8 && fk == 0 {
            if c == 0 && to as usize == 40 + ep {
                self.toggle_piece((32 + ep) as u32, 1, 0);
            } else if c == 1 && to as usize == 16 + ep {
                self.toggle_piece((24 + ep) as u32, 0, 0);
            }
        }
        proof {
            assert(self.squares() =~= before_squares(o.squares(), c as int, ep as int, m));
        }
    }
}

/// Taking back a move restores the board it was made on.
pub proof fn lemma_unmake_undoes_make(sq: Seq<Option<Piece>>, c: int, ep_file: int, m: Move)
    requires
        sq.len() == 64,
        0 <= c < 2,
        0 <= ep_file <= 8,
        move_ok_sq(sq, c, ep_file, m),
    ensures
        unmake_ok_sq(after_squares(sq, c, ep_file, m), c, ep_file, m),
        before_squares(after_squares(sq, c, ep_file, m), c, ep_file, m) == sq,
{
    let x = m.0;
    lemma_small_bits(0, 0, 0, x, 0);
    assert(before_squares(after_squares(sq, c, ep_file, m), c, ep_file, m) =~= sq);
}

/// A mask is known by its bits.
proof fn lemma_word_ext(x: u64, y: u64)
    by (bit_vector)
    requires
        bit(x, 0) == bit(y, 0),
        bit(x, 1) == bit(y, 1),
        bit(x, 2) == bit(y, 2),
        bit(x, 3) == bit(y, 3),
        bit(x, 4) == bit(y, 4),
        bit(x, 5) == bit(y, 5),
        bit(x, 6) == bit(y, 6),
        bit(x, 7) == bit(y, 7),
        bit(x, 8) == bit(y, 8),
        bit(x, 9) == bit(y, 9),
        bit(x, 10) == bit(y, 10),
        bit(x, 11) == bit(y, 11),
        bit(x, 12) == bit(y, 12),
        bit(x, 13) == bit(y, 13),
        bit(x, 14) == bit(y, 14),
        bit(x, 15) == bit(y, 15),
        bit(x, 16) == bit(y, 16),
        bit(x, 17) == bit(y, 17),
        bit(x, 18) == bit(y, 18),
        bit(x, 19) == bit(y, 19),
        bit(x, 20) == bit(y, 20),
        bit(x, 21) == bit(y, 21),
        bit(x, 22) == bit(y, 22),
        bit(x, 23) == bit(y, 23),
        bit(x, 24) == bit(y, 24),
        bit(x, 25) == bit(y, 25),
        bit(x, 26) == bit(y, 26),
        bit(x, 27) == bit(y, 27),
        bit(x, 28) == bit(y, 28),
        bit(x, 29) == bit(y, 29),
        bit(x, 30) == bit(y, 30),
        bit(x, 31) == bit(y, 31),
        bit(x, 32) == bit(y, 32),
        bit(x, 33) == bit(y, 33),
        bit(x, 34) == bit(y, 34),
        bit(x, 35) == bit(y, 35),
        bit(x, 36) == bit(y, 36),
        bit(x, 37) == bit(y, 37),
        bit(x, 38) == bit(y, 38),
        bit(x, 39) == bit(y, 39),
        bit(x, 40) == bit(y, 40),
        bit(x, 41) == bit(y, 41),
        bit(x, 42) == bit(y, 42),
        bit(x, 43) == bit(y, 43),
        bit(x, 44) == bit(y, 44),
        bit(x, 45) == bit(y, 45),
        bit(x, 46) == bit(y, 46),
        bit(x, 47) == bit(y, 47),
        bit(x, 48) == bit(y, 48),
        bit(x, 49) == bit(y, 49),
        bit(x, 50) == bit(y, 50),
        bit(x, 51) == bit(y, 51),
        bit(x, 52) == bit(y, 52),
        bit(x, 53) == bit(y, 53),
        bit(x, 54) == bit(y, 54),
        bit(x, 55) == bit(y, 55),
        bit(x, 56) == bit(y, 56),
        bit(x, 57) == bit(y, 57),
        bit(x, 58) == bit(y, 58),
        bit(x, 59) == bit(y, 59),
        bit(x, 60) == bit(y, 60),
        bit(x, 61) == bit(y, 61),
        bit(x, 62) == bit(y, 62),
        bit(x, 63) == bit(y, 63),
    ensures
        x == y,
{
}

proof fn lemma_word_from_bits(x: u64, y: u64)
    requires
        forall|q: int| 0 <= q < 64 ==> #[trigger] bit(x, q) == bit(y, q),
    ensures
        x == y,
{
    assert(bit(x, 0) == bit(y, 0));
    assert(bit(x, 1) == bit(y, 1));
    assert(bit(x, 2) == bit(y, 2));
    assert(bit(x, 3) == bit(y, 3));
    assert(bit(x, 4) == bit(y, 4));
    assert(bit(x, 5) == bit(y, 5));
    assert(bit(x, 6) == bit(y, 6));
    assert(bit(x, 7) == bit(y, 7));
    assert(bit(x, 8) == bit(y, 8));
    assert(bit(x, 9) == bit(y, 9));
    assert(bit(x, 10) == bit(y, 10));
    assert(bit(x, 11) == bit(y, 11));
    assert(bit(x, 12) == bit(y, 12));
    assert(bit(x, 13) == bit(y, 13));
    assert(bit(x, 14) == bit(y, 14));
    assert(bit(x, 15) == bit(y, 15));
    assert(bit(x, 16) == bit(y, 16));
    assert(bit(x, 17) == bit(y, 17));
    assert(bit(x, 18) == bit(y, 18));
    assert(bit(x, 19) == bit(y, 19));
    assert(bit(x, 20) == bit(y, 20));
    assert(bit(x, 21) == bit(y, 21));
    assert(bit(x, 22) == bit(y, 22));
    assert(bit(x, 23) == bit(y, 23));
    assert(bit(x, 24) == bit(y, 24));
    assert(bit(x, 25) == bit(y, 25));
    assert(bit(x, 26) == bit(y, 26));
    assert(bit(x, 27) == bit(y, 27));
    assert(bit(x, 28) == bit(y, 28));
    assert(bit(x, 29) == bit(y, 29));
    assert(bit(x, 30) == bit(y, 30));
    assert(bit(x, 31) == bit(y, 31));
    assert(bit(x, 32) == bit(y, 32));
    assert(bit(x, 33) == bit(y, 33));
    assert(bit(x, 34) == bit(y, 34));
    assert(bit(x, 35) == bit(y, 35));
    assert(bit(x, 36) == bit(y, 36));
    assert(bit(x, 37) == bit(y, 37));
    assert(bit(x, 38) == bit(y, 38));
    assert(bit(x, 39) == bit(y, 39));
    assert(bit(x, 40) == bit(y, 40));
    assert(bit(x, 41) == bit(y, 41));
    assert(bit(x, 42) == bit(y, 42));
    assert(bit(x, 43) == bit(y, 43));
    assert(bit(x, 44) == bit(y, 44));
    assert(bit(x, 45) == bit(y, 45));
    assert(bit(x, 46) == bit(y, 46));
    assert(bit(x, 47) == bit(y, 47));
    assert(bit(x, 48) == bit(y, 48));
    assert(bit(x, 49) == bit(y, 49));
    assert(bit(x, 50) == bit(y, 50));
    assert(bit(x, 51) == bit(y, 51));
    assert(bit(x, 52) == bit(y, 52));
    assert(bit(x, 53) == bit(y, 53));
    assert(bit(x, 54) == bit(y, 54));
    assert(bit(x, 55) == bit(y, 55));
    assert(bit(x, 56) == bit(y, 56));
    assert(bit(x, 57) == bit(y, 57));
    assert(bit(x, 58) == bit(y, 58));
    assert(bit(x, 59) == bit(y, 59));
    assert(bit(x, 60) == bit(y, 60));
    assert(bit(x, 61) == bit(y, 61));
    assert(bit(x, 62) == bit(y, 62));
    assert(bit(x, 63) == bit(y, 63));
    lemma_word_ext(x, y);
}

/// A well-formed position is known by its board, flags, en passant file,
/// hash and keys: its masks follow from the board.
pub proof fn lemma_state_unique(a: State, b: State)
    requires
        a.wf(),
        b.wf(),
        a.squares() == b.squares(),
        a.flags == b.flags,
        a.ep_file == b.ep_file,
        a.hash == b.hash,
        a.keys == b.keys,
    ensures
        a == b,
{
    assert forall|q: int| 0 <= q < 64 implies #[trigger] bit(a.by_color[0], q) == bit(b.by_color[0], q) by {
        assert(a.square_ok(q));
        assert(b.square_ok(q));
        assert(a.squares()[q] == a.at(q));
        assert(b.squares()[q] == b.at(q));
    }
    assert forall|q: int| 0 <= q < 64 implies #[trigger] bit(a.by_color[1], q) == bit(b.by_color[1], q) by {
        assert(a.square_ok(q));
        assert(b.square_ok(q));
        assert(a.squares()[q] == a.at(q));
        assert(b.squares()[q] == b.at(q));
    }
    assert forall|q: int| 0 <= q < 64 implies #[trigger] bit(a.by_kind[0], q) == bit(b.by_kind[0], q) by {
        assert(a.square_ok(q));
        assert(b.square_ok(q));
        assert(a.squares()[q] == a.at(q));
        assert(b.squares()[q] == b.at(q));
    }
    assert forall|q: int| 0 <= q < 64 implies #[trigger] bit(a.by_kind[1], q) == bit(b.by_kind[1], q) by {
        assert(a.square_ok(q));
        assert(b.square_ok(q));
        assert(a.squares()[q] == a.at(q));
        assert(b.squares()[q] == b.at(q));
    }
    assert forall|q: int| 0 <= q < 64 implies #[trigger] bit(a.by_kind[2], q) == bit(b.by_kind[2], q) by {
        assert(a.square_ok(q));
        assert(b.square_ok(q));
        assert(a.squares()[q] == a.at(q));
        assert(b.squares()[q] == b.at(q));
    }
    assert forall|q: int| 0 <= q < 64 implies #[trigger] bit(a.by_kind[3], q) == bit(b.by_kind[3], q) by {
        assert(a.square_ok(q));
        assert(b.square_ok(q));
        assert(a.squares()[q] == a.at(q));
        assert(b.squares()[q] == b.at(q));
    }
    assert forall|q: int| 0 <= q < 64 implies #[trigger] bit(a.by_kind[4], q) == bit(b.by_kind[4], q) by {
        assert(a.square_ok(q));
        assert(b.square_ok(q));
        assert(a.squares()[q] == a.at(q));
        assert(b.squares()[q] == b.at(q));
    }
    assert forall|q: int| 0 <= q < 64 implies #[trigger] bit(a.by_kind[5], q) == bit(b.by_kind[5], q) by {
        assert(a.square_ok(q));
        assert(b.square_ok(q));
        assert(a.squares()[q] == a.at(q));
        assert(b.squares()[q] == b.at(q));
    }
    lemma_word_from_bits(a.by_color[0], b.by_color[0]);
    lemma_word_from_bits(a.by_color[1], b.by_color[1]);
    lemma_word_from_bits(a.by_kind[0], b.by_kind[0]);
    lemma_word_from_bits(a.by_kind[1], b.by_kind[1]);
    lemma_word_from_bits(a.by_kind[2], b.by_kind[2]);
    lemma_word_from_bits(a.by_kind[3], b.by_kind[3]);
    lemma_word_from_bits(a.by_kind[4], b.by_kind[4]);
    lemma_word_from_bits(a.by_kind[5], b.by_kind[5]);
    assert(a.by_color =~= b.by_color);
    assert(a.by_kind =~= b.by_kind);
}

/// The well-formedness of a position rests on its masks and the ranges of
/// its other fields.
proof fn lemma_wf_fields(a: State, b: State)
    requires
        a.wf(),
        b.by_color == a.by_color,
        b.by_kind == a.by_kind,
        b.flags < 32,
        b.ep_file <= 8,
        b.keys.len() == NUM_KEYS,
    ensures
        b.wf(),
        b.squares() == a.squares(),
{
    assert forall|q: int| 0 <= q < 64 implies #[trigger] b.square_ok(q) by {
        assert(a.square_ok(q));
    }
    assert(b.squares() =~= a.squares());
}

/// How many of the first `n` squares hold `p`.
pub open spec fn count_piece(sq: Seq<Option<Piece>>, p: Piece, n: nat) -> nat
    decreases n,
{
    if n == 0 {
        0
    } else {
        count_piece(sq, p, (n - 1) as nat) + if sq[n - 1] == Some(p) {
            1nat
        } else {
            0nat
        }
    }
}

/// The material value of a piece, in hundredths of a pawn.
pub open spec fn piece_value(k: PieceKind) -> int {
    match k {
        PieceKind::Pawn => 100,
        PieceKind::Knight => 350,
        PieceKind::Bishop => 350,
        PieceKind::Rook => 525,
        PieceKind::Queen => 1000,
        PieceKind::King => 10000,
    }
}

/// The value that square contents `x` add to the material of `color`.
pub open spec fn value_for(x: Option<Piece>, color: Color) -> int {
    match x {
        Some(p) => if p.color == color {
            piece_value(p.kind)
        } else {
            0
        },
        None => 0,
    }
}

/// Changing one square changes the count of a piece by what it held and
/// what it holds now.
proof fn lemma_count_update(sq: Seq<Option<Piece>>, q: int, v: Option<Piece>, p: Piece, n: nat)
    requires
        0 <= q < sq.len(),
        n <= sq.len(),
    ensures
        count_piece(sq.update(q, v), p, n) == count_piece(sq, p, n) + if q < n {
            (if v == Some(p) { 1int } else { 0int }) - (if sq[q] == Some(p) { 1int } else { 0int })
        } else {
            0int
        },
    decreases n,
{
    if n > 0 {
        lemma_count_update(sq, q, v, p, (n - 1) as nat);
    }
}

/// The material of a side is the sum of the values of its pieces: changing
/// one square of the board changes it by the value of the side's piece that
/// was there and of the one there now, and an empty board has none.
pub proof fn lemma_material_update(sq: Seq<Option<Piece>>, q: int, v: Option<Piece>, color: Color)
    requires
        sq.len() == 64,
        0 <= q < 64,
    ensures
        material_of(sq.update(q, v), color) == material_of(sq, color) - value_for(sq[q], color) + value_for(v, color),
        material_of(Seq::new(64, |i: int| None::<Piece>), color) == 0,
{
    lemma_count_update(sq, q, v, Piece { color, kind: PieceKind::Pawn }, 64);
    lemma_count_update(sq, q, v, Piece { color, kind: PieceKind::Knight }, 64);
    lemma_count_update(sq, q, v, Piece { color, kind: PieceKind::Bishop }, 64);
    lemma_count_update(sq, q, v, Piece { color, kind: PieceKind::Rook }, 64);
    lemma_count_update(sq, q, v, Piece { color, kind: PieceKind::Queen }, 64);
    lemma_count_update(sq, q, v, Piece { color, kind: PieceKind::King }, 64);
    let e = Seq::new(64, |i: int| None::<Piece>);
    assert forall|p: Piece, n: nat| n <= 64 implies #[trigger] count_piece(e, p, n) == 0 by {
        lemma_count_empty(e, p, n);
    }
}

/// No square of an empty board holds a piece.
proof fn lemma_count_empty(e: Seq<Option<Piece>>, p: Piece, n: nat)
    requires
        n <= e.len(),
        forall|i: int| 0 <= i < e.len() ==> e[i] is None,
    ensures
        count_piece(e, p, n) == 0,
    decreases n,
{
    if n > 0 {
        lemma_count_empty(e, p, (n - 1) as nat);
    }
}

/// The total value of the pieces of `color` on the board.
pub open spec fn material_of(sq: Seq<Option<Piece>>, color: Color) -> int {
    (100 * count_piece(sq, Piece { color, kind: PieceKind::Pawn }, 64) + 350 * count_piece(
        sq,
        Piece { color, kind: PieceKind::Knight },
        64,
    ) + 350 * count_piece(sq, Piece { color, kind: PieceKind::Bishop }, 64) + 525 * count_piece(
        sq,
        Piece { color, kind: PieceKind::Rook },
        64,
    ) + 1000 * count_piece(sq, Piece { color, kind: PieceKind::Queen }, 64) + 10000 * count_piece(
        sq,
        Piece { color, kind: PieceKind::King },
        64,
    )) as int
}

pub proof fn lemma_count_bound(sq: Seq<Option<Piece>>, p: Piece, n: nat)
    ensures
        count_piece(sq, p, n) <= n,
    decreases n,
{
    if n > 0 {
        lemma_count_bound(sq, p, (n - 1) as nat);
    }
}

impl State {
    /// Square `q` holds a piece of color `c` and kind `k` exactly when it is
    /// in both masks.
    proof fn lemma_piece_bits(self, c: int, k: int, q: int)
        requires
            self.boards_ok(),
            0 <= c < 2,
            0 <= k < 6,
            0 <= q < 64,
        ensures
            (self.squares()[q] == Some(Piece { color: color_of(c), kind: PieceKind::from_index(k as u32) })) == (bit(
                self.by_color[c],
                q,
            ) && bit(self.by_kind[k], q)),
    {
        assert(self.square_ok(q));
    }

    /// The pieces of color `c` and kind `k` below square `n` are the set
    /// bits of the two masks together.
    proof fn lemma_count_bits(self, c: int, k: int, n: nat)
        requires
            self.wf(),
            0 <= c < 2,
            0 <= k < 6,
            n <= 64,
        ensures
            ones_below(self.by_color[c] & self.by_kind[k], n).len() == count_piece(
                self.squares(),
                Piece { color: color_of(c), kind: PieceKind::from_index(k as u32) },
                n,
            ),
        decreases n,
    {
        if n > 0 {
            self.lemma_count_bits(c, k, (n - 1) as nat);
            self.lemma_piece_bits(c, k, n - 1);
            lemma_bit_and(self.by_color[c], self.by_kind[k], (n - 1) as u64);
        }
    }

    /// The total value of the pieces of `color`.
    pub fn material(&self, color: Color) -> (r: i32)
        requires
            self.wf(),
        ensures
            r == material_of(self.squares(), color),
            0 <= r <= 64 * 12325,
    {
        let c: usize = match color {
            Color::White => 0,
            Color::Black => 1,
        };
        let mine = self.by_color[c];
        let pawns = count_ones(mine & self.by_kind[0]);
        let knights = count_ones(mine & self.by_kind[1]);
        let bishops = count_ones(mine & self.by_kind[2]);
        let rooks = count_ones(mine & self.by_kind[3]);
        let queens = count_ones(mine & self.by_kind[4]);
        let kings = count_ones(mine & self.by_kind[5]);
        proof {
            assert(color_of(c as int) == color);
            self.lemma_count_bits(c as int, 0, 64);
            self.lemma_count_bits(c as int, 1, 64);
            self.lemma_count_bits(c as int, 2, 64);
            self.lemma_count_bits(c as int, 3, 64);
            self.lemma_count_bits(c as int, 4, 64);
            self.lemma_count_bits(c as int, 5, 64);
        }
        (pawns * 100 + knights * 350 + bishops * 350 + rooks * 525 + queens * 1000 + kings * 10000) as i32
    }
}

/// The Zobrist key of the contents of square `q`: 0 for an empty square.
pub open spec fn square_key(keys: Seq<u64>, p: Option<Piece>, q: int) -> u64 {
    match p {
        None => 0,
        Some(p) => keys[(p.kind.index() * 2 + color_index(p.color)) * 64 + q],
    }
}

/// The keys of the pieces on the first `n` squares, combined by xor.
pub open spec fn pieces_key(keys: Seq<u64>, sq: Seq<Option<Piece>>, n: nat) -> u64
    decreases n,
{
    if n == 0 {
        0
    } else {
        pieces_key(keys, sq, (n - 1) as nat) ^ square_key(keys, sq[n - 1], n - 1)
    }
}

/// Whether a pawn of `c` stands next to file `f` on the rank from which it
/// could take en passant a pawn that has just moved two squares.
pub open spec fn ep_pawn_next(sq: Seq<Option<Piece>>, c: Color, f: int) -> bool {
    let r: int = if c == Color::White {
        4
    } else {
        3
    };
    let pawn = Some(Piece { color: c, kind: PieceKind::Pawn });
    (f > 0 && sq[r * 8 + f - 1] == pawn) || (f < 7 && sq[r * 8 + f + 1] == pawn)
}

/// The flags of a position from those of a board: side to play in bit 4,
/// castling rights in bits 0 to 3.
pub open spec fn state_flags(bits: u8) -> u8 {
    ((if bits & WHITE_TO_PLAY == 0 {
        16int
    } else {
        0
    }) + (if bits & WHITE_CAN_OO != 0 {
        1int
    } else {
        0
    }) + (if bits & WHITE_CAN_OOO != 0 {
        2int
    } else {
        0
    }) + (if bits & BLACK_CAN_OO != 0 {
        4int
    } else {
        0
    }) + (if bits & BLACK_CAN_OOO != 0 {
        8int
    } else {
        0
    })) as u8
}

/// The flags of a board from those of a position.
pub open spec fn board_flags(flags: u8) -> u8 {
    ((if flags & 16 == 0 {
        WHITE_TO_PLAY as int
    } else {
        0
    }) + (if flags & 1 != 0 {
        WHITE_CAN_OO as int
    } else {
        0
    }) + (if flags & 2 != 0 {
        WHITE_CAN_OOO as int
    } else {
        0
    }) + (if flags & 4 != 0 {
        BLACK_CAN_OO as int
    } else {
        0
    }) + (if flags & 8 != 0 {
        BLACK_CAN_OOO as int
    } else {
        0
    })) as u8
}

/// The mask that the en passant test of file `f` looks at, for the side
/// whose pawns would take, shifted up a rank by `s` (0 or 8).
proof fn lemma_ep_mask(x: u64, f: u64, s: u64)
    requires
        f < 8,
        s == 0 || s == 8,
    ensures
        (x & (((5u64 << ((f + 23) as u64)) & 0xff000000u64) << s) != 0) == ((f > 0 && ((x >> ((23 + s + f) as u64)) & 1 == 1)) || (
        f < 7 && ((x >> ((25 + s + f) as u64)) & 1 == 1))),
{
    assert((x & (((5u64 << ((f + 23) as u64)) & 0xff000000u64) << s) != 0) == ((f > 0 && ((x >> ((23 + s + f) as u64)) & 1 == 1))
        || (f < 7 && ((x >> ((25 + s + f) as u64)) & 1 == 1)))) by (bit_vector)
        requires
            f < 8,
            s == 0 || s == 8,
    ;
}

impl State {
    /// The Zobrist hash of the position: the keys of the pieces, of black to
    /// play, of the castling rights and of the en passant file.
    pub open spec fn zobrist(self) -> u64 {
        pieces_key(self.keys@, self.squares(), 64) ^ (if self.side() == 1 {
            self.keys[BLACK_KEY as int]
        } else {
            0
        }) ^ self.keys[CASTLING_KEYS + (self.flags & 15)] ^ self.keys[EP_KEYS + self.ep_file]
    }

    /// The masks are disjoint as they should be, and the kinds cover the
    /// colors.
    pub open spec fn words_ok(self) -> bool {
        &&& self.by_color[0] & self.by_color[1] == 0
        &&& forall|i: int, j: int| 0 <= j < i < 6 ==> #[trigger] (self.by_kind[i] & self.by_kind[j]) == 0
        &&& self.by_kind[0] | self.by_kind[1] | self.by_kind[2] | self.by_kind[3] | self.by_kind[4] | self.by_kind[5]
            == self.by_color[0] | self.by_color[1]
    }

    pub open spec fn fields_ok(self) -> bool {
        &&& self.flags < 32
        &&& self.ep_file <= 8
        &&& self.keys.len() == NUM_KEYS
    }

    fn recompute_hash(&self) -> (h: u64)
        requires
            self.wf(),
        ensures
            h == self.zobrist(),
    {
        let mut result: u64 = 0;
        let mut sq: i8 = 0;
        while sq < 64
            invariant
                0 <= sq <= 64,
                self.wf(),
                result == pieces_key(self.keys@, self.squares(), sq as nat),
            decreases 64 - sq,
        {
            let q = sq as u64;
            proof {
                lemma_bit_values(self.by_color[0], q);
                lemma_bit_values(self.by_color[1], q);
                lemma_bit_or(self.by_color[0], self.by_color[1], q);
                assert(self.square_ok(sq as int));
            }
            if (self.by_color[0] | self.by_color[1]) & (1u64 << q) != 0 {
                proof {
                    lemma_bits64(self.by_color[0] | self.by_color[1], 0, 0, q);
                }
                let color = ((self.by_color[1] >> q) & 1) as usize;
                let kind = self.get_kind(sq) as usize;
                result = result ^ self.keys[(kind * 2 + color) * 64 + sq as usize];
            } else {
                proof {
                    lemma_bits64(self.by_color[0] | self.by_color[1], 0, 0, q);
                    lemma_bits64(result, 0, 0, q);
                }
            }
            sq = sq + 1;
        }
        let side = self.side_to_play_() as u64;
        proof {
            let k = self.keys[BLACK_KEY as int];
            assert(0u64 * k == 0 && 1u64 * k == k);
            lemma_small_bits(self.flags, 0, 0, 0, 0);
        }
        result = result ^ side * self.keys[BLACK_KEY];
        result = result ^ self.keys[CASTLING_KEYS + (self.flags & 15) as usize];
        result = result ^ self.keys[EP_KEYS + self.ep_file as usize];
        result
    }

    /// Square by square consistency follows from the masks being consistent.
    proof fn lemma_words_ok(self)
        requires
            self.words_ok(),
            self.fields_ok(),
        ensures
            self.wf(),
    {
        assert forall|q: int| 0 <= q < 64 implies #[trigger] self.square_ok(q) by {
            let qq = q as u64;
            let c0 = self.by_color[0];
            let c1 = self.by_color[1];
            let k0 = self.by_kind[0];
            let k1 = self.by_kind[1];
            let k2 = self.by_kind[2];
            let k3 = self.by_kind[3];
            let k4 = self.by_kind[4];
            let k5 = self.by_kind[5];
            assert(k1 & k0 == 0 && k2 & k0 == 0 && k2 & k1 == 0 && k3 & k0 == 0 && k3 & k1 == 0 && k3 & k2 == 0 && k4 & k0
                == 0 && k4 & k1 == 0 && k4 & k2 == 0 && k4 & k3 == 0 && k5 & k0 == 0 && k5 & k1 == 0 && k5 & k2 == 0 && k5
                & k3 == 0 && k5 & k4 == 0);
            lemma_bits64(c0, c1, 0, qq);
            assert(k1 & k0 == 0 && k2 & k0 == 0 && k2 & k1 == 0 && k3 & k0 == 0 && k3 & k1 == 0 && k3 & k2 == 0 && k4 & k0
                == 0 && k4 & k1 == 0 && k4 & k2 == 0 && k4 & k3 == 0 && k5 & k0 == 0 && k5 & k1 == 0 && k5 & k2 == 0 && k5
                & k3 == 0 && k5 & k4 == 0 && k0 | k1 | k2 | k3 | k4 | k5 == c0 | c1 ==> {
                let b0 = (k0 >> qq) & 1;
                let b1 = (k1 >> qq) & 1;
                let b2 = (k2 >> qq) & 1;
                let b3 = (k3 >> qq) & 1;
                let b4 = (k4 >> qq) & 1;
                let b5 = (k5 >> qq) & 1;
                let occ = ((c0 >> qq) & 1 == 1) || ((c1 >> qq) & 1 == 1);
                b0 <= 1 && b1 <= 1 && b2 <= 1 && b3 <= 1 && b4 <= 1 && b5 <= 1 && (b0 + b1 + b2 + b3 + b4 + b5 == if occ {
                    1u64
                } else {
                    0u64
                })
            }) by (bit_vector);
            lemma_bit_values(k0, qq);
            lemma_bit_values(k1, qq);
            lemma_bit_values(k2, qq);
            lemma_bit_values(k3, qq);
            lemma_bit_values(k4, qq);
            lemma_bit_values(k5, qq);
        }
    }

    /// Whether the masks are consistent and the hash is the Zobrist hash of
    /// the position.
    pub fn check(&self) -> (r: bool)
        requires
            self.fields_ok(),
        ensures
            r == (self.words_ok() && self.hash == self.zobrist()),
            r ==> self.wf(),
    {
        if self.by_color[0] & self.by_color[1] != 0 {
            return false;
        }
        let mut occ: u64 = 0;
        let mut i: usize = 0;
        while i < 6
            invariant
                i <= 6,
                self.by_color[0] & self.by_color[1] == 0,
                forall|a: int, b: int| 0 <= b < a < i ==> #[trigger] (self.by_kind[a] & self.by_kind[b]) == 0,
                i == 0 ==> occ == 0,
                i == 1 ==> occ == self.by_kind[0],
                i == 2 ==> occ == self.by_kind[0] | self.by_kind[1],
                i == 3 ==> occ == self.by_kind[0] | self.by_kind[1] | self.by_kind[2],
                i == 4 ==> occ == self.by_kind[0] | self.by_kind[1] | self.by_kind[2] | self.by_kind[3],
                i == 5 ==> occ == self.by_kind[0] | self.by_kind[1] | self.by_kind[2] | self.by_kind[3] | self.by_kind[4],
                i == 6 ==> occ == self.by_kind[0] | self.by_kind[1] | self.by_kind[2] | self.by_kind[3] | self.by_kind[4]
                    | self.by_kind[5],
            decreases 6 - i,
        {
            proof {
                lemma_bits64(self.by_kind[0], 0, 0, 0);
            }
            occ = occ | self.by_kind[i];
            let mut j: usize = 0;
            while j < i
                invariant
                    j <= i < 6,
                    forall|a: int, b: int| 0 <= b < a < i ==> #[trigger] (self.by_kind[a] & self.by_kind[b]) == 0,
                    forall|b: int| 0 <= b < j ==> #[trigger] (self.by_kind[i as int] & self.by_kind[b]) == 0,
                decreases i - j,
            {
                if self.by_kind[i] & self.by_kind[j] != 0 {
                    return false;
                }
                j = j + 1;
            }
            i = i + 1;
        }
        if occ != self.by_color[0] | self.by_color[1] {
            return false;
        }
        proof {
            self.lemma_words_ok();
        }
        self.hash == self.recompute_hash()
    }
}

impl State {
    /// The position of a board: its pieces, side to play and castling
    /// rights, and its en passant file where a pawn of the side to play
    /// stands ready to take there.
    pub fn from_board(b: &BoardState) -> (r: State)
        requires
            b.wf(),
        ensures
            r.wf(),
            r.squares() == b.squares(),
            r.flags == state_flags(b.flags.bits),
            r.ep_file == board_ep_file(*b),
            r.hash == r.zobrist(),
            r.keys@ == seeded_u64s(43, NUM_KEYS as nat),
    {
        let mut result = State::empty();
        let mut sq: i8 = 0;
        while sq < 64
            invariant
                0 <= sq <= 64,
                b.wf(),
                result.wf(),
                result.keys@ == seeded_u64s(43, NUM_KEYS as nat),
                forall|j: int| 0 <= j < sq ==> #[trigger] result.squares()[j] == b.squares()[j],
                forall|j: int| sq <= j < 64 ==> #[trigger] result.squares()[j] is None,
            decreases 64 - sq,
        {
            match b.get_piece(Square(sq)) {
                Some(p) => {
                    let c: usize = match p.color {
                        Color::White => 0,
                        Color::Black => 1,
                    };
                    proof {
                        assert(result.squares()[sq as int] is None);
                        assert(color_of(c as int) == p.color);
                        assert(PieceKind::from_index(p.kind.index()) == p.kind);
                    }
                    result.toggle_piece(sq as u32, c, p.kind.to_int() as usize);
                },
                None => {},
            }
            sq = sq + 1;
        }
        assert(result.squares() =~= b.squares());
        let mut ep_file: u8 = 8;
        if let Some(ep) = b.en_passant_square {
            let c: usize = match b.side_to_play() {
                Color::White => 0,
                Color::Black => 1,
            };
            let f = (ep.0 % 8) as u64;
            let shift = (1 - c as u64) * 8;
            let mask = ((5u64 << (f + 23)) & 0xff000000u64) << shift;
            let pawns = result.by_color[c] & result.by_kind[0];
            proof {
                lemma_ep_mask(pawns, f, shift);
                result.lemma_piece_bits(c as int, 0, (23 + shift + f) as int);
                result.lemma_piece_bits(c as int, 0, (25 + shift + f) as int);
                if f > 0 {
                    lemma_bit_and(result.by_color[c as int], result.by_kind[0], (23 + shift + f) as u64);
                }
                if f < 7 {
                    lemma_bit_and(result.by_color[c as int], result.by_kind[0], (25 + shift + f) as u64);
                }
                assert(color_of(c as int) == b.turn());
            }
            if pawns & mask != 0 {
                ep_file = (ep.0 % 8) as u8;
            }
        }
        let mut flags: u8 = 0;
        if !b.flags.contains(WHITE_TO_PLAY) {
            flags = flags + 16;
        }
        if b.flags.contains(WHITE_CAN_OO) {
            flags = flags + 1;
        }
        if b.flags.contains(WHITE_CAN_OOO) {
            flags = flags + 2;
        }
        if b.flags.contains(BLACK_CAN_OO) {
            flags = flags + 4;
        }
        if b.flags.contains(BLACK_CAN_OOO) {
            flags = flags + 8;
        }
        proof {
            lemma_small_bits(b.flags.bits, 0, 0, 0, 0);
        }
        let ghost before = result;
        result.ep_file = ep_file;
        result.flags = flags;
        proof {
            lemma_wf_fields(before, result);
        }
        let h = result.recompute_hash();
        let ghost before2 = result;
        result.hash = h;
        proof {
            lemma_wf_fields(before2, result);
        }
        result
    }

    /// The board of a position.
    pub fn to_board(&self) -> (r: BoardState)
        requires
            self.wf(),
        ensures
            r.wf(),
            r.squares() == self.squares(),
            r.flags.bits == board_flags(self.flags),
            r.en_passant_square == ep_square_of(self.flags, self.ep_file),
    {
        let mut result = BoardState::empty();
        let mut sq: i8 = 0;
        while sq < 64
            invariant
                0 <= sq <= 64,
                self.wf(),
                result.wf(),
                result.en_passant_square is None,
                forall|j: int| 0 <= j < sq ==> #[trigger] result.squares()[j] == self.squares()[j],
                forall|j: int| sq <= j < 64 ==> #[trigger] result.squares()[j] is None,
            decreases 64 - sq,
        {
            let p = self.get_piece(Square(sq));
            if p.is_some() {
                let mut null = NullObs;
                result.replace_piece(Square(sq), p, &mut null);
            }
            sq = sq + 1;
        }
        assert(result.squares() =~= self.squares());
        let mut bits: u8 = 0;
        if self.flags & 16 == 0 {
            bits = bits + WHITE_TO_PLAY;
        }
        if self.flags & 1 != 0 {
            bits = bits + WHITE_CAN_OO;
        }
        if self.flags & 2 != 0 {
            bits = bits + WHITE_CAN_OOO;
        }
        if self.flags & 4 != 0 {
            bits = bits + BLACK_CAN_OO;
        }
        if self.flags & 8 != 0 {
            bits = bits + BLACK_CAN_OOO;
        }
        result.flags = crate::game::BoardFlags { bits };
        if self.ep_file != 8 {
            if self.flags & 16 == 0 {
                result.en_passant_square = Some(Square(40 + self.ep_file as i8));
            } else {
                result.en_passant_square = Some(Square(16 + self.ep_file as i8));
            }
        }
        result
    }
}

/// The en passant square of a position: on the sixth rank when white is
/// to play, on the third when black is, in file `ep_file` (8 for none).
pub open spec fn ep_square_of(flags: u8, ep_file: u8) -> Option<Square> {
    if ep_file == 8 {
        None
    } else {
        Some(Square(((if flags & 16 == 0 {
            40int
        } else {
            16int
        }) + ep_file) as i8))
    }
}

/// The flags of a board survive the trip to a position and back.
proof fn lemma_flags_round_trip(x: u8)
    by (bit_vector)
    requires
        x < 32,
    ensures
        ((if x & 1u8 == 0 { 16int } else { 0 }) + (if x & 2u8 != 0 { 1int } else { 0 }) + (if x & 4u8 != 0 {
            2int
        } else {
            0
        }) + (if x & 8u8 != 0 { 4int } else { 0 }) + (if x & 16u8 != 0 { 8int } else { 0 })) < 32,
        ({
            let f = ((if x & 1u8 == 0 { 16int } else { 0 }) + (if x & 2u8 != 0 { 1int } else { 0 }) + (if x & 4u8
                != 0 {
                2int
            } else {
                0
            }) + (if x & 8u8 != 0 { 4int } else { 0 }) + (if x & 16u8 != 0 { 8int } else { 0 })) as u8;
            &&& ((if f & 16 == 0 { 1int } else { 0 }) + (if f & 1 != 0 { 2int } else { 0 }) + (if f & 2 != 0 {
                4int
            } else {
                0
            }) + (if f & 4 != 0 { 8int } else { 0 }) + (if f & 8 != 0 { 16int } else { 0 })) as u8 == x
            &&& (f & 16 == 0) == (x & 1u8 == 1u8)
        }),
{
}

/// A board that goes into the bitboard form and comes back out is the same
/// board, but for an en passant square on which no pawn can take, which is
/// forgotten. `s` is what `State::from_board` makes of `b`, and `b2` what
/// `State::to_board` makes of `s`; the board's en passant square, if any,
/// lies behind a pawn of the side not to play that has just moved two
/// squares.
#[verifier::spinoff_prover]
#[verifier::rlimit(40)]
pub proof fn lemma_board_round_trip(b: BoardState, s: State, b2: BoardState)
    requires
        b.wf(),
        b.flags.bits < 32,
        ep_in_place(b),
        s.squares() == b.squares(),
        s.flags == state_flags(b.flags.bits),
        s.ep_file == board_ep_file(b),
        b2.wf(),
        b2.squares() == s.squares(),
        b2.flags.bits == board_flags(s.flags),
        b2.en_passant_square == ep_square_of(s.flags, s.ep_file),
    ensures
        b2.squares() == b.squares(),
        b2.flags == b.flags,
        b2.en_passant_square == match b.en_passant_square {
            None => None,
            Some(sq) => if b.ep_capturable(sq.0 as int) {
                Some(sq)
            } else {
                None
            },
        },
{
    lemma_flags_round_trip(b.flags.bits);
    assert(b2.flags.bits == b.flags.bits);
    match b.en_passant_square {
        None => {
            assert(s.ep_file == 8);
        },
        Some(e) => {
            let f = e.0 as int % 8;
            let sq = b.squares();
            assert((s.flags & 16 == 0) == b.white_to_play());
            if b.white_to_play() {
                assert(e.0 == 40 + f);
                assert(b.ep_capturable(e.0 as int) == ep_pawn_next(sq, Color::White, f)) by {
                    assert(sq[32 + f - 1] == b.at(32 + f - 1));
                    assert(sq[32 + f + 1] == b.at(32 + f + 1));
                }
            } else {
                assert(e.0 == 16 + f);
                assert(b.ep_capturable(e.0 as int) == ep_pawn_next(sq, Color::Black, f)) by {
                    assert(sq[24 + f - 1] == b.at(24 + f - 1));
                    assert(sq[24 + f + 1] == b.at(24 + f + 1));
                }
            }
        },
    }
}

/// The en passant file that a move sets: the file of a pawn's double step
/// when an enemy pawn stands next to where it lands, else none.
pub open spec fn ep_file_of(sq: Seq<Option<Piece>>, side: int, from: int, to: int, from_kind: u32) -> u32 {
    if from_kind == 0 && (to - from == 16 || from - to == 16) && ep_pawn_next(sq, color_of(1 - side), from % 8) {
        (from % 8) as u32
    } else {
        8
    }
}

/// The packed move that stands for a board move on this position.
pub open spec fn packed(s: State, m: crate::game::Move) -> Move {
    let fk = (s.opt_kind(m.from.0 as int) - 1) as u32;
    let tk = match m.promotion {
        Some(k) => k.index(),
        None => fk,
    };
    Move(
        encode(
            m.from.0 as u32,
            m.to.0 as u32,
            fk,
            tk,
            s.opt_kind(m.to.0 as int),
            ep_file_of(s.squares(), s.side() as int, m.from.0 as int, m.to.0 as int, fk),
        ),
    )
}

impl Move {
    /// The packed form of a board move on position `s`; the null move for
    /// `None`.
    pub fn from_simple_move(m: Option<crate::game::Move>, s: &State) -> (r: Move)
        requires
            s.wf(),
            m matches Some(mv) ==> mv.valid() && s.occupied(mv.from.0 as int),
        ensures
            r == match m {
                None => Move::null_spec(),
                Some(mv) => packed(*s, mv),
            },
            r.wf(),
    {
        let m = match m {
            Some(m) => m,
            None => return Move::null(),
        };
        let from_kind = s.get_opt_kind(m.from.0);
        let from_kind = from_kind - 1;
        let to_kind = match m.promotion {
            Some(k) => k.to_int(),
            None => from_kind,
        };
        let cap = s.get_opt_kind(m.to.0);
        let mut ep_file: u32 = 8;
        if from_kind == 0 {
            let c = (1 - s.side_to_play_()) as usize;
            let epf = (m.from.0 % 8) as u64;
            if m.to.0 - m.from.0 == 16 || m.from.0 - m.to.0 == 16 {
                let shift = (1 - c as u64) * 8;
                let mask = ((5u64 << (epf + 23)) & 0xff000000u64) << shift;
                let pawns = s.by_color[c] & s.by_kind[0];
                proof {
                    lemma_ep_mask(pawns, epf, shift);
                    s.lemma_piece_bits(c as int, 0, (23 + shift + epf) as int);
                    s.lemma_piece_bits(c as int, 0, (25 + shift + epf) as int);
                    if epf > 0 {
                        lemma_bit_and(s.by_color[c as int], s.by_kind[0], (23 + shift + epf) as u64);
                    }
                    if epf < 7 {
                        lemma_bit_and(s.by_color[c as int], s.by_kind[0], (25 + shift + epf) as u64);
                    }
                }
                if pawns & mask != 0 {
                    ep_file = epf as u32;
                }
            }
        }
        Move::new(m.from.0 as u32, m.to.0 as u32, from_kind, to_kind, cap, ep_file)
    }
}

/// Passing packs to the null move, and the null move unpacks to passing.
pub proof fn lemma_pass_roundtrip()
    ensures
        Move::null_spec().wf(),
        Move::null_spec().simple() == None::<crate::game::Move>,
{
    lemma_encode(1, 1, 0, 0, 0, 8);
}

/// Packing a board move and unpacking it gives it back, unless it asks for
/// a promotion to the kind that already moves.
pub proof fn lemma_simple_roundtrip(s: State, m: crate::game::Move)
    requires
        s.wf(),
        m.valid(),
        s.occupied(m.from.0 as int),
        m.promotion != Some(PieceKind::from_index((s.opt_kind(m.from.0 as int) - 1) as u32)),
    ensures
        packed(s, m).simple() == Some(m),
{
    let fk = (s.opt_kind(m.from.0 as int) - 1) as u32;
    let tk = match m.promotion {
        Some(k) => k.index(),
        None => fk,
    };
    let cap = s.opt_kind(m.to.0 as int);
    let ep = ep_file_of(s.squares(), s.side() as int, m.from.0 as int, m.to.0 as int, fk);
    assert(s.square_ok(m.from.0 as int));
    assert(s.square_ok(m.to.0 as int));
    lemma_encode(m.from.0 as u32, m.to.0 as u32, fk, tk, cap, ep);
    lemma_encode(1, 1, 0, 0, 0, 8);
    if packed(s, m) == Move::null_spec() {
        assert(m.from.0 == 1 && m.to.0 == 1);
        assert(false);
    }
    match m.promotion {
        Some(k) => {
            assert(PieceKind::from_index(k.index()) == k);
        },
        None => {},
    }
}

/// A nonzero mask has a set bit, the lowest one being at its trailing zeros.
pub proof fn lemma_nonzero(x: u64)
    ensures
        x != 0 ==> 0 <= u64_trailing_zeros(x) < 64 && bit(x, u64_trailing_zeros(x) as int),
        x != 0 ==> forall|j: int| 0 <= j < u64_trailing_zeros(x) ==> !bit(x, j),
        x == 0 ==> forall|j: int| 0 <= j < 64 ==> !bit(x, j),
{
    axiom_u64_trailing_zeros(x);
    if x == 0 {
        assert forall|j: int| 0 <= j < 64 implies !bit(x, j) by {
            lemma_bit_zero(j as u64);
        }
    } else {
        assert forall|j: int| 0 <= j < u64_trailing_zeros(x) implies !bit(x, j) by {
            assert((x >> (j as u64)) & 1u64 == 0u64);
        }
    }
}

/// Whether a pawn of `color` on `from` attacks `to`.
pub open spec fn pawn_attack(color: Color, from: int, to: int) -> bool {
    if color == Color::White {
        (to == from + 9 && to % 8 != 0) || (to == from + 7 && to % 8 != 7)
    } else {
        (to == from - 7 && to % 8 != 0) || (to == from - 9 && to % 8 != 7)
    }
}

/// The squares from which a pawn of color `c` (0 white, 1 black) attacks `t`.
proof fn lemma_pawn_froms(t: u64, c: u64, q: u64)
    requires
        t < 64,
        q < 64,
        c < 2,
    ensures
        ((if c == 0 {
            ((1u64 << t) & 0xfefefefefefefefeu64) >> 9u64 | ((1u64 << t) & 0x7f7f7f7f7f7f7f7fu64) >> 7u64
        } else {
            ((1u64 << t) & 0xfefefefefefefefeu64) << 7u64 | ((1u64 << t) & 0x7f7f7f7f7f7f7f7fu64) << 9u64
        }) >> q) & 1 == 1 <==> if c == 0 {
            (t == q + 9 && t % 8 != 0) || (t == q + 7 && t % 8 != 7)
        } else {
            (q == t + 7 && t % 8 != 0) || (q == t + 9 && t % 8 != 7)
        },
{
    assert(((if c == 0 {
        ((1u64 << t) & 0xfefefefefefefefeu64) >> 9u64 | ((1u64 << t) & 0x7f7f7f7f7f7f7f7fu64) >> 7u64
    } else {
        ((1u64 << t) & 0xfefefefefefefefeu64) << 7u64 | ((1u64 << t) & 0x7f7f7f7f7f7f7f7fu64) << 9u64
    }) >> q) & 1 == 1 <==> if c == 0 {
        (t == q + 9 && t % 8 != 0) || (t == q + 7 && t % 8 != 7)
    } else {
        (q == t + 7 && t % 8 != 0) || (q == t + 9 && t % 8 != 7)
    }) by (bit_vector)
        requires
            t < 64,
            q < 64,
            c < 2,
    ;
}

impl State {
    /// No square strictly between `a` and `b` is occupied.
    pub open spec fn clear(self, a: int, b: int) -> bool {
        forall|p: int| 0 <= p < 64 && #[trigger] between(a, b, p) ==> !self.occupied(p)
    }

    /// Whether the piece on `from`, of `color`, attacks `to`.
    pub open spec fn attacks_from(self, color: Color, from: int, to: int) -> bool {
        match self.at(from) {
            Some(p) => p.color == color && match p.kind {
                PieceKind::Pawn => pawn_attack(color, from, to),
                PieceKind::Knight => attacks(Pattern::Knight, from, to),
                PieceKind::Bishop => attacks(Pattern::Bishop, from, to) && self.clear(to, from),
                PieceKind::Rook => attacks(Pattern::Rook, from, to) && self.clear(to, from),
                PieceKind::Queen => (attacks(Pattern::Bishop, from, to) || attacks(Pattern::Rook, from, to))
                    && self.clear(to, from),
                PieceKind::King => attacks(Pattern::King, from, to),
            },
            None => false,
        }
    }

    /// Whether some piece of `color` attacks `to`.
    pub open spec fn attacked_by(self, to: int, color: Color) -> bool {
        exists|from: int| 0 <= from < 64 && #[trigger] self.attacks_from(color, from, to)
    }

    /// The mask of the pawns of color index `c` that attack `t`.
    fn pawn_attackers(&self, t: u64, c: usize) -> (r: u64)
        requires
            self.boards_ok(),
            t < 64,
            c < 2,
        ensures
            forall|q: int|
                0 <= q < 64 ==> (bit(r, q) <==> (self.at(q) == Some(Piece { color: color_of(c as int), kind: PieceKind::Pawn })
                    && pawn_attack(color_of(c as int), q, t as int))),
    {
        let b = 1u64 << t;
        let froms = if c == 0 {
            (b & 0xfefefefefefefefeu64) >> 9u64 | (b & 0x7f7f7f7f7f7f7f7fu64) >> 7u64
        } else {
            (b & 0xfefefefefefefefeu64) << 7u64 | (b & 0x7f7f7f7f7f7f7f7fu64) << 9u64
        };
        let pawns = self.by_color[c] & self.by_kind[0];
        let r = pawns & froms;
        proof {
            assert forall|q: int| 0 <= q < 64 implies (bit(r, q) <==> (self.at(q) == Some(
                Piece { color: color_of(c as int), kind: PieceKind::Pawn },
            ) && pawn_attack(color_of(c as int), q, t as int))) by {
                lemma_pawn_froms(t, c as u64, q as u64);
                lemma_bit_and(pawns, froms, q as u64);
                lemma_bit_and(self.by_color[c as int], self.by_kind[0], q as u64);
                self.lemma_piece_bits(c as int, 0, q);
            }
        }
        r
    }

    /// The mask of the pieces of color index `c` and kind `k` on squares
    /// that `pat` reaches from `t`.
    fn pattern_attackers(&self, t: i8, c: usize, k: usize, pat: Pattern) -> (r: u64)
        requires
            self.boards_ok(),
            0 <= t < 64,
            c < 2,
            k < 6,
        ensures
            forall|q: int|
                0 <= q < 64 ==> (bit(r, q) <==> (self.at(q) == Some(
                    Piece { color: color_of(c as int), kind: PieceKind::from_index(k as u32) },
                ) && attacks(pat, q, t as int))),
    {
        let m = attack_mask(pat, t);
        let mine = self.by_color[c] & self.by_kind[k];
        let r = mine & m;
        proof {
            assert forall|q: int| 0 <= q < 64 implies (bit(r, q) <==> (self.at(q) == Some(
                Piece { color: color_of(c as int), kind: PieceKind::from_index(k as u32) },
            ) && attacks(pat, q, t as int))) by {
                lemma_bit_and(mine, m, q as u64);
                assert(bit(m, q) == attacks(pat, t as int, q));
                assert(attacks(pat, q, t as int) == attacks(pat, t as int, q));
                lemma_bit_and(self.by_color[c as int], self.by_kind[k as int], q as u64);
                self.lemma_piece_bits(c as int, k as int, q);
            }
        }
        r
    }

    /// Whether the line from `from` to `to` is free, for squares on one line.
    fn line_clear(&self, to: i8, from: i8) -> (r: bool)
        requires
            self.boards_ok(),
            0 <= to < 64,
            0 <= from < 64,
            aligned(to as int, from as int),
        ensures
            r == self.clear(to as int, from as int),
    {
        let ib = in_between(to, from).unwrap();
        let occ = self.by_color[0] | self.by_color[1];
        let x = occ & ib;
        proof {
            lemma_nonzero(x);
            assert forall|p: int| 0 <= p < 64 implies (bit(x, p) <==> (between(to as int, from as int, p)
                && self.occupied(p))) by {
                lemma_bit_and(occ, ib, p as u64);
                lemma_bit_or(self.by_color[0], self.by_color[1], p as u64);
            }
            if x != 0 {
                let w = u64_trailing_zeros(x) as int;
                assert(bit(x, w));
            }
        }
        x == 0
    }
}

impl State {
    /// The mask of the bishops, rooks and queens of color index `c` that
    /// stand on a line with `t`, whether or not the line is clear.
    fn slider_candidates(&self, t: i8, c: usize) -> (r: u64)
        requires
            self.boards_ok(),
            0 <= t < 64,
            c < 2,
        ensures
            forall|q: int|
                0 <= q < 64 ==> (bit(r, q) <==> match self.at(q) {
                    Some(p) => p.color == color_of(c as int) && match p.kind {
                        PieceKind::Bishop => attacks(Pattern::Bishop, q, t as int),
                        PieceKind::Rook => attacks(Pattern::Rook, q, t as int),
                        PieceKind::Queen => attacks(Pattern::Bishop, q, t as int) || attacks(Pattern::Rook, q, t as int),
                        _ => false,
                    },
                    None => false,
                }),
    {
        let b = self.pattern_attackers(t, c, 2, Pattern::Bishop);
        let qb = self.pattern_attackers(t, c, 4, Pattern::Bishop);
        let rk = self.pattern_attackers(t, c, 3, Pattern::Rook);
        let qr = self.pattern_attackers(t, c, 4, Pattern::Rook);
        let r = b | qb | rk | qr;
        proof {
            assert forall|q: int| 0 <= q < 64 implies (bit(r, q) <==> match self.at(q) {
                Some(p) => p.color == color_of(c as int) && match p.kind {
                    PieceKind::Bishop => attacks(Pattern::Bishop, q, t as int),
                    PieceKind::Rook => attacks(Pattern::Rook, q, t as int),
                    PieceKind::Queen => attacks(Pattern::Bishop, q, t as int) || attacks(Pattern::Rook, q, t as int),
                    _ => false,
                },
                None => false,
            }) by {
                lemma_bit_or(b | qb | rk, qr, q as u64);
                lemma_bit_or(b | qb, rk, q as u64);
                lemma_bit_or(b, qb, q as u64);
            }
        }
        r
    }

    /// Whether some piece of `color` attacks `to`.
    pub fn can_attack_to(&self, to: Square, color: Color) -> (r: bool)
        requires
            self.boards_ok(),
            to.valid(),
        ensures
            r == self.attacked_by(to.0 as int, color),
    {
        let c: usize = match color {
            Color::White => 0,
            Color::Black => 1,
        };
        assert(color_of(c as int) == color);
        let t = to.0;
        let pawns = self.pawn_attackers(t as u64, c);
        proof {
            lemma_nonzero(pawns);
        }
        if pawns != 0 {
            proof {
                let f = u64_trailing_zeros(pawns) as int;
                assert(self.attacks_from(color, f, t as int));
            }
            return true;
        }
        let knights = self.pattern_attackers(t, c, 1, Pattern::Knight);
        proof {
            lemma_nonzero(knights);
        }
        if knights != 0 {
            proof {
                let f = u64_trailing_zeros(knights) as int;
                assert(self.attacks_from(color, f, t as int));
            }
            return true;
        }
        let sliding = self.slider_candidates(t, c);
        let froms = iter_one_positions(sliding);
        proof {
            lemma_ones_below(sliding, 64);
        }
        let mut i: usize = 0;
        while i < froms.len()
            invariant
                self.boards_ok(),
                0 <= t < 64,
                t == to.0,
                color_of(c as int) == color,
                froms@ == ones(sliding),
                forall|k: int| 0 <= k < froms.len() ==> #[trigger] froms@[k] < 64,
                forall|q: u32| #[trigger] froms@.contains(q) <==> (q < 64 && bit(sliding, q as int)),
                i <= froms.len(),
                forall|j: int| 0 <= j < i ==> !#[trigger] self.attacks_from(color, froms@[j] as int, t as int),
                forall|q: int|
                    0 <= q < 64 ==> (bit(sliding, q) <==> match self.at(q) {
                        Some(p) => p.color == color_of(c as int) && match p.kind {
                            PieceKind::Bishop => attacks(Pattern::Bishop, q, t as int),
                            PieceKind::Rook => attacks(Pattern::Rook, q, t as int),
                            PieceKind::Queen => attacks(Pattern::Bishop, q, t as int) || attacks(
                                Pattern::Rook,
                                q,
                                t as int,
                            ),
                            _ => false,
                        },
                        None => false,
                    }),
            decreases froms.len() - i,
        {
            let from = froms[i] as i8;
            proof {
                assert(froms@.contains(froms@[i as int]));
                assert(0 <= from < 64);
                assert(from as int == froms@[i as int] as int);
                assert(bit(sliding, from as int));
            }
            if self.line_clear(t, from) {
                proof {
                    let f: int = from as int;
                    assert(self.attacks_from(color, f, to.0 as int));
                    assert(0 <= f < 64);
                }
                return true;
            }
            i = i + 1;
        }
        let kings = self.pattern_attackers(t, c, 5, Pattern::King);
        proof {
            lemma_nonzero(kings);
        }
        if kings != 0 {
            proof {
                let f = u64_trailing_zeros(kings) as int;
                assert(self.attacks_from(color, f, t as int));
            }
            return true;
        }
        proof {
            assert forall|f: int| 0 <= f < 64 implies !#[trigger] self.attacks_from(color, f, t as int) by {
                if bit(sliding, f) {
                    assert(froms@.contains(f as u32));
                    let j = choose|j: int| 0 <= j < froms.len() && froms@[j] == f as u32;
                    assert(!self.attacks_from(color, froms@[j] as int, t as int));
                }
            }
        }
        false
    }
}

/// Whether a pawn of `color` reaching `to` promotes.
pub open spec fn promo_rank(color: Color, to: int) -> bool {
    if color == Color::White {
        to >= 56
    } else {
        to < 8
    }
}

impl State {
    /// The rank of the attacker on `from` in the order in which the cheapest
    /// attack is looked for: pawns that do not promote, knights, bishops,
    /// rooks, queens, pawns that promote, the king.
    pub open spec fn attack_class(self, color: Color, from: int, to: int) -> int {
        match self.at(from) {
            Some(p) => match p.kind {
                PieceKind::Pawn => if promo_rank(color, to) {
                    5
                } else {
                    0
                },
                PieceKind::Knight => 1,
                PieceKind::Bishop => 2,
                PieceKind::Rook => 3,
                PieceKind::Queen => 4,
                PieceKind::King => 6,
            },
            None => 7,
        }
    }

    /// The attack from `from` comes first: no attacker of a lower class,
    /// nor of the same class on a lower square.
    pub open spec fn is_cheapest(self, color: Color, from: int, to: int) -> bool {
        &&& 0 <= from < 64
        &&& self.attacks_from(color, from, to)
        &&& forall|f: int|
            0 <= f < 64 && #[trigger] self.attacks_from(color, f, to) ==> self.attack_class(color, from, to)
                < self.attack_class(color, f, to) || (self.attack_class(color, from, to) == self.attack_class(color, f, to)
                && from <= f)
    }

    /// The capture of `to` by the piece on `from`; a pawn that reaches the
    /// last rank becomes a queen.
    pub open spec fn attack_move(self, color: Color, from: int, to: int) -> Move {
        let fk = self.kind_at(from);
        let tk = if self.attack_class(color, from, to) == 5 {
            4
        } else {
            fk
        };
        Move(encode(from as u32, to as u32, fk, tk, self.opt_kind(to), 8))
    }

    /// The lowest square of `mask` from which the line to `t` is clear.
    fn first_clear(&self, t: i8, mask: u64) -> (r: Option<u32>)
        requires
            self.boards_ok(),
            0 <= t < 64,
            forall|f: int| 0 <= f < 64 && #[trigger] bit(mask, f) ==> aligned(t as int, f),
        ensures
            r matches Some(f) ==> f < 64 && bit(mask, f as int) && self.clear(t as int, f as int) && forall|g: int|
                0 <= g < f && #[trigger] bit(mask, g) ==> !self.clear(t as int, g),
            r is None ==> forall|g: int| 0 <= g < 64 && #[trigger] bit(mask, g) ==> !self.clear(t as int, g),
    {
        let froms = iter_one_positions(mask);
        proof {
            lemma_ones_below(mask, 64);
        }
        let mut i: usize = 0;
        while i < froms.len()
            invariant
                self.boards_ok(),
                0 <= t < 64,
                forall|f: int| 0 <= f < 64 && #[trigger] bit(mask, f) ==> aligned(t as int, f),
                froms@ == ones(mask),
                forall|k: int| 0 <= k < froms.len() ==> #[trigger] froms@[k] < 64,
                forall|k1: int, k2: int| 0 <= k1 < k2 < froms.len() ==> #[trigger] froms@[k1] < #[trigger] froms@[k2],
                forall|q: u32| #[trigger] froms@.contains(q) <==> (q < 64 && bit(mask, q as int)),
                i <= froms.len(),
                forall|j: int| 0 <= j < i ==> !self.clear(t as int, #[trigger] froms@[j] as int),
            decreases froms.len() - i,
        {
            let from = froms[i];
            proof {
                assert(froms@.contains(froms@[i as int]));
                assert(bit(mask, from as int));
            }
            if self.line_clear(t, from as i8) {
                proof {
                    assert forall|g: int| 0 <= g < from && #[trigger] bit(mask, g) implies !self.clear(t as int, g) by {
                        assert(froms@.contains(g as u32));
                        let j = choose|j: int| 0 <= j < froms.len() && froms@[j] == g as u32;
                        if j >= i {
                            if j > i {
                                assert(froms@[i as int] < froms@[j]);
                            }
                        }
                    }
                }
                return Some(from);
            }
            i = i + 1;
        }
        proof {
            assert forall|g: int| 0 <= g < 64 && #[trigger] bit(mask, g) implies !self.clear(t as int, g) by {
                assert(froms@.contains(g as u32));
                let j = choose|j: int| 0 <= j < froms.len() && froms@[j] == g as u32;
                assert(!self.clear(t as int, froms@[j] as int));
            }
        }
        None
    }

    /// The cheapest capture of `to` by a piece of `color`, if any.
    pub fn cheapest_attack_to(&self, to: Square, color: Color) -> (r: Option<Move>)
        requires
            self.boards_ok(),
            to.valid(),
        ensures
            r is Some <==> self.attacked_by(to.0 as int, color),
            r matches Some(m) ==> self.is_cheapest(color, m.from() as int, to.0 as int) && m == self.attack_move(
                color,
                m.from() as int,
                to.0 as int,
            ) && m.wf(),
    {
        let c: usize = match color {
            Color::White => 0,
            Color::Black => 1,
        };
        assert(color_of(c as int) == color);
        let t = to.0;
        let ghost ti = t as int;
        let cap = self.get_opt_kind(t);
        let promo = if c == 0 {
            t >= 56
        } else {
            t < 8
        };
        let pawns = self.pawn_attackers(t as u64, c);
        let knights = self.pattern_attackers(t, c, 1, Pattern::Knight);
        let bishops = self.pattern_attackers(t, c, 2, Pattern::Bishop);
        let rooks = self.pattern_attackers(t, c, 3, Pattern::Rook);
        let qb = self.pattern_attackers(t, c, 4, Pattern::Bishop);
        let qr = self.pattern_attackers(t, c, 4, Pattern::Rook);
        let queens = qb | qr;
        let kings = self.pattern_attackers(t, c, 5, Pattern::King);
        proof {
            lemma_nonzero(pawns);
            lemma_nonzero(knights);
            lemma_nonzero(kings);
            assert forall|f: int| 0 <= f < 64 implies (#[trigger] self.attacks_from(color, f, ti) <==> (bit(pawns, f)
                || bit(knights, f) || (bit(bishops, f) && self.clear(ti, f)) || (bit(rooks, f) && self.clear(ti, f)) || (
            bit(queens, f) && self.clear(ti, f)) || bit(kings, f))) by {
                lemma_bit_or(qb, qr, f as u64);
            }
        }
        if !promo && pawns != 0 {
            let from = pawns.trailing_zeros();
            proof {
                let f = from as int;
                assert(bit(pawns, f));
                assert(self.attacks_from(color, f, ti));
                assert(self.kind_at(f) == 0) by {
                    assert(self.square_ok(f));
                }
                assert forall|g: int| 0 <= g < 64 && #[trigger] self.attacks_from(color, g, ti) implies (
                self.attack_class(color, f, ti) < self.attack_class(color, g, ti) || (self.attack_class(color, f, ti)
                    == self.attack_class(color, g, ti) && f <= g)) by {
                    if self.attack_class(color, g, ti) == 0 {
                        assert(bit(pawns, g));
                    }
                }
            }
            return Some(Move::new(from, t as u32, 0, 0, cap, 8));
        }
        proof {
            assert forall|g: int| 0 <= g < 64 && #[trigger] self.attacks_from(color, g, ti) implies self.attack_class(
                color,
                g,
                ti,
            ) != 0 by {
                if self.attack_class(color, g, ti) == 0 {
                    assert(bit(pawns, g));
                }
            }
        }
        if knights != 0 {
            let from = knights.trailing_zeros();
            proof {
                let f = from as int;
                assert(bit(knights, f));
                assert(self.attacks_from(color, f, ti));
                assert(self.kind_at(f) == 1) by {
                    assert(self.square_ok(f));
                }
                assert forall|g: int| 0 <= g < 64 && #[trigger] self.attacks_from(color, g, ti) implies (
                self.attack_class(color, f, ti) < self.attack_class(color, g, ti) || (self.attack_class(color, f, ti)
                    == self.attack_class(color, g, ti) && f <= g)) by {
                    if self.attack_class(color, g, ti) == 1 {
                        assert(bit(knights, g));
                    }
                }
            }
            return Some(Move::new(from, t as u32, 1, 1, cap, 8));
        }
        proof {
            assert forall|g: int| 0 <= g < 64 && #[trigger] self.attacks_from(color, g, ti) implies self.attack_class(
                color,
                g,
                ti,
            ) >= 2 by {
                if self.attack_class(color, g, ti) == 1 {
                    assert(bit(knights, g));
                }
            }
            assert forall|g: int| 0 <= g < 64 && #[trigger] bit(bishops, g) implies aligned(t as int, g) by {}
            assert forall|g: int| 0 <= g < 64 && #[trigger] bit(rooks, g) implies aligned(t as int, g) by {}
            assert forall|g: int| 0 <= g < 64 && #[trigger] bit(queens, g) implies aligned(t as int, g) by {
                lemma_bit_or(qb, qr, g as u64);
                assert(bit(queens, g) == (bit(qb, g) || bit(qr, g)));
                if bit(qb, g) {
                    assert(attacks(Pattern::Bishop, g, t as int));
                } else {
                    assert(attacks(Pattern::Rook, g, t as int));
                }
            }
        }
        match self.first_clear(t, bishops) {
            Some(from) => {
                proof {
                    let f = from as int;
                    assert(self.attacks_from(color, f, ti));
                    assert(self.kind_at(f) == 2) by {
                        assert(self.square_ok(f));
                    }
                    assert forall|g: int| 0 <= g < 64 && #[trigger] self.attacks_from(color, g, ti) implies (
                    self.attack_class(color, f, ti) < self.attack_class(color, g, ti) || (self.attack_class(
                        color,
                        f,
                        ti,
                    ) == self.attack_class(color, g, ti) && f <= g)) by {
                        if self.attack_class(color, g, ti) == 2 {
                            assert(bit(bishops, g));
                        }
                    }
                }
                return Some(Move::new(from, t as u32, 2, 2, cap, 8));
            },
            None => {},
        }
        proof {
            assert forall|g: int| 0 <= g < 64 && #[trigger] self.attacks_from(color, g, ti) implies self.attack_class(
                color,
                g,
                ti,
            ) >= 3 by {
                if self.attack_class(color, g, ti) == 2 {
                    assert(bit(bishops, g));
                }
            }
        }
        match self.first_clear(t, rooks) {
            Some(from) => {
                proof {
                    let f = from as int;
                    assert(self.attacks_from(color, f, ti));
                    assert(self.kind_at(f) == 3) by {
                        assert(self.square_ok(f));
                    }
                    assert forall|g: int| 0 <= g < 64 && #[trigger] self.attacks_from(color, g, ti) implies (
                    self.attack_class(color, f, ti) < self.attack_class(color, g, ti) || (self.attack_class(
                        color,
                        f,
                        ti,
                    ) == self.attack_class(color, g, ti) && f <= g)) by {
                        if self.attack_class(color, g, ti) == 3 {
                            assert(bit(rooks, g));
                        }
                    }
                }
                return Some(Move::new(from, t as u32, 3, 3, cap, 8));
            },
            None => {},
        }
        proof {
            assert forall|g: int| 0 <= g < 64 && #[trigger] self.attacks_from(color, g, ti) implies self.attack_class(
                color,
                g,
                ti,
            ) >= 4 by {
                if self.attack_class(color, g, ti) == 3 {
                    assert(bit(rooks, g));
                }
            }
        }
        match self.first_clear(t, queens) {
            Some(from) => {
                proof {
                    let f = from as int;
                    lemma_bit_or(qb, qr, f as u64);
                    assert(self.attacks_from(color, f, ti));
                    assert(self.kind_at(f) == 4) by {
                        assert(self.square_ok(f));
                    }
                    assert forall|g: int| 0 <= g < 64 && #[trigger] self.attacks_from(color, g, ti) implies (
                    self.attack_class(color, f, ti) < self.attack_class(color, g, ti) || (self.attack_class(
                        color,
                        f,
                        ti,
                    ) == self.attack_class(color, g, ti) && f <= g)) by {
                        if self.attack_class(color, g, ti) == 4 {
                            assert(bit(queens, g));
                        }
                    }
                }
                return Some(Move::new(from, t as u32, 4, 4, cap, 8));
            },
            None => {},
        }
        proof {
            assert forall|g: int| 0 <= g < 64 && #[trigger] self.attacks_from(color, g, ti) implies self.attack_class(
                color,
                g,
                ti,
            ) >= 5 by {
                if self.attack_class(color, g, ti) == 4 {
                    assert(bit(queens, g));
                }
            }
        }
        if promo && pawns != 0 {
            let from = pawns.trailing_zeros();
            proof {
                let f = from as int;
                assert(bit(pawns, f));
                assert(self.attacks_from(color, f, ti));
                assert(self.kind_at(f) == 0) by {
                    assert(self.square_ok(f));
                }
                assert forall|g: int| 0 <= g < 64 && #[trigger] self.attacks_from(color, g, ti) implies (
                self.attack_class(color, f, ti) < self.attack_class(color, g, ti) || (self.attack_class(color, f, ti)
                    == self.attack_class(color, g, ti) && f <= g)) by {
                    if self.attack_class(color, g, ti) == 5 {
                        assert(bit(pawns, g));
                    }
                }
            }
            return Some(Move::new(from, t as u32, 0, 4, cap, 8));
        }
        proof {
            assert forall|g: int| 0 <= g < 64 && #[trigger] self.attacks_from(color, g, ti) implies self.attack_class(
                color,
                g,
                ti,
            ) >= 6 by {
                if self.attack_class(color, g, ti) == 5 {
                    assert(bit(pawns, g));
                }
            }
        }
        if kings != 0 {
            let from = kings.trailing_zeros();
            proof {
                let f = from as int;
                assert(bit(kings, f));
                assert(self.attacks_from(color, f, ti));
                assert(self.kind_at(f) == 5) by {
                    assert(self.square_ok(f));
                }
                assert forall|g: int| 0 <= g < 64 && #[trigger] self.attacks_from(color, g, ti) implies (
                self.attack_class(color, f, ti) < self.attack_class(color, g, ti) || (self.attack_class(color, f, ti)
                    == self.attack_class(color, g, ti) && f <= g)) by {
                    if self.attack_class(color, g, ti) == 6 {
                        assert(bit(kings, g));
                    }
                }
            }
            return Some(Move::new(from, t as u32, 5, 5, cap, 8));
        }
        proof {
            assert forall|g: int| 0 <= g < 64 implies !#[trigger] self.attacks_from(color, g, ti) by {
                if self.attacks_from(color, g, ti) {
                    assert(bit(kings, g));
                }
            }
        }
        None
    }
}

impl State {
    /// The en passant file, if any, names a pawn that has just made a double
    /// step: it stands beside the square passed over, which is empty.
    pub open spec fn ep_ok(self) -> bool {
        self.ep_file < 8 ==> if self.side() == 0 {
            self.at(32 + self.ep_file) == Some(Piece { color: Color::Black, kind: PieceKind::Pawn }) && self.at(
                40 + self.ep_file,
            ) is None
        } else {
            self.at(24 + self.ep_file) == Some(Piece { color: Color::White, kind: PieceKind::Pawn }) && self.at(
                16 + self.ep_file,
            ) is None
        }
    }

    /// Each castling right has its king and rook on their home squares.
    pub open spec fn castle_ok(self) -> bool {
        &&& self.flags & 1 != 0 ==> self.at(4) == Some(Piece { color: Color::White, kind: PieceKind::King }) && self.at(7)
            == Some(Piece { color: Color::White, kind: PieceKind::Rook })
        &&& self.flags & 2 != 0 ==> self.at(4) == Some(Piece { color: Color::White, kind: PieceKind::King }) && self.at(0)
            == Some(Piece { color: Color::White, kind: PieceKind::Rook })
        &&& self.flags & 4 != 0 ==> self.at(60) == Some(Piece { color: Color::Black, kind: PieceKind::King }) && self.at(
            63,
        ) == Some(Piece { color: Color::Black, kind: PieceKind::Rook })
        &&& self.flags & 8 != 0 ==> self.at(60) == Some(Piece { color: Color::Black, kind: PieceKind::King }) && self.at(
            56,
        ) == Some(Piece { color: Color::Black, kind: PieceKind::Rook })
    }

    /// A position from which the generated moves can be played.
    pub open spec fn playable(self) -> bool {
        self.wf() && self.ep_ok() && self.castle_ok()
    }

    /// Whether the moves can be generated and played from this position:
    /// its en passant file and castling rights fit its pieces.
    pub fn is_playable(&self) -> (r: bool)
        requires
            self.wf(),
        ensures
            r == self.playable(),
    {
        let wk = Some(Piece { color: Color::White, kind: PieceKind::King });
        let wr = Some(Piece { color: Color::White, kind: PieceKind::Rook });
        let bk = Some(Piece { color: Color::Black, kind: PieceKind::King });
        let br = Some(Piece { color: Color::Black, kind: PieceKind::Rook });
        if self.flags & 1 != 0 && !(self.get_piece(Square(4)) == wk && self.get_piece(Square(7)) == wr) {
            return false;
        }
        if self.flags & 2 != 0 && !(self.get_piece(Square(4)) == wk && self.get_piece(Square(0)) == wr) {
            return false;
        }
        if self.flags & 4 != 0 && !(self.get_piece(Square(60)) == bk && self.get_piece(Square(63)) == br) {
            return false;
        }
        if self.flags & 8 != 0 && !(self.get_piece(Square(60)) == bk && self.get_piece(Square(56)) == br) {
            return false;
        }
        if self.ep_file < 8 {
            let e = self.ep_file as i8;
            if self.side_to_play_() == 0 {
                self.get_piece(Square(32 + e)) == Some(Piece { color: Color::Black, kind: PieceKind::Pawn })
                    && self.get_piece(Square(40 + e)).is_none()
            } else {
                self.get_piece(Square(24 + e)) == Some(Piece { color: Color::White, kind: PieceKind::Pawn })
                    && self.get_piece(Square(16 + e)).is_none()
            }
        } else {
            true
        }
    }

    /// A move that fits the position and sets an en passant file only for a
    /// pawn's double step from its home rank.
    pub open spec fn gen_ok(self, m: Move) -> bool {
        &&& self.move_ok(m)
        &&& m.ep_file() == 8 || (m.from_kind() == 0 && m.to_kind() == 0 && m.cap() == 0 && m.ep_file() == m.from() % 8
            && if self.side() == 0 {
            8 <= m.from() < 16 && m.to() == m.from() + 16 && self.at(m.from() + 8) is None
        } else {
            48 <= m.from() < 56 && m.to() + 16 == m.from() && self.at(m.from() - 8) is None
        })
    }

    /// `new` is `old` followed by moves that fit the position.
    pub open spec fn extends(self, old: Seq<Move>, new: Seq<Move>) -> bool {
        &&& new.len() >= old.len()
        &&& new.subrange(0, old.len() as int) == old
        &&& forall|i: int| old.len() <= i < new.len() ==> #[trigger] self.gen_ok(new[i]) && self.generated(new[i])
    }

    /// A capture that fits the position.
    pub open spec fn capture_ok(self, m: Move) -> bool {
        &&& self.gen_ok(m)
        &&& m.cap() != 0
    }

    /// `new` is `old` followed by captures that fit the position.
    pub open spec fn extends_captures(self, old: Seq<Move>, new: Seq<Move>) -> bool {
        &&& new.len() >= old.len()
        &&& new.subrange(0, old.len() as int) == old
        &&& forall|i: int| old.len() <= i < new.len() ==> #[trigger] self.capture_ok(new[i]) && self.generated_capture(new[i])
    }

    /// The square onto which the side to play may capture en passant, or -1.
    pub open spec fn ep_target(self) -> int {
        if self.ep_file < 8 {
            if self.side() == 0 {
                40 + self.ep_file
            } else {
                16 + self.ep_file
            }
        } else {
            -1
        }
    }

    /// Square `q` holds a piece of the side to play.
    pub open spec fn own_at(self, q: int) -> bool {
        self.at(q) matches Some(p) && p.color == self.turn()
    }

    /// Square `q` holds a piece of the side not to play.
    pub open spec fn enemy_at(self, q: int) -> bool {
        self.at(q) matches Some(p) && p.color != self.turn()
    }

    /// A pawn of the side to play on `f` promotes with its next step.
    pub open spec fn promo_rank(self, f: int) -> bool {
        if self.side() == 0 {
            48 <= f < 56
        } else {
            8 <= f < 16
        }
    }

    /// A pawn of the side to play on `f` stands on its home rank.
    pub open spec fn home_rank(self, f: int) -> bool {
        if self.side() == 0 {
            8 <= f < 16
        } else {
            48 <= f < 56
        }
    }

    /// A pawn from `f` becomes kind index `k`: a knight, bishop, rook or
    /// queen when it reaches the last rank, else a pawn again.
    pub open spec fn promo_fits(self, f: int, k: u32) -> bool {
        if self.promo_rank(f) {
            1 <= k <= 4
        } else {
            k == 0
        }
    }

    /// A pawn's step to the empty square ahead.
    pub open spec fn pawn_push(self, m: Move) -> bool {
        &&& m.to() == pawn_dest(self.side() as int, m.from() as int, 8)
        &&& self.at(m.to() as int) is None
        &&& m.cap() == 0
        &&& m.ep_file() == 8
        &&& self.promo_fits(m.from() as int, m.to_kind())
    }

    /// A pawn's double step from its home rank over two empty squares; it
    /// records its file when an enemy pawn stands next to where it lands.
    pub open spec fn pawn_double(self, m: Move) -> bool {
        &&& self.home_rank(m.from() as int)
        &&& m.to() == pawn_dest(self.side() as int, m.from() as int, 16)
        &&& self.at(pawn_dest(self.side() as int, m.from() as int, 8)) is None
        &&& self.at(m.to() as int) is None
        &&& m.cap() == 0
        &&& m.to_kind() == 0
        &&& m.ep_file() == if ep_pawn_next(self.squares(), color_of(1 - self.side()), (m.from() % 8) as int) {
            m.from() % 8
        } else {
            8
        }
    }

    /// A pawn's diagonal capture, of an enemy piece or, where `ep`, onto the
    /// en passant square.
    pub open spec fn pawn_capture(self, m: Move, ep: bool) -> bool {
        &&& pawn_attack(self.turn(), m.from() as int, m.to() as int)
        &&& (self.enemy_at(m.to() as int) || (ep && m.to() == self.ep_target()))
        &&& m.cap() == self.opt_kind(m.to() as int)
        &&& m.ep_file() == 8
        &&& self.promo_fits(m.from() as int, m.to_kind())
    }

    /// A move of a knight, bishop, rook, queen or king along its pattern, to
    /// a square that holds no piece of its own side.
    pub open spec fn piece_step(self, m: Move) -> bool {
        &&& 1 <= m.from_kind() <= 5
        &&& m.to_kind() == m.from_kind()
        &&& m.ep_file() == 8
        &&& self.attacks_from(self.turn(), m.from() as int, m.to() as int)
        &&& !self.own_at(m.to() as int)
        &&& m.cap() == self.opt_kind(m.to() as int)
    }

    /// A castling whose right is kept and whose squares between king and
    /// rook are empty.
    pub open spec fn castle_step(self, m: Move) -> bool {
        &&& m.from_kind() == 5
        &&& m.to_kind() == 5
        &&& m.cap() == 0
        &&& m.ep_file() == 8
        &&& {
            ||| (m.from() == 4 && m.to() == 6 && self.side() == 0 && self.flags & 1 != 0 && self.at(5) is None && self.at(
                6,
            ) is None)
            ||| (m.from() == 4 && m.to() == 2 && self.side() == 0 && self.flags & 2 != 0 && self.at(1) is None && self.at(
                2,
            ) is None && self.at(3) is None)
            ||| (m.from() == 60 && m.to() == 62 && self.side() == 1 && self.flags & 4 != 0 && self.at(61) is None
                && self.at(62) is None)
            ||| (m.from() == 60 && m.to() == 58 && self.side() == 1 && self.flags & 8 != 0 && self.at(57) is None
                && self.at(58) is None && self.at(59) is None)
        }
    }

    /// A move that the side to play's piece on its from square makes by the
    /// rules of movement, the king left in check or not.
    pub open spec fn generated(self, m: Move) -> bool {
        &&& m.wf()
        &&& m.from() < 64
        &&& m.to() < 64
        &&& self.at(m.from() as int) == Some(Piece { color: self.turn(), kind: PieceKind::from_index(m.from_kind()) })
        &&& if m.from_kind() == 0 {
            self.pawn_push(m) || self.pawn_double(m) || self.pawn_capture(m, true)
        } else {
            self.piece_step(m) || self.castle_step(m)
        }
    }

    /// A capture of an enemy piece by the side to play; a pawn that reaches
    /// the last rank by it becomes a queen.
    pub open spec fn generated_capture(self, m: Move) -> bool {
        &&& m.wf()
        &&& m.from() < 64
        &&& m.to() < 64
        &&& self.at(m.from() as int) == Some(Piece { color: self.turn(), kind: PieceKind::from_index(m.from_kind()) })
        &&& self.enemy_at(m.to() as int)
        &&& if m.from_kind() == 0 {
            &&& self.pawn_capture(m, false)
            &&& m.to_kind() == if self.promo_rank(m.from() as int) {
                4u32
            } else {
                0u32
            }
        } else {
            self.piece_step(m)
        }
    }

    /// The group in which the pawn moves are listed: 0 steps, 1 steps that
    /// promote, 2 double steps that no pawn can take en passant, 3 those
    /// that one can, 4 and 5 captures towards the h-file (without and with
    /// promotion), 6 and 7 towards the a-file.
    pub open spec fn pawn_pass(self, m: Move) -> int {
        if self.pawn_push(m) {
            if self.promo_rank(m.from() as int) {
                1
            } else {
                0
            }
        } else if self.pawn_double(m) {
            if m.ep_file() == 8 {
                2
            } else {
                3
            }
        } else {
            let toward_h = if self.side() == 0 {
                m.to() == m.from() + 9
            } else {
                m.to() + 7 == m.from()
            };
            (if toward_h {
                4int
            } else {
                6int
            }) + if self.promo_rank(m.from() as int) {
                1int
            } else {
                0int
            }
        }
    }

    /// The squares of the pieces of color index `c` and kind `k`, lowest first.
    fn pieces_of(&self, c: usize, k: usize) -> (r: Vec<u32>)
        requires
            self.wf(),
            c < 2,
            k < 6,
        ensures
            forall|i: int| 0 <= i < r.len() ==> #[trigger] r[i] < 64,
            forall|i: int|
                0 <= i < r.len() ==> self.at(#[trigger] r[i] as int) == Some(
                    Piece { color: color_of(c as int), kind: PieceKind::from_index(k as u32) },
                ),
            forall|q: int|
                0 <= q < 64 && self.at(q) == Some(
                    Piece { color: color_of(c as int), kind: PieceKind::from_index(k as u32) },
                ) ==> r@.contains(q as u32),
            forall|i: int, j: int| 0 <= i < j < r.len() ==> #[trigger] r[i] < #[trigger] r[j],
    {
        let x = self.by_color[c] & self.by_kind[k];
        let r = iter_one_positions(x);
        proof {
            lemma_ones_below(x, 64);
            assert forall|i: int| 0 <= i < r.len() implies self.at(#[trigger] r[i] as int) == Some(
                Piece { color: color_of(c as int), kind: PieceKind::from_index(k as u32) },
            ) by {
                assert(r@.contains(r@[i]));
                lemma_bit_and(self.by_color[c as int], self.by_kind[k as int], r[i] as u64);
                self.lemma_piece_bits(c as int, k as int, r[i] as int);
            }
            assert forall|q: int|
                0 <= q < 64 && self.at(q) == Some(
                    Piece { color: color_of(c as int), kind: PieceKind::from_index(k as u32) },
                ) implies r@.contains(q as u32) by {
                lemma_bit_and(self.by_color[c as int], self.by_kind[k as int], q as u64);
                self.lemma_piece_bits(c as int, k as int, q);
            }
        }
        r
    }

    /// The place of a move in the order in which the moves are listed: pawn
    /// moves by group, pawn and piece kind, then castlings, then the moves
    /// of the other pieces by kind, from square and to square.
    pub open spec fn gen_key(self, m: Move) -> int {
        if m.from_kind() == 0 {
            self.pawn_pass(m) * 512 + m.from() * 8 + m.to_kind()
        } else if castle_move(m) {
            4096 + if m.to() % 8 == 6 {
                0int
            } else {
                1int
            }
        } else {
            8192 + kind_rank(m.from_kind() as int) * 4096 + m.from() * 64 + m.to()
        }
    }

    /// The moves of `s` from index `from` on come in increasing order, each
    /// before place `bound`.
    pub open spec fn ordered_below(self, s: Seq<Move>, from: int, bound: int) -> bool {
        &&& forall|i: int, j: int| from <= i < j < s.len() ==> self.gen_key(#[trigger] s[i]) < self.gen_key(#[trigger] s[j])
        &&& forall|i: int| from <= i < s.len() ==> self.gen_key(#[trigger] s[i]) < bound
    }

    /// Moves listed in increasing order are listed once each.
    pub proof fn lemma_ordered_distinct(self, s: Seq<Move>, from: int, bound: int)
        requires
            self.ordered_below(s, from, bound),
        ensures
            distinct_from(s, from),
    {
        assert forall|i: int, j: int| from <= i < j < s.len() implies s[i] != s[j] by {
            assert(self.gen_key(s[i]) < self.gen_key(s[j]));
        }
    }

    /// A later bound bounds the same moves.
    pub proof fn lemma_ordered_weaken(self, s: Seq<Move>, from: int, bound: int, bound2: int)
        requires
            self.ordered_below(s, from, bound),
            bound <= bound2,
        ensures
            self.ordered_below(s, from, bound2),
    {
    }

    /// A move pushed after moves that come before it keeps the order.
    pub proof fn lemma_ordered_push(self, s: Seq<Move>, from: int, m: Move)
        requires
            0 <= from,
            self.ordered_below(s, from, self.gen_key(m)),
        ensures
            self.ordered_below(s.push(m), from, self.gen_key(m) + 1),
    {
        let t = s.push(m);
        assert forall|i: int| from <= i < t.len() implies self.gen_key(#[trigger] t[i]) < self.gen_key(m) + 1 by {
            if i < s.len() {
                assert(t[i] == s[i]);
            }
        }
        assert forall|i: int, j: int| from <= i < j < t.len() implies self.gen_key(#[trigger] t[i]) < self.gen_key(
            #[trigger] t[j],
        ) by {
            assert(t[i] == s[i]);
            if j < s.len() {
                assert(t[j] == s[j]);
            }
        }
    }

    fn push_gen(&self, result: &mut Vec<Move>, m: Move, Ghost(start): Ghost<Seq<Move>>)
        requires
            self.extends(start, old(result)@),
            self.gen_ok(m),
            self.generated(m),
            self.ordered_below(old(result)@, start.len() as int, self.gen_key(m)),
        ensures
            self.extends(start, final(result)@),
            final(result)@ == old(result)@.push(m),
            listed_in(final(result)@, old(result)@.len() as int, m),
            self.ordered_below(final(result)@, start.len() as int, self.gen_key(m) + 1),
    {
        result.push(m);
        assert(result@[old(result)@.len() as int] == m);
        proof {
            assert(result@.subrange(0, start.len() as int) =~= old(result)@.subrange(0, start.len() as int));
            let o = old(result)@;
            assert forall|i: int| start.len() <= i < result@.len() implies #[trigger] self.gen_ok(result@[i])
                && self.generated(result@[i]) by {
                if i < o.len() {
                    assert(result@[i] == o[i]);
                }
            }
            self.lemma_ordered_push(o, start.len() as int, m);
        }
    }

    /// Whether square `q` holds a piece of the side not to play, or is the en
    /// passant square.
    fn pawn_target(&self, q: i8, ep_sq: i8) -> (r: bool)
        requires
            self.wf(),
            0 <= q < 64,
        ensures
            r == ((self.at(q as int) is Some && self.at(q as int).unwrap().color != self.turn()) || q == ep_sq),
    {
        if q == ep_sq {
            return true;
        }
        match self.get_piece(Square(q)) {
            Some(p) => p.color != self.side_to_play(),
            None => false,
        }
    }
}

/// Some element of `s` at index `from` or later is `m`.
pub open spec fn listed_in(s: Seq<Move>, from: int, m: Move) -> bool {
    exists|i: int| from <= i < s.len() && s[i] == m
}

/// No two elements of `s` at index `from` or later are the same move.
pub open spec fn distinct_from(s: Seq<Move>, from: int) -> bool {
    forall|i: int, j: int| from <= i < j < s.len() ==> s[i] != s[j]
}

/// A castling: the king's step of two squares from its home square.
pub open spec fn castle_move(m: Move) -> bool {
    m.from_kind() == 5 && ((m.from() == 4 && (m.to() == 6 || m.to() == 2)) || (m.from() == 60 && (m.to() == 62
        || m.to() == 58)))
}

/// The place of a piece kind among the piece moves: knights, king, bishops,
/// rooks, queens.
pub open spec fn kind_rank(k: int) -> int {
    if k == 1 {
        0
    } else if k == 5 {
        1
    } else {
        k
    }
}

/// A listing stays when the sequence grows at its end.
pub proof fn lemma_listed_grow(s: Seq<Move>, t: Seq<Move>, from: int, m: Move)
    requires
        listed_in(s, from, m),
        0 <= from,
        t.len() >= s.len(),
        t.subrange(0, s.len() as int) == s,
    ensures
        listed_in(t, from, m),
{
    let i = choose|i: int| from <= i < s.len() && s[i] == m;
    assert(t.subrange(0, s.len() as int)[i] == t[i]);
    assert(t[i] == m);
}

/// Two well-formed moves with the same fields are the same move.
pub proof fn lemma_same_move(a: Move, b: Move)
    requires
        a.wf(),
        b.wf(),
        a.from() == b.from(),
        a.to() == b.to(),
        a.from_kind() == b.from_kind(),
        a.to_kind() == b.to_kind(),
        a.cap() == b.cap(),
        a.ep_file() == b.ep_file(),
    ensures
        a == b,
{
    lemma_decode(a.0);
    lemma_decode(b.0);
}

/// The square of a pawn move: forward for white, backward for black.
pub open spec fn pawn_dest(c: int, f: int, d: int) -> int {
    if c == 0 {
        f + d
    } else {
        f - d
    }
}

impl State {
    /// Every move of the side to play's pawn on `f` that is listed in group
    /// `pass` is in `s` at index `from` or later.
    pub open spec fn pawn_listed(self, s: Seq<Move>, from: int, f: int, pass: int) -> bool {
        forall|m: Move|
            #[trigger] self.generated(m) && m.from_kind() == 0 && m.from() == f && self.pawn_pass(m) == pass ==> listed_in(
                s,
                from,
                m,
            )
    }

    /// A listed pawn move of a capture group `pass` is a capture, towards
    /// the h-file for groups 4 and 5, promoting for groups 5 and 7.
    proof fn lemma_capture_pass(self, m: Move, pass: int)
        requires
            self.generated(m),
            m.from_kind() == 0,
            self.pawn_pass(m) == pass,
            4 <= pass < 8,
        ensures
            self.pawn_capture(m, true),
            m.to() == if self.side() == 0 {
                if pass <= 5 {
                    m.from() + 9
                } else {
                    m.from() + 7
                }
            } else {
                if pass <= 5 {
                    m.from() - 7
                } else {
                    m.from() - 9
                }
            },
            pass <= 5 ==> m.from() % 8 != 7,
            pass > 5 ==> m.from() % 8 != 0,
            self.promo_rank(m.from() as int) == (pass == 5 || pass == 7),
    {
    }

    /// The moves of group `pass` of the pawn on `f` of the side to play:
    /// 0 steps, 1 steps that promote, 2 double steps that no pawn can take en
    /// passant, 3 those that one can, 4 and 5 captures towards the h-file
    /// (without and with promotion), 6 and 7 towards the a-file.
    fn pawn_moves_from(&self, result: &mut Vec<Move>, f: u32, pass: u8, ep_sq: i8, Ghost(start): Ghost<Seq<Move>>)
        requires
            self.playable(),
            f < 64,
            pass < 8,
            self.at(f as int) == Some(Piece { color: self.turn(), kind: PieceKind::Pawn }),
            ep_sq == if self.ep_file < 8 {
                (if self.side() == 0 {
                    40 + self.ep_file
                } else {
                    16 + self.ep_file
                }) as i8
            } else {
                -1i8
            },
            self.extends(start, old(result)@),
            self.ordered_below(old(result)@, start.len() as int, pass * 512 + f * 8),
        ensures
            self.extends(start, final(result)@),
            final(result)@.len() >= old(result)@.len(),
            final(result)@.subrange(0, old(result)@.len() as int) == old(result)@,
            self.pawn_listed(final(result)@, old(result)@.len() as int, f as int, pass as int),
            self.ordered_below(final(result)@, start.len() as int, pass * 512 + f * 8 + 8),
    {
        if pass <= 1 {
            self.pawn_steps(result, f, pass, ep_sq, Ghost(start));
        } else if pass <= 3 {
            self.pawn_doubles(result, f, pass, ep_sq, Ghost(start));
        } else {
            self.pawn_captures(result, f, pass, ep_sq, Ghost(start));
        }
    }

    fn pawn_steps(&self, result: &mut Vec<Move>, f: u32, pass: u8, ep_sq: i8, Ghost(start): Ghost<Seq<Move>>)
        requires
            self.playable(),
            f < 64,
            pass <= 1,
            self.at(f as int) == Some(Piece { color: self.turn(), kind: PieceKind::Pawn }),
            ep_sq == if self.ep_file < 8 {
                (if self.side() == 0 {
                    40 + self.ep_file
                } else {
                    16 + self.ep_file
                }) as i8
            } else {
                -1i8
            },
            self.extends(start, old(result)@),
            self.ordered_below(old(result)@, start.len() as int, pass * 512 + f * 8),
        ensures
            self.extends(start, final(result)@),
            final(result)@.len() >= old(result)@.len(),
            final(result)@.subrange(0, old(result)@.len() as int) == old(result)@,
            self.pawn_listed(final(result)@, old(result)@.len() as int, f as int, pass as int),
            self.ordered_below(final(result)@, start.len() as int, pass * 512 + f * 8 + 8),
    {
        let ghost old_len = result@.len() as int;
        proof {
            assert(result@.subrange(0, old_len) =~= result@);
        }
        let c = self.side_to_play_() as usize;
        let fi = f as i8;
        let promo_from = if c == 0 {
            48 <= f && f < 56
        } else {
            8 <= f && f < 16
        };
        assert(color_of(c as int) == self.turn());
        assert(PieceKind::from_index(0) == PieceKind::Pawn);
        let to: i8 = if c == 0 {
            fi + 8
        } else {
            fi - 8
        };
        if to < 0 || to >= 64 {
            return;
        }
        if self.get_opt_kind(to) != 0 {
            proof {
                assert(self.square_ok(to as int));
            }
            return;
        }
        proof {
            assert(self.square_ok(to as int));
            assert(self.at(to as int) is None);
        }
        if pass == 0 && !promo_from {
            let m0 = Move::new(f, to as u32, 0, 0, 0, 8);
            proof {
                assert(self.squares()[to as int] == self.at(to as int));
                assert(self.squares()[f as int] == self.at(f as int));
                assert(self.pawn_push(m0));
                assert(self.pawn_pass(m0) == pass);
            }
            self.push_gen(result, m0, Ghost(start));
            proof {
                assert forall|m: Move|
                    #[trigger] self.generated(m) && m.from_kind() == 0 && m.from() == f && self.pawn_pass(m)
                        == pass implies listed_in(result@, old_len, m) by {
                    lemma_same_move(m, m0);
                }
            }
        }
        if pass == 1 && promo_from {
            let mut k: u32 = 1;
            while k < 5
                invariant
                    1 <= k <= 5,
                    self.playable(),
                    f < 64,
                    pass == 1,
                    0 <= to < 64,
                    to as int == pawn_dest(c as int, f as int, 8),
                    c == self.side(),
                    color_of(c as int) == self.turn(),
                    self.at(f as int) == Some(Piece { color: self.turn(), kind: PieceKind::Pawn }),
                    self.at(to as int) is None,
                    promo_from == (if c == 0 { 48 <= f < 56 } else { 8 <= f < 16 }),
                    promo_from,
                    self.extends(start, result@),
                    old_len == old(result)@.len(),
                    result@.len() >= old_len,
                    result@.subrange(0, old_len) == old(result)@,
                    self.ordered_below(result@, start.len() as int, pass * 512 + f * 8 + k),
                    forall|m: Move|
                        #[trigger] self.generated(m) && m.from_kind() == 0 && m.from() == f && self.pawn_pass(m)
                            == pass && m.to_kind() < k ==> listed_in(result@, old_len, m),
                decreases 5 - k,
            {
                let m0 = Move::new(f, to as u32, 0, k, 0, 8);
                proof {
                    assert(self.squares()[to as int] == self.at(to as int));
                    assert(self.squares()[f as int] == self.at(f as int));
                    assert(self.pawn_push(m0));
                    assert(self.pawn_pass(m0) == pass);
                }
                let ghost before = result@;
                self.push_gen(result, m0, Ghost(start));
                proof {
                    assert(result@.subrange(0, old_len) =~= before.subrange(0, old_len));
                    assert(result@.subrange(0, before.len() as int) =~= before);
                    assert forall|m: Move|
                        #[trigger] self.generated(m) && m.from_kind() == 0 && m.from() == f && self.pawn_pass(m)
                            == pass && m.to_kind() < k + 1 implies listed_in(result@, old_len, m) by {
                        if m.to_kind() == k {
                            lemma_same_move(m, m0);
                        } else {
                            lemma_listed_grow(before, result@, old_len, m);
                        }
                    }
                }
                k = k + 1;
            }
        }
    }

    fn pawn_doubles(&self, result: &mut Vec<Move>, f: u32, pass: u8, ep_sq: i8, Ghost(start): Ghost<Seq<Move>>)
        requires
            self.playable(),
            f < 64,
            2 <= pass <= 3,
            self.at(f as int) == Some(Piece { color: self.turn(), kind: PieceKind::Pawn }),
            ep_sq == if self.ep_file < 8 {
                (if self.side() == 0 {
                    40 + self.ep_file
                } else {
                    16 + self.ep_file
                }) as i8
            } else {
                -1i8
            },
            self.extends(start, old(result)@),
            self.ordered_below(old(result)@, start.len() as int, pass * 512 + f * 8),
        ensures
            self.extends(start, final(result)@),
            final(result)@.len() >= old(result)@.len(),
            final(result)@.subrange(0, old(result)@.len() as int) == old(result)@,
            self.pawn_listed(final(result)@, old(result)@.len() as int, f as int, pass as int),
            self.ordered_below(final(result)@, start.len() as int, pass * 512 + f * 8 + 8),
    {
        let ghost old_len = result@.len() as int;
        proof {
            assert(result@.subrange(0, old_len) =~= result@);
        }
        let c = self.side_to_play_() as usize;
        let fi = f as i8;
        let home = if c == 0 {
            8 <= f && f < 16
        } else {
            48 <= f && f < 56
        };
        assert(color_of(c as int) == self.turn());
        assert(PieceKind::from_index(0) == PieceKind::Pawn);
        if !home {
            return;
        }
        let to1: i8 = if c == 0 {
            fi + 8
        } else {
            fi - 8
        };
        let to2: i8 = if c == 0 {
            fi + 16
        } else {
            fi - 16
        };
        if self.get_opt_kind(to1) != 0 || self.get_opt_kind(to2) != 0 {
            proof {
                assert(self.square_ok(to1 as int));
                assert(self.square_ok(to2 as int));
            }
            return;
        }
        proof {
            assert(self.square_ok(to1 as int));
            assert(self.square_ok(to2 as int));
        }
        let opp = if c == 0 {
            Color::Black
        } else {
            Color::White
        };
        let pawn = Piece { color: opp, kind: PieceKind::Pawn };
        let file = fi % 8;
        let left = file > 0 && self.get_piece(Square(to2 - 1)) == Some(pawn);
        let right = file < 7 && self.get_piece(Square(to2 + 1)) == Some(pawn);
        let threat = left || right;
        proof {
            assert(threat == ep_pawn_next(self.squares(), color_of(1 - c as int), f as int % 8));
        }
        if pass == 2 && !threat {
            let m0 = Move::new(f, to2 as u32, 0, 0, 0, 8);
            proof {
                assert(self.pawn_double(m0));
                assert(self.pawn_pass(m0) == pass);
            }
            self.push_gen(result, m0, Ghost(start));
            proof {
                assert forall|m: Move|
                    #[trigger] self.generated(m) && m.from_kind() == 0 && m.from() == f && self.pawn_pass(m)
                        == pass implies listed_in(result@, old_len, m) by {
                    lemma_same_move(m, m0);
                }
            }
        }
        if pass == 3 && threat {
            let m0 = Move::new(f, to2 as u32, 0, 0, 0, f % 8);
            proof {
                assert(self.pawn_double(m0));
                assert(self.pawn_pass(m0) == pass);
            }
            self.push_gen(result, m0, Ghost(start));
            proof {
                assert forall|m: Move|
                    #[trigger] self.generated(m) && m.from_kind() == 0 && m.from() == f && self.pawn_pass(m)
                        == pass implies listed_in(result@, old_len, m) by {
                    lemma_same_move(m, m0);
                }
            }
        }
    }

    fn pawn_captures(&self, result: &mut Vec<Move>, f: u32, pass: u8, ep_sq: i8, Ghost(start): Ghost<Seq<Move>>)
        requires
            self.playable(),
            f < 64,
            4 <= pass < 8,
            self.at(f as int) == Some(Piece { color: self.turn(), kind: PieceKind::Pawn }),
            ep_sq == if self.ep_file < 8 {
                (if self.side() == 0 {
                    40 + self.ep_file
                } else {
                    16 + self.ep_file
                }) as i8
            } else {
                -1i8
            },
            self.extends(start, old(result)@),
            self.ordered_below(old(result)@, start.len() as int, pass * 512 + f * 8),
        ensures
            self.extends(start, final(result)@),
            final(result)@.len() >= old(result)@.len(),
            final(result)@.subrange(0, old(result)@.len() as int) == old(result)@,
            self.pawn_listed(final(result)@, old(result)@.len() as int, f as int, pass as int),
            self.ordered_below(final(result)@, start.len() as int, pass * 512 + f * 8 + 8),
    {
        let ghost old_len = result@.len() as int;
        proof {
            assert(result@.subrange(0, old_len) =~= result@);
        }
        let c = self.side_to_play_() as usize;
        let fi = f as i8;
        let promo_from = if c == 0 {
            48 <= f && f < 56
        } else {
            8 <= f && f < 16
        };
        assert(color_of(c as int) == self.turn());
        assert(PieceKind::from_index(0) == PieceKind::Pawn);
        let toward_h = pass <= 5;
        let promo = pass == 5 || pass == 7;
        if toward_h && f % 8 == 7 {
            proof {
                assert forall|m: Move|
                    #[trigger] self.generated(m) && m.from_kind() == 0 && m.from() == f && self.pawn_pass(m) == pass implies listed_in(
                        result@,
                        old_len,
                        m,
                    ) by {
                    self.lemma_capture_pass(m, pass as int);
                }
            }
            return;
        }
        if !toward_h && f % 8 == 0 {
            proof {
                assert forall|m: Move|
                    #[trigger] self.generated(m) && m.from_kind() == 0 && m.from() == f && self.pawn_pass(m) == pass implies listed_in(
                        result@,
                        old_len,
                        m,
                    ) by {
                    self.lemma_capture_pass(m, pass as int);
                }
            }
            return;
        }
        let to: i8 = if c == 0 {
            if toward_h {
                fi + 9
            } else {
                fi + 7
            }
        } else {
            if toward_h {
                fi - 7
            } else {
                fi - 9
            }
        };
        if to < 0 || to >= 64 {
            proof {
                assert forall|m: Move|
                    #[trigger] self.generated(m) && m.from_kind() == 0 && m.from() == f && self.pawn_pass(m) == pass implies listed_in(
                        result@,
                        old_len,
                        m,
                    ) by {
                    self.lemma_capture_pass(m, pass as int);
                }
            }
            return;
        }
        if !self.pawn_target(to, ep_sq) {
            proof {
                assert forall|m: Move|
                    #[trigger] self.generated(m) && m.from_kind() == 0 && m.from() == f && self.pawn_pass(m) == pass implies listed_in(
                        result@,
                        old_len,
                        m,
                    ) by {
                    self.lemma_capture_pass(m, pass as int);
                }
            }
            return;
        }
        if promo != promo_from {
            proof {
                assert forall|m: Move|
                    #[trigger] self.generated(m) && m.from_kind() == 0 && m.from() == f && self.pawn_pass(m) == pass implies listed_in(
                        result@,
                        old_len,
                        m,
                    ) by {
                    self.lemma_capture_pass(m, pass as int);
                }
            }
            return;
        }
        let cap = self.get_opt_kind(to);
        proof {
            assert(self.square_ok(to as int));
        }
        if !promo {
            let m0 = Move::new(f, to as u32, 0, 0, cap, 8);
            proof {
                assert(self.squares()[to as int] == self.at(to as int));
                assert(self.squares()[f as int] == self.at(f as int));
                assert(self.pawn_capture(m0, true));
                assert(self.pawn_pass(m0) == pass);
            }
            self.push_gen(result, m0, Ghost(start));
            proof {
                assert forall|m: Move|
                    #[trigger] self.generated(m) && m.from_kind() == 0 && m.from() == f && self.pawn_pass(m) == pass implies listed_in(
                        result@,
                        old_len,
                        m,
                    ) by {
                    lemma_same_move(m, m0);
                }
            }
        } else {
            let mut k: u32 = 1;
            while k < 5
                invariant
                    1 <= k <= 5,
                    self.playable(),
                    f < 64,
                    4 <= pass < 8,
                    promo == (pass == 5 || pass == 7),
                    toward_h == (pass <= 5),
                    0 <= to < 64,
                    c == self.side(),
                    c < 2,
                    color_of(c as int) == self.turn(),
                    self.at(f as int) == Some(Piece { color: self.turn(), kind: PieceKind::Pawn }),
                    cap == self.opt_kind(to as int),
                    self.square_ok(to as int),
                    (self.at(to as int) is Some && self.at(to as int).unwrap().color != self.turn()) || to == ep_sq,
                    ep_sq == if self.ep_file < 8 {
                        (if self.side() == 0 {
                            40 + self.ep_file
                        } else {
                            16 + self.ep_file
                        }) as i8
                    } else {
                        -1i8
                    },
                    promo_from == (if c == 0 { 48 <= f < 56 } else { 8 <= f < 16 }),
                    promo_from,
                    promo,
                    toward_h ==> f % 8 != 7,
                    !toward_h ==> f % 8 != 0,
                    to == (if c == 0 {
                        if toward_h {
                            fi + 9
                        } else {
                            fi + 7
                        }
                    } else {
                        if toward_h {
                            fi - 7
                        } else {
                            fi - 9
                        }
                    }),
                    fi == f,
                    self.extends(start, result@),
                    old_len == old(result)@.len(),
                    result@.len() >= old_len,
                    result@.subrange(0, old_len) == old(result)@,
                    self.ordered_below(result@, start.len() as int, pass * 512 + f * 8 + k),
                    forall|m: Move|
                        #[trigger] self.generated(m) && m.from_kind() == 0 && m.from() == f && self.pawn_pass(m) == pass
                            && m.to_kind() < k ==> listed_in(result@, old_len, m),
                decreases 5 - k,
            {
                let m0 = Move::new(f, to as u32, 0, k, cap, 8);
                proof {
                    assert(self.squares()[to as int] == self.at(to as int));
                    assert(self.squares()[f as int] == self.at(f as int));
                    assert(self.pawn_capture(m0, true));
                    assert(self.pawn_pass(m0) == pass);
                }
                let ghost before = result@;
                self.push_gen(result, m0, Ghost(start));
                proof {
                    assert(result@.subrange(0, old_len) =~= before.subrange(0, old_len));
                    assert(result@.subrange(0, before.len() as int) =~= before);
                    assert forall|m: Move|
                        #[trigger] self.generated(m) && m.from_kind() == 0 && m.from() == f && self.pawn_pass(m) == pass
                            && m.to_kind() < k + 1 implies listed_in(result@, old_len, m) by {
                        if m.to_kind() == k {
                            lemma_same_move(m, m0);
                        } else {
                            lemma_listed_grow(before, result@, old_len, m);
                        }
                    }
                }
                k = k + 1;
            }
        }
    }

}

/// The pattern by which a piece of kind index `k` (bishop, rook or queen)
/// slides.
pub open spec fn slides(k: int, from: int, to: int) -> bool {
    if k == 2 {
        attacks(Pattern::Bishop, from, to)
    } else if k == 3 {
        attacks(Pattern::Rook, from, to)
    } else {
        attacks(Pattern::Bishop, from, to) || attacks(Pattern::Rook, from, to)
    }
}

/// A bit of `a & !b` is set where it is set in `a` and not in `b`.
pub proof fn lemma_bit_and_not(a: u64, b: u64, q: u64)
    requires
        q < 64,
    ensures
        (((a & !b) >> q) & 1 == 1) == (((a >> q) & 1 == 1) && !((b >> q) & 1 == 1)),
{
    lemma_bits64(a, b, 0, q);
}

impl State {
    /// The squares that a bishop (`k` 2), rook (3) or queen (4) on `from`
    /// reaches: along its lines up to and including the first piece.
    fn slider_reach(&self, from: i8, k: usize) -> (r: u64)
        requires
            self.wf(),
            0 <= from < 64,
            2 <= k <= 4,
        ensures
            forall|q: int| 0 <= q < 64 ==> (bit(r, q) <==> slides(k as int, from as int, q) && self.clear(q, from as int)),
    {
        let bm = attack_mask(Pattern::Bishop, from);
        let rm = attack_mask(Pattern::Rook, from);
        let pat = if k == 2 {
            bm
        } else if k == 3 {
            rm
        } else {
            bm | rm
        };
        proof {
            assert forall|q: int| 0 <= q < 64 implies (bit(pat, q) <==> slides(k as int, from as int, q)) by {
                lemma_bit_or(bm, rm, q as u64);
                assert(bit(bm, q) == attacks(Pattern::Bishop, from as int, q));
                assert(bit(rm, q) == attacks(Pattern::Rook, from as int, q));
                assert(bit(bm | rm, q) == (bit(bm, q) || bit(rm, q)));
            }
        }
        let mut res: u64 = 0;
        let mut to: i8 = 0;
        proof {
            assert forall|q: int| 0 <= q < 64 implies !bit(res, q) by {
                lemma_bit_zero(q as u64);
            }
        }
        while to < 64
            invariant
                self.wf(),
                0 <= from < 64,
                2 <= k <= 4,
                0 <= to <= 64,
                forall|q: int| 0 <= q < 64 ==> (bit(pat, q) <==> slides(k as int, from as int, q)),
                forall|q: int|
                    0 <= q < 64 ==> (bit(res, q) <==> (q < to && slides(k as int, from as int, q) && self.clear(q, from as int))),
            decreases 64 - to,
        {
            let ghost old_res = res;
            let on_line = (pat >> (to as u64)) & 1 == 1;
            proof {
                assert(on_line == bit(pat, to as int));
                assert(aligned(to as int, from as int) <== on_line);
            }
            let hit = on_line && self.line_clear(to, from);
            proof {
                assert(hit == (slides(k as int, from as int, to as int) && self.clear(to as int, from as int)));
            }
            if hit {
                res = res | (1u64 << (to as u64));
            }
            proof {
                assert forall|q: int| 0 <= q < 64 implies (bit(res, q) <==> (q < to + 1 && slides(
                    k as int,
                    from as int,
                    q,
                ) && self.clear(q, from as int))) by {
                    lemma_bit_set(old_res, to as u64, q as u64);
                    if hit {
                        assert(bit(res, q) == (bit(old_res, q) || q == to));
                    } else {
                        assert(res == old_res);
                    }
                }
            }
            to = to + 1;
        }
        res
    }

    /// A move listed among those of kind index `k`: any move of such a
    /// piece along its pattern, or where `captures_only` only its captures.
    pub open spec fn kind_move(self, m: Move, k: int, captures_only: bool) -> bool {
        if captures_only {
            self.generated_capture(m) && m.from_kind() == k
        } else {
            self.generated(m) && m.from_kind() == k && self.piece_step(m)
        }
    }

    /// Appends the moves of the pieces of kind index `k` (knight to king) of
    /// the side to play, or only their captures where `captures_only`.
    #[verifier::spinoff_prover]
    #[verifier::rlimit(30)]
    fn piece_moves(&self, result: &mut Vec<Move>, k: usize, captures_only: bool, Ghost(start): Ghost<Seq<Move>>)
        requires
            self.playable(),
            1 <= k < 6,
            self.extends(start, old(result)@),
            captures_only ==> self.extends_captures(start, old(result)@),
            self.ordered_below(old(result)@, start.len() as int, 8192 + kind_rank(k as int) * 4096),
        ensures
            self.ordered_below(final(result)@, start.len() as int, 12288 + kind_rank(k as int) * 4096),
            self.extends(start, final(result)@),
            captures_only ==> self.extends_captures(start, final(result)@),
            final(result)@.len() >= old(result)@.len(),
            final(result)@.subrange(0, old(result)@.len() as int) == old(result)@,
            forall|m: Move| #[trigger]
                self.kind_move(m, k as int, captures_only) ==> listed_in(final(result)@, start.len() as int, m),
    {
        let ghost old_len = result@.len() as int;
        let ghost slen = start.len() as int;
        let ghost lo = 8192 + kind_rank(k as int) * 4096;
        proof {
            assert(result@.subrange(0, old_len) =~= result@);
        }
        let c = self.side_to_play_() as usize;
        let froms = self.pieces_of(c, k);
        let mine = self.by_color[c];
        let theirs = self.by_color[1 - c];
        proof {
            assert(color_of(c as int) == self.turn());
            assert forall|q: int| 0 <= q < 64 implies (bit(mine, q) == #[trigger] self.own_at(q)) && (bit(theirs, q)
                == self.enemy_at(q)) by {
                assert(self.square_ok(q));
            }
        }
        let mut i: usize = 0;
        while i < froms.len()
            invariant
                self.playable(),
                1 <= k < 6,
                c == self.side(),
                c < 2,
                color_of(c as int) == self.turn(),
                mine == self.by_color[c as int],
                theirs == self.by_color[1 - c],
                forall|q: int| 0 <= q < 64 ==> (bit(mine, q) == #[trigger] self.own_at(q)) && (bit(theirs, q) == self.enemy_at(q)),
                forall|j: int| 0 <= j < froms.len() ==> #[trigger] froms[j] < 64,
                forall|j: int|
                    0 <= j < froms.len() ==> self.at(#[trigger] froms[j] as int) == Some(
                        Piece { color: color_of(c as int), kind: PieceKind::from_index(k as u32) },
                    ),
                forall|q: int|
                    0 <= q < 64 && self.at(q) == Some(
                        Piece { color: color_of(c as int), kind: PieceKind::from_index(k as u32) },
                    ) ==> froms@.contains(q as u32),
                i <= froms.len(),
                slen == start.len(),
                lo == 8192 + kind_rank(k as int) * 4096,
                forall|a: int, b: int| 0 <= a < b < froms.len() ==> #[trigger] froms[a] < #[trigger] froms[b],
                self.ordered_below(result@, slen, if i == 0 {
                    lo
                } else {
                    lo + froms[i - 1] * 64 + 64
                }),
                old_len == old(result)@.len(),
                slen <= old_len,
                result@.len() >= old_len,
                result@.subrange(0, old_len) == old(result)@,
                self.extends(start, result@),
                captures_only ==> self.extends_captures(start, result@),
                forall|m: Move| #[trigger]
                    self.kind_move(m, k as int, captures_only) && froms@.subrange(0, i as int).contains(m.from())
                        ==> listed_in(result@, slen, m),
            decreases froms.len() - i,
        {
            let from = froms[i];
            let reach = if k == 1 {
                attack_mask(Pattern::Knight, from as i8)
            } else if k == 5 {
                attack_mask(Pattern::King, from as i8)
            } else {
                self.slider_reach(from as i8, k)
            };
            let targets = if captures_only {
                reach & theirs
            } else {
                reach & !mine
            };
            let tos = iter_one_positions(targets);
            proof {
                lemma_ones_below(targets, 64);
                assert forall|q: int| 0 <= q < 64 implies (bit(targets, q) <==> if captures_only {
                    bit(reach, q) && bit(theirs, q)
                } else {
                    bit(reach, q) && !bit(mine, q)
                }) by {
                    lemma_bit_and(reach, theirs, q as u64);
                    lemma_bit_and_not(reach, mine, q as u64);
                }
                assert forall|q: int| 0 <= q < 64 implies (bit(reach, q) <==> #[trigger] self.attacks_from(
                    self.turn(),
                    from as int,
                    q,
                )) by {}
            }
            let ghost before_from = result@;
            proof {
                if i > 0 {
                    assert(froms[i - 1] < froms[i as int]);
                }
                let bnd = if i == 0 {
                    lo
                } else {
                    lo + froms[i - 1] * 64 + 64
                };
                self.lemma_ordered_weaken(result@, slen, bnd, lo + from * 64);
                assert forall|a: int, b: int| 0 <= a < b < tos.len() implies #[trigger] tos[a] < #[trigger] tos[b] by {
                    assert(tos@[a] == ones_below(targets, 64)[a]);
                    assert(tos@[b] == ones_below(targets, 64)[b]);
                }
                assert forall|a: int| 0 <= a < tos.len() implies #[trigger] tos[a] < 64 by {
                    assert(tos@[a] == ones_below(targets, 64)[a]);
                }
            }
            let mut j: usize = 0;
            while j < tos.len()
                invariant
                    self.playable(),
                    1 <= k < 6,
                    c == self.side(),
                    c < 2,
                    color_of(c as int) == self.turn(),
                    mine == self.by_color[c as int],
                    theirs == self.by_color[1 - c],
                    forall|q: int| 0 <= q < 64 ==> (bit(mine, q) == #[trigger] self.own_at(q)) && (bit(theirs, q) == self.enemy_at(q)),
                    from < 64,
                    self.at(from as int) == Some(Piece { color: color_of(c as int), kind: PieceKind::from_index(k as u32) }),
                    forall|q: int| 0 <= q < 64 && #[trigger] bit(reach, q) ==> (k == 5 ==> attacks(Pattern::King, from as int, q)),
                    forall|q: int| 0 <= q < 64 ==> (bit(reach, q) <==> #[trigger] self.attacks_from(self.turn(), from as int, q)),
                    tos@ == ones(targets),
                    forall|q: u32| #[trigger] tos@.contains(q) <==> (q < 64 && bit(targets, q as int)),
                    forall|q: int|
                        0 <= q < 64 ==> (bit(targets, q) <==> if captures_only {
                            bit(reach, q) && bit(theirs, q)
                        } else {
                            bit(reach, q) && !bit(mine, q)
                        }),
                    j <= tos.len(),
                    slen == start.len(),
                    lo == 8192 + kind_rank(k as int) * 4096,
                    forall|a: int, b: int| 0 <= a < b < tos.len() ==> #[trigger] tos[a] < #[trigger] tos[b],
                    forall|a: int| 0 <= a < tos.len() ==> #[trigger] tos[a] < 64,
                    self.ordered_below(result@, slen, if j == 0 {
                        lo + from * 64
                    } else {
                        lo + from * 64 + tos[j - 1] + 1
                    }),
                    old_len == old(result)@.len(),
                    slen <= old_len,
                    before_from.len() >= old_len,
                    result@.len() >= before_from.len(),
                    result@.subrange(0, before_from.len() as int) == before_from,
                    before_from.subrange(0, old_len) == old(result)@,
                    self.extends(start, result@),
                    captures_only ==> self.extends_captures(start, result@),
                    forall|m: Move| #[trigger]
                        self.kind_move(m, k as int, captures_only) && m.from() == from && tos@.subrange(0, j as int).contains(
                            m.to(),
                        ) ==> listed_in(result@, slen, m),
                decreases tos.len() - j,
            {
                let to = tos[j];
                proof {
                    assert(tos@.contains(tos@[j as int]));
                }
                let cap = self.get_opt_kind(to as i8);
                proof {
                    assert(self.square_ok(to as int));
                    assert(self.square_ok(from as int));
                    assert(self.squares()[to as int] == self.at(to as int));
                    assert(self.squares()[from as int] == self.at(from as int));
                    if from == to {
                        assert(bit(mine, from as int));
                        if captures_only {
                            assert(bit(theirs, from as int));
                        }
                    }
                    if k == 5 && from == 4 {
                        assert(to != 6 && to != 2);
                    }
                    if k == 5 && from == 60 {
                        assert(to != 62 && to != 58);
                    }
                }
                let m0 = Move::new(from, to, k as u32, k as u32, cap, 8);
                proof {
                    assert(!castle_move(m0));
                    assert(self.gen_key(m0) == lo + from * 64 + to);
                    if j > 0 {
                        assert(tos[j - 1] < tos[j as int]);
                    }
                    let bnd = if j == 0 {
                        lo + from * 64
                    } else {
                        lo + from * 64 + tos[j - 1] + 1
                    };
                    self.lemma_ordered_weaken(result@, slen, bnd, self.gen_key(m0));
                    assert(self.gen_ok(m0));
                    assert(self.attacks_from(self.turn(), from as int, to as int));
                    assert(self.piece_step(m0));
                    assert(self.generated(m0));
                }
                let ghost before = result@;
                self.push_gen(result, m0, Ghost(start));
                proof {
                    assert(result@.subrange(0, before.len() as int) =~= before);
                    assert(result@.subrange(0, before_from.len() as int) =~= before_from);
                    if captures_only {
                        assert(bit(theirs, to as int));
                        assert(self.generated_capture(m0));
                        assert(self.capture_ok(m0));
                        assert(result@.subrange(0, start.len() as int) =~= before.subrange(0, start.len() as int));
                        assert forall|x: int| start.len() <= x < result@.len() implies #[trigger] self.capture_ok(
                            result@[x],
                        ) && self.generated_capture(result@[x]) by {
                            if x < before.len() {
                                assert(result@[x] == before[x]);
                            } else {
                                assert(result@[x] == m0);
                            }
                        }
                        assert(self.extends_captures(start, result@));
                    }
                    assert forall|m: Move| #[trigger]
                        self.kind_move(m, k as int, captures_only) && m.from() == from && tos@.subrange(
                            0,
                            j + 1,
                        ).contains(m.to()) implies listed_in(result@, slen, m) by {
                        let w = choose|w: int| 0 <= w < j + 1 && #[trigger] tos@.subrange(0, j + 1)[w] == m.to();
                        if w == j {
                            lemma_same_move(m, m0);
                            assert(listed_in(result@, old_len, m));
                        } else {
                            assert(tos@.subrange(0, j as int)[w] == m.to());
                            assert(tos@.subrange(0, j as int).contains(m.to()));
                            lemma_listed_grow(before, result@, slen, m);
                        }
                    }
                }
                j = j + 1;
            }
            proof {
                if tos.len() > 0 {
                    assert(tos[tos.len() - 1] < 64);
                    self.lemma_ordered_weaken(result@, slen, lo + from * 64 + tos[tos.len() - 1] + 1, lo + from * 64 + 64);
                }
                assert(tos@.subrange(0, tos.len() as int) =~= tos@);
                assert(result@.subrange(0, old_len) =~= before_from.subrange(0, old_len));
                assert forall|m: Move| #[trigger]
                    self.kind_move(m, k as int, captures_only) && froms@.subrange(0, i + 1).contains(m.from())
                        implies listed_in(result@, slen, m) by {
                    let w = choose|w: int| 0 <= w < i + 1 && #[trigger] froms@.subrange(0, i + 1)[w] == m.from();
                    if w == i {
                        assert(self.attacks_from(self.turn(), from as int, m.to() as int));
                        assert(bit(targets, m.to() as int));
                        assert(tos@.contains(m.to()));
                    } else {
                        assert(froms@.subrange(0, i as int)[w] == m.from());
                        assert(froms@.subrange(0, i as int).contains(m.from()));
                        lemma_listed_grow(before_from, result@, slen, m);
                    }
                }
            }
            i = i + 1;
        }
        proof {
            if froms.len() > 0 {
                assert(froms[froms.len() - 1] < 64);
                self.lemma_ordered_weaken(result@, slen, lo + froms[froms.len() - 1] * 64 + 64, lo + 4096);
            }
            assert(froms@.subrange(0, froms.len() as int) =~= froms@);
            assert forall|m: Move| #[trigger] self.kind_move(m, k as int, captures_only) implies listed_in(
                result@,
                slen,
                m,
            ) by {
                assert(froms@.contains(m.from()));
            }
        }
    }
}

impl State {
    /// A listed capture of a pawn in group `pass` goes towards the h-file
    /// for groups 4 and 5, and promotes, to a queen, for groups 5 and 7.
    proof fn lemma_attack_pass(self, m: Move, pass: int)
        requires
            self.generated_capture(m),
            m.from_kind() == 0,
            self.pawn_pass(m) == pass,
            4 <= pass < 8,
        ensures
            self.pawn_capture(m, false),
            m.to() == if self.side() == 0 {
                if pass <= 5 {
                    m.from() + 9
                } else {
                    m.from() + 7
                }
            } else {
                if pass <= 5 {
                    m.from() - 7
                } else {
                    m.from() - 9
                }
            },
            pass <= 5 ==> m.from() % 8 != 7,
            pass > 5 ==> m.from() % 8 != 0,
            self.promo_rank(m.from() as int) == (pass == 5 || pass == 7),
    {
    }

    /// The group of a listed pawn capture is one of 4 to 7.
    proof fn lemma_attack_pass_range(self, m: Move)
        requires
            self.generated_capture(m),
            m.from_kind() == 0,
        ensures
            4 <= self.pawn_pass(m) < 8,
    {
    }

    /// The group of a listed pawn move is one of 0 to 7.
    proof fn lemma_pawn_pass_range(self, m: Move)
        requires
            self.generated(m),
            m.from_kind() == 0,
        ensures
            0 <= self.pawn_pass(m) < 8,
    {
    }

    /// The captures of group `pass` (4 to 7, as for `pawn_moves_from`) of the
    /// pawn on `f` of the side to play, onto enemy pieces only; a pawn that
    /// reaches the last rank becomes a queen.
    fn pawn_attacks_from(&self, result: &mut Vec<Move>, f: u32, pass: u8, Ghost(start): Ghost<Seq<Move>>)
        requires
            self.playable(),
            f < 64,
            4 <= pass <= 7,
            self.at(f as int) == Some(Piece { color: self.turn(), kind: PieceKind::Pawn }),
            self.extends_captures(start, old(result)@),
            self.ordered_below(old(result)@, start.len() as int, pass * 512 + f * 8),
        ensures
            self.ordered_below(final(result)@, start.len() as int, pass * 512 + f * 8 + 8),
            self.extends_captures(start, final(result)@),
            final(result)@.len() >= old(result)@.len(),
            final(result)@.subrange(0, old(result)@.len() as int) == old(result)@,
            forall|m: Move| #[trigger]
                self.generated_capture(m) && m.from_kind() == 0 && m.from() == f && self.pawn_pass(m) == pass ==> listed_in(
                    final(result)@,
                    old(result)@.len() as int,
                    m,
                ),
    {
        let ghost old_len = result@.len() as int;
        proof {
            assert(result@.subrange(0, old_len) =~= result@);
        }
        let c = self.side_to_play_() as usize;
        let fi = f as i8;
        let promo_from = if c == 0 {
            48 <= f && f < 56
        } else {
            8 <= f && f < 16
        };
        assert(color_of(c as int) == self.turn());
        assert(PieceKind::from_index(0) == PieceKind::Pawn);
        let toward_h = pass <= 5;
        let promo = pass == 5 || pass == 7;
        if (toward_h && f % 8 == 7) || (!toward_h && f % 8 == 0) {
            proof {
                assert forall|m: Move| #[trigger]
                    self.generated_capture(m) && m.from_kind() == 0 && m.from() == f && self.pawn_pass(m) == pass implies listed_in(
                        result@,
                        old_len,
                        m,
                    ) by {
                    self.lemma_attack_pass(m, pass as int);
                }
            }
            return;
        }
        let to: i8 = if c == 0 {
            if toward_h {
                fi + 9
            } else {
                fi + 7
            }
        } else {
            if toward_h {
                fi - 7
            } else {
                fi - 9
            }
        };
        if to < 0 || to >= 64 || !self.pawn_target(to, -1) || promo != promo_from {
            proof {
                assert forall|m: Move| #[trigger]
                    self.generated_capture(m) && m.from_kind() == 0 && m.from() == f && self.pawn_pass(m) == pass implies listed_in(
                        result@,
                        old_len,
                        m,
                    ) by {
                    self.lemma_attack_pass(m, pass as int);
                }
            }
            return;
        }
        let cap = self.get_opt_kind(to);
        proof {
            assert(self.square_ok(to as int));
            assert(self.squares()[to as int] == self.at(to as int));
            assert(self.squares()[f as int] == self.at(f as int));
        }
        let m0 = Move::new(f, to as u32, 0, if promo { 4 } else { 0 }, cap, 8);
        proof {
            assert(self.gen_ok(m0));
            assert(self.pawn_capture(m0, false));
            assert(self.generated_capture(m0));
            assert(self.pawn_pass(m0) == pass);
            self.lemma_ordered_push(result@, start.len() as int, m0);
        }
        result.push(m0);
        proof {
            assert(result@.subrange(0, start.len() as int) =~= old(result)@.subrange(0, start.len() as int));
            assert(result@.subrange(0, old_len) =~= old(result)@);
            assert(result@[old_len] == m0);
            assert forall|m: Move| #[trigger]
                self.generated_capture(m) && m.from_kind() == 0 && m.from() == f && self.pawn_pass(m) == pass implies listed_in(
                    result@,
                    old_len,
                    m,
                ) by {
                self.lemma_attack_pass(m, pass as int);
                lemma_same_move(m, m0);
            }
        }
    }

    fn push_castle(&self, result: &mut Vec<Move>, from: u32, to: u32, Ghost(start): Ghost<Seq<Move>>)
        requires
            self.playable(),
            self.extends(start, old(result)@),
            (from == 4 && to == 6 && self.side() == 0 && self.flags & 1 != 0 && self.at(5) is None && self.at(6) is None)
                || (from == 4 && to == 2 && self.side() == 0 && self.flags & 2 != 0 && self.at(1) is None && self.at(2)
                is None && self.at(3) is None) || (from == 60 && to == 62 && self.side() == 1 && self.flags & 4 != 0
                && self.at(61) is None && self.at(62) is None) || (from == 60 && to == 58 && self.side() == 1
                && self.flags & 8 != 0 && self.at(57) is None && self.at(58) is None && self.at(59) is None),
            self.ordered_below(old(result)@, start.len() as int, 4096 + if to % 8 == 6 {
                0int
            } else {
                1int
            }),
        ensures
            self.ordered_below(final(result)@, start.len() as int, 4097 + if to % 8 == 6 {
                0int
            } else {
                1int
            }),
            self.extends(start, final(result)@),
            final(result)@.len() >= old(result)@.len(),
            final(result)@.subrange(0, old(result)@.len() as int) == old(result)@,
            forall|m: Move| #[trigger]
                self.generated(m) && self.castle_step(m) && m.from() == from && m.to() == to ==> listed_in(
                    final(result)@,
                    old(result)@.len() as int,
                    m,
                ),
    {
        let m0 = Move::new(from, to, 5, 5, 0, 8);
        proof {
            assert(self.squares()[from as int] == self.at(from as int));
            assert(self.squares()[to as int] == self.at(to as int));
            assert(self.squares()[5] == self.at(5));
            assert(self.squares()[7] == self.at(7));
            assert(self.squares()[0] == self.at(0));
            assert(self.squares()[3] == self.at(3));
            assert(self.squares()[61] == self.at(61));
            assert(self.squares()[63] == self.at(63));
            assert(self.squares()[56] == self.at(56));
            assert(self.squares()[59] == self.at(59));
            assert(self.gen_ok(m0));
            assert(self.castle_step(m0));
            assert(self.generated(m0));
            assert(castle_move(m0));
        }
        self.push_gen(result, m0, Ghost(start));
        proof {
            assert(result@.subrange(0, old(result)@.len() as int) =~= old(result)@);
            assert forall|m: Move| #[trigger]
                self.generated(m) && self.castle_step(m) && m.from() == from && m.to() == to implies listed_in(
                    result@,
                    old(result)@.len() as int,
                    m,
                ) by {
                lemma_same_move(m, m0);
            }
        }
    }

    fn empty_sq(&self, q: i8) -> (r: bool)
        requires
            self.wf(),
            0 <= q < 64,
        ensures
            r == (self.at(q as int) is None),
    {
        proof {
            assert(self.square_ok(q as int));
        }
        self.get_opt_kind(q) == 0
    }

    /// The place of kind index `k` in the order in which the pieces' moves
    /// are listed: knights, king, bishops, rooks, queens.
    pub open spec fn piece_order(k: int) -> int {
        if k == 1 {
            0
        } else if k == 5 {
            1
        } else {
            k
        }
    }

    /// The moves listed once `stage` steps of `all_moves` are done: those of
    /// the pawns, then the castlings, then the pieces' moves in
    /// `piece_order`.
    pub open spec fn covered(self, m: Move, stage: int) -> bool {
        &&& self.generated(m)
        &&& {
            ||| m.from_kind() == 0
            ||| (stage >= 1 && m.from_kind() == 5 && self.castle_step(m))
            ||| (m.from_kind() != 0 && self.piece_step(m) && Self::piece_order(m.from_kind() as int) + 2 <= stage)
        }
    }

    /// The captures listed once `stage` steps of `all_attacks` are done:
    /// those of the pawns, then the pieces' in `piece_order`.
    pub open spec fn covered_capture(self, m: Move, stage: int) -> bool {
        &&& self.generated_capture(m)
        &&& (m.from_kind() == 0 || Self::piece_order(m.from_kind() as int) + 1 <= stage)
    }

    proof fn lemma_covered_grow(self, s: Seq<Move>, t: Seq<Move>, from: int, stage: int)
        requires
            forall|m: Move| #[trigger] self.covered(m, stage) ==> listed_in(s, from, m),
            0 <= from,
            t.len() >= s.len(),
            t.subrange(0, s.len() as int) == s,
        ensures
            forall|m: Move| #[trigger] self.covered(m, stage) ==> listed_in(t, from, m),
    {
        assert forall|m: Move| #[trigger] self.covered(m, stage) implies listed_in(t, from, m) by {
            lemma_listed_grow(s, t, from, m);
        }
    }

    proof fn lemma_covered_capture_grow(self, s: Seq<Move>, t: Seq<Move>, from: int, stage: int)
        requires
            forall|m: Move| #[trigger] self.covered_capture(m, stage) ==> listed_in(s, from, m),
            0 <= from,
            t.len() >= s.len(),
            t.subrange(0, s.len() as int) == s,
        ensures
            forall|m: Move| #[trigger] self.covered_capture(m, stage) ==> listed_in(t, from, m),
    {
        assert forall|m: Move| #[trigger] self.covered_capture(m, stage) implies listed_in(t, from, m) by {
            lemma_listed_grow(s, t, from, m);
        }
    }

    /// Appends the moves of the side to play: pawn steps, promotions, double
    /// steps, pawn captures, castlings, then the moves of the knights, the
    /// king, the bishops, the rooks and the queens. A move may leave its own
    /// king attacked. What is appended is exactly the moves that the side to
    /// play's pieces make by the rules of movement, each once, in the order
    /// of `gen_key`.
    pub fn all_moves(&self, result: &mut Vec<Move>)
        requires
            self.playable(),
        ensures
            self.extends(old(result)@, final(result)@),
            forall|m: Move| #[trigger] self.generated(m) ==> listed_in(final(result)@, old(result)@.len() as int, m),
            distinct_from(final(result)@, old(result)@.len() as int),
            self.ordered_below(final(result)@, old(result)@.len() as int, 28672),
    {
        let ghost start = result@;
        let ghost slen = start.len() as int;
        proof {
            assert(result@.subrange(0, start.len() as int) =~= start);
        }
        let c = self.side_to_play_() as usize;
        let pawns = self.pieces_of(c, 0);
        assert(color_of(c as int) == self.turn());
        let ep_sq: i8 = if self.ep_file < 8 {
            if c == 0 {
                40 + self.ep_file as i8
            } else {
                16 + self.ep_file as i8
            }
        } else {
            -1
        };
        let mut pass: u8 = 0;
        while pass < 8
            invariant
                self.playable(),
                c == self.side(),
                color_of(c as int) == self.turn(),
                forall|j: int| 0 <= j < pawns.len() ==> #[trigger] pawns[j] < 64,
                forall|j: int|
                    0 <= j < pawns.len() ==> self.at(#[trigger] pawns[j] as int) == Some(
                        Piece { color: color_of(c as int), kind: PieceKind::from_index(0) },
                    ),
                forall|q: int|
                    0 <= q < 64 && self.at(q) == Some(Piece { color: color_of(c as int), kind: PieceKind::from_index(0) })
                        ==> pawns@.contains(q as u32),
                ep_sq == if self.ep_file < 8 {
                    (if self.side() == 0 {
                        40 + self.ep_file
                    } else {
                        16 + self.ep_file
                    }) as i8
                } else {
                    -1i8
                },
                pass <= 8,
                slen == start.len(),
                self.extends(start, result@),
                forall|a: int, b: int| 0 <= a < b < pawns.len() ==> #[trigger] pawns[a] < #[trigger] pawns[b],
                self.ordered_below(result@, slen, pass * 512),
                forall|m: Move| #[trigger]
                    self.generated(m) && m.from_kind() == 0 && self.pawn_pass(m) < pass ==> listed_in(result@, slen, m),
            decreases 8 - pass,
        {
            let ghost before_pass = result@;
            let mut i: usize = 0;
            while i < pawns.len()
                invariant
                    self.playable(),
                    c == self.side(),
                    color_of(c as int) == self.turn(),
                    forall|j: int| 0 <= j < pawns.len() ==> #[trigger] pawns[j] < 64,
                    forall|j: int|
                        0 <= j < pawns.len() ==> self.at(#[trigger] pawns[j] as int) == Some(
                            Piece { color: color_of(c as int), kind: PieceKind::from_index(0) },
                        ),
                    ep_sq == if self.ep_file < 8 {
                        (if self.side() == 0 {
                            40 + self.ep_file
                        } else {
                            16 + self.ep_file
                        }) as i8
                    } else {
                        -1i8
                    },
                    pass < 8,
                    i <= pawns.len(),
                    slen == start.len(),
                    self.extends(start, result@),
                    self.extends(start, before_pass),
                    forall|a: int, b: int| 0 <= a < b < pawns.len() ==> #[trigger] pawns[a] < #[trigger] pawns[b],
                    self.ordered_below(result@, slen, if i == 0 {
                        pass * 512
                    } else {
                        pass * 512 + pawns[i - 1] * 8 + 8
                    }),
                    result@.len() >= before_pass.len(),
                    result@.subrange(0, before_pass.len() as int) == before_pass,
                    forall|m: Move| #[trigger]
                        self.generated(m) && m.from_kind() == 0 && self.pawn_pass(m) < pass ==> listed_in(
                            before_pass,
                            slen,
                            m,
                        ),
                    forall|m: Move| #[trigger]
                        self.generated(m) && m.from_kind() == 0 && self.pawn_pass(m) == pass && pawns@.subrange(
                            0,
                            i as int,
                        ).contains(m.from()) ==> listed_in(result@, slen, m),
                decreases pawns.len() - i,
            {
                let ghost before = result@;
                proof {
                    if i > 0 {
                        assert(pawns[i - 1] < pawns[i as int]);
                    }
                    let bnd = if i == 0 {
                        pass * 512
                    } else {
                        pass * 512 + pawns[i - 1] * 8 + 8
                    };
                    self.lemma_ordered_weaken(result@, slen, bnd, pass * 512 + pawns[i as int] * 8);
                }
                self.pawn_moves_from(result, pawns[i], pass, ep_sq, Ghost(start));
                proof {
                    assert(result@.subrange(0, before_pass.len() as int) =~= before_pass);
                    assert forall|m: Move| #[trigger]
                        self.generated(m) && m.from_kind() == 0 && self.pawn_pass(m) == pass && pawns@.subrange(
                            0,
                            i + 1,
                        ).contains(m.from()) implies listed_in(result@, slen, m) by {
                        let w = choose|w: int| 0 <= w < i + 1 && #[trigger] pawns@.subrange(0, i + 1)[w] == m.from();
                        if w == i {
                            assert(self.pawn_listed(result@, before.len() as int, pawns[i as int] as int, pass as int));
                            let x = choose|x: int| before.len() <= x < result@.len() && result@[x] == m;
                            assert(slen <= x);
                        } else {
                            assert(pawns@.subrange(0, i as int)[w] == m.from());
                            assert(pawns@.subrange(0, i as int).contains(m.from()));
                            lemma_listed_grow(before, result@, slen, m);
                        }
                    }
                }
                i = i + 1;
            }
            proof {
                if pawns.len() > 0 {
                    assert(pawns[pawns.len() - 1] < 64);
                    self.lemma_ordered_weaken(
                        result@,
                        slen,
                        pass * 512 + pawns[pawns.len() - 1] * 8 + 8,
                        (pass + 1) * 512,
                    );
                }
                assert(pawns@.subrange(0, pawns.len() as int) =~= pawns@);
                assert forall|m: Move| #[trigger]
                    self.generated(m) && m.from_kind() == 0 && self.pawn_pass(m) < pass + 1 implies listed_in(
                        result@,
                        slen,
                        m,
                    ) by {
                    if self.pawn_pass(m) < pass {
                        lemma_listed_grow(before_pass, result@, slen, m);
                    } else {
                        assert(pawns@.contains(m.from()));
                    }
                }
            }
            pass = pass + 1;
        }
        proof {
            assert forall|m: Move| #[trigger] self.covered(m, 0) implies listed_in(result@, slen, m) by {
                self.lemma_pawn_pass_range(m);
            }
        }
        let ghost before_castles = result@;
        if c == 0 {
            if self.flags & 1 != 0 && self.empty_sq(5) && self.empty_sq(6) {
                self.push_castle(result, 4, 6, Ghost(start));
            }
            let ghost mid = result@;
            if self.flags & 2 != 0 && self.empty_sq(1) && self.empty_sq(2) && self.empty_sq(3) {
                self.push_castle(result, 4, 2, Ghost(start));
            }
            proof {
                assert(result@.subrange(0, mid.len() as int) =~= mid);
                assert(result@.subrange(0, before_castles.len() as int) =~= before_castles);
                assert forall|m: Move| #[trigger] self.covered(m, 1) implies listed_in(result@, slen, m) by {
                    if m.from_kind() == 0 {
                        self.lemma_pawn_pass_range(m);
                        lemma_listed_grow(before_castles, result@, slen, m);
                    } else if m.to() == 6 {
                        assert(listed_in(mid, before_castles.len() as int, m));
                        let x = choose|x: int| before_castles.len() <= x < mid.len() && mid[x] == m;
                        assert(listed_in(mid, slen, m));
                        lemma_listed_grow(mid, result@, slen, m);
                    } else {
                        let x = choose|x: int| mid.len() <= x < result@.len() && result@[x] == m;
                    }
                }
            }
        } else {
            if self.flags & 4 != 0 && self.empty_sq(61) && self.empty_sq(62) {
                self.push_castle(result, 60, 62, Ghost(start));
            }
            let ghost mid = result@;
            if self.flags & 8 != 0 && self.empty_sq(57) && self.empty_sq(58) && self.empty_sq(59) {
                self.push_castle(result, 60, 58, Ghost(start));
            }
            proof {
                assert(result@.subrange(0, mid.len() as int) =~= mid);
                assert(result@.subrange(0, before_castles.len() as int) =~= before_castles);
                assert forall|m: Move| #[trigger] self.covered(m, 1) implies listed_in(result@, slen, m) by {
                    if m.from_kind() == 0 {
                        self.lemma_pawn_pass_range(m);
                        lemma_listed_grow(before_castles, result@, slen, m);
                    } else if m.to() == 62 {
                        assert(listed_in(mid, before_castles.len() as int, m));
                        let x = choose|x: int| before_castles.len() <= x < mid.len() && mid[x] == m;
                        assert(listed_in(mid, slen, m));
                        lemma_listed_grow(mid, result@, slen, m);
                    } else {
                        let x = choose|x: int| mid.len() <= x < result@.len() && result@[x] == m;
                    }
                }
            }
        }
        proof {
            self.lemma_ordered_weaken(result@, slen, 4098, 8192);
        }
        self.pieces_into(result, Ghost(start));
        proof {
            self.lemma_ordered_distinct(result@, slen, 28672);
        }
    }

    /// The last steps of `all_moves`: the moves of the knights, the king,
    /// the bishops, the rooks and the queens.
    fn pieces_into(&self, result: &mut Vec<Move>, Ghost(start): Ghost<Seq<Move>>)
        requires
            self.playable(),
            self.extends(start, old(result)@),
            forall|m: Move| #[trigger] self.covered(m, 1) ==> listed_in(old(result)@, start.len() as int, m),
            self.ordered_below(old(result)@, start.len() as int, 8192),
        ensures
            self.ordered_below(final(result)@, start.len() as int, 28672),
            self.extends(start, final(result)@),
            forall|m: Move| #[trigger] self.generated(m) ==> listed_in(final(result)@, start.len() as int, m),
    {
        let ghost slen = start.len() as int;
        let ghost r0 = result@;
        self.piece_moves(result, 1, false, Ghost(start));
        proof {
            self.lemma_covered_grow(r0, result@, slen, 1);
            assert forall|m: Move| #[trigger] self.covered(m, 2) implies listed_in(result@, slen, m) by {
                if !self.covered(m, 1) {
                    assert(self.kind_move(m, 1, false));
                }
            }
        }
        let ghost r1 = result@;
        self.piece_moves(result, 5, false, Ghost(start));
        proof {
            self.lemma_covered_grow(r1, result@, slen, 2);
            assert forall|m: Move| #[trigger] self.covered(m, 3) implies listed_in(result@, slen, m) by {
                if !self.covered(m, 2) {
                    assert(self.kind_move(m, 5, false));
                }
            }
        }
        let ghost r2 = result@;
        self.piece_moves(result, 2, false, Ghost(start));
        proof {
            self.lemma_covered_grow(r2, result@, slen, 3);
            assert forall|m: Move| #[trigger] self.covered(m, 4) implies listed_in(result@, slen, m) by {
                if !self.covered(m, 3) {
                    assert(self.kind_move(m, 2, false));
                }
            }
        }
        let ghost r3 = result@;
        self.piece_moves(result, 3, false, Ghost(start));
        proof {
            self.lemma_covered_grow(r3, result@, slen, 4);
            assert forall|m: Move| #[trigger] self.covered(m, 5) implies listed_in(result@, slen, m) by {
                if !self.covered(m, 4) {
                    assert(self.kind_move(m, 3, false));
                }
            }
        }
        let ghost r4 = result@;
        self.piece_moves(result, 4, false, Ghost(start));
        proof {
            self.lemma_covered_grow(r4, result@, slen, 5);
            assert forall|m: Move| #[trigger] self.generated(m) implies listed_in(result@, slen, m) by {
                if !self.covered(m, 5) {
                    assert(self.kind_move(m, 4, false));
                } else {
                    assert(self.covered(m, 5));
                }
            }
        }
    }

    /// Appends the captures of enemy pieces by the side to play: pawn
    /// captures (a pawn reaching the last rank becoming a queen), then those
    /// of the knights, the king, the bishops, the rooks and the queens. What
    /// is appended is exactly those captures, each once, in the order of
    /// `gen_key`.
    pub fn all_attacks(&self, result: &mut Vec<Move>)
        requires
            self.playable(),
        ensures
            self.extends_captures(old(result)@, final(result)@),
            forall|m: Move| #[trigger]
                self.generated_capture(m) ==> listed_in(final(result)@, old(result)@.len() as int, m),
            distinct_from(final(result)@, old(result)@.len() as int),
            self.ordered_below(final(result)@, old(result)@.len() as int, 28672),
    {
        let ghost start = result@;
        let ghost slen = start.len() as int;
        proof {
            assert(result@.subrange(0, start.len() as int) =~= start);
        }
        let c = self.side_to_play_() as usize;
        let pawns = self.pieces_of(c, 0);
        assert(color_of(c as int) == self.turn());
        let mut pass: u8 = 4;
        while pass < 8
            invariant
                self.playable(),
                c == self.side(),
                color_of(c as int) == self.turn(),
                forall|j: int| 0 <= j < pawns.len() ==> #[trigger] pawns[j] < 64,
                forall|j: int|
                    0 <= j < pawns.len() ==> self.at(#[trigger] pawns[j] as int) == Some(
                        Piece { color: color_of(c as int), kind: PieceKind::from_index(0) },
                    ),
                forall|q: int|
                    0 <= q < 64 && self.at(q) == Some(Piece { color: color_of(c as int), kind: PieceKind::from_index(0) })
                        ==> pawns@.contains(q as u32),
                4 <= pass <= 8,
                slen == start.len(),
                self.extends_captures(start, result@),
                forall|a: int, b: int| 0 <= a < b < pawns.len() ==> #[trigger] pawns[a] < #[trigger] pawns[b],
                self.ordered_below(result@, slen, pass * 512),
                forall|m: Move| #[trigger]
                    self.generated_capture(m) && m.from_kind() == 0 && self.pawn_pass(m) < pass ==> listed_in(
                        result@,
                        slen,
                        m,
                    ),
            decreases 8 - pass,
        {
            let ghost before_pass = result@;
            let mut i: usize = 0;
            while i < pawns.len()
                invariant
                    self.playable(),
                    c == self.side(),
                    color_of(c as int) == self.turn(),
                    forall|j: int| 0 <= j < pawns.len() ==> #[trigger] pawns[j] < 64,
                    forall|j: int|
                        0 <= j < pawns.len() ==> self.at(#[trigger] pawns[j] as int) == Some(
                            Piece { color: color_of(c as int), kind: PieceKind::from_index(0) },
                        ),
                    4 <= pass < 8,
                    i <= pawns.len(),
                    slen == start.len(),
                    self.extends_captures(start, result@),
                    self.extends_captures(start, before_pass),
                    forall|a: int, b: int| 0 <= a < b < pawns.len() ==> #[trigger] pawns[a] < #[trigger] pawns[b],
                    self.ordered_below(result@, slen, if i == 0 {
                        pass * 512
                    } else {
                        pass * 512 + pawns[i - 1] * 8 + 8
                    }),
                    result@.len() >= before_pass.len(),
                    result@.subrange(0, before_pass.len() as int) == before_pass,
                    forall|m: Move| #[trigger]
                        self.generated_capture(m) && m.from_kind() == 0 && self.pawn_pass(m) < pass ==> listed_in(
                            before_pass,
                            slen,
                            m,
                        ),
                    forall|m: Move| #[trigger]
                        self.generated_capture(m) && m.from_kind() == 0 && self.pawn_pass(m) == pass && pawns@.subrange(
                            0,
                            i as int,
                        ).contains(m.from()) ==> listed_in(result@, slen, m),
                decreases pawns.len() - i,
            {
                let ghost before = result@;
                proof {
                    if i > 0 {
                        assert(pawns[i - 1] < pawns[i as int]);
                    }
                    let bnd = if i == 0 {
                        pass * 512
                    } else {
                        pass * 512 + pawns[i - 1] * 8 + 8
                    };
                    self.lemma_ordered_weaken(result@, slen, bnd, pass * 512 + pawns[i as int] * 8);
                }
                self.pawn_attacks_from(result, pawns[i], pass, Ghost(start));
                proof {
                    assert(result@.subrange(0, before_pass.len() as int) =~= before_pass);
                    assert forall|m: Move| #[trigger]
                        self.generated_capture(m) && m.from_kind() == 0 && self.pawn_pass(m) == pass
                            && pawns@.subrange(0, i + 1).contains(m.from()) implies listed_in(result@, slen, m) by {
                        let w = choose|w: int| 0 <= w < i + 1 && #[trigger] pawns@.subrange(0, i + 1)[w] == m.from();
                        if w == i {
                            let x = choose|x: int| before.len() <= x < result@.len() && result@[x] == m;
                            assert(slen <= x);
                        } else {
                            assert(pawns@.subrange(0, i as int)[w] == m.from());
                            assert(pawns@.subrange(0, i as int).contains(m.from()));
                            lemma_listed_grow(before, result@, slen, m);
                        }
                    }
                }
                i = i + 1;
            }
            proof {
                if pawns.len() > 0 {
                    assert(pawns[pawns.len() - 1] < 64);
                    self.lemma_ordered_weaken(
                        result@,
                        slen,
                        pass * 512 + pawns[pawns.len() - 1] * 8 + 8,
                        (pass + 1) * 512,
                    );
                }
                assert(pawns@.subrange(0, pawns.len() as int) =~= pawns@);
                assert forall|m: Move| #[trigger]
                    self.generated_capture(m) && m.from_kind() == 0 && self.pawn_pass(m) < pass + 1 implies listed_in(
                        result@,
                        slen,
                        m,
                    ) by {
                    if self.pawn_pass(m) < pass {
                        lemma_listed_grow(before_pass, result@, slen, m);
                    } else {
                        self.lemma_attack_pass_range(m);
                        assert(pawns@.contains(m.from()));
                    }
                }
            }
            pass = pass + 1;
        }
        proof {
            assert forall|x: int| start.len() <= x < result@.len() implies #[trigger] self.gen_ok(result@[x])
                && self.generated(result@[x]) by {
                assert(self.capture_ok(result@[x]));
                assert(self.generated_capture(result@[x]));
                let m = result@[x];
                if m.from_kind() == 0 {
                    assert(self.pawn_capture(m, true));
                } else {
                    assert(self.piece_step(m));
                }
            }
            assert forall|m: Move| #[trigger] self.covered_capture(m, 0) implies listed_in(result@, slen, m) by {
                self.lemma_attack_pass_range(m);
            }
        }
        proof {
            self.lemma_ordered_weaken(result@, slen, 4096, 8192);
        }
        self.captures_into(result, Ghost(start));
        proof {
            self.lemma_ordered_distinct(result@, slen, 28672);
        }
    }

    /// The last steps of `all_attacks`: the captures of the knights, the
    /// king, the bishops, the rooks and the queens.
    fn captures_into(&self, result: &mut Vec<Move>, Ghost(start): Ghost<Seq<Move>>)
        requires
            self.playable(),
            self.extends(start, old(result)@),
            self.extends_captures(start, old(result)@),
            forall|m: Move| #[trigger] self.covered_capture(m, 0) ==> listed_in(old(result)@, start.len() as int, m),
            self.ordered_below(old(result)@, start.len() as int, 8192),
        ensures
            self.ordered_below(final(result)@, start.len() as int, 28672),
            self.extends_captures(start, final(result)@),
            forall|m: Move| #[trigger] self.generated_capture(m) ==> listed_in(final(result)@, start.len() as int, m),
    {
        let ghost slen = start.len() as int;
        let ghost r0 = result@;
        self.piece_moves(result, 1, true, Ghost(start));
        proof {
            self.lemma_covered_capture_grow(r0, result@, slen, 0);
            assert forall|m: Move| #[trigger] self.covered_capture(m, 1) implies listed_in(result@, slen, m) by {
                if !self.covered_capture(m, 0) {
                    assert(self.kind_move(m, 1, true));
                }
            }
        }
        let ghost r1 = result@;
        self.piece_moves(result, 5, true, Ghost(start));
        proof {
            self.lemma_covered_capture_grow(r1, result@, slen, 1);
            assert forall|m: Move| #[trigger] self.covered_capture(m, 2) implies listed_in(result@, slen, m) by {
                if !self.covered_capture(m, 1) {
                    assert(self.kind_move(m, 5, true));
                }
            }
        }
        let ghost r2 = result@;
        self.piece_moves(result, 2, true, Ghost(start));
        proof {
            self.lemma_covered_capture_grow(r2, result@, slen, 2);
            assert forall|m: Move| #[trigger] self.covered_capture(m, 3) implies listed_in(result@, slen, m) by {
                if !self.covered_capture(m, 2) {
                    assert(self.kind_move(m, 2, true));
                }
            }
        }
        let ghost r3 = result@;
        self.piece_moves(result, 3, true, Ghost(start));
        proof {
            self.lemma_covered_capture_grow(r3, result@, slen, 3);
            assert forall|m: Move| #[trigger] self.covered_capture(m, 4) implies listed_in(result@, slen, m) by {
                if !self.covered_capture(m, 3) {
                    assert(self.kind_move(m, 3, true));
                }
            }
        }
        let ghost r4 = result@;
        self.piece_moves(result, 4, true, Ghost(start));
        proof {
            self.lemma_covered_capture_grow(r4, result@, slen, 4);
            assert forall|m: Move| #[trigger] self.generated_capture(m) implies listed_in(result@, slen, m) by {
                if !self.covered_capture(m, 4) {
                    assert(self.kind_move(m, 4, true));
                } else {
                    assert(self.covered_capture(m, 4));
                }
            }
        }
    }
}

/// How many of the squares below `n` satisfy `f`.
pub open spec fn count_true(f: spec_fn(int) -> bool, n: nat) -> nat
    decreases n,
{
    if n == 0 {
        0
    } else {
        count_true(f, (n - 1) as nat) + if f(n - 1) {
            1nat
        } else {
            0nat
        }
    }
}

proof fn lemma_count_true_bound(f: spec_fn(int) -> bool, n: nat)
    ensures
        count_true(f, n) <= n,
    decreases n,
{
    if n > 0 {
        lemma_count_true_bound(f, (n - 1) as nat);
    }
}

/// The set bits of a mask below `n` are counted by any predicate that holds
/// exactly on them.
proof fn lemma_count_bits(x: u64, f: spec_fn(int) -> bool, n: nat)
    requires
        n <= 64,
        forall|q: int| 0 <= q < n ==> bit(x, q) == f(q),
    ensures
        ones_below(x, n).len() == count_true(f, n),
    decreases n,
{
    if n > 0 {
        lemma_count_bits(x, f, (n - 1) as nat);
    }
}

impl State {
    /// What a piece on `q` of `color` adds to its side's mobility: the
    /// squares its pattern covers (knight three each, king one each), or
    /// that it reaches along its lines (bishop three, rook two, queen one).
    pub open spec fn square_mobility(self, color: Color, q: int) -> int {
        match self.at(q) {
            Some(p) => if p.color != color {
                0
            } else {
                match p.kind {
                    PieceKind::Pawn => 0,
                    PieceKind::Knight => 3 * count_true(|t: int| attacks(Pattern::Knight, q, t), 64) as int,
                    PieceKind::King => count_true(|t: int| attacks(Pattern::King, q, t), 64) as int,
                    PieceKind::Bishop => 3 * count_true(|t: int| slides(2, q, t) && self.clear(t, q), 64) as int,
                    PieceKind::Rook => 2 * count_true(|t: int| slides(3, q, t) && self.clear(t, q), 64) as int,
                    PieceKind::Queen => count_true(|t: int| slides(4, q, t) && self.clear(t, q), 64) as int,
                }
            },
            None => 0,
        }
    }

    /// The mobility of `color` over the squares below `n`.
    pub open spec fn mobility_upto(self, color: Color, n: nat) -> int
        decreases n,
    {
        if n == 0 {
            0
        } else {
            self.mobility_upto(color, (n - 1) as nat) + self.square_mobility(color, n - 1)
        }
    }

    /// The mobility of the pieces of `color`.
    pub fn mobility(&self, color: Color) -> (r: i32)
        requires
            self.wf(),
        ensures
            r == self.mobility_upto(color, 64),
            0 <= r <= 12288,
    {
        let mut result: u32 = 0;
        let mut sq: i8 = 0;
        while sq < 64
            invariant
                self.wf(),
                0 <= sq <= 64,
                result == self.mobility_upto(color, sq as nat),
                result <= 192 * sq,
            decreases 64 - sq,
        {
            let add: u32 = match self.get_piece(Square(sq)) {
                Some(p) => if p.color != color {
                    0
                } else {
                    match p.kind {
                        PieceKind::Pawn => 0,
                        PieceKind::Knight => {
                            let m = attack_mask(Pattern::Knight, sq);
                            proof {
                                lemma_count_bits(m, |t: int| attacks(Pattern::Knight, sq as int, t), 64);
                            }
                            3 * count_ones(m)
                        },
                        PieceKind::King => {
                            let m = attack_mask(Pattern::King, sq);
                            proof {
                                lemma_count_bits(m, |t: int| attacks(Pattern::King, sq as int, t), 64);
                            }
                            count_ones(m)
                        },
                        PieceKind::Bishop => {
                            let m = self.slider_reach(sq, 2);
                            proof {
                                lemma_count_bits(m, |t: int| slides(2, sq as int, t) && self.clear(t, sq as int), 64);
                            }
                            3 * count_ones(m)
                        },
                        PieceKind::Rook => {
                            let m = self.slider_reach(sq, 3);
                            proof {
                                lemma_count_bits(m, |t: int| slides(3, sq as int, t) && self.clear(t, sq as int), 64);
                            }
                            2 * count_ones(m)
                        },
                        PieceKind::Queen => {
                            let m = self.slider_reach(sq, 4);
                            proof {
                                lemma_count_bits(m, |t: int| slides(4, sq as int, t) && self.clear(t, sq as int), 64);
                            }
                            count_ones(m)
                        },
                    }
                },
                None => 0,
            };
            assert(add == self.square_mobility(color, sq as int));
            result = result + add;
            sq = sq + 1;
        }
        result as i32
    }
}

/// The castling right of bit `b` survives a move from `f` to `t` only if
/// it was there and the move touches neither the king's nor that rook's
/// home square; the side to play changes.
pub proof fn lemma_flags_after(flags: u8, a: u8, b: u8, bitv: u8)
    by (bit_vector)
    requires
        flags < 32,
        a & 16 == 16,
        b & 16 == 16,
        bitv == 1 || bitv == 2 || bitv == 4 || bitv == 8,
    ensures
        ((flags & a & b) ^ 16) & bitv != 0 <==> (flags & bitv != 0 && a & bitv != 0 && b & bitv != 0),
        ((flags & a & b) ^ 16) >> 4 == 1 - (flags >> 4),
        ((flags & a & b) ^ 16) < 32,
{
}

pub proof fn lemma_filter_bits(q: int)
    ensures
        castle_filter(q) & 16 == 16,
        castle_filter(q) & 1 != 0 <==> q != 4 && q != 7,
        castle_filter(q) & 2 != 0 <==> q != 4 && q != 0,
        castle_filter(q) & 4 != 0 <==> q != 60 && q != 63,
        castle_filter(q) & 8 != 0 <==> q != 60 && q != 56,
{
    let f = castle_filter(q);
    assert(0xfdu8 & 16 == 16 && 0xfcu8 & 16 == 16 && 0xfeu8 & 16 == 16 && 0xf7u8 & 16 == 16 && 0xf3u8 & 16 == 16
        && 0xfbu8 & 16 == 16 && 0xffu8 & 16 == 16 && 0xfdu8 & 1 != 0 && 0xfcu8 & 1 == 0 && 0xfeu8 & 1 == 0 && 0xf7u8 & 1
        != 0 && 0xf3u8 & 1 != 0 && 0xfbu8 & 1 != 0 && 0xffu8 & 1 != 0 && 0xfdu8 & 2 == 0 && 0xfcu8 & 2 == 0 && 0xfeu8 & 2
        != 0 && 0xf7u8 & 2 != 0 && 0xf3u8 & 2 != 0 && 0xfbu8 & 2 != 0 && 0xffu8 & 2 != 0 && 0xfdu8 & 4 != 0 && 0xfcu8 & 4
        != 0 && 0xfeu8 & 4 != 0 && 0xf7u8 & 4 != 0 && 0xf3u8 & 4 == 0 && 0xfbu8 & 4 == 0 && 0xffu8 & 4 != 0 && 0xfdu8 & 8
        != 0 && 0xfcu8 & 8 != 0 && 0xfeu8 & 8 != 0 && 0xf7u8 & 8 == 0 && 0xf3u8 & 8 == 0 && 0xfbu8 & 8 != 0 && 0xffu8 & 8
        != 0) by (bit_vector);
}

/// Playing a generated move leaves a position from which the generated
/// moves can be played again: the en passant file and the castling rights
/// still describe the board.
pub proof fn lemma_playable_after(s: State, t: State, m: Move)
    requires
        s.playable(),
        s.gen_ok(m),
        t.wf(),
        t.squares() == after_squares(s.squares(), s.side() as int, s.ep_file as int, m),
        t.flags == s.flags_after(m),
        t.ep_file == m.ep_file(),
    ensures
        t.playable(),
        t.side() == 1 - s.side(),
{
    let x = m.0;
    lemma_small_bits(0, 0, 0, x, 0);
    let a = castle_filter(m.from() as int);
    let b = castle_filter(m.to() as int);
    lemma_filter_bits(m.from() as int);
    lemma_filter_bits(m.to() as int);
    lemma_flags_after(s.flags, a, b, 1);
    lemma_flags_after(s.flags, a, b, 2);
    lemma_flags_after(s.flags, a, b, 4);
    lemma_flags_after(s.flags, a, b, 8);
    lemma_small_bits(s.flags, a, b, 0, 0);
    assert(forall|q: int| 0 <= q < 64 ==> #[trigger] t.squares()[q] == t.at(q));
    assert(forall|q: int| 0 <= q < 64 ==> #[trigger] s.squares()[q] == s.at(q));
    let c = s.side() as int;
    assert(c == 0 || c == 1) by {
        let f = s.flags;
        lemma_small_bits(f, 0, 0, 0, 0);
    }
    // squares that the move does not touch keep their contents
    assert forall|q: int|
        0 <= q < 64 && q != m.from() && q != m.to() && (castle_rook(m) matches Some((rf, rt, col)) ==> q != rf && q
            != rt) && (ep_victim(s.ep_file as int, c, m) matches Some(v) ==> q != v) implies #[trigger] t.at(q) == s.at(
        q,
    ) by {
        assert(t.squares()[q] == s.squares()[q]);
    }
    assert(t.ep_ok()) by {
        if m.ep_file() < 8 {
            if c == 0 {
                assert(t.squares()[m.to() as int] == t.at(m.to() as int));
                assert(t.at(16 + m.ep_file()) == s.at(16 + m.ep_file()));
            } else {
                assert(t.squares()[m.to() as int] == t.at(m.to() as int));
                assert(t.at(40 + m.ep_file()) == s.at(40 + m.ep_file()));
            }
        }
    }
    assert(t.castle_ok()) by {
        if t.flags & 1 != 0 || t.flags & 2 != 0 {
            assert(t.at(4) == s.at(4));
        }
        if t.flags & 1 != 0 {
            assert(t.at(7) == s.at(7));
        }
        if t.flags & 2 != 0 {
            assert(t.at(0) == s.at(0));
        }
        if t.flags & 4 != 0 || t.flags & 8 != 0 {
            assert(t.at(60) == s.at(60));
        }
        if t.flags & 4 != 0 {
            assert(t.at(63) == s.at(63));
        }
        if t.flags & 8 != 0 {
            assert(t.at(56) == s.at(56));
        }
    }
}

impl State {
    /// The value of the piece that captures from `from`, a pawn reaching
    /// the last rank counting as the queen it becomes.
    pub open spec fn attack_cost(self, color: Color, from: int, to: int) -> int {
        if self.attack_class(color, from, to) == 5 {
            1000
        } else {
            match self.at(from) {
                Some(p) => piece_value(p.kind),
                None => 0,
            }
        }
    }

    /// Whether the piece on `from`, of `color`, attacks `to`.
    pub fn attacks_from_exec(&self, color: Color, from: i8, to: i8) -> (r: bool)
        requires
            self.boards_ok(),
            0 <= from < 64,
            0 <= to < 64,
        ensures
            r == self.attacks_from(color, from as int, to as int),
    {
        let p = match self.get_piece(Square(from)) {
            None => return false,
            Some(p) => p,
        };
        if p.color != color {
            return false;
        }
        match p.kind {
            PieceKind::Pawn => match color {
                Color::White => (to == from + 9 && to % 8 != 0) || (to == from + 7 && to % 8 != 7),
                Color::Black => (to == from - 7 && to % 8 != 0) || (to == from - 9 && to % 8 != 7),
            },
            PieceKind::Knight => pattern_hits(Pattern::Knight, from, to),
            PieceKind::King => pattern_hits(Pattern::King, from, to),
            PieceKind::Bishop => pattern_hits(Pattern::Bishop, from, to) && self.line_clear(to, from),
            PieceKind::Rook => pattern_hits(Pattern::Rook, from, to) && self.line_clear(to, from),
            PieceKind::Queen => (pattern_hits(Pattern::Bishop, from, to) || pattern_hits(Pattern::Rook, from, to))
                && self.line_clear(to, from),
        }
    }
}

/// The cheapest attack by class is also the cheapest by value.
pub proof fn lemma_class_cost(s: State, color: Color, f: int, g: int, to: int)
    requires
        s.attacks_from(color, f, to),
        s.attacks_from(color, g, to),
        s.attack_class(color, f, to) <= s.attack_class(color, g, to),
    ensures
        s.attack_cost(color, f, to) <= s.attack_cost(color, g, to),
{
}

/// Whether a piece on `from` attacking by `pat` attacks `to` on an empty board.
fn pattern_hits(pat: Pattern, from: i8, to: i8) -> (b: bool)
    requires
        0 <= from < 64,
        0 <= to < 64,
    ensures
        b == attacks(pat, from as int, to as int),
{
    let m = attack_mask(pat, from);
    proof {
        assert(bit(m, to as int) == attacks(pat, from as int, to as int));
    }
    (m >> (to as u64)) & 1 == 1
}

/// The en passant file of the position of a board: that of its en passant
/// square where a pawn of the side to play stands ready to take there.
pub open spec fn board_ep_file(b: BoardState) -> u8 {
    match b.en_passant_square {
        None => 8,
        Some(e) => if ep_pawn_next(b.squares(), b.turn(), e.0 as int % 8) {
            (e.0 % 8) as u8
        } else {
            8
        },
    }
}

} // verus!

verus! {

impl BoardState {
    /// No piece stands strictly between squares `a` and `b`.
    pub open spec fn clear_between(self, a: int, b: int) -> bool {
        forall|p: int| 0 <= p < 64 && #[trigger] between(a, b, p) ==> self.at(p) is None
    }

    /// Whether the piece on `from`, of `color`, attacks `to`.
    pub open spec fn piece_attacks(self, color: Color, from: int, to: int) -> bool {
        match self.at(from) {
            Some(p) => p.color == color && match p.kind {
                PieceKind::Pawn => pawn_attack(color, from, to),
                PieceKind::Knight => attacks(Pattern::Knight, from, to),
                PieceKind::Bishop => attacks(Pattern::Bishop, from, to) && self.clear_between(to, from),
                PieceKind::Rook => attacks(Pattern::Rook, from, to) && self.clear_between(to, from),
                PieceKind::Queen => (attacks(Pattern::Bishop, from, to) || attacks(Pattern::Rook, from, to))
                    && self.clear_between(to, from),
                PieceKind::King => attacks(Pattern::King, from, to),
            },
            None => false,
        }
    }

    /// Whether some piece of `color` attacks `to`.
    pub open spec fn square_attacked(self, to: int, color: Color) -> bool {
        exists|from: int| 0 <= from < 64 && #[trigger] self.piece_attacks(color, from, to)
    }
}

/// Whether some piece of `color` attacks `to` on the board `b`, found on
/// the bitboard form of `b`.
pub fn board_attacked(b: &BoardState, to: Square, color: Color) -> (r: bool)
    requires
        b.wf(),
        to.valid(),
    ensures
        r == b.square_attacked(to.0 as int, color),
{
    let s = State::from_board(b);
    let r = s.can_attack_to(to, color);
    proof {
        let t = to.0 as int;
        assert forall|q: int| 0 <= q < 64 implies #[trigger] s.at(q) == b.at(q) by {
            assert(s.squares()[q] == b.squares()[q]);
        }
        assert forall|f: int| 0 <= f < 64 implies #[trigger] s.attacks_from(color, f, t) == b.piece_attacks(
            color,
            f,
            t,
        ) by {
            assert(s.at(f) == b.at(f));
            assert(s.clear(t, f) == b.clear_between(t, f)) by {
                assert forall|p: int| 0 <= p < 64 implies #[trigger] s.occupied(p) == (b.at(p) is Some) by {
                    assert(s.at(p) == b.at(p));
                }
            }
        }
        if r {
            let f = choose|f: int| 0 <= f < 64 && #[trigger] s.attacks_from(color, f, t);
            assert(b.piece_attacks(color, f, t));
        }
        if b.square_attacked(t, color) {
            let f = choose|f: int| 0 <= f < 64 && #[trigger] b.piece_attacks(color, f, t);
            assert(s.attacks_from(color, f, t));
        }
    }
    r
}

/// The positions of all set bits of `x`, in increasing order.
pub fn iter_one_positions(x: u64) -> (r: Vec<u32>)
    ensures
        r@ == ones(x),
{
    crate::bitboard::iter_one_positions(x)
}

} // verus!

verus! {

/// The castling rights that a move from or to a square takes from a board
/// (`m`, in board bits) and those that its position form keeps (`f`, in
/// position bits) belong to the same square.
pub open spec fn mask_filter_pair(m: u8, f: u8) -> bool {
    ||| m == 6 && f == 0xfc
    ||| m == 4 && f == 0xfd
    ||| m == 2 && f == 0xfe
    ||| m == 24 && f == 0xf3
    ||| m == 16 && f == 0xf7
    ||| m == 8 && f == 0xfb
    ||| m == 0 && f == 0xff
}

/// Taking away castling rights and passing the turn reads the same on a
/// board's flags and on its position form.
proof fn lemma_rights_after(x: u8, ma: u8, fa: u8, mb: u8, fb: u8)
    by (bit_vector)
    requires
        x < 32,
        mask_filter_pair(ma, fa),
        mask_filter_pair(mb, fb),
    ensures
        state_flags((x ^ 1u8) & !(ma | mb)) == (state_flags(x) & fa & fb) ^ 16u8,
        (x ^ 1u8) & !(ma | mb) < 32,
        state_flags(x) >> 4 == if x & 1u8 == 1u8 {
            0u8
        } else {
            1u8
        },
{
}

/// The castling rights of a square, on a board and on a position, belong
/// together.
proof fn lemma_mask_filter(q: i8)
    ensures
        mask_filter_pair(crate::moves::castle_mask(q), castle_filter(q as int)),
{
}

/// A board move that the position form plays as the board does: it moves
/// a piece of the side to play; it asks for a promotion only when a pawn
/// reaches the last rank; a castling goes to an empty square and finds in
/// the corner a rook of its own color; and an en passant capture goes
/// diagonally onto an empty square that lies on the sixth rank when white
/// takes and on the third when black does.
///
/// The board's en passant square, if any, must also lie on the rank behind
/// a pawn that has just moved two squares: see `ep_in_place`.
pub open spec fn plays_alike(b: BoardState, m: crate::game::Move) -> bool {
    let p = b.at(m.from.0 as int).unwrap();
    let from = m.from.0 as int;
    let to = m.to.0 as int;
    &&& p.color == b.turn()
    &&& m.promotion is Some ==> p.kind == PieceKind::Pawn && (to < 8 || to >= 56)
    &&& b.castling(m) != 0 ==> {
        let c = b.castling(m);
        let (rf, rt) = BoardState::rook_squares(c);
        &&& p.kind == PieceKind::King
        &&& b.at(to) is None
        &&& b.at(rf) == Some(Piece { color: if c <= 2 { Color::White } else { Color::Black }, kind: PieceKind::Rook })
    }
    &&& b.is_ep_capture(m) ==> {
        &&& b.at(to) is None
        &&& if b.white_to_play() {
            40 <= to < 48 && ((from == to - 9 && to % 8 > 0) || (from == to - 7 && to % 8 < 7))
        } else {
            16 <= to < 24 && ((from == to + 7 && to % 8 > 0) || (from == to + 9 && to % 8 < 7))
        }
    }
}

/// The en passant square of `b`, if any, lies on the sixth rank when white
/// is to play and on the third when black is.
pub open spec fn ep_in_place(b: BoardState) -> bool {
    match b.en_passant_square {
        None => true,
        Some(e) => if b.white_to_play() {
            40 <= e.0 < 48
        } else {
            16 <= e.0 < 24
        },
    }
}

/// Playing a board move on the position form agrees with playing it on the
/// board. `s` is the position form of `b` (as `State::from_board` makes
/// it), and `b2` the board after the move (as `BoardState::make_move`
/// makes it): the squares, the flags and the en passant file that
/// `State::make_move` gives for the packed move are those of the position
/// form of `b2`.
pub proof fn lemma_make_move_agrees(b: BoardState, s: State, m: crate::game::Move, b2: BoardState)
    requires
        b.wf(),
        b.flags.bits < 32,
        ep_in_place(b),
        s.wf(),
        s.squares() == b.squares(),
        s.flags == state_flags(b.flags.bits),
        s.ep_file == board_ep_file(b),
        b.move_ok(Some(m)),
        plays_alike(b, m),
        b2.squares() == crate::moves::replay(b.squares(), b.move_writes(Some(m))),
        b2.flags.bits == b.flags_after(Some(m)),
        b2.en_passant_square == b.ep_after(Some(m)),
    ensures
        after_squares(s.squares(), s.side() as int, s.ep_file as int, packed(s, m)) == b2.squares(),
        s.flags_after(packed(s, m)) == state_flags(b2.flags.bits),
        packed(s, m).ep_file() == board_ep_file(b2),
{
    lemma_packed_fields(b, s, m);
    lemma_agree_squares(b, s, m);
    lemma_agree_flags(b, s, m);
    lemma_agree_ep(b, s, m, b2);
}

/// Passing on the position form agrees with passing on the board: with `s`
/// the position form of `b` and `b2` the board after `b` passes, the null
/// move leaves the squares as they are, gives the flags of `b2` and leaves
/// no en passant file, as the position form of `b2` has it.
pub proof fn lemma_pass_agrees(b: BoardState, s: State, b2: BoardState)
    requires
        b.flags.bits < 32,
        s.squares() == b.squares(),
        s.flags == state_flags(b.flags.bits),
        b2.squares() == crate::moves::replay(b.squares(), b.move_writes(None)),
        b2.flags.bits == b.flags_after(None),
        b2.en_passant_square == b.ep_after(None),
    ensures
        s.squares() == b2.squares(),
        s.flags_after(Move::null_spec()) == state_flags(b2.flags.bits),
        Move::null_spec().ep_file() == board_ep_file(b2),
        Move::null_spec().from() == Move::null_spec().to(),
{
    lemma_encode(1, 1, 0, 0, 0, 8);
    lemma_rights_after(b.flags.bits, 0, 0xff, 0, 0xff);
    let x = b.flags.bits ^ 1u8;
    assert(x & !(0u8 | 0u8) == x) by (bit_vector);
    assert(castle_filter(1) == 0xff);
    assert(b2.flags.bits == x);
    assert(s.flags_after(Move::null_spec()) == (state_flags(b.flags.bits) & 0xffu8 & 0xffu8) ^ 16u8);
}

/// The fields of the packed form of a board move that the position form
/// plays as the board does.
proof fn lemma_packed_fields(b: BoardState, s: State, m: crate::game::Move)
    requires
        b.wf(),
        b.flags.bits < 32,
        s.wf(),
        s.squares() == b.squares(),
        s.flags == state_flags(b.flags.bits),
        b.move_ok(Some(m)),
        plays_alike(b, m),
    ensures
        packed(s, m).from() == m.from.0,
        packed(s, m).to() == m.to.0,
        PieceKind::from_index(packed(s, m).from_kind()) == b.at(m.from.0 as int).unwrap().kind,
        packed(s, m).from_kind() < 6,
        Some(Piece { color: color_of(s.side() as int), kind: PieceKind::from_index(packed(s, m).to_kind()) })
            == b.moved_piece(m),
        packed(s, m).cap() == 0 <==> b.at(m.to.0 as int) is None,
        packed(s, m).ep_file() == ep_file_of(
            s.squares(),
            s.side() as int,
            m.from.0 as int,
            m.to.0 as int,
            packed(s, m).from_kind(),
        ),
        color_of(s.side() as int) == b.turn(),
        s.side() == 0 || s.side() == 1,
{
    let from = m.from.0 as int;
    let to = m.to.0 as int;
    let sq = b.squares();
    let p = b.at(from).unwrap();
    let c = s.side() as int;
    assert(s.at(from) == b.at(from)) by {
        assert(s.squares()[from] == sq[from]);
    }
    assert(s.at(to) == b.at(to)) by {
        assert(s.squares()[to] == sq[to]);
    }
    assert(s.square_ok(from));
    let fk = s.kind_at(from);
    assert(fk < 6);
    let tk: u32 = match m.promotion {
        Some(k) => k.index(),
        None => fk,
    };
    assert(s.square_ok(to));
    lemma_encode(from as u32, to as u32, fk, tk, s.opt_kind(to), ep_file_of(sq, c, from, to, fk));
    lemma_rights_after(b.flags.bits, 0, 0xff, 0, 0xff);
    assert(PieceKind::from_index(tk) == b.moved_piece(m).unwrap().kind) by {
        match m.promotion {
            Some(k) => {
                assert(PieceKind::from_index(k.index()) == k);
            },
            None => {},
        }
    }
}

/// The squares after a board move agree on both forms.
#[verifier::rlimit(60)]
proof fn lemma_agree_squares(b: BoardState, s: State, m: crate::game::Move)
    requires
        b.wf(),
        ep_in_place(b),
        s.squares() == b.squares(),
        s.ep_file == board_ep_file(b),
        b.move_ok(Some(m)),
        plays_alike(b, m),
        packed(s, m).from() == m.from.0,
        packed(s, m).to() == m.to.0,
        PieceKind::from_index(packed(s, m).from_kind()) == b.at(m.from.0 as int).unwrap().kind,
        packed(s, m).from_kind() < 6,
        Some(Piece { color: color_of(s.side() as int), kind: PieceKind::from_index(packed(s, m).to_kind()) })
            == b.moved_piece(m),
        packed(s, m).cap() == 0 <==> b.at(m.to.0 as int) is None,
        color_of(s.side() as int) == b.turn(),
        s.side() == 0 || s.side() == 1,
    ensures
        after_squares(s.squares(), s.side() as int, s.ep_file as int, packed(s, m)) == crate::moves::replay(
            b.squares(),
            b.move_writes(Some(m)),
        ),
{
    let from = m.from.0 as int;
    let to = m.to.0 as int;
    let sq = b.squares();
    let pm = packed(s, m);
    let c = s.side() as int;
    let moved = sq.update(from, None).update(to, b.moved_piece(m));
    reveal_with_fuel(crate::moves::replay, 6);
    let w0 = seq![(m.from, None::<Piece>)];
    assert(w0.drop_last() =~= Seq::<(Square, Option<Piece>)>::empty());
    if b.castling(m) != 0 {
        let k = b.castling(m);
        let (rf, rt) = BoardState::rook_squares(k);
        assert(!b.is_ep_capture(m));
        let base = b.base_writes(m);
        assert(base =~= w0 + seq![(m.to, b.moved_piece(m))]);
        assert(base.drop_last() =~= w0);
        let w = b.move_writes(Some(m));
        assert(w =~= base + seq![(Square(rf as i8), None::<Piece>), (Square(rt as i8), crate::moves::replay(sq, base)[rf])]);
        assert(w.drop_last() =~= base + seq![(Square(rf as i8), None::<Piece>)]);
        assert((base + seq![(Square(rf as i8), None::<Piece>)]).drop_last() =~= base);
        assert(crate::moves::replay(sq, base) == moved);
        assert(pm.from_kind() == 5);
        assert(castle_rook(pm) == Some((rf, rt, if k <= 2 { Color::White } else { Color::Black })));
        assert(after_squares(s.squares(), c, s.ep_file as int, pm) =~= crate::moves::replay(sq, w));
    } else if b.is_ep_capture(m) {
        let v = b.ep_victim(m);
        let base = b.base_writes(m);
        let w1 = w0 + seq![(Square(v as i8), None::<Piece>)];
        assert(base =~= w1 + seq![(m.to, b.moved_piece(m))]);
        assert(base.drop_last() =~= w1);
        assert(w1.drop_last() =~= w0);
        assert(b.move_writes(Some(m)) == base);
        let f = to % 8;
        assert(castle_rook(pm) is None);
        if b.white_to_play() {
            assert(sq[32 + f - 1] == b.at(32 + f - 1));
            assert(sq[32 + f + 1] == b.at(32 + f + 1));
            assert(ep_pawn_next(sq, Color::White, f));
        } else {
            assert(sq[24 + f - 1] == b.at(24 + f - 1));
            assert(sq[24 + f + 1] == b.at(24 + f + 1));
            assert(ep_pawn_next(sq, Color::Black, f));
        }
        assert(s.ep_file == f);
        assert(ep_victim(s.ep_file as int, c, pm) == Some(v));
        assert(after_squares(s.squares(), c, s.ep_file as int, pm) =~= crate::moves::replay(sq, base));
    } else {
        let base = b.base_writes(m);
        assert(base =~= w0 + seq![(m.to, b.moved_piece(m))]);
        assert(base.drop_last() =~= w0);
        assert(b.move_writes(Some(m)) == base);
        assert(castle_rook(pm) is None);
        if ep_victim(s.ep_file as int, c, pm) is Some {
            let e = b.en_passant_square.unwrap();
            assert(e.0 == to);
            assert(e == m.to);
        }
        assert(ep_victim(s.ep_file as int, c, pm) is None);
        assert(after_squares(s.squares(), c, s.ep_file as int, pm) =~= crate::moves::replay(sq, base));
    }
}

/// The flags after a board move agree on both forms.
proof fn lemma_agree_flags(b: BoardState, s: State, m: crate::game::Move)
    requires
        b.flags.bits < 32,
        s.flags == state_flags(b.flags.bits),
        packed(s, m).from() == m.from.0,
        packed(s, m).to() == m.to.0,
        m.valid(),
    ensures
        s.flags_after(packed(s, m)) == state_flags(b.flags_after(Some(m))),
{
    lemma_mask_filter(m.from.0);
    lemma_mask_filter(m.to.0);
    lemma_rights_after(
        b.flags.bits,
        crate::moves::castle_mask(m.from.0),
        castle_filter(m.from.0 as int),
        crate::moves::castle_mask(m.to.0),
        castle_filter(m.to.0 as int),
    );
}

/// The en passant file after a board move agrees on both forms.
proof fn lemma_agree_ep(b: BoardState, s: State, m: crate::game::Move, b2: BoardState)
    requires
        b.wf(),
        b.flags.bits < 32,
        s.squares() == b.squares(),
        s.flags == state_flags(b.flags.bits),
        b.move_ok(Some(m)),
        PieceKind::from_index(packed(s, m).from_kind()) == b.at(m.from.0 as int).unwrap().kind,
        packed(s, m).from_kind() < 6,
        packed(s, m).ep_file() == ep_file_of(
            s.squares(),
            s.side() as int,
            m.from.0 as int,
            m.to.0 as int,
            packed(s, m).from_kind(),
        ),
        color_of(s.side() as int) == b.turn(),
        s.side() == 0 || s.side() == 1,
        b2.squares() == crate::moves::replay(b.squares(), b.move_writes(Some(m))),
        b2.flags.bits == b.flags_after(Some(m)),
        b2.en_passant_square == b.ep_after(Some(m)),
    ensures
        packed(s, m).ep_file() == board_ep_file(b2),
{
    let from = m.from.0 as int;
    let to = m.to.0 as int;
    let sq = b.squares();
    let sq2 = b2.squares();
    let c = s.side() as int;
    let p = b.at(from).unwrap();
    crate::moves::lemma_turn_flips(b.flags.bits, m.from.0, m.to.0, 0);
    assert(b2.turn() == color_of(1 - c));
    let fk = packed(s, m).from_kind();
    assert((fk == 0) == (p.kind == PieceKind::Pawn));
    if p.kind == PieceKind::Pawn && (to == from - 16 || to == from + 16) {
        let f = from % 8;
        let r: int = if color_of(1 - c) == Color::White {
            4
        } else {
            3
        };
        lemma_double_step_neighbours(b, m, r);
        let e = b2.en_passant_square.unwrap();
        assert(e.0 % 8 == f);
        assert(ep_pawn_next(sq2, b2.turn(), f) == ep_pawn_next(sq, color_of(1 - c), f));
    }
}

/// A pawn's double step leaves the squares beside its file alone.
#[verifier::rlimit(40)]
proof fn lemma_double_step_neighbours(b: BoardState, m: crate::game::Move, r: int)
    requires
        b.wf(),
        b.move_ok(Some(m)),
        b.at(m.from.0 as int).unwrap().kind == PieceKind::Pawn,
        m.to.0 == m.from.0 - 16 || m.to.0 == m.from.0 + 16,
        0 <= r < 8,
    ensures
        ({
            let f = m.from.0 % 8;
            let sq = b.squares();
            let sq2 = crate::moves::replay(sq, b.move_writes(Some(m)));
            &&& f > 0 ==> sq2[r * 8 + f - 1] == sq[r * 8 + f - 1]
            &&& f < 7 ==> sq2[r * 8 + f + 1] == sq[r * 8 + f + 1]
        }),
{
    let f = m.from.0 % 8;
    let sq = b.squares();
    let w = b.move_writes(Some(m));
    assert(b.castling(m) == 0);
    let base = b.base_writes(m);
    assert(w == base);
    assert forall|i: int| 0 <= i < w.len() implies (#[trigger] w[i]).0.0 % 8 == f by {
        if b.is_ep_capture(m) {
            assert(base =~= seq![(m.from, None::<Piece>), (Square(b.ep_victim(m) as i8), None::<Piece>), (m.to, b.moved_piece(m))]);
        } else {
            assert(base =~= seq![(m.from, None::<Piece>), (m.to, b.moved_piece(m))]);
        }
    }
    crate::obs::lemma_move_writes_valid(b, Some(m));
    if f > 0 {
        lemma_replay_keeps(sq, w, r * 8 + f - 1);
    }
    if f < 7 {
        lemma_replay_keeps(sq, w, r * 8 + f + 1);
    }
}

/// Writes to other squares leave square `q` as it was.
proof fn lemma_replay_keeps(sq: Seq<Option<Piece>>, w: Seq<(Square, Option<Piece>)>, q: int)
    requires
        sq.len() == 64,
        0 <= q < 64,
        crate::moves::writes_valid(w),
        forall|i: int| 0 <= i < w.len() ==> (#[trigger] w[i]).0.0 % 8 != q % 8,
    ensures
        crate::moves::replay(sq, w)[q] == sq[q],
        crate::moves::replay(sq, w).len() == sq.len(),
    decreases w.len(),
{
    if w.len() > 0 {
        assert forall|i: int| 0 <= i < w.drop_last().len() implies (#[trigger] w.drop_last()[i]).0.0 % 8 != q % 8 by {
            assert(w.drop_last()[i] == w[i]);
        }
        assert(crate::moves::writes_valid(w.drop_last())) by {
            assert forall|i: int| 0 <= i < w.drop_last().len() implies (#[trigger] w.drop_last()[i]).0.valid() by {
                assert(w.drop_last()[i] == w[i]);
            }
        }
        lemma_replay_keeps(sq, w.drop_last(), q);
        let last = w.last();
        assert(last == w[w.len() - 1]);
        assert(last.0.valid());
        assert(last.0.0 as int != q);
        let r0 = crate::moves::replay(sq, w.drop_last());
        assert(crate::moves::replay(sq, w) == r0.update(last.0.0 as int, last.1));
    }
}

} // verus!
