use vstd::prelude::*;
use crate::text::{push_char, push_str, digit, digit_char};
use crate::obs::{Obs, Edit};

verus! {

/// A square of the board, numbered 0 (a1) to 63 (h8), rank by rank.
#[derive(Clone, Copy, PartialEq, Eq, Structural, Hash, Debug)]
pub struct Square(pub i8);

impl Square {
    pub open spec fn valid(self) -> bool {
        0 <= self.0 < 64
    }

    pub open spec fn rank(self) -> int {
        (self.0 as int) / 8
    }

    pub open spec fn file(self) -> int {
        (self.0 as int) % 8
    }

    /// The algebraic name of the square, such as "e4".
    pub open spec fn san(self) -> Seq<char> {
        seq![file_char(self.file()), digit_char(self.rank() + 1)]
    }

    pub fn to_san(self) -> (s: String)
        requires
            self.valid(),
        ensures
            s@ == self.san(),
    {
        let x = self.0;
        let mut s = String::new();
        push_char(&mut s, ((97 + x % 8) as u8) as char);
        push_char(&mut s, ((49 + x / 8) as u8) as char);
        s
    }

    pub fn from_san(s: &str) -> (sq: Square)
        requires
            is_san(s@),
        ensures
            sq == square_of_san(s@),
            sq.valid(),
            sq.san() == s@,
    {
        let file = s.get_char(0);
        let rank = s.get_char(1);
        Square(((file as u32 - 97) + 8 * (rank as u32 - 49)) as i8)
    }
}

/// The letter of file `f` (0 for 'a').
pub open spec fn file_char(f: int) -> char {
    (97 + f) as char
}

/// Whether `s` names a square: a file letter then a rank digit.
pub open spec fn is_san(s: Seq<char>) -> bool {
    &&& s.len() == 2
    &&& 'a' <= s[0] <= 'h'
    &&& '1' <= s[1] <= '8'
}

pub open spec fn square_of_san(s: Seq<char>) -> Square {
    Square(((s[0] as int - 97) + 8 * (s[1] as int - 49)) as i8)
}

/// Reading back the name of a square gives the square.
pub proof fn lemma_san_roundtrip(sq: Square)
    requires
        sq.valid(),
    ensures
        is_san(sq.san()),
        square_of_san(sq.san()) == sq,
{
}

/// The kind of a chess piece.
#[derive(Clone, Copy, PartialEq, Eq, Structural, Hash, Debug)]
pub enum PieceKind {
    Pawn,
    Knight,
    Bishop,
    Rook,
    Queen,
    King,
}

impl PieceKind {
    /// The number of the kind: pawn 0 up to king 5.
    pub open spec fn index(self) -> u32 {
        match self {
            PieceKind::Pawn => 0,
            PieceKind::Knight => 1,
            PieceKind::Bishop => 2,
            PieceKind::Rook => 3,
            PieceKind::Queen => 4,
            PieceKind::King => 5,
        }
    }

    pub open spec fn from_index(i: u32) -> PieceKind {
        if i == 0 {
            PieceKind::Pawn
        } else if i == 1 {
            PieceKind::Knight
        } else if i == 2 {
            PieceKind::Bishop
        } else if i == 3 {
            PieceKind::Rook
        } else if i == 4 {
            PieceKind::Queen
        } else {
            PieceKind::King
        }
    }

    /// The lower-case letter of the kind.
    pub open spec fn letter(self) -> char {
        match self {
            PieceKind::Pawn => 'p',
            PieceKind::Knight => 'n',
            PieceKind::Bishop => 'b',
            PieceKind::Rook => 'r',
            PieceKind::Queen => 'q',
            PieceKind::King => 'k',
        }
    }

    pub open spec fn is_letter(c: char) -> bool {
        c == 'p' || c == 'n' || c == 'b' || c == 'r' || c == 'q' || c == 'k'
    }

    pub open spec fn from_letter(c: char) -> PieceKind {
        if c == 'p' {
            PieceKind::Pawn
        } else if c == 'n' {
            PieceKind::Knight
        } else if c == 'b' {
            PieceKind::Bishop
        } else if c == 'r' {
            PieceKind::Rook
        } else if c == 'q' {
            PieceKind::Queen
        } else {
            PieceKind::King
        }
    }

    pub fn from_char(c: char) -> (r: PieceKind)
        requires
            PieceKind::is_letter(c),
        ensures
            r == PieceKind::from_letter(c),
            r.letter() == c,
    {
        match c {
            'p' => PieceKind::Pawn,
            'n' => PieceKind::Knight,
            'b' => PieceKind::Bishop,
            'r' => PieceKind::Rook,
            'q' => PieceKind::Queen,
            _ => PieceKind::King,
        }
    }

    pub fn to_char(self) -> (c: char)
        ensures
            c == self.letter(),
            PieceKind::is_letter(c),
            PieceKind::from_letter(c) == self,
    {
        match self {
            PieceKind::Pawn => 'p',
            PieceKind::Knight => 'n',
            PieceKind::Bishop => 'b',
            PieceKind::Rook => 'r',
            PieceKind::Queen => 'q',
            PieceKind::King => 'k',
        }
    }

    pub fn to_int(self) -> (r: u32)
        ensures
            r == self.index(),
            r < 6,
            PieceKind::from_index(r) == self,
    {
        match self {
            PieceKind::Pawn => 0,
            PieceKind::Knight => 1,
            PieceKind::Bishop => 2,
            PieceKind::Rook => 3,
            PieceKind::Queen => 4,
            PieceKind::King => 5,
        }
    }

    pub fn from_int(i: u32) -> (r: PieceKind)
        requires
            i < 6,
        ensures
            r == PieceKind::from_index(i),
            r.index() == i,
    {
        match i {
            0 => PieceKind::Pawn,
            1 => PieceKind::Knight,
            2 => PieceKind::Bishop,
            3 => PieceKind::Rook,
            4 => PieceKind::Queen,
            _ => PieceKind::King,
        }
    }
}

/// The two sides.
#[derive(Clone, Copy, PartialEq, Eq, Structural, Hash, Debug)]
pub enum Color {
    White,
    Black,
}

impl Color {
    pub open spec fn other(self) -> Color {
        match self {
            Color::White => Color::Black,
            Color::Black => Color::White,
        }
    }

    /// 0 for white, 1 for black.
    pub open spec fn index(self) -> u32 {
        match self {
            Color::White => 0,
            Color::Black => 1,
        }
    }

    pub fn opposite(self) -> (r: Color)
        ensures
            r == self.other(),
            r != self,
    {
        match self {
            Color::White => Color::Black,
            Color::Black => Color::White,
        }
    }
}

} // verus!

verus! {

/// A piece: its kind and its color.
#[derive(Clone, Copy, PartialEq, Eq, Structural, Hash, Debug)]
pub struct Piece {
    pub kind: PieceKind,
    pub color: Color,
}

/// The 4-bit code of an optional piece: 0 for none, otherwise
/// `2 * kind + 1` for white and `2 * kind + 2` for black.
pub open spec fn piece_code(p: Option<Piece>) -> u32 {
    match p {
        None => 0,
        Some(p) => (p.kind.index() * 2 + 1 + p.color.index()) as u32,
    }
}

/// The optional piece of a code below 13.
pub open spec fn piece_of_code(x: u32) -> Option<Piece> {
    if x == 0 {
        None
    } else {
        Some(
            Piece {
                kind: PieceKind::from_index(((x - 1) / 2) as u32),
                color: if x % 2 == 1 {
                    Color::White
                } else {
                    Color::Black
                },
            },
        )
    }
}

impl Piece {
    /// The FEN letter of the piece: upper case for white, lower case for black.
    pub open spec fn letter(self) -> char {
        match self.color {
            Color::Black => self.kind.letter(),
            Color::White => upper(self.kind.letter()),
        }
    }

    pub open spec fn is_letter(c: char) -> bool {
        PieceKind::is_letter(c) || PieceKind::is_letter(lower(c))
    }

    pub open spec fn from_letter(c: char) -> Piece {
        if PieceKind::is_letter(c) {
            Piece { color: Color::Black, kind: PieceKind::from_letter(c) }
        } else {
            Piece { color: Color::White, kind: PieceKind::from_letter(lower(c)) }
        }
    }

    pub fn from_char(c: char) -> (p: Piece)
        requires
            Piece::is_letter(c),
        ensures
            p == Piece::from_letter(c),
            p.letter() == c,
    {
        match c {
            'p' => Piece { color: Color::Black, kind: PieceKind::Pawn },
            'n' => Piece { color: Color::Black, kind: PieceKind::Knight },
            'b' => Piece { color: Color::Black, kind: PieceKind::Bishop },
            'r' => Piece { color: Color::Black, kind: PieceKind::Rook },
            'q' => Piece { color: Color::Black, kind: PieceKind::Queen },
            'k' => Piece { color: Color::Black, kind: PieceKind::King },
            'P' => Piece { color: Color::White, kind: PieceKind::Pawn },
            'N' => Piece { color: Color::White, kind: PieceKind::Knight },
            'B' => Piece { color: Color::White, kind: PieceKind::Bishop },
            'R' => Piece { color: Color::White, kind: PieceKind::Rook },
            'Q' => Piece { color: Color::White, kind: PieceKind::Queen },
            _ => Piece { color: Color::White, kind: PieceKind::King },
        }
    }

    pub fn to_char(self) -> (c: char)
        ensures
            c == self.letter(),
            Piece::is_letter(c),
            Piece::from_letter(c) == self,
    {
        let c = self.kind.to_char();
        match self.color {
            Color::Black => c,
            Color::White => ((c as u8) - 32) as char,
        }
    }

    pub fn to_int(this: Option<Piece>) -> (r: u32)
        ensures
            r == piece_code(this),
            r < 13,
            piece_of_code(r) == this,
    {
        match this {
            None => 0,
            Some(Piece { kind, color }) => {
                kind.to_int() * 2 + 1 + match color {
                    Color::White => 0,
                    Color::Black => 1,
                }
            },
        }
    }

    pub fn from_int(x: u32) -> (r: Option<Piece>)
        requires
            x < 13,
        ensures
            r == piece_of_code(x),
            piece_code(r) == x,
    {
        if x == 0 {
            return None;
        }
        Some(
            Piece {
                color: match (x + 1) % 2 {
                    0 => Color::White,
                    _ => Color::Black,
                },
                kind: PieceKind::from_int((x - 1) / 2),
            },
        )
    }
}

/// The upper-case form of a lower-case ASCII letter.
pub open spec fn upper(c: char) -> char {
    (c as u32 - 32) as char
}

/// The lower-case form of an upper-case ASCII letter.
pub open spec fn lower(c: char) -> char {
    if 'A' <= c <= 'Z' {
        (c as u32 + 32) as char
    } else {
        c
    }
}

/// Decoding a code gives back the piece it encodes, and encoding a piece
/// gives back its code.
pub proof fn lemma_piece_code_roundtrip(x: u32, p: Option<Piece>)
    ensures
        x < 13 ==> piece_code(piece_of_code(x)) == x,
        piece_of_code(piece_code(p)) == p,
        piece_code(p) < 13,
{
}

/// The FEN letter of a piece is the initial of its kind, `n` for a knight,
/// in upper case for white and in lower case for black.
pub proof fn lemma_piece_letters(p: Piece)
    ensures
        (p.color == Color::White) == ('A' <= p.letter() <= 'Z'),
        (p.color == Color::Black) == ('a' <= p.letter() <= 'z'),
        p.kind == PieceKind::Pawn ==> lower(p.letter()) == 'p',
        p.kind == PieceKind::Knight ==> lower(p.letter()) == 'n',
        p.kind == PieceKind::Bishop ==> lower(p.letter()) == 'b',
        p.kind == PieceKind::Rook ==> lower(p.letter()) == 'r',
        p.kind == PieceKind::Queen ==> lower(p.letter()) == 'q',
        p.kind == PieceKind::King ==> lower(p.letter()) == 'k',
{
}

/// The letter of a piece reads back as the same piece.
pub proof fn lemma_piece_letter_roundtrip(p: Piece, c: char)
    ensures
        Piece::is_letter(p.letter()),
        Piece::from_letter(p.letter()) == p,
        Piece::is_letter(c) ==> Piece::from_letter(c).letter() == c,
{
}

} // verus!

verus! {

/// A move as requested or taken: source, destination and promotion.
#[derive(Clone, Copy, PartialEq, Eq, Structural, Hash, Debug)]
pub struct Move {
    pub from: Square,
    pub to: Square,
    pub promotion: Option<PieceKind>,
}

/// Whether `s` is a move in UCI notation, such as "e2e4" or "e7e8q".
pub open spec fn is_uci(s: Seq<char>) -> bool {
    &&& s.len() == 4 || s.len() == 5
    &&& is_san(s.subrange(0, 2))
    &&& is_san(s.subrange(2, 4))
    &&& s.len() == 5 ==> PieceKind::is_letter(s[4])
}

pub open spec fn move_of_uci(s: Seq<char>) -> Move {
    Move {
        from: square_of_san(s.subrange(0, 2)),
        to: square_of_san(s.subrange(2, 4)),
        promotion: if s.len() == 5 {
            Some(PieceKind::from_letter(s[4]))
        } else {
            None
        },
    }
}

impl Move {
    pub open spec fn valid(self) -> bool {
        self.from.valid() && self.to.valid()
    }

    /// The UCI text of the move.
    pub open spec fn uci(self) -> Seq<char> {
        match self.promotion {
            None => self.from.san() + self.to.san(),
            Some(k) => self.from.san() + self.to.san() + seq![k.letter()],
        }
    }

    pub fn from_uci(s: &str) -> (m: Move)
        requires
            is_uci(s@),
        ensures
            m == move_of_uci(s@),
            m.valid(),
            m.uci() == s@,
    {
        let n = s.unicode_len();
        let p = if n == 5 {
            Some(PieceKind::from_char(s.get_char(4)))
        } else {
            None
        };
        let m = Move {
            from: Square::from_san(s.substring_char(0, 2)),
            to: Square::from_san(s.substring_char(2, 4)),
            promotion: p,
        };
        assert(m.uci() =~= s@);
        m
    }

    /// The move that a UCI text names, or `None` where the text names none.
    pub fn parse_uci(s: &str) -> (r: Option<Move>)
        ensures
            r == if is_uci(s@) {
                Some(move_of_uci(s@))
            } else {
                None::<Move>
            },
    {
        let n = s.unicode_len();
        if n != 4 && n != 5 {
            return None;
        }
        let a = s.get_char(0);
        let b = s.get_char(1);
        let c = s.get_char(2);
        let d = s.get_char(3);
        if !('a' <= a && a <= 'h' && '1' <= b && b <= '8' && 'a' <= c && c <= 'h' && '1' <= d && d <= '8') {
            proof {
                assert(s@.subrange(0, 2)[0] == a && s@.subrange(0, 2)[1] == b);
                assert(s@.subrange(2, 4)[0] == c && s@.subrange(2, 4)[1] == d);
            }
            return None;
        }
        if n == 5 {
            let e = s.get_char(4);
            if !(e == 'p' || e == 'n' || e == 'b' || e == 'r' || e == 'q' || e == 'k') {
                return None;
            }
        }
        proof {
            assert(s@.subrange(0, 2)[0] == a && s@.subrange(0, 2)[1] == b);
            assert(s@.subrange(2, 4)[0] == c && s@.subrange(2, 4)[1] == d);
        }
        Some(Move::from_uci(s))
    }

    pub fn to_uci(&self) -> (s: String)
        requires
            self.valid(),
        ensures
            s@ == self.uci(),
            is_uci(s@),
            move_of_uci(s@) == *self,
    {
        let mut result = self.from.to_san();
        let t = self.to.to_san();
        crate::text::push_str(&mut result, t.as_str());
        if let Some(p) = self.promotion {
            push_char(&mut result, p.to_char());
        }
        proof {
            lemma_san_roundtrip(self.from);
            lemma_san_roundtrip(self.to);
            assert(result@.subrange(0, 2) =~= self.from.san());
            assert(result@.subrange(2, 4) =~= self.to.san());
        }
        result
    }
}

/// A square is named by its file letter, `a` for the squares 0, 8, 16 and
/// so on up to `h`, then its rank digit, `1` for the squares 0 to 7 up to
/// `8`: square `8 * rank + file` is named by the letter `file` after `a`
/// and the digit `rank` after `1`.
pub proof fn lemma_square_name(sq: Square)
    requires
        sq.valid(),
    ensures
        sq.san().len() == 2,
        sq.san()[0] as int == 'a' as int + sq.0 % 8,
        sq.san()[1] as int == '1' as int + sq.0 / 8,
        'a' <= sq.san()[0] <= 'h',
        '1' <= sq.san()[1] <= '8',
{
}

/// A move in UCI notation is the name of its from square, the name of its
/// to square, and the lower-case letter of the piece it promotes to, if
/// any: q, r, b or n for a queen, rook, bishop or knight.
pub proof fn lemma_uci_parts(m: Move)
    ensures
        m.uci().subrange(0, 2) == m.from.san(),
        m.uci().subrange(2, 4) == m.to.san(),
        m.promotion is None ==> m.uci().len() == 4,
        m.promotion == Some(PieceKind::Queen) ==> m.uci().len() == 5 && m.uci()[4] == 'q',
        m.promotion == Some(PieceKind::Rook) ==> m.uci().len() == 5 && m.uci()[4] == 'r',
        m.promotion == Some(PieceKind::Bishop) ==> m.uci().len() == 5 && m.uci()[4] == 'b',
        m.promotion == Some(PieceKind::Knight) ==> m.uci().len() == 5 && m.uci()[4] == 'n',
{
    assert(m.uci().subrange(0, 2) =~= m.from.san());
    assert(m.uci().subrange(2, 4) =~= m.to.san());
}

/// Writing a move in UCI notation and reading it back gives the same move.
pub proof fn lemma_uci_roundtrip(m: Move)
    requires
        m.valid(),
    ensures
        is_uci(m.uci()),
        move_of_uci(m.uci()) == m,
{
    lemma_san_roundtrip(m.from);
    lemma_san_roundtrip(m.to);
    assert(m.uci().subrange(0, 2) =~= m.from.san());
    assert(m.uci().subrange(2, 4) =~= m.to.san());
}

} // verus!

verus! {

pub const WHITE_TO_PLAY: u8 = 0b00001;

pub const WHITE_CAN_OO: u8 = 0b00010;

pub const WHITE_CAN_OOO: u8 = 0b00100;

pub const BLACK_CAN_OO: u8 = 0b01000;

pub const BLACK_CAN_OOO: u8 = 0b10000;

/// Small facts of flag bytes and packed words, as the bit-vector prover
/// shows them.
pub proof fn lemma_small_bits(x: u8, a: u8, b: u8, w: u32, k: u32)
    by (bit_vector)
    ensures
        WHITE_CAN_OO | WHITE_CAN_OOO == 6u8,
        BLACK_CAN_OO | BLACK_CAN_OOO == 24u8,
        x & !0u8 == x,
        (x | 24u8) & 1u8 == x & 1u8,
        (x | 6u8) & 1u8 == x & 1u8,
        (x | 24u8) & 2u8 == x & 2u8,
        (x | 24u8) & 4u8 == x & 4u8,
        (x | 6u8) & 8u8 == x & 8u8,
        (x | 6u8) & 16u8 == x & 16u8,
        (x & 1 == 1) == (x & 1 != 0),
        (x & 2 == 2) == (x & 2 != 0),
        (x & 4 == 4) == (x & 4 != 0),
        (x & 8 == 8) == (x & 8 != 0),
        (x & 16 == 16) == (x & 16 != 0),
        x & 15 < 16,
        x < 32 ==> x >> 4 < 2,
        x < 32 ==> (x & (a & b)) ^ 16 < 32,
        x & (a & b) == x & a & b,
        ((x ^ 1u8) & 1u8 == 1u8) == !(x & 1u8 == 1u8),
        (0u32 >> k) & 15 == 0,
        (0u32 >> k) & 1 == 0,
        w & 63 < 64,
        (w >> 6) & 63 < 64,
{
}

/// The side to play and the four castling rights, one bit each.
#[derive(Clone, Copy, PartialEq, Eq, Structural, Hash, Debug)]
pub struct BoardFlags {
    pub bits: u8,
}

impl BoardFlags {
    pub open spec fn has(self, mask: u8) -> bool {
        self.bits & mask == mask
    }

    pub fn empty() -> (f: BoardFlags)
        ensures
            f.bits == 0,
    {
        BoardFlags { bits: 0 }
    }

    pub fn contains(&self, mask: u8) -> (r: bool)
        ensures
            r == self.has(mask),
    {
        self.bits & mask == mask
    }

    pub fn insert(&mut self, mask: u8)
        ensures
            final(self).bits == old(self).bits | mask,
    {
        self.bits = self.bits | mask;
    }

    pub fn remove(&mut self, mask: u8)
        ensures
            final(self).bits == old(self).bits & !mask,
    {
        self.bits = self.bits & !mask;
    }

    pub fn toggle(&mut self, mask: u8)
        ensures
            final(self).bits == old(self).bits ^ mask,
    {
        self.bits = self.bits ^ mask;
    }
}

/// A full board: the pieces, four bits per square, eight squares per word;
/// the flags; and the square that a pawn may capture en passant.
#[derive(Eq, Hash, Debug)]
pub struct BoardState {
    pub pieces: [u32; 8],
    pub flags: BoardFlags,
    pub en_passant_square: Option<Square>,
}

impl Clone for BoardState {
    fn clone(&self) -> (r: BoardState)
        ensures
            r == *self,
    {
        BoardState { pieces: self.pieces, flags: self.flags, en_passant_square: self.en_passant_square }
    }
}

impl PartialEq for BoardState {
    fn eq(&self, other: &BoardState) -> (r: bool) {
        let mut i: usize = 0;
        while i < 8
            invariant
                i <= 8,
                forall|j: int| 0 <= j < i ==> self.pieces@[j] == other.pieces@[j],
            decreases 8 - i,
        {
            if self.pieces[i] != other.pieces[i] {
                return false;
            }
            i = i + 1;
        }
        assert(self.pieces =~= other.pieces);
        self.flags == other.flags && self.en_passant_square == other.en_passant_square
    }
}

impl vstd::std_specs::cmp::PartialEqSpecImpl for BoardState {
    open spec fn obeys_eq_spec() -> bool {
        true
    }

    open spec fn eq_spec(&self, other: &BoardState) -> bool {
        *self == *other
    }
}

/// The name of a color as the board header shows it.
pub open spec fn color_name(c: Color) -> Seq<char> {
    match c {
        Color::White => "White"@,
        Color::Black => "Black"@,
    }
}

/// The character shown for the contents of a square.
pub open spec fn cell_char(p: Option<Piece>) -> char {
    match p {
        Some(p) => p.letter(),
        None => '.',
    }
}

/// The squares with the pieces of the side other than `color` removed.
pub open spec fn fogged(squares: Seq<Option<Piece>>, color: Color) -> Seq<Option<Piece>> {
    Seq::new(
        squares.len(),
        |i: int|
            match squares[i] {
                Some(p) => if p.color == color {
                    Some(p)
                } else {
                    None
                },
                None => None,
            },
    )
}

/// The lowest rank or file of a sense block around rank or file `x`.
pub open spec fn sense_lo(x: int) -> int {
    if x - 1 > 0 { x - 1 } else { 0 }
}

/// The highest rank or file of a sense block around rank or file `x`.
pub open spec fn sense_hi(x: int) -> int {
    if x + 1 < 7 { x + 1 } else { 7 }
}

/// The first `n` squares, left to right, of the sense block around `p`
/// on rank `rank`.
pub open spec fn sense_row(p: Square, rank: int, n: int) -> Seq<Square> {
    Seq::new(n as nat, |j: int| Square((rank * 8 + sense_lo(p.file()) + j) as i8))
}

/// The first `n` rows, from the top, of the sense block around `p`.
pub open spec fn sense_rows(p: Square, n: int) -> Seq<Square>
    decreases n,
{
    if n <= 0 {
        Seq::empty()
    } else {
        sense_rows(p, n - 1) + sense_row(
            p,
            sense_hi(p.rank()) - (n - 1),
            sense_hi(p.file()) - sense_lo(p.file()) + 1,
        )
    }
}

/// The squares a sense centered on `p` looks at, in the order it reports them.
pub open spec fn sense_squares(p: Square) -> Seq<Square> {
    sense_rows(p, sense_hi(p.rank()) - sense_lo(p.rank()) + 1)
}

/// `q` is a square of the board within one rank and one file of `p`.
pub open spec fn near(p: Square, q: Square) -> bool {
    &&& q.valid()
    &&& -1 <= q.rank() - p.rank() <= 1
    &&& -1 <= q.file() - p.file() <= 1
}

/// The squares of the first `n` rows of a sense block are those of the top
/// `n` of its ranks, between its lowest and highest file.
proof fn lemma_sense_rows(p: Square, n: int)
    requires
        p.valid(),
        0 <= n <= sense_hi(p.rank()) - sense_lo(p.rank()) + 1,
    ensures
        forall|q: Square|
            #[trigger] sense_rows(p, n).contains(q) <==> (0 <= q.0 && sense_hi(p.rank()) - n < q.rank() <= sense_hi(
                p.rank(),
            ) && sense_lo(p.file()) <= q.file() <= sense_hi(p.file())),
        forall|i: int, j: int|
            0 <= i < j < sense_rows(p, n).len() ==> top_left_first(#[trigger] sense_rows(p, n)[i], #[trigger] sense_rows(p, n)[j]),
    decreases n,
{
    let hi = sense_hi(p.rank());
    let lo_f = sense_lo(p.file());
    let hi_f = sense_hi(p.file());
    if n > 0 {
        lemma_sense_rows(p, n - 1);
        let a = sense_rows(p, n - 1);
        let r = hi - (n - 1);
        let b = sense_row(p, r, hi_f - lo_f + 1);
        let s = sense_rows(p, n);
        assert(s == a + b);
        assert forall|q: Square| #[trigger] s.contains(q) <==> (0 <= q.0 && hi - n < q.rank() <= hi && lo_f <= q.file()
            <= hi_f) by {
            if s.contains(q) {
                let i = choose|i: int| 0 <= i < s.len() && s[i] == q;
                if i < a.len() {
                    assert(a[i] == s[i]);
                    assert(a.contains(q));
                } else {
                    let j = i - a.len();
                    assert(s[i] == b[j]);
                    let v = r * 8 + lo_f + j;
                    assert(0 <= v < 64);
                    assert(q.0 as int == v);
                    assert(q.rank() == r);
                    assert(q.file() == lo_f + j);
                }
            }
            if 0 <= q.0 && hi - n < q.rank() <= hi && lo_f <= q.file() <= hi_f {
                if q.rank() > r {
                    assert(a.contains(q));
                    let i = choose|i: int| 0 <= i < a.len() && a[i] == q;
                    assert(s[i] == a[i]);
                } else {
                    let j = q.file() - lo_f;
                    vstd::arithmetic::div_mod::lemma_fundamental_div_mod(q.0 as int, 8);
                    assert(q.rank() == r);
                    assert(q.0 as int == r * 8 + q.file());
                    assert(b[j] == Square((r * 8 + lo_f + j) as i8));
                    assert(b[j] == q);
                    assert(s[a.len() + j] == b[j]);
                }
            }
        }
        assert forall|i: int, j: int| 0 <= i < j < s.len() implies top_left_first(#[trigger] s[i], #[trigger] s[j]) by {
            if j < a.len() {
                assert(s[i] == a[i] && s[j] == a[j]);
            } else if i < a.len() {
                assert(s[i] == a[i]);
                assert(a.contains(a[i]));
                let jj = j - a.len();
                assert(s[j] == b[jj]);
                assert(s[j].rank() == r);
            } else {
                let ii = i - a.len();
                let jj = j - a.len();
                assert(s[i] == b[ii] && s[j] == b[jj]);
                assert(s[i].rank() == r && s[j].rank() == r);
                assert(s[i].file() == lo_f + ii && s[j].file() == lo_f + jj);
            }
        }
    }
}

/// `a` comes before `b` in reading order from the top: a higher rank, or
/// the same rank and a lower file.
pub open spec fn top_left_first(a: Square, b: Square) -> bool {
    a.rank() > b.rank() || (a.rank() == b.rank() && a.file() < b.file())
}

/// A sense centred on `p` reports exactly the squares of the board within
/// one rank and one file of `p`: nine away from the edges, and up to the
/// last rank and file where `p` is next to them; each once, rank by rank
/// from the top, left to right.
pub proof fn lemma_sense_block(p: Square)
    requires
        p.valid(),
    ensures
        forall|q: Square| #[trigger] sense_squares(p).contains(q) <==> near(p, q),
        forall|i: int, j: int|
            0 <= i < j < sense_squares(p).len() ==> top_left_first(#[trigger] sense_squares(p)[i], #[trigger] sense_squares(p)[j]),
{
    lemma_sense_rows(p, sense_hi(p.rank()) - sense_lo(p.rank()) + 1);
}

/// 7 to the power `n`.
pub open spec fn pow7(n: nat) -> nat
    decreases n,
{
    if n == 0 {
        1
    } else {
        7 * pow7((n - 1) as nat)
    }
}

pub proof fn lemma_pow7_bound(n: nat)
    requires
        n <= 8,
    ensures
        pow7(n) * 7 <= 40353607,
        pow7(n + 1) == 7 * pow7(n),
    decreases n,
{
    reveal_with_fuel(pow7, 9);
}

/// The digits, base 7, of the kinds on `squares` (6 for an empty square).
pub open spec fn fingerprint(b: BoardState, squares: Seq<Square>) -> int
    decreases squares.len(),
{
    if squares.len() == 0 {
        0
    } else {
        fingerprint(b, squares.drop_last()) * 7 + match b.at(squares.last().0 as int) {
            None => 6,
            Some(p) => p.kind.index() as int,
        }
    }
}

/// The kind of piece on square `q` of `b`, if any.
pub open spec fn kind_on(b: BoardState, q: Square) -> Option<PieceKind> {
    match b.at(q.0 as int) {
        None => None,
        Some(p) => Some(p.kind),
    }
}

/// Two boards give the same fingerprint of some squares exactly when they
/// hold the same kinds of pieces, or nothing, on each of them; and a
/// fingerprint is never negative.
pub proof fn lemma_fingerprint_tells_apart(a: BoardState, b: BoardState, squares: Seq<Square>)
    ensures
        fingerprint(a, squares) >= 0,
        fingerprint(a, squares) == fingerprint(b, squares) <==> forall|i: int|
            0 <= i < squares.len() ==> kind_on(a, #[trigger] squares[i]) == kind_on(b, squares[i]),
    decreases squares.len(),
{
    if squares.len() > 0 {
        let init = squares.drop_last();
        lemma_fingerprint_tells_apart(a, b, init);
        lemma_fingerprint_tells_apart(b, a, init);
        let q = squares.last();
        let da = match a.at(q.0 as int) {
            None => 6int,
            Some(p) => p.kind.index() as int,
        };
        let db = match b.at(q.0 as int) {
            None => 6int,
            Some(p) => p.kind.index() as int,
        };
        assert(0 <= da < 7 && 0 <= db < 7);
        assert(da == db <==> kind_on(a, q) == kind_on(b, q)) by {
            if let Some(p) = a.at(q.0 as int) {
                if let Some(p2) = b.at(q.0 as int) {
                    if p.kind.index() == p2.kind.index() {
                        assert(PieceKind::from_index(p.kind.index()) == p.kind);
                        assert(PieceKind::from_index(p2.kind.index()) == p2.kind);
                    }
                }
            }
        }
        let fa = fingerprint(a, init);
        let fb = fingerprint(b, init);
        assert(fingerprint(a, squares) == fa * 7 + da);
        assert(fingerprint(b, squares) == fb * 7 + db);
        assert((fa * 7 + da == fb * 7 + db) <==> (fa == fb && da == db)) by (nonlinear_arith)
            requires
                0 <= da < 7,
                0 <= db < 7,
        ;
        assert(fa * 7 + da >= 0) by (nonlinear_arith)
            requires
                fa >= 0,
                da >= 0,
        ;
        if fingerprint(a, squares) == fingerprint(b, squares) {
            assert forall|i: int| 0 <= i < squares.len() implies kind_on(a, #[trigger] squares[i]) == kind_on(
                b,
                squares[i],
            ) by {
                if i < init.len() {
                    assert(init[i] == squares[i]);
                }
            }
        } else {
            if forall|i: int| 0 <= i < squares.len() ==> kind_on(a, #[trigger] squares[i]) == kind_on(b, squares[i]) {
                assert(kind_on(a, squares[squares.len() - 1]) == kind_on(b, squares[squares.len() - 1]));
                assert forall|i: int| 0 <= i < init.len() implies kind_on(a, #[trigger] init[i]) == kind_on(b, init[i]) by {
                    assert(init[i] == squares[i]);
                }
            }
        }
    }
}

/// The first square that holds the king of `color`.
pub open spec fn first_king(squares: Seq<Option<Piece>>, color: Color) -> Option<Square> {
    let king = Some(Piece { color, kind: PieceKind::King });
    if exists|i: int| 0 <= i < 64 && squares[i] == king {
        let i = choose|i: int| 0 <= i < 64 && squares[i] == king && forall|j: int| 0 <= j < i ==> squares[j] != king;
        Some(Square(i as i8))
    } else {
        None
    }
}

pub proof fn lemma_first_king(squares: Seq<Option<Piece>>, color: Color, i: int)
    requires
        0 <= i < 64,
        squares[i] == Some(Piece { color, kind: PieceKind::King }),
        forall|j: int| 0 <= j < i ==> squares[j] != Some(Piece { color, kind: PieceKind::King }),
    ensures
        first_king(squares, color) == Some(Square(i as i8)),
{
    let king = Some(Piece { color, kind: PieceKind::King });
    assert(squares[i] == king);
    let k = choose|k: int| 0 <= k < 64 && squares[k] == king && forall|j: int| 0 <= j < k ==> squares[j] != king;
    assert(k == i) by {
        if k < i {
            assert(squares[k] != king);
        }
        if k > i {
            assert(squares[i] != king);
        }
    }
}

pub proof fn lemma_no_king(squares: Seq<Option<Piece>>, color: Color)
    requires
        forall|j: int| 0 <= j < 64 ==> squares[j] != Some(Piece { color, kind: PieceKind::King }),
    ensures
        first_king(squares, color) is None,
{
}

/// In the lowest rank that holds a king of `color`, there is only one.
pub open spec fn king_alone_in_first_rank(squares: Seq<Option<Piece>>, color: Color) -> bool {
    let king = Some(Piece { color, kind: PieceKind::King });
    forall|i: int, j: int|
        0 <= i < 64 && 0 <= j < 64 && i / 8 == j / 8 && squares[i] == king && squares[j] == king && (forall|k: int|
            0 <= k < (i / 8) * 8 ==> squares[k] != king) ==> i == j
}

/// Comparing a word of eight codes with eight copies of `x` at once: bit
/// `s` of the result is set exactly when the code at shift `s` is `x`.
pub proof fn lemma_rank_match(row: u32, x: u32, s: u32)
    by (bit_vector)
    requires
        x < 16,
        s < 32,
        s % 4 == 0,
    ensures
        ({
            let t0 = row ^ ((0x11111111u32 * x) as u32);
            let t1 = t0 | (t0 >> 1);
            let t2 = t1 | (t1 >> 2);
            let t = 0x11111111u32 & !t2;
            ((t >> s) & 1 == 1) == ((row >> s) & 15 == x) && t & !0x11111111u32 == 0
        }),
{
}

/// A word with bits only at multiples of 4, no two of them set, is zero or
/// a single bit.
pub proof fn lemma_single_bit(t: u32)
    by (bit_vector)
    requires
        t & !0x11111111u32 == 0,
        !(bit_at(t, 0) && bit_at(t, 1)),
        !(bit_at(t, 0) && bit_at(t, 2)),
        !(bit_at(t, 0) && bit_at(t, 3)),
        !(bit_at(t, 0) && bit_at(t, 4)),
        !(bit_at(t, 0) && bit_at(t, 5)),
        !(bit_at(t, 0) && bit_at(t, 6)),
        !(bit_at(t, 0) && bit_at(t, 7)),
        !(bit_at(t, 1) && bit_at(t, 2)),
        !(bit_at(t, 1) && bit_at(t, 3)),
        !(bit_at(t, 1) && bit_at(t, 4)),
        !(bit_at(t, 1) && bit_at(t, 5)),
        !(bit_at(t, 1) && bit_at(t, 6)),
        !(bit_at(t, 1) && bit_at(t, 7)),
        !(bit_at(t, 2) && bit_at(t, 3)),
        !(bit_at(t, 2) && bit_at(t, 4)),
        !(bit_at(t, 2) && bit_at(t, 5)),
        !(bit_at(t, 2) && bit_at(t, 6)),
        !(bit_at(t, 2) && bit_at(t, 7)),
        !(bit_at(t, 3) && bit_at(t, 4)),
        !(bit_at(t, 3) && bit_at(t, 5)),
        !(bit_at(t, 3) && bit_at(t, 6)),
        !(bit_at(t, 3) && bit_at(t, 7)),
        !(bit_at(t, 4) && bit_at(t, 5)),
        !(bit_at(t, 4) && bit_at(t, 6)),
        !(bit_at(t, 4) && bit_at(t, 7)),
        !(bit_at(t, 5) && bit_at(t, 6)),
        !(bit_at(t, 5) && bit_at(t, 7)),
        !(bit_at(t, 6) && bit_at(t, 7)),
    ensures
        t == 0 || t == 1 || t == 0x10 || t == 0x100 || t == 0x1000 || t == 0x10000 || t == 0x100000
            || t == 0x1000000 || t == 0x10000000,
{
}

/// Multiplying a single bit at shift `4k` by 0x01234567 puts `k` in the
/// top four bits.
pub proof fn lemma_bit_file(t: u32)
    requires
        t == 1 || t == 0x10 || t == 0x100 || t == 0x1000 || t == 0x10000 || t == 0x100000 || t
            == 0x1000000 || t == 0x10000000,
    ensures
        ({
            let k = (t.wrapping_mul(0x01234567) >> 28) & 7;
            k < 8 && t == 1u32 << (k * 4) as u32
        }),
{
    assert((0x01234567u32 >> 28) & 7 == 0 && 1u32 << 0u32 == 1u32 && (0x12345670u32 >> 28) & 7 == 1 && 1u32 << 4u32
        == 0x10u32 && (0x23456700u32 >> 28) & 7 == 2 && 1u32 << 8u32 == 0x100u32 && (0x34567000u32 >> 28) & 7 == 3
        && 1u32 << 12u32 == 0x1000u32 && (0x45670000u32 >> 28) & 7 == 4 && 1u32 << 16u32 == 0x10000u32 && (0x56700000u32
        >> 28) & 7 == 5 && 1u32 << 20u32 == 0x100000u32 && (0x67000000u32 >> 28) & 7 == 6 && 1u32 << 24u32
        == 0x1000000u32 && (0x70000000u32 >> 28) & 7 == 7 && 1u32 << 28u32 == 0x10000000u32) by (bit_vector);
    if t == 1 {
        assert(t.wrapping_mul(0x01234567) == 0x01234567u32);
    } else if t == 0x10 {
        assert(t.wrapping_mul(0x01234567) == 0x12345670u32);
    } else if t == 0x100 {
        assert(t.wrapping_mul(0x01234567) == 0x23456700u32);
    } else if t == 0x1000 {
        assert(t.wrapping_mul(0x01234567) == 0x34567000u32);
    } else if t == 0x10000 {
        assert(t.wrapping_mul(0x01234567) == 0x45670000u32);
    } else if t == 0x100000 {
        assert(t.wrapping_mul(0x01234567) == 0x56700000u32);
    } else if t == 0x1000000 {
        assert(t.wrapping_mul(0x01234567) == 0x67000000u32);
    } else {
        assert(t.wrapping_mul(0x01234567) == 0x70000000u32);
    }
}

/// Whether bit `4k` of `t` is set.
pub open spec fn bit_at(t: u32, k: u32) -> bool {
    (t >> (k * 4) as u32) & 1 == 1
}

/// The single bit at shift `s`, looked at from shift `j`.
pub proof fn lemma_one_bit(s: u32, j: u32)
    by (bit_vector)
    requires
        s < 32,
        j <= s,
    ensures
        ((1u32 << s) >> j) & 1 == if j == s {
            1u32
        } else {
            0u32
        },
{
}

/// The code of square `i` in the packed words.
pub open spec fn word_code(pieces: [u32; 8], i: int) -> u32 {
    nibble(pieces[i / 8], i % 8)
}

/// Every square of the packed words holds a valid code.
pub open spec fn codes_wf(pieces: [u32; 8]) -> bool {
    forall|i: int| 0 <= i < 64 ==> #[trigger] word_code(pieces, i) < 13
}

/// The four-bit field `k` (0 to 7) of the word `w`.
pub open spec fn nibble(w: u32, k: int) -> u32 {
    (w >> ((k * 4) as u32)) & 15
}

impl BoardState {
    /// The code of the piece on square `i`.
    pub open spec fn code(self, i: int) -> u32 {
        word_code(self.pieces, i)
    }

    pub open spec fn words(self) -> Seq<u32> {
        self.pieces@
    }

    /// The piece on square `i`.
    pub open spec fn at(self, i: int) -> Option<Piece> {
        piece_of_code(self.code(i))
    }

    /// The 64 squares of the board.
    pub open spec fn squares(self) -> Seq<Option<Piece>> {
        Seq::new(64, |i: int| self.at(i))
    }

    /// Every square holds a valid code, and the en passant square, if any,
    /// is on the board.
    pub open spec fn wf(self) -> bool {
        &&& codes_wf(self.pieces)
        &&& match self.en_passant_square {
            Some(sq) => sq.valid(),
            None => true,
        }
    }

    pub open spec fn white_to_play(self) -> bool {
        self.flags.has(WHITE_TO_PLAY)
    }

    pub open spec fn turn(self) -> Color {
        if self.white_to_play() {
            Color::White
        } else {
            Color::Black
        }
    }

    pub fn empty() -> (b: BoardState)
        ensures
            b.wf(),
            b.squares() == Seq::new(64, |i: int| None::<Piece>),
            b.flags.bits == 0,
            b.en_passant_square is None,
    {
        let b = BoardState { pieces: [0, 0, 0, 0, 0, 0, 0, 0], flags: BoardFlags::empty(), en_passant_square: None };
        assert forall|i: int| 0 <= i < 64 implies #[trigger] word_code(b.pieces, i) == 0 by {
            let k = ((i % 8) * 4) as u32;
            lemma_small_bits(0, 0, 0, 0, k);
        }
        assert(b.squares() =~= Seq::new(64, |i: int| None::<Piece>));
        b
    }

    pub fn side_to_play(&self) -> (c: Color)
        ensures
            c == self.turn(),
    {
        if self.flags.contains(WHITE_TO_PLAY) {
            Color::White
        } else {
            Color::Black
        }
    }

    pub fn get_piece(&self, i: Square) -> (p: Option<Piece>)
        requires
            self.wf(),
            i.valid(),
        ensures
            p == self.at(i.0 as int),
    {
        let i = i.0 as usize;
        let k = (self.pieces[i / 8] >> ((i % 8 * 4) as u32)) & 15;
        assert(k == self.code(i as int));
        Piece::from_int(k)
    }

    /// Puts `new_piece` on `sq`, tells `obs`, and returns what was there.
    pub fn replace_piece<O: Obs>(&mut self, sq: Square, new_piece: Option<Piece>, obs: &mut O) -> (old_piece: Option<Piece>)
        requires
            old(self).wf(),
            sq.valid(),
            O::step_ok(old(obs).model(), (sq, old(self).at(sq.0 as int), new_piece)),
        ensures
            final(self).wf(),
            old_piece == old(self).at(sq.0 as int),
            final(self).squares() == old(self).squares().update(sq.0 as int, new_piece),
            final(self).flags == old(self).flags,
            final(self).en_passant_square == old(self).en_passant_square,
            final(obs).model() == O::step(old(obs).model(), (sq, old_piece, new_piece)),
    {
        let i = sq.0 as usize;
        let s = (i % 8 * 4) as u32;
        let w = self.pieces[i / 8];
        let old_code = (w >> s) & 15;
        let c = Piece::to_int(new_piece);
        let w2 = (w & !(15u32 << s)) | (c << s);
        self.pieces[i / 8] = w2;
        proof {
            assert forall|j: int| 0 <= j < 64 implies #[trigger] word_code(self.pieces, j) == (if j == i {
                c
            } else {
                old(self).code(j)
            }) by {
                let t = ((j % 8) * 4) as u32;
                lemma_nibble_set(w, s, t, c);
            }
            assert(self.squares() =~= old(self).squares().update(sq.0 as int, new_piece));
        }
        let old_piece = Piece::from_int(old_code);
        obs.replace_piece(sq, old_piece, new_piece);
        old_piece
    }

    /// Whether a pawn of the side to play stands ready to capture on the
    /// en passant square `ep`.
    pub open spec fn ep_capturable(self, ep: int) -> bool {
        let file = ep % 8;
        if self.white_to_play() {
            (file > 0 && self.at(ep - 9) == Some(Piece { color: Color::White, kind: PieceKind::Pawn }))
                || (file < 7 && self.at(ep - 7) == Some(Piece { color: Color::White, kind: PieceKind::Pawn }))
        } else {
            (file > 0 && self.at(ep + 7) == Some(Piece { color: Color::Black, kind: PieceKind::Pawn }))
                || (file < 7 && self.at(ep + 9) == Some(Piece { color: Color::Black, kind: PieceKind::Pawn }))
        }
    }

    /// The squares that the en passant test looks at are on the board.
    pub open spec fn ep_in_bounds(self) -> bool {
        match self.en_passant_square {
            None => true,
            Some(sq) => {
                let ep = sq.0 as int;
                let file = ep % 8;
                if self.white_to_play() {
                    (file > 0 ==> ep >= 9) && (file < 7 ==> ep >= 7)
                } else {
                    (file > 0 ==> ep + 7 < 64) && (file < 7 ==> ep + 9 < 64)
                }
            },
        }
    }

    /// Forgets the en passant square unless a pawn can capture there.
    pub fn clear_irrelevant_en_passant_square(&mut self)
        requires
            old(self).wf(),
            old(self).ep_in_bounds(),
        ensures
            final(self).wf(),
            final(self).pieces == old(self).pieces,
            final(self).flags == old(self).flags,
            final(self).en_passant_square == match old(self).en_passant_square {
                None => None,
                Some(sq) => if old(self).ep_capturable(sq.0 as int) {
                    Some(sq)
                } else {
                    None
                },
            },
    {
        if self.en_passant_square.is_none() {
            return;
        }
        let Square(ep) = self.en_passant_square.unwrap();
        let file = ep % 8;
        match self.side_to_play() {
            Color::White => {
                if file > 0 && self.get_piece(Square(ep - 9)) == Some(Piece { color: Color::White, kind: PieceKind::Pawn }) {
                    return;
                }
                if file < 7 && self.get_piece(Square(ep - 7)) == Some(Piece { color: Color::White, kind: PieceKind::Pawn }) {
                    return;
                }
            },
            Color::Black => {
                if file > 0 && self.get_piece(Square(ep + 7)) == Some(Piece { color: Color::Black, kind: PieceKind::Pawn }) {
                    return;
                }
                if file < 7 && self.get_piece(Square(ep + 9)) == Some(Piece { color: Color::Black, kind: PieceKind::Pawn }) {
                    return;
                }
            },
        }
        self.en_passant_square = None;
    }

    /// What a sense centered on `p` shows: each square of the 3x3 block
    /// around `p` that is on the board, with its piece, rank by rank from
    /// the top, left to right.
    pub fn sense(&self, p: Square) -> (result: Vec<(Square, Option<Piece>)>)
        requires
            self.wf(),
            p.valid(),
        ensures
            result@ == sense_squares(p).map_values(|q: Square| (q, self.at(q.0 as int))),
            forall|q: Square| near(p, q) ==> #[trigger] result@.contains((q, self.at(q.0 as int))),
            forall|i: int|
                0 <= i < result@.len() ==> near(p, (#[trigger] result@[i]).0) && result@[i].1 == self.at(
                    result@[i].0.0 as int,
                ),
            forall|i: int, j: int|
                0 <= i < j < result@.len() ==> top_left_first((#[trigger] result@[i]).0, (#[trigger] result@[j]).0),
    {
        let mut result: Vec<(Square, Option<Piece>)> = Vec::new();
        let r = p.0 / 8;
        let f = p.0 % 8;
        let lo_r: i8 = if r - 1 > 0 { r - 1 } else { 0 };
        let hi_r: i8 = if r + 1 < 7 { r + 1 } else { 7 };
        let lo_f: i8 = if f - 1 > 0 { f - 1 } else { 0 };
        let hi_f: i8 = if f + 1 < 7 { f + 1 } else { 7 };
        let ghost view = |q: Square| (q, self.at(q.0 as int));
        let mut rank: i8 = hi_r;
        while rank >= lo_r
            invariant
                lo_r == sense_lo(r as int),
                hi_r == sense_hi(r as int),
                lo_f == sense_lo(f as int),
                hi_f == sense_hi(f as int),
                r == p.0 / 8,
                f == p.0 % 8,
                p.valid(),
                self.wf(),
                lo_r - 1 <= rank <= hi_r,
                result@ == sense_rows(p, hi_r - rank).map_values(view),
                forall|q: Square| #[trigger] view(q) == (q, self.at(q.0 as int)),
            decreases rank - lo_r + 1,
        {
            let mut file: i8 = lo_f;
            while file <= hi_f
                invariant
                    lo_r == sense_lo(r as int),
                    hi_r == sense_hi(r as int),
                    lo_f == sense_lo(f as int),
                    hi_f == sense_hi(f as int),
                    r == p.0 / 8,
                    f == p.0 % 8,
                    p.valid(),
                    self.wf(),
                    lo_r <= rank <= hi_r,
                    lo_f <= file <= hi_f + 1,
                    result@ == (sense_rows(p, hi_r - rank) + sense_row(p, rank as int, file - lo_f)).map_values(view),
                    forall|q: Square| #[trigger] view(q) == (q, self.at(q.0 as int)),
                decreases hi_f + 1 - file,
            {
                let q = Square(rank * 8 + file);
                let piece = self.get_piece(q);
                let ghost before = result@;
                result.push((q, piece));
                proof {
                    assert(view(q) == (q, piece));
                    assert(result@ == before.push(view(q)));
                    let a = sense_rows(p, hi_r - rank);
                    let b = sense_row(p, rank as int, file - lo_f);
                    let b2 = sense_row(p, rank as int, file - lo_f + 1);
                    assert(b2 =~= b.push(q));
                    assert((a + b2) =~= (a + b).push(q));
                    assert((a + b2).map_values(view) =~= (a + b).map_values(view).push(view(q)));
                }
                file = file + 1;
            }
            proof {
                let a = sense_rows(p, hi_r - rank);
                assert(sense_rows(p, hi_r - rank + 1) == a + sense_row(p, rank as int, hi_f - lo_f + 1));
            }
            rank = rank - 1;
        }
        proof {
            lemma_sense_block(p);
            let sq = sense_squares(p);
            assert(result@ == sq.map_values(view));
            assert forall|q: Square| near(p, q) implies #[trigger] result@.contains((q, self.at(q.0 as int))) by {
                assert(sq.contains(q));
                let i = choose|i: int| 0 <= i < sq.len() && sq[i] == q;
                assert(result@[i] == view(sq[i]));
            }
            assert forall|i: int| 0 <= i < result@.len() implies near(p, (#[trigger] result@[i]).0) && result@[i].1
                == self.at(result@[i].0.0 as int) by {
                assert(result@[i] == view(sq[i]));
                assert(sq.contains(sq[i]));
            }
            assert forall|i: int, j: int| 0 <= i < j < result@.len() implies top_left_first(
                (#[trigger] result@[i]).0,
                (#[trigger] result@[j]).0,
            ) by {
                assert(result@[i] == view(sq[i]));
                assert(result@[j] == view(sq[j]));
            }
        }
        result
    }

    /// A number that tells apart the kinds (and empty squares) that a sense
    /// centered on `p` would show.
    pub fn sense_fingerprint(&self, p: Square) -> (result: u32)
        requires
            self.wf(),
            p.valid(),
        ensures
            result == fingerprint(*self, sense_squares(p)),
    {
        let mut result: u32 = 0;
        let r = p.0 / 8;
        let f = p.0 % 8;
        let lo_r: i8 = if r - 1 > 0 { r - 1 } else { 0 };
        let hi_r: i8 = if r + 1 < 7 { r + 1 } else { 7 };
        let lo_f: i8 = if f - 1 > 0 { f - 1 } else { 0 };
        let hi_f: i8 = if f + 1 < 7 { f + 1 } else { 7 };
        let mut rank: i8 = hi_r;
        while rank >= lo_r
            invariant
                lo_r == sense_lo(r as int),
                hi_r == sense_hi(r as int),
                lo_f == sense_lo(f as int),
                hi_f == sense_hi(f as int),
                r == p.0 / 8,
                f == p.0 % 8,
                p.valid(),
                self.wf(),
                lo_r - 1 <= rank <= hi_r,
                result == fingerprint(*self, sense_rows(p, hi_r - rank)),
                result < pow7(sense_rows(p, hi_r - rank).len()),
                sense_rows(p, hi_r - rank).len() == (hi_r - rank) * (hi_f - lo_f + 1),
            decreases rank - lo_r + 1,
        {
            let mut file: i8 = lo_f;
            while file <= hi_f
                invariant
                    lo_r == sense_lo(r as int),
                    hi_r == sense_hi(r as int),
                    lo_f == sense_lo(f as int),
                    hi_f == sense_hi(f as int),
                    r == p.0 / 8,
                    f == p.0 % 8,
                    p.valid(),
                    self.wf(),
                    lo_r <= rank <= hi_r,
                    lo_f <= file <= hi_f + 1,
                    result == fingerprint(*self, sense_rows(p, hi_r - rank) + sense_row(p, rank as int, file - lo_f)),
                    result < pow7((sense_rows(p, hi_r - rank) + sense_row(p, rank as int, file - lo_f)).len()),
                    sense_rows(p, hi_r - rank).len() == (hi_r - rank) * (hi_f - lo_f + 1),
                decreases hi_f + 1 - file,
            {
                let q = Square(rank * 8 + file);
                let ghost a = sense_rows(p, hi_r - rank);
                let ghost b = sense_row(p, rank as int, file - lo_f);
                proof {
                    let b2 = sense_row(p, rank as int, file - lo_f + 1);
                    assert(b2 =~= b.push(q));
                    assert((a + b2) =~= (a + b).push(q));
                    assert((a + b).push(q).drop_last() =~= a + b);
                    assert(hi_r - rank <= 2);
                    assert(hi_f - lo_f + 1 <= 3);
                    assert((hi_r - rank) * (hi_f - lo_f + 1) <= 6) by (nonlinear_arith)
                        requires
                            0 <= hi_r - rank <= 2,
                            0 <= hi_f - lo_f + 1 <= 3,
                    ;
                    lemma_pow7_bound((a + b).len());
                }
                let v = match self.get_piece(q) {
                    None => 6,
                    Some(piece) => piece.kind.to_int(),
                };
                result = result * 7 + v;
                file = file + 1;
            }
            proof {
                let a = sense_rows(p, hi_r - rank);
                assert(sense_rows(p, hi_r - rank + 1) == a + sense_row(p, rank as int, hi_f - lo_f + 1));
                assert((hi_r - rank + 1) * (hi_f - lo_f + 1) == (hi_r - rank) * (hi_f - lo_f + 1) + (hi_f - lo_f + 1)) by (nonlinear_arith);
            }
            rank = rank - 1;
        }
        result
    }

    /// The first square, counting from a1, that holds the king of `color`.
    pub fn find_king_naive(&self, color: Color) -> (r: Option<Square>)
        requires
            self.wf(),
        ensures
            r == first_king(self.squares(), color),
    {
        let king = Some(Piece { color, kind: PieceKind::King });
        let mut i: i8 = 0;
        while i < 64
            invariant
                0 <= i <= 64,
                self.wf(),
                king == Some(Piece { color, kind: PieceKind::King }),
                forall|j: int| 0 <= j < i ==> self.squares()[j] != king,
            decreases 64 - i,
        {
            if self.get_piece(Square(i)) == king {
                proof {
                    lemma_first_king(self.squares(), color, i as int);
                }
                return Some(Square(i));
            }
            i = i + 1;
        }
        proof {
            lemma_no_king(self.squares(), color);
        }
        None
    }

    /// The first square that holds the king of `color`, found a rank at a
    /// time by comparing all eight squares of the rank at once.
    #[verifier::spinoff_prover]
    #[verifier::rlimit(30)]
    pub fn find_king(&self, color: Color) -> (r: Option<Square>)
        requires
            self.wf(),
            king_alone_in_first_rank(self.squares(), color),
        ensures
            r == first_king(self.squares(), color),
    {
        let x = Piece::to_int(Some(Piece { color, kind: PieceKind::King }));
        let ghost king = Some(Piece { color, kind: PieceKind::King });
        let mask: u32 = 0x11111111 * x;
        let mut rank: usize = 0;
        while rank < 8
            invariant
                0 <= rank <= 8,
                self.wf(),
                king_alone_in_first_rank(self.squares(), color),
                x == piece_code(king),
                mask == 0x11111111 * x,
                king == Some(Piece { color, kind: PieceKind::King }),
                forall|j: int| 0 <= j < rank * 8 ==> self.squares()[j] != king,
            decreases 8 - rank,
        {
            let row = self.pieces[rank];
            let mut t = row ^ mask;
            t = t | (t >> 1);
            t = t | (t >> 2);
            t = 0x11111111 & !t;
            proof {
                assert forall|k: u32| k < 8 implies ((t >> (k * 4) as u32) & 1 == 1) == (nibble(row, k as int) == x) by {
                    lemma_rank_match(row, x, (k * 4) as u32);
                }
                lemma_rank_match(row, x, 0);
            }
            if t == 0 {
                proof {
                    assert forall|j: int| 0 <= j < rank * 8 + 8 implies self.squares()[j] != king by {
                        if j >= rank * 8 {
                            let k = (j - rank * 8) as u32;
                            assert(word_code(self.pieces, j) == nibble(row, k as int));
                            lemma_small_bits(0, 0, 0, 0, (k * 4) as u32);
                            lemma_piece_code_roundtrip(word_code(self.pieces, j), king);
                        }
                    }
                }
                rank = rank + 1;
                continue;
            }
            proof {
                assert(forall|k: u32| k < 8 ==> ((t >> (k * 4) as u32) & 1 == 1) == (nibble(row, k as int) == x));
                assert forall|k1: u32, k2: u32| k1 < k2 < 8 implies !(#[trigger] bit_at(t, k1) && #[trigger] bit_at(t, k2)) by {
                    if bit_at(t, k1) && bit_at(t, k2) {
                        let i = rank * 8 + k1;
                        let j = rank * 8 + k2;
                        assert(word_code(self.pieces, i as int) == nibble(row, k1 as int));
                        assert(word_code(self.pieces, j as int) == nibble(row, k2 as int));
                        lemma_piece_code_roundtrip(x, king);
                        assert(self.squares()[i as int] == king);
                        assert(self.squares()[j as int] == king);
                    }
                }
                lemma_single_bit(t);
            }
            let file = (t.wrapping_mul(0x01234567) >> 28) & 7;
            proof {
                lemma_bit_file(t);
                let k = file;
                lemma_one_bit((k * 4) as u32, (k * 4) as u32);
                assert((t >> (k * 4) as u32) & 1 == 1);
                let i = rank * 8 + k;
                assert(word_code(self.pieces, i as int) == nibble(row, k as int));
                lemma_piece_code_roundtrip(x, king);
                assert(self.squares()[i as int] == king);
                assert forall|j: int| 0 <= j < i implies self.squares()[j] != king by {
                    if j >= rank * 8 {
                        let k2 = (j - rank * 8) as u32;
                        assert(word_code(self.pieces, j) == nibble(row, k2 as int));
                        lemma_one_bit((k * 4) as u32, (k2 * 4) as u32);
                        assert((t >> (k2 * 4) as u32) & 1 != 1);
                        lemma_piece_code_roundtrip(word_code(self.pieces, j), king);
                    }
                }
                lemma_first_king(self.squares(), color, i as int);
            }
            return Some(Square(rank as i8 * 8 + file as i8));
        }
        proof {
            lemma_no_king(self.squares(), color);
        }
        None
    }

    /// The side that still has a king when the other has lost it.
    pub fn winner(&self) -> (r: Option<Color>)
        requires
            self.wf(),
            king_alone_in_first_rank(self.squares(), Color::White),
            king_alone_in_first_rank(self.squares(), Color::Black),
            first_king(self.squares(), Color::White) is Some || first_king(self.squares(), Color::Black) is Some,
        ensures
            r == (if first_king(self.squares(), Color::Black) is None {
                Some(Color::White)
            } else if first_king(self.squares(), Color::White) is None {
                Some(Color::Black)
            } else {
                None
            }),
    {
        match (self.find_king(Color::White), self.find_king(Color::Black)) {
            (Some(_), Some(_)) => None,
            (Some(_), None) => Some(Color::White),
            _ => Some(Color::Black),
        }
    }

    /// The first line of the rendering: en passant square, castling rights
    /// and the side to play.
    pub open spec fn render_header(self) -> Seq<char> {
        (match self.en_passant_square {
            Some(ep) => "ep="@ + ep.san() + " "@,
            None => Seq::empty(),
        }) + (if self.flags.has(WHITE_CAN_OO) { seq!['K'] } else { Seq::empty() }) + (if self.flags.has(
            WHITE_CAN_OOO,
        ) { seq!['Q'] } else { Seq::empty() }) + (if self.flags.has(BLACK_CAN_OO) { seq!['k'] } else { Seq::empty() })
            + (if self.flags.has(BLACK_CAN_OOO) { seq!['q'] } else { Seq::empty() }) + "  "@ + color_name(self.turn())
            + " to move"@
    }

    /// The line of rank `rank` (0 for the first): its number, then each
    /// square after a space.
    pub open spec fn render_line(self, rank: int) -> Seq<char> {
        seq![digit_char(rank + 1)] + Seq::new(
            16,
            |j: int|
                if j % 2 == 0 {
                    ' '
                } else {
                    cell_char(self.at(rank * 8 + j / 2))
                },
        )
    }

    fn render_rank(&self, rank: i8) -> (line: String)
        requires
            self.wf(),
            0 <= rank < 8,
        ensures
            line@ == self.render_line(rank as int),
    {
        let mut line = String::new();
        push_char(&mut line, digit((rank + 1) as u32));
        let mut file: i8 = 0;
        while file < 8
            invariant
                0 <= file <= 8,
                0 <= rank < 8,
                self.wf(),
                line@ == self.render_line(rank as int).subrange(0, 1 + 2 * file),
            decreases 8 - file,
        {
            push_char(&mut line, ' ');
            let c = match self.get_piece(Square(file + 8 * rank)) {
                Some(p) => p.to_char(),
                None => '.',
            };
            push_char(&mut line, c);
            assert(line@ =~= self.render_line(rank as int).subrange(0, 1 + 2 * (file + 1)));
            file = file + 1;
        }
        assert(line@ =~= self.render_line(rank as int));
        line
    }

    /// The board as text: a header line, the ranks from the eighth down,
    /// and the file letters.
    pub fn render(&self) -> (r: Vec<String>)
        requires
            self.wf(),
        ensures
            r.len() == 10,
            r[0]@ == self.render_header(),
            forall|k: int| 1 <= k < 9 ==> #[trigger] r[k]@ == self.render_line(8 - k),
            r[9]@ == "  a b c d e f g h"@,
    {
        let mut header = String::new();
        if let Some(ep) = self.en_passant_square {
            push_str(&mut header, "ep=");
            let name = ep.to_san();
            push_str(&mut header, name.as_str());
            push_str(&mut header, " ");
        }
        let ghost h0 = header@;
        if self.flags.contains(WHITE_CAN_OO) {
            push_char(&mut header, 'K');
        }
        if self.flags.contains(WHITE_CAN_OOO) {
            push_char(&mut header, 'Q');
        }
        if self.flags.contains(BLACK_CAN_OO) {
            push_char(&mut header, 'k');
        }
        if self.flags.contains(BLACK_CAN_OOO) {
            push_char(&mut header, 'q');
        }
        push_str(&mut header, "  ");
        match self.side_to_play() {
            Color::White => push_str(&mut header, "White"),
            Color::Black => push_str(&mut header, "Black"),
        }
        push_str(&mut header, " to move");
        assert(header@ =~= self.render_header());
        let mut result: Vec<String> = Vec::new();
        result.push(header);
        let mut rank: i8 = 8;
        while rank > 0
            invariant
                0 <= rank <= 8,
                self.wf(),
                result.len() == 9 - rank,
                result[0]@ == self.render_header(),
                forall|k: int| 1 <= k < 9 - rank ==> #[trigger] result[k]@ == self.render_line(8 - k),
            decreases rank,
        {
            rank = rank - 1;
            let line = self.render_rank(rank);
            result.push(line);
        }
        result.push("  a b c d e f g h".to_owned());
        result
    }

    /// Removes the pieces of the other side and what is known only to it.
    pub fn fog_of_war(&mut self, color: Color)
        requires
            old(self).wf(),
        ensures
            final(self).wf(),
            final(self).squares() == fogged(old(self).squares(), color),
            final(self).en_passant_square is None,
            final(self).flags.bits == old(self).flags.bits | match color {
                Color::White => (BLACK_CAN_OO | BLACK_CAN_OOO),
                Color::Black => (WHITE_CAN_OO | WHITE_CAN_OOO),
            },
    {
        let mut sq: i8 = 0;
        while sq < 64
            invariant
                0 <= sq <= 64,
                self.wf(),
                self.flags == old(self).flags,
                forall|j: int| 0 <= j < sq ==> #[trigger] self.at(j) == fogged(old(self).squares(), color)[j],
                forall|j: int| sq <= j < 64 ==> #[trigger] self.at(j) == old(self).at(j),
            decreases 64 - sq,
        {
            let q = Square(sq);
            let p = self.get_piece(q);
            if p.is_some() && p.unwrap().color != color {
                let mut null = crate::obs::NullObs;
                self.replace_piece(q, None, &mut null);
                assert(self.at(sq as int) == self.squares()[sq as int]);
            }
            proof {
                assert forall|j: int| 0 <= j < 64 implies #[trigger] self.at(j) == self.squares()[j] by {}
            }
            sq = sq + 1;
        }
        assert(self.squares() =~= fogged(old(self).squares(), color));
        self.en_passant_square = None;
        match color {
            Color::White => {
                self.flags.insert(BLACK_CAN_OO | BLACK_CAN_OOO);
            },
            Color::Black => {
                self.flags.insert(WHITE_CAN_OO | WHITE_CAN_OOO);
            },
        }
    }
}

} // verus!

verus! {

/// Overwriting the four-bit field at shift `s` of a word changes that
/// field and no other.
pub proof fn lemma_nibble_set(w: u32, s: u32, t: u32, c: u32)
    by (bit_vector)
    requires
        s <= 32,
        t < 32,
        s % 4 == 0,
        t % 4 == 0,
        c < 16,
    ensures
        s < 32 ==> ((w & !(15u32 << s)) | (c << s)) >> t & 15 == if s == t {
            c
        } else {
            (w >> t) & 15
        },
{
}

} // verus!

verus! {

/// A word is made of its eight four-bit fields: two words with the same
/// fields are equal.
pub proof fn lemma_word_of_nibbles(x: u32, y: u32)
    by (bit_vector)
    requires
        (x >> 0u32) & 15 == (y >> 0u32) & 15,
        (x >> 4u32) & 15 == (y >> 4u32) & 15,
        (x >> 8u32) & 15 == (y >> 8u32) & 15,
        (x >> 12u32) & 15 == (y >> 12u32) & 15,
        (x >> 16u32) & 15 == (y >> 16u32) & 15,
        (x >> 20u32) & 15 == (y >> 20u32) & 15,
        (x >> 24u32) & 15 == (y >> 24u32) & 15,
        (x >> 28u32) & 15 == (y >> 28u32) & 15,
    ensures
        x == y,
{
}

/// A well-formed board is determined by its squares, its flags and its
/// en passant square.
pub proof fn lemma_board_determined(a: BoardState, b: BoardState)
    requires
        a.wf(),
        b.wf(),
        a.squares() == b.squares(),
        a.flags == b.flags,
        a.en_passant_square == b.en_passant_square,
    ensures
        a == b,
{
    assert forall|i: int| 0 <= i < 64 implies #[trigger] word_code(a.pieces, i) == word_code(b.pieces, i) by {
        assert(a.squares()[i] == a.at(i));
        assert(b.squares()[i] == b.at(i));
        lemma_piece_code_roundtrip(a.code(i), None);
        lemma_piece_code_roundtrip(b.code(i), None);
    }
    assert forall|w: int| 0 <= w < 8 implies a.pieces[w] == b.pieces[w] by {
        let x = a.pieces[w];
        let y = b.pieces[w];
        assert(word_code(a.pieces, 8 * w) == word_code(b.pieces, 8 * w));
        assert(word_code(a.pieces, 8 * w + 1) == word_code(b.pieces, 8 * w + 1));
        assert(word_code(a.pieces, 8 * w + 2) == word_code(b.pieces, 8 * w + 2));
        assert(word_code(a.pieces, 8 * w + 3) == word_code(b.pieces, 8 * w + 3));
        assert(word_code(a.pieces, 8 * w + 4) == word_code(b.pieces, 8 * w + 4));
        assert(word_code(a.pieces, 8 * w + 5) == word_code(b.pieces, 8 * w + 5));
        assert(word_code(a.pieces, 8 * w + 6) == word_code(b.pieces, 8 * w + 6));
        assert(word_code(a.pieces, 8 * w + 7) == word_code(b.pieces, 8 * w + 7));
        lemma_word_of_nibbles(x, y);
    }
    assert(a.pieces =~= b.pieces);
}

} // verus!
