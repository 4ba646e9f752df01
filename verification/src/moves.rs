use vstd::prelude::*;
use crate::game::{Square, Color, PieceKind, Piece, Move, BoardState, BoardFlags, fogged, WHITE_TO_PLAY, WHITE_CAN_OO, WHITE_CAN_OOO, BLACK_CAN_OO, BLACK_CAN_OOO, lemma_small_bits, lemma_board_determined};
use crate::obs::{Obs, NullObs, Edit, steps, steps_ok};

verus! {

/// The board after writing each `(square, piece)` of `writes` in turn.
pub open spec fn replay(s: Seq<Option<Piece>>, writes: Seq<(Square, Option<Piece>)>) -> Seq<Option<Piece>>
    decreases writes.len(),
{
    if writes.len() == 0 {
        s
    } else {
        replay(s, writes.drop_last()).update(writes.last().0.0 as int, writes.last().1)
    }
}

/// The changes that writing `writes` in turn makes to the board `s`: each
/// write together with the piece it replaces.
pub open spec fn annotate(s: Seq<Option<Piece>>, writes: Seq<(Square, Option<Piece>)>) -> Seq<Edit>
    decreases writes.len(),
{
    if writes.len() == 0 {
        Seq::empty()
    } else {
        let w = writes.last();
        annotate(s, writes.drop_last()).push((w.0, replay(s, writes.drop_last())[w.0.0 as int], w.1))
    }
}

pub proof fn lemma_replay_push(s: Seq<Option<Piece>>, writes: Seq<(Square, Option<Piece>)>, w: (Square, Option<Piece>))
    ensures
        replay(s, writes.push(w)) == replay(s, writes).update(w.0.0 as int, w.1),
        annotate(s, writes.push(w)) == annotate(s, writes).push((w.0, replay(s, writes)[w.0.0 as int], w.1)),
{
    assert(writes.push(w).drop_last() =~= writes);
}

/// The turn and castling bits of `(x ^ 1) & !(a | b)`: the turn flips and
/// each right stays where neither mask clears it.
pub open spec fn mask_bits(x: u8, a: u8, b: u8) -> bool {
    let y = (x ^ 1u8) & !(a | b);
    &&& (y & 1u8 == 1u8) == !(x & 1u8 == 1u8)
    &&& (y & 2u8 == 2u8) == (x & 2u8 == 2u8 && a & 2u8 == 0u8 && b & 2u8 == 0u8)
    &&& (y & 4u8 == 4u8) == (x & 4u8 == 4u8 && a & 4u8 == 0u8 && b & 4u8 == 0u8)
    &&& (y & 8u8 == 8u8) == (x & 8u8 == 8u8 && a & 8u8 == 0u8 && b & 8u8 == 0u8)
    &&& (y & 16u8 == 16u8) == (x & 16u8 == 16u8 && a & 16u8 == 0u8 && b & 16u8 == 0u8)
}

/// The rights that the mask of square `q` clears: white's short castling
/// for the king's square and the h1 corner, and so on.
proof fn lemma_mask_table(q: i8)
    ensures
        castle_mask(q) & 1u8 == 0u8,
        (castle_mask(q) & 2u8 == 0u8) == (q != 4 && q != 7),
        (castle_mask(q) & 4u8 == 0u8) == (q != 4 && q != 0),
        (castle_mask(q) & 8u8 == 0u8) == (q != 60 && q != 63),
        (castle_mask(q) & 16u8 == 0u8) == (q != 60 && q != 56),
{
    assert(6u8 & 1u8 == 0u8 && 6u8 & 2u8 != 0u8 && 6u8 & 4u8 != 0u8 && 6u8 & 8u8 == 0u8 && 6u8 & 16u8 == 0u8) by (bit_vector);
    assert(4u8 & 1u8 == 0u8 && 4u8 & 2u8 == 0u8 && 4u8 & 4u8 != 0u8 && 4u8 & 8u8 == 0u8 && 4u8 & 16u8 == 0u8) by (bit_vector);
    assert(2u8 & 1u8 == 0u8 && 2u8 & 2u8 != 0u8 && 2u8 & 4u8 == 0u8 && 2u8 & 8u8 == 0u8 && 2u8 & 16u8 == 0u8) by (bit_vector);
    assert(24u8 & 1u8 == 0u8 && 24u8 & 2u8 == 0u8 && 24u8 & 4u8 == 0u8 && 24u8 & 8u8 != 0u8 && 24u8 & 16u8 != 0u8) by (bit_vector);
    assert(16u8 & 1u8 == 0u8 && 16u8 & 2u8 == 0u8 && 16u8 & 4u8 == 0u8 && 16u8 & 8u8 == 0u8 && 16u8 & 16u8 != 0u8) by (bit_vector);
    assert(8u8 & 1u8 == 0u8 && 8u8 & 2u8 == 0u8 && 8u8 & 4u8 == 0u8 && 8u8 & 8u8 != 0u8 && 8u8 & 16u8 == 0u8) by (bit_vector);
    assert(0u8 & 1u8 == 0u8 && 0u8 & 2u8 == 0u8 && 0u8 & 4u8 == 0u8 && 0u8 & 8u8 == 0u8 && 0u8 & 16u8 == 0u8) by (bit_vector);
}

/// Square `q` is one of the two rook squares of castling `k` (1 and 2 for
/// white's short and long castling, 3 and 4 for black's).
pub open spec fn castle_square(k: int, q: int) -> bool {
    ||| k == 1 && (q == 7 || q == 5)
    ||| k == 2 && (q == 0 || q == 3)
    ||| k == 3 && (q == 63 || q == 61)
    ||| k == 4 && (q == 56 || q == 59)
}

/// Square `q` of `s` holds a piece of the side other than `c`.
pub open spec fn enemy_on(s: Seq<Option<Piece>>, q: int, c: Color) -> bool {
    s[q] is Some && s[q].unwrap().color != c
}

/// Every write is to a square of the board.
pub open spec fn writes_valid(writes: Seq<(Square, Option<Piece>)>) -> bool {
    forall|i: int| 0 <= i < writes.len() ==> (#[trigger] writes[i]).0.valid()
}

pub proof fn lemma_replay_len(s: Seq<Option<Piece>>, writes: Seq<(Square, Option<Piece>)>)
    requires
        s.len() == 64,
        writes_valid(writes),
    ensures
        replay(s, writes).len() == 64,
    decreases writes.len(),
{
    if writes.len() > 0 {
        assert(writes_valid(writes.drop_last())) by {
            assert forall|i: int| 0 <= i < writes.len() - 1 implies (#[trigger] writes.drop_last()[i]).0.valid() by {
                assert(writes.drop_last()[i] == writes[i]);
            }
        }
        lemma_replay_len(s, writes.drop_last());
        assert(writes[writes.len() - 1].0.valid());
    }
}

pub proof fn lemma_steps_push<O: Obs>(m: O::Model, edits: Seq<Edit>, e: Edit)
    ensures
        steps::<O>(m, edits.push(e)) == O::step(steps::<O>(m, edits), e),
        steps_ok::<O>(m, edits.push(e)) == (steps_ok::<O>(m, edits) && O::step_ok(steps::<O>(m, edits), e)),
    decreases edits.len(),
{
    if edits.len() > 0 {
        lemma_steps_push::<O>(O::step(m, edits[0]), edits.drop_first(), e);
        assert(edits.push(e).drop_first() =~= edits.drop_first().push(e));
        assert(edits.push(e)[0] == edits[0]);
    } else {
        assert(edits.push(e).drop_first() =~= Seq::<Edit>::empty());
        assert(edits.push(e)[0] == e);
        assert(steps::<O>(O::step(m, e), Seq::<Edit>::empty()) == O::step(m, e));
        assert(steps_ok::<O>(O::step(m, e), Seq::<Edit>::empty()));
    }
}

/// The rights to castle that a move from or to square `sq` takes away.
pub open spec fn castle_mask(sq: i8) -> u8 {
    if sq == 4 {
        6u8
    } else if sq == 0 {
        4u8
    } else if sq == 7 {
        2u8
    } else if sq == 60 {
        24u8
    } else if sq == 56 {
        16u8
    } else if sq == 63 {
        8u8
    } else {
        0u8
    }
}

/// The rights to castle that the capture of a piece of `side` on `sq` takes away.
pub open spec fn lost_rights(side: Color, sq: i8) -> u8 {
    match side {
        Color::White => if sq == 0 || sq == 7 || sq == 4 {
            castle_mask(sq)
        } else {
            0
        },
        Color::Black => if sq == 56 || sq == 63 || sq == 60 {
            castle_mask(sq)
        } else {
            0
        },
    }
}

impl BoardState {
    /// The piece that a move takes to its destination: the mover, or what a
    /// pawn reaching the last rank turns into.
    pub open spec fn moved_piece(self, m: Move) -> Option<Piece> {
        let p = self.at(m.from.0 as int).unwrap();
        if p.kind == PieceKind::Pawn && (m.to.0 < 8 || m.to.0 >= 56) {
            Some(Piece { kind: m.promotion.unwrap(), color: p.color })
        } else {
            Some(p)
        }
    }

    /// Whether the move is a pawn taking en passant.
    pub open spec fn is_ep_capture(self, m: Move) -> bool {
        self.at(m.from.0 as int).unwrap().kind == PieceKind::Pawn && self.en_passant_square == Some(m.to)
    }

    /// The square of the pawn taken en passant.
    pub open spec fn ep_victim(self, m: Move) -> int {
        if self.turn().other() == Color::White {
            m.to.0 + 8
        } else {
            m.to.0 - 8
        }
    }

    /// Which castling the move is, by its piece and squares: 1 and 2 for
    /// white's short and long castling, 3 and 4 for black's, 0 for none.
    pub open spec fn castling(self, m: Move) -> int {
        let king = self.moved_piece(m).unwrap().kind == PieceKind::King;
        if king && m.from.0 == 4 && m.to.0 == 6 {
            1
        } else if king && m.from.0 == 4 && m.to.0 == 2 {
            2
        } else if king && m.from.0 == 60 && m.to.0 == 62 {
            3
        } else if king && m.from.0 == 60 && m.to.0 == 58 {
            4
        } else {
            0
        }
    }

    /// The squares that a castling rook moves from and to.
    pub open spec fn rook_squares(kind: int) -> (int, int) {
        if kind == 1 {
            (7, 5)
        } else if kind == 2 {
            (0, 3)
        } else if kind == 3 {
            (63, 61)
        } else {
            (56, 59)
        }
    }

    /// The right that a castling needs.
    pub open spec fn castle_right(kind: int) -> u8 {
        if kind == 1 {
            WHITE_CAN_OO
        } else if kind == 2 {
            WHITE_CAN_OOO
        } else if kind == 3 {
            BLACK_CAN_OO
        } else {
            BLACK_CAN_OOO
        }
    }

    /// The writes of a move before any rook of a castling moves: lift the
    /// mover, take a pawn en passant, put down the moved piece.
    pub open spec fn base_writes(self, m: Move) -> Seq<(Square, Option<Piece>)> {
        seq![(m.from, None::<Piece>)] + (if self.is_ep_capture(m) {
            seq![(Square(self.ep_victim(m) as i8), None::<Piece>)]
        } else {
            Seq::empty()
        }) + seq![(m.to, self.moved_piece(m))]
    }

    /// All writes of a move, in the order the board makes them.
    pub open spec fn move_writes(self, m: Option<Move>) -> Seq<(Square, Option<Piece>)> {
        match m {
            None => Seq::empty(),
            Some(m) => {
                let base = self.base_writes(m);
                let c = self.castling(m);
                if c == 0 {
                    base
                } else {
                    let (rf, rt) = BoardState::rook_squares(c);
                    let rook = replay(self.squares(), base)[rf];
                    base + seq![(Square(rf as i8), None::<Piece>), (Square(rt as i8), rook)]
                }
            },
        }
    }

    /// What the observer of a move is told.
    pub open spec fn move_edits(self, m: Option<Move>) -> Seq<Edit> {
        annotate(self.squares(), self.move_writes(m))
    }

    /// Whether the board can make the move without failing.
    pub open spec fn move_ok(self, m: Option<Move>) -> bool {
        match m {
            None => true,
            Some(m) => {
                &&& m.valid()
                &&& self.at(m.from.0 as int) is Some
                &&& self.is_ep_capture(m) ==> 0 <= self.ep_victim(m) < 64
                &&& (self.at(m.from.0 as int).unwrap().kind == PieceKind::Pawn && (m.to.0 < 8 || m.to.0 >= 56)) ==> m.promotion is Some
                &&& self.castling(m) != 0 ==> {
                    let c = self.castling(m);
                    let (rf, rt) = BoardState::rook_squares(c);
                    let s3 = replay(self.squares(), self.base_writes(m));
                    &&& self.flags.has(BoardState::castle_right(c))
                    &&& s3[rf] is Some
                    &&& s3[rf].unwrap().kind == PieceKind::Rook
                    &&& s3[rt] is None
                }
            },
        }
    }

    pub open spec fn flags_after(self, m: Option<Move>) -> u8 {
        match m {
            None => self.flags.bits ^ WHITE_TO_PLAY,
            Some(m) => (self.flags.bits ^ WHITE_TO_PLAY) & !(castle_mask(m.from.0) | castle_mask(m.to.0)),
        }
    }

    pub open spec fn ep_after(self, m: Option<Move>) -> Option<Square> {
        match m {
            None => None,
            Some(m) => if self.at(m.from.0 as int).unwrap().kind == PieceKind::Pawn {
                if m.to.0 == m.from.0 - 16 {
                    Some(Square((m.from.0 - 8) as i8))
                } else if m.to.0 == m.from.0 + 16 {
                    Some(Square((m.from.0 + 8) as i8))
                } else {
                    None
                }
            } else {
                None
            },
        }
    }

    /// The square that the capture of a move reports is exactly the square
    /// whose piece of the other side the move takes off: the board before
    /// holds a piece of the other side there, and the board after does not;
    /// every other piece of the other side stays where it is. For a pawn
    /// taking en passant it is the square of the pawn taken, beside the
    /// square the pawn moves to. This holds of a move of a piece of the side
    /// to play to another square that holds no piece of its own, where a
    /// pawn taking en passant finds the en passant square empty and an enemy
    /// piece behind it, and a castling finds its own rook.
    pub proof fn lemma_capture_square(self, m: Move)
        requires
            self.wf(),
            self.move_ok(Some(m)),
            m.from != m.to,
            self.at(m.from.0 as int).unwrap().color == self.turn(),
            self.at(m.to.0 as int) is Some ==> self.at(m.to.0 as int).unwrap().color != self.turn(),
            self.is_ep_capture(m) ==> self.at(m.to.0 as int) is None && self.at(self.ep_victim(m)) is Some && self.at(
                self.ep_victim(m),
            ).unwrap().color != self.turn(),
            self.castling(m) != 0 ==> self.at(BoardState::rook_squares(self.castling(m)).0) is Some && self.at(
                BoardState::rook_squares(self.castling(m)).0,
            ).unwrap().color == self.turn(),
        ensures
            forall|q: int|
                0 <= q < 64 ==> ((enemy_on(self.squares(), q, self.turn()) && !#[trigger] enemy_on(
                    replay(self.squares(), self.move_writes(Some(m))),
                    q,
                    self.turn(),
                )) <==> (self.capture_after(Some(m)) matches Some(c) && c.0 == q)),
    {
        let s = self.squares();
        let c = self.turn();
        let from = m.from.0 as int;
        let to = m.to.0 as int;
        let mp = self.moved_piece(m);
        let e0 = Seq::<(Square, Option<Piece>)>::empty();
        let w1 = e0.push((m.from, None::<Piece>));
        lemma_replay_push(s, e0, (m.from, None::<Piece>));
        assert(replay(s, e0) == s);
        let ep = self.is_ep_capture(m);
        let v = self.ep_victim(m);
        let w2 = if ep {
            w1.push((Square(v as i8), None::<Piece>))
        } else {
            w1
        };
        if ep {
            lemma_replay_push(s, w1, (Square(v as i8), None::<Piece>));
        }
        let w3 = w2.push((m.to, mp));
        lemma_replay_push(s, w2, (m.to, mp));
        assert(self.base_writes(m) =~= w3);
        let s3 = replay(s, w3);
        assert(mp is Some && mp.unwrap().color == c);
        let k = self.castling(m);
        let after = replay(s, self.move_writes(Some(m)));
        if k == 0 {
            assert(self.move_writes(Some(m)) == w3);
        } else {
            let (rf, rt) = BoardState::rook_squares(k);
            let rook = s3[rf];
            let w4 = w3.push((Square(rf as i8), None::<Piece>));
            let w5 = w4.push((Square(rt as i8), rook));
            lemma_replay_push(s, w3, (Square(rf as i8), None::<Piece>));
            lemma_replay_push(s, w4, (Square(rt as i8), rook));
            assert(self.move_writes(Some(m)) =~= w5);
            assert(rook == s[rf]);
        }
        assert forall|q: int| 0 <= q < 64 implies ((enemy_on(s, q, c) && !#[trigger] enemy_on(
            replay(s, self.move_writes(Some(m))),
            q,
            c,
        )) <==> (self.capture_after(Some(m)) matches Some(cs) && cs.0 == q)) by {
            assert(s[q] == self.at(q));
            assert(s[from] == self.at(from));
            assert(s[to] == self.at(to));
            if ep {
                assert(s[v] == self.at(v));
            }
        }
    }

    /// After a move the other side is to play; a castling right stays
    /// exactly when it was held and the move neither starts nor ends on the
    /// king's square or that rook's corner; the en passant square is the
    /// square a pawn passed over in a double step, and none after any other
    /// move or a pass.
    pub proof fn lemma_move_flags(self, m: Option<Move>)
        requires
            self.flags.bits < 32,
        ensures
            ({
                let f = BoardFlags { bits: self.flags_after(m) };
                let touches = |q: i8| m matches Some(mv) && (mv.from.0 == q || mv.to.0 == q);
                &&& f.has(WHITE_TO_PLAY) != self.flags.has(WHITE_TO_PLAY)
                &&& f.has(WHITE_CAN_OO) == (self.flags.has(WHITE_CAN_OO) && !touches(4) && !touches(7))
                &&& f.has(WHITE_CAN_OOO) == (self.flags.has(WHITE_CAN_OOO) && !touches(4) && !touches(0))
                &&& f.has(BLACK_CAN_OO) == (self.flags.has(BLACK_CAN_OO) && !touches(60) && !touches(63))
                &&& f.has(BLACK_CAN_OOO) == (self.flags.has(BLACK_CAN_OOO) && !touches(60) && !touches(56))
            }),
            self.ep_after(m) == match m {
                Some(mv) => if self.at(mv.from.0 as int).unwrap().kind == PieceKind::Pawn && (mv.to.0 == mv.from.0
                    + 16 || mv.to.0 == mv.from.0 - 16) {
                    Some(Square(((mv.from.0 + mv.to.0) / 2) as i8))
                } else {
                    None
                },
                None => None,
            },
    {
        let x = self.flags.bits;
        match m {
            None => {
                assert((x ^ 1u8) & 1u8 == 1u8 <==> !(x & 1u8 == 1u8)) by (bit_vector);
                assert(((x ^ 1u8) & 2u8 == 2u8) == (x & 2u8 == 2u8) && ((x ^ 1u8) & 4u8 == 4u8) == (x & 4u8 == 4u8)
                    && ((x ^ 1u8) & 8u8 == 8u8) == (x & 8u8 == 8u8) && ((x ^ 1u8) & 16u8 == 16u8) == (x & 16u8
                    == 16u8)) by (bit_vector);
            },
            Some(mv) => {
                let a = castle_mask(mv.from.0);
                let b = castle_mask(mv.to.0);
                lemma_mask_table(mv.from.0);
                lemma_mask_table(mv.to.0);
                assert(mask_bits(x, a, b)) by (bit_vector)
                    requires
                        a & 1u8 == 0u8,
                        b & 1u8 == 0u8,
                ;
            },
        }
    }

    /// What a move does to the board: the from square empties; the to
    /// square gets the moving piece, or for a pawn reaching the last rank
    /// the piece it promotes to; a pawn taking en passant removes the pawn
    /// beside it; a castling brings the rook from its corner to the square
    /// the king passed over; no other square changes.
    pub proof fn lemma_move_effect(self, m: Move)
        requires
            self.wf(),
            self.move_ok(Some(m)),
            m.from != m.to,
            self.is_ep_capture(m) ==> self.ep_victim(m) != m.from.0,
        ensures
            ({
                let after = replay(self.squares(), self.move_writes(Some(m)));
                let p = self.at(m.from.0 as int).unwrap();
                &&& after[m.from.0 as int] is None
                &&& after[m.to.0 as int] == if p.kind == PieceKind::Pawn && (m.to.0 < 8 || m.to.0 >= 56) {
                    Some(Piece { kind: m.promotion.unwrap(), color: p.color })
                } else {
                    Some(p)
                }
                &&& self.is_ep_capture(m) ==> after[self.ep_victim(m)] is None
                &&& self.castling(m) == 1 ==> after[5] == self.at(7) && after[7] is None
                &&& self.castling(m) == 2 ==> after[3] == self.at(0) && after[0] is None
                &&& self.castling(m) == 3 ==> after[61] == self.at(63) && after[63] is None
                &&& self.castling(m) == 4 ==> after[59] == self.at(56) && after[56] is None
                &&& forall|q: int|
                    0 <= q < 64 && q != m.from.0 && q != m.to.0 && !(self.is_ep_capture(m) && q == self.ep_victim(m))
                        && !(self.castling(m) != 0 && castle_square(self.castling(m), q)) ==> #[trigger] after[q]
                        == self.at(q)
            }),
    {
        let s = self.squares();
        let from = m.from.0 as int;
        let to = m.to.0 as int;
        let mp = self.moved_piece(m);
        let e0 = Seq::<(Square, Option<Piece>)>::empty();
        let w1 = e0.push((m.from, None::<Piece>));
        lemma_replay_push(s, e0, (m.from, None::<Piece>));
        assert(replay(s, e0) == s);
        let ep = self.is_ep_capture(m);
        let v = self.ep_victim(m);
        let w2 = if ep {
            w1.push((Square(v as i8), None::<Piece>))
        } else {
            w1
        };
        if ep {
            lemma_replay_push(s, w1, (Square(v as i8), None::<Piece>));
        }
        let w3 = w2.push((m.to, mp));
        lemma_replay_push(s, w2, (m.to, mp));
        assert(self.base_writes(m) =~= w3);
        let s3 = replay(s, w3);
        let k = self.castling(m);
        if k == 0 {
            assert(self.move_writes(Some(m)) == w3);
        } else {
            let (rf, rt) = BoardState::rook_squares(k);
            let rook = s3[rf];
            let w4 = w3.push((Square(rf as i8), None::<Piece>));
            let w5 = w4.push((Square(rt as i8), rook));
            lemma_replay_push(s, w3, (Square(rf as i8), None::<Piece>));
            lemma_replay_push(s, w4, (Square(rt as i8), rook));
            assert(self.move_writes(Some(m)) =~= w5);
            assert(rook == s[rf]);
        }
        let after = replay(s, self.move_writes(Some(m)));
        assert(s[from] == self.at(from));
        assert(s[7] == self.at(7) && s[0] == self.at(0) && s[63] == self.at(63) && s[56] == self.at(56));
        assert forall|q: int|
            0 <= q < 64 && q != m.from.0 && q != m.to.0 && !(ep && q == v) && !(k != 0 && castle_square(k, q))
                implies #[trigger] after[q] == self.at(q) by {
            assert(s[q] == self.at(q));
        }
    }

    /// The square where the move takes a piece, if it does.
    pub open spec fn capture_after(self, m: Option<Move>) -> Option<Square> {
        match m {
            None => None,
            Some(m) => if self.is_ep_capture(m) {
                Some(Square(self.ep_victim(m) as i8))
            } else if self.at(m.to.0 as int) is Some {
                Some(m.to)
            } else {
                None
            },
        }
    }
}

} // verus!

verus! {

pub proof fn lemma_steps_ok_prefix<O: Obs>(m: O::Model, e: Seq<Edit>, k: int)
    requires
        steps_ok::<O>(m, e),
        0 <= k <= e.len(),
    ensures
        steps_ok::<O>(m, e.take(k)),
    decreases e.len(),
{
    if k < e.len() {
        let e1 = e.drop_last();
        assert(e =~= e1.push(e.last()));
        lemma_steps_push::<O>(m, e1, e.last());
        lemma_steps_ok_prefix::<O>(m, e1, k);
        assert(e1.take(k) =~= e.take(k));
    } else {
        assert(e.take(k) =~= e);
    }
}

pub proof fn lemma_annotate_prefix(s: Seq<Option<Piece>>, w: Seq<(Square, Option<Piece>)>, k: int)
    requires
        0 <= k <= w.len(),
    ensures
        annotate(s, w.take(k)) == annotate(s, w).take(k),
        annotate(s, w).len() == w.len(),
    decreases w.len(),
{
    if w.len() > 0 {
        lemma_annotate_prefix(s, w.drop_last(), if k == w.len() { k - 1 } else { k });
    }
    if k < w.len() {
        assert(w.drop_last().take(k) =~= w.take(k));
        assert(annotate(s, w).take(k) =~= annotate(s, w.drop_last()).take(k));
    } else {
        assert(w.take(k) =~= w);
        assert(annotate(s, w).take(k) =~= annotate(s, w));
    }
}

/// The `n`-th write of a sequence that an observer can take in is one it
/// can take in after the first `n`, and taking it in moves the observer on
/// by one step.
pub proof fn lemma_next_write<O: Obs>(m0: O::Model, s: Seq<Option<Piece>>, w: Seq<(Square, Option<Piece>)>, n: int)
    requires
        steps_ok::<O>(m0, annotate(s, w)),
        0 <= n < w.len(),
    ensures
        w.take(n + 1) == w.take(n).push(w[n]),
        O::step_ok(steps::<O>(m0, annotate(s, w.take(n))), (w[n].0, replay(s, w.take(n))[w[n].0.0 as int], w[n].1)),
        steps::<O>(m0, annotate(s, w.take(n + 1))) == O::step(
            steps::<O>(m0, annotate(s, w.take(n))),
            (w[n].0, replay(s, w.take(n))[w[n].0.0 as int], w[n].1),
        ),
        replay(s, w.take(n + 1)) == replay(s, w.take(n)).update(w[n].0.0 as int, w[n].1),
{
    assert(w.take(n + 1) =~= w.take(n).push(w[n]));
    lemma_annotate_prefix(s, w, n + 1);
    lemma_steps_ok_prefix::<O>(m0, annotate(s, w), n + 1);
    lemma_replay_push(s, w.take(n), w[n]);
    lemma_steps_push::<O>(m0, annotate(s, w.take(n)), (w[n].0, replay(s, w.take(n))[w[n].0.0 as int], w[n].1));
}

} // verus!

verus! {

/// Taking away the rights of the squares a move touches, one square at a
/// time, is taking away all of them at once.
pub proof fn lemma_clear_rights(x: u8, from: i8, to: i8, pre: u8)
    by (bit_vector)
    requires
        pre == 0 || (pre == 6 && from == 4) || (pre == 24 && from == 60),
    ensures
        ({
            let y0 = x & !pre;
            let y1 = if to == 4 || from == 4 { y0 & !6u8 } else { y0 };
            let y2 = if to == 0 || from == 0 { y1 & !4u8 } else { y1 };
            let y3 = if to == 7 || from == 7 { y2 & !2u8 } else { y2 };
            let y4 = if to == 60 || from == 60 { y3 & !24u8 } else { y3 };
            let y5 = if to == 56 || from == 56 { y4 & !16u8 } else { y4 };
            let y6 = if to == 63 || from == 63 { y5 & !8u8 } else { y5 };
            y6 == x & !(castle_mask(from) | castle_mask(to))
        }),
{
}

/// Rights given up by a castling are among those of the squares it moves from.
pub proof fn lemma_castle_rights_absorbed(x: u8, from: i8, to: i8, pre: u8)
    by (bit_vector)
    requires
        pre == 0 || (pre == 6 && from == 4) || (pre == 24 && from == 60),
    ensures
        (x & !pre) & !(castle_mask(from) | castle_mask(to)) == x & !(castle_mask(from) | castle_mask(to)),
{
}

/// Flipping the turn bit flips whose turn it is.
pub proof fn lemma_toggle_turn(x: u8)
    ensures
        ((x ^ 1u8) & 1u8 == 1u8) == !(x & 1u8 == 1u8),
{
    lemma_small_bits(x, 0, 0, 0, 0);
}

impl BoardState {
    /// Plays the move (`None` passes), telling `obs` of every change of a
    /// square, and returns the square where a piece was taken.
    pub fn make_move<O: Obs>(&mut self, m: Option<Move>, obs: &mut O) -> (capture_square: Option<Square>)
        requires
            old(self).wf(),
            old(self).move_ok(m),
            steps_ok::<O>(old(obs).model(), old(self).move_edits(m)),
        ensures
            final(self).wf(),
            final(self).squares() == replay(old(self).squares(), old(self).move_writes(m)),
            final(self).flags.bits == old(self).flags_after(m),
            final(self).en_passant_square == old(self).ep_after(m),
            capture_square == old(self).capture_after(m),
            final(obs).model() == steps::<O>(old(obs).model(), old(self).move_edits(m)),
    {
        let ghost b0 = *old(self);
        proof {
            lemma_toggle_turn(self.flags.bits);
        }
        self.flags.toggle(WHITE_TO_PLAY);
        let m = match m {
            Some(m) => m,
            None => {
                self.en_passant_square = None;
                return None;
            },
        };
        let mut capture_square = if self.get_piece(m.to).is_some() {
            Some(m.to)
        } else {
            None
        };
        let (ep_victim, p) = self.move_piece(m, obs, Ghost(b0));
        if let Some(v) = ep_victim {
            capture_square = Some(v);
        }
        self.castle(m, p, obs, Ghost(b0), Ghost(old(obs).model()));
        self.clear_castling_rights(m.from.0, m.to.0);
        proof {
            lemma_castle_rights_absorbed(b0.flags.bits ^ WHITE_TO_PLAY, m.from.0, m.to.0, if b0.castling(m) == 0 {
                0u8
            } else if b0.castling(m) <= 2 {
                6u8
            } else {
                24u8
            });
        }
        capture_square
    }

    /// Lifts the mover, takes a pawn en passant, and puts down the moved
    /// piece; returns the square of a pawn taken en passant, and the piece put
    /// down.
    fn move_piece<O: Obs>(&mut self, m: Move, obs: &mut O, Ghost(b0): Ghost<BoardState>) -> (r: (Option<Square>, Option<Piece>))
        requires
            b0.wf(),
            b0.move_ok(Some(m)),
            steps_ok::<O>(old(obs).model(), b0.move_edits(Some(m))),
            old(self).pieces == b0.pieces,
            old(self).en_passant_square == b0.en_passant_square,
            old(self).flags.bits == b0.flags.bits ^ WHITE_TO_PLAY,
            old(self).turn() == b0.turn().other(),
        ensures
            final(self).wf(),
            final(self).squares() == replay(b0.squares(), b0.base_writes(m)),
            final(self).flags == old(self).flags,
            final(self).en_passant_square == b0.ep_after(Some(m)),
            r.0 == (if b0.is_ep_capture(m) {
                Some(Square(b0.ep_victim(m) as i8))
            } else {
                None
            }),
            r.1 == b0.moved_piece(m),
            final(obs).model() == steps::<O>(old(obs).model(), annotate(b0.squares(), b0.base_writes(m))),
    {
        let ghost m0 = old(obs).model();
        let ghost s0 = b0.squares();
        let ghost w = b0.move_writes(Some(m));
        assert(self.squares() =~= s0);
        proof {
            assert(w.take(0) =~= Seq::<(Square, Option<Piece>)>::empty());
            assert(w[0] == (m.from, None::<Piece>));
            lemma_next_write::<O>(m0, s0, w, 0);
        }
        let mut p = self.replace_piece(m.from, None, obs);
        let ghost mut n: int = 1;
        let mut victim: Option<Square> = None;
        proof {
            assert(steps::<O>(m0, annotate(s0, w.take(0))) == m0);
            assert(replay(s0, w.take(0)) == s0);
            assert(self.squares() =~= replay(s0, w.take(n)));
        }
        let piece = p.unwrap();
        if piece.kind == PieceKind::Pawn {
            if let Some(ep) = self.en_passant_square.take() {
                if m.to == ep {
                    let cap = match self.side_to_play() {
                        Color::White => ep.0 + 8,
                        Color::Black => ep.0 - 8,
                    };
                    victim = Some(Square(cap));
                    proof {
                        assert(w[1] == (Square(cap), None::<Piece>));
                        lemma_next_write::<O>(m0, s0, w, 1);
                    }
                    self.replace_piece(Square(cap), None, obs);
                    proof {
                        n = 2;
                        assert(self.squares() =~= replay(s0, w.take(n)));
                    }
                }
            }
            if m.to.0 < 8 || m.to.0 >= 56 {
                p = Some(Piece { kind: m.promotion.unwrap(), color: piece.color });
            }
            if m.to.0 == m.from.0 - 16 {
                self.en_passant_square = Some(Square(m.from.0 - 8));
            }
            if m.to.0 == m.from.0 + 16 {
                self.en_passant_square = Some(Square(m.from.0 + 8));
            }
        } else {
            self.en_passant_square = None;
        }
        proof {
            assert(n == if b0.is_ep_capture(m) { 2int } else { 1int });
            assert(w[n] == (m.to, p));
            lemma_next_write::<O>(m0, s0, w, n);
        }
        self.replace_piece(m.to, p, obs);
        proof {
            assert(w.take(n + 1) =~= b0.base_writes(m));
            assert(self.squares() =~= replay(s0, w.take(n + 1)));
        }
        (victim, p)
    }

    /// Moves the rook when the move is a castling, and gives up the mover's
    /// castling rights.
    fn castle<O: Obs>(&mut self, m: Move, p: Option<Piece>, obs: &mut O, Ghost(b0): Ghost<BoardState>, Ghost(m0): Ghost<O::Model>)
        requires
            b0.wf(),
            b0.move_ok(Some(m)),
            p == b0.moved_piece(m),
            steps_ok::<O>(m0, b0.move_edits(Some(m))),
            old(self).wf(),
            old(self).squares() == replay(b0.squares(), b0.base_writes(m)),
            old(obs).model() == steps::<O>(m0, annotate(b0.squares(), b0.base_writes(m))),
        ensures
            final(self).wf(),
            final(self).squares() == replay(b0.squares(), b0.move_writes(Some(m))),
            final(self).en_passant_square == old(self).en_passant_square,
            final(self).flags.bits == old(self).flags.bits & !(if b0.castling(m) == 0 {
                0u8
            } else if b0.castling(m) <= 2 {
                6u8
            } else {
                24u8
            }),
            final(obs).model() == steps::<O>(m0, b0.move_edits(Some(m))),
    {
        proof {
            lemma_small_bits(self.flags.bits, 0, 0, 0, 0);
        }
        let ghost w = b0.move_writes(Some(m));
        let ghost n = b0.base_writes(m).len() as int;
        assert(w.take(n) =~= b0.base_writes(m));
        let king = p.unwrap().kind == PieceKind::King;
        if king && m.from.0 == 4 && m.to.0 == 6 {
            self.flags.remove(WHITE_CAN_OO | WHITE_CAN_OOO);
            assert(self.squares() =~= old(self).squares());
            self.castle_rook(Square(7), Square(5), obs, Ghost(m0), Ghost(b0.squares()), Ghost(w), Ghost(n));
        } else if king && m.from.0 == 4 && m.to.0 == 2 {
            self.flags.remove(WHITE_CAN_OO | WHITE_CAN_OOO);
            assert(self.squares() =~= old(self).squares());
            self.castle_rook(Square(0), Square(3), obs, Ghost(m0), Ghost(b0.squares()), Ghost(w), Ghost(n));
        } else if king && m.from.0 == 60 && m.to.0 == 62 {
            self.flags.remove(BLACK_CAN_OO | BLACK_CAN_OOO);
            assert(self.squares() =~= old(self).squares());
            self.castle_rook(Square(63), Square(61), obs, Ghost(m0), Ghost(b0.squares()), Ghost(w), Ghost(n));
        } else if king && m.from.0 == 60 && m.to.0 == 58 {
            self.flags.remove(BLACK_CAN_OO | BLACK_CAN_OOO);
            assert(self.squares() =~= old(self).squares());
            self.castle_rook(Square(56), Square(59), obs, Ghost(m0), Ghost(b0.squares()), Ghost(w), Ghost(n));
        } else {
            assert(w.take(n) =~= w);
        }
    }

    /// Takes away the castling rights of the squares `from` and `to`.
    fn clear_castling_rights(&mut self, from: i8, to: i8)
        ensures
            final(self).pieces == old(self).pieces,
            final(self).en_passant_square == old(self).en_passant_square,
            final(self).flags.bits == old(self).flags.bits & !(castle_mask(from) | castle_mask(to)),
    {
        proof {
            lemma_small_bits(self.flags.bits, 0, 0, 0, 0);
            lemma_clear_rights(self.flags.bits, from, to, 0);
        }
        if to == 4 || from == 4 {
            self.flags.remove(WHITE_CAN_OO | WHITE_CAN_OOO);
        }
        if to == 0 || from == 0 {
            self.flags.remove(WHITE_CAN_OOO);
        }
        if to == 7 || from == 7 {
            self.flags.remove(WHITE_CAN_OO);
        }
        if to == 60 || from == 60 {
            self.flags.remove(BLACK_CAN_OO | BLACK_CAN_OOO);
        }
        if to == 56 || from == 56 {
            self.flags.remove(BLACK_CAN_OOO);
        }
        if to == 63 || from == 63 {
            self.flags.remove(BLACK_CAN_OO);
        }
    }

    /// Moves the rook of a castling from `rf` to `rt`.
    fn castle_rook<O: Obs>(
        &mut self,
        rf: Square,
        rt: Square,
        obs: &mut O,
        Ghost(m0): Ghost<O::Model>,
        Ghost(s0): Ghost<Seq<Option<Piece>>>,
        Ghost(w): Ghost<Seq<(Square, Option<Piece>)>>,
        Ghost(n): Ghost<int>,
    )
        requires
            0 <= n,
            old(self).wf(),
            rf.valid(),
            rt.valid(),
            rf != rt,
            n + 2 == w.len(),
            w[n] == (rf, None::<Piece>),
            w[n + 1] == (rt, replay(s0, w.take(n))[rf.0 as int]),
            old(self).squares() == replay(s0, w.take(n)),
            old(self).at(rt.0 as int) is None,
            old(obs).model() == steps::<O>(m0, annotate(s0, w.take(n))),
            steps_ok::<O>(m0, annotate(s0, w)),
        ensures
            final(self).wf(),
            final(self).squares() == replay(s0, w),
            final(self).flags == old(self).flags,
            final(self).en_passant_square == old(self).en_passant_square,
            final(obs).model() == steps::<O>(m0, annotate(s0, w)),
    {
        proof {
            lemma_next_write::<O>(m0, s0, w, n);
        }
        let rook = self.replace_piece(rf, None, obs);
        proof {
            lemma_next_write::<O>(m0, s0, w, n + 1);
            assert(w.take(n + 2) =~= w);
        }
        let e = self.replace_piece(rt, rook, obs);
    }
}

} // verus!

verus! {

pub proof fn lemma_lost_rights(x: u8, p: i8, white: bool)
    by (bit_vector)
    ensures
        white ==> ({
            let y1 = if p == 0 { x & !4u8 } else { x };
            let y2 = if p == 7 { y1 & !2u8 } else { y1 };
            let y3 = if p == 4 { y2 & !6u8 } else { y2 };
            y3 == x & !lost_rights(Color::White, p)
        }),
        !white ==> ({
            let y1 = if p == 56 { x & !16u8 } else { x };
            let y2 = if p == 63 { y1 & !8u8 } else { y1 };
            let y3 = if p == 60 { y2 & !24u8 } else { y2 };
            y3 == x & !lost_rights(Color::Black, p)
        }),
{
}

impl BoardState {
    /// Plays the opponent's unseen move on a board that shows only one's own
    /// pieces: the turn passes, and a piece taken on `capture_square` goes,
    /// with the castling rights it held.
    pub fn make_move_under_fog(&mut self, capture_square: Option<Square>)
        requires
            old(self).wf(),
            match capture_square {
                None => true,
                Some(sq) => sq.valid() && old(self).at(sq.0 as int) is Some && old(self).at(sq.0 as int).unwrap().color
                    == old(self).turn().other(),
            },
        ensures
            final(self).wf(),
            final(self).en_passant_square == old(self).en_passant_square,
            match capture_square {
                None => {
                    &&& final(self).squares() == old(self).squares()
                    &&& final(self).flags.bits == old(self).flags.bits ^ WHITE_TO_PLAY
                },
                Some(sq) => {
                    &&& final(self).squares() == old(self).squares().update(sq.0 as int, None)
                    &&& final(self).flags.bits == (old(self).flags.bits ^ WHITE_TO_PLAY) & !lost_rights(
                        old(self).turn().other(),
                        sq.0,
                    )
                },
            },
    {
        proof {
            lemma_toggle_turn(self.flags.bits);
            lemma_small_bits(self.flags.bits, 0, 0, 0, 0);
        }
        self.flags.toggle(WHITE_TO_PLAY);
        assert(self.squares() =~= old(self).squares());
        if capture_square.is_some() {
            let p = capture_square.unwrap().0;
            proof {
                lemma_lost_rights(self.flags.bits, p, self.turn() == Color::White);
            }
            match self.side_to_play() {
                Color::White => {
                    if p == 0 {
                        self.flags.remove(WHITE_CAN_OOO);
                    }
                    if p == 7 {
                        self.flags.remove(WHITE_CAN_OO);
                    }
                    if p == 4 {
                        self.flags.remove(WHITE_CAN_OO | WHITE_CAN_OOO);
                    }
                },
                Color::Black => {
                    if p == 56 {
                        self.flags.remove(BLACK_CAN_OOO);
                    }
                    if p == 63 {
                        self.flags.remove(BLACK_CAN_OO);
                    }
                    if p == 60 {
                        self.flags.remove(BLACK_CAN_OO | BLACK_CAN_OOO);
                    }
                },
            }
            assert(self.squares() =~= old(self).squares());
            let mut null = NullObs;
            let taken = self.replace_piece(Square(p), None, &mut null);
        }
    }
}

} // verus!

verus! {

/// The sign of `x`: -1, 0 or 1.
pub open spec fn sign(x: int) -> int {
    if x > 0 {
        1
    } else if x < 0 {
        -1
    } else {
        0
    }
}

/// Walking from rank `r`, file `f` in steps of `(dr, df)`, at most `fuel`
/// steps: the first square reached that is `target` or holds a piece. The
/// square is computed as `8 * rank + file`, as the walk does; `None` if the
/// walk leaves the squares 0 to 63 first.
pub open spec fn walk_stop(b: BoardState, r: int, f: int, dr: int, df: int, target: int, fuel: nat) -> Option<int>
    decreases fuel,
{
    if fuel == 0 {
        None
    } else {
        let i = (r + dr) * 8 + f + df;
        if !(0 <= i < 64) {
            None
        } else if i == target || b.at(i) is Some {
            Some(i)
        } else {
            walk_stop(b, r + dr, f + df, dr, df, target, (fuel - 1) as nat)
        }
    }
}

/// The square `8 * rank + file` of `n` steps of `(dr, df)` from rank `r`,
/// file `f`.
pub open spec fn step_square(r: int, f: int, dr: int, df: int, n: nat) -> int {
    ray_end(r, f, dr, df, n).0 * 8 + ray_end(r, f, dr, df, n).1
}

/// A walk stops `n` steps out, on the target or on a piece, every square
/// before it on the board and empty.
proof fn lemma_walk_stop_first(b: BoardState, r: int, f: int, dr: int, df: int, target: int, fuel: nat)
    ensures
        walk_stop(b, r, f, dr, df, target, fuel) matches Some(i) ==> exists|n: nat|
            #![trigger step_square(r, f, dr, df, n)]
            1 <= n && step_square(r, f, dr, df, n) == i && 0 <= i < 64 && (i == target || b.at(i) is Some) && forall|
                k: nat,
            | 1 <= k < n ==> 0 <= #[trigger] step_square(r, f, dr, df, k) < 64 && b.at(step_square(r, f, dr, df, k)) is None,
    decreases fuel,
{
    if fuel > 0 {
        let i1 = (r + dr) * 8 + f + df;
        assert(step_square(r, f, dr, df, 1) == i1) by {
            assert(ray_end(r, f, dr, df, 0) == (r, f));
        }
        if 0 <= i1 < 64 && !(i1 == target || b.at(i1) is Some) {
            lemma_walk_stop_first(b, r + dr, f + df, dr, df, target, (fuel - 1) as nat);
            if walk_stop(b, r, f, dr, df, target, fuel) is Some {
                let i = walk_stop(b, r, f, dr, df, target, fuel).unwrap();
                let n0 = choose|n: nat|
                    #![trigger step_square(r + dr, f + df, dr, df, n)]
                    1 <= n && step_square(r + dr, f + df, dr, df, n) == i && 0 <= i < 64 && (i == target || b.at(i) is Some)
                        && forall|k: nat|
                        1 <= k < n ==> 0 <= #[trigger] step_square(r + dr, f + df, dr, df, k) < 64 && b.at(
                            step_square(r + dr, f + df, dr, df, k),
                        ) is None;
                assert forall|k: nat| 1 <= k <= n0 + 1 implies #[trigger] step_square(r, f, dr, df, k) == step_square(
                    r + dr,
                    f + df,
                    dr,
                    df,
                    (k - 1) as nat,
                ) by {
                    lemma_ray_closed(r, f, dr, df, k);
                    lemma_ray_closed(r + dr, f + df, dr, df, (k - 1) as nat);
                    assert(r + k * dr == r + dr + (k - 1) * dr) by (nonlinear_arith);
                    assert(f + k * df == f + df + (k - 1) * df) by (nonlinear_arith);
                }
                assert(step_square(r, f, dr, df, n0 + 1) == i);
                assert forall|k: nat| 1 <= k < n0 + 1 implies 0 <= #[trigger] step_square(r, f, dr, df, k) < 64 && b.at(
                    step_square(r, f, dr, df, k),
                ) is None by {
                    if k > 1 {
                        assert(step_square(r, f, dr, df, k) == step_square(r + dr, f + df, dr, df, (k - 1) as nat));
                    }
                }
            }
        }
    }
}

impl BoardState {
    /// A bishop, rook or queen asked to move stops on the first piece in
    /// its way towards the square asked for, or on that square: the square
    /// it is taken to lies some steps out along the direction of the
    /// request, and every square before it on the way is empty.
    pub proof fn lemma_slide_stops_first(self, m: Move)
        requires
            self.at(m.from.0 as int) is Some,
            self.at(m.from.0 as int).unwrap().kind == PieceKind::Bishop || self.at(m.from.0 as int).unwrap().kind
                == PieceKind::Rook || self.at(m.from.0 as int).unwrap().kind == PieceKind::Queen,
            self.slide_stop(m) is Some,
        ensures
            ({
                let t = self.taken(m).unwrap().to.0 as int;
                let r = m.from.rank();
                let f = m.from.file();
                let dr = sign(m.to.rank() - m.from.rank());
                let df = sign(m.to.file() - m.from.file());
                &&& self.taken(m) is Some
                &&& self.taken(m).unwrap().from == m.from
                &&& t == m.to.0 || self.at(t) is Some
                &&& exists|n: nat|
                    #![trigger step_square(r, f, dr, df, n)]
                    1 <= n && step_square(r, f, dr, df, n) == t && forall|k: nat|
                        1 <= k < n ==> 0 <= #[trigger] step_square(r, f, dr, df, k) < 64 && self.at(
                            step_square(r, f, dr, df, k),
                        ) is None
            }),
    {
        let (fr, ff, tr, tf) = (m.from.rank(), m.from.file(), m.to.rank(), m.to.file());
        let (dr, df) = (sign(tr - fr), sign(tf - ff));
        lemma_walk_stop_first(self, fr, ff, dr, df, m.to.0 as int, 64);
        let i = self.slide_stop(m).unwrap();
        assert(0 <= i < 64);
        assert(self.taken(m) == Some(Move { from: m.from, to: Square(i as i8), promotion: None }));
        let t = self.taken(m).unwrap().to.0 as int;
        assert(t == i);
        let n = choose|n: nat|
            #![trigger step_square(fr, ff, dr, df, n)]
            1 <= n && step_square(fr, ff, dr, df, n) == i && 0 <= i < 64 && (i == m.to.0 || self.at(i) is Some) && forall|
                k: nat,
            | 1 <= k < n ==> 0 <= #[trigger] step_square(fr, ff, dr, df, k) < 64 && self.at(step_square(fr, ff, dr, df, k))
                is None;
        assert(step_square(fr, ff, dr, df, n) == t);
    }

    /// The direction and stop of a sliding piece's requested move.
    pub open spec fn slide_stop(self, m: Move) -> Option<int> {
        let (fr, ff, tr, tf) = (m.from.rank(), m.from.file(), m.to.rank(), m.to.file());
        walk_stop(self, fr, ff, sign(tr - fr), sign(tf - ff), m.to.0 as int, 64)
    }

    /// Whether turning the requested move into the move taken can be done
    /// without failing.
    pub open spec fn taken_ok(self, m: Move) -> bool {
        let from = m.from.0 as int;
        let to = m.to.0 as int;
        &&& m.valid()
        &&& self.at(from) is Some
        &&& self.at(from).unwrap().color == self.turn()
        &&& match self.at(from).unwrap().kind {
            PieceKind::Bishop | PieceKind::Rook | PieceKind::Queen => self.slide_stop(m) is Some,
            PieceKind::King => (to == from - 2 && self.at(from - 1) is None && self.at(from - 2) is None) ==> from >= 3,
            _ => true,
        }
    }

    /// The move that a requested move becomes on this board: a pawn that
    /// cannot go ahead or take does not move, a pawn reaching the last rank
    /// becomes a queen unless told otherwise, a double step stops before a
    /// piece, castling needs empty squares, and a sliding piece stops at the
    /// first piece in its way.
    pub open spec fn taken(self, m: Move) -> Option<Move> {
        let p = self.at(m.from.0 as int).unwrap();
        let from = m.from.0 as int;
        let to = m.to.0 as int;
        let dr: int = if self.turn() == Color::White { 1 } else { -1 };
        let promoted = Move { from: m.from, to: m.to, promotion: Some(m.promotion.unwrap_or(PieceKind::Queen)) };
        match p.kind {
            PieceKind::Pawn => if to == from + 8 * dr {
                if self.at(to) is None {
                    if to < 8 || to >= 56 {
                        Some(promoted)
                    } else {
                        Some(m)
                    }
                } else {
                    None
                }
            } else if to == from + 16 * dr {
                if self.at(from + 8 * dr) is Some {
                    None
                } else if self.at(to) is Some {
                    Some(Move { from: m.from, to: Square((from + 8 * dr) as i8), promotion: None })
                } else {
                    Some(m)
                }
            } else if self.en_passant_square == Some(m.to) {
                Some(m)
            } else if self.at(to) is Some {
                if to < 8 || to >= 56 {
                    Some(promoted)
                } else {
                    Some(m)
                }
            } else {
                None
            },
            PieceKind::Knight => Some(m),
            PieceKind::King => if to == from - 2 {
                if self.at(from - 1) is None && self.at(from - 2) is None && self.at(from - 3) is None {
                    Some(m)
                } else {
                    None
                }
            } else if to == from + 2 {
                if self.at(from + 1) is None && self.at(from + 2) is None {
                    Some(m)
                } else {
                    None
                }
            } else {
                Some(m)
            },
            _ => Some(Move { from: m.from, to: Square(self.slide_stop(m).unwrap() as i8), promotion: None }),
        }
    }

    /// A pawn on its home rank asked for a double step, with the square
    /// ahead free but a piece on the target square, steps one square ahead.
    pub proof fn lemma_blocked_double_step(self, m: Move, dr: int)
        requires
            dr == if self.turn() == Color::White { 1int } else { -1int },
            self.at(m.from.0 as int) == Some(Piece { kind: PieceKind::Pawn, color: self.turn() }),
            m.to.0 == m.from.0 + 16 * dr,
            self.at(m.from.0 + 8 * dr) is None,
            self.at(m.to.0 as int) is Some,
        ensures
            self.taken(m) == Some(Move { from: m.from, to: Square((m.from.0 + 8 * dr) as i8), promotion: None }),
    {
    }

    /// How requests of the other pieces are taken: a knight always goes
    /// where asked; a king's castling goes ahead exactly when the squares
    /// between it and its rook's side are empty; a pawn's diagonal step goes
    /// ahead exactly when it takes a piece or reaches the en passant square;
    /// and a pawn that steps or takes onto the last rank always promotes, to
    /// a queen unless told otherwise.
    pub proof fn lemma_request_kinds(self, m: Move, dr: int)
        requires
            dr == if self.turn() == Color::White { 1int } else { -1int },
            self.at(m.from.0 as int) is Some,
        ensures
            self.at(m.from.0 as int).unwrap().kind == PieceKind::Knight ==> self.taken(m) == Some(m),
            self.at(m.from.0 as int).unwrap().kind == PieceKind::King && m.to.0 == m.from.0 + 2 ==> (self.taken(m)
                == if self.at(m.from.0 + 1) is None && self.at(m.from.0 + 2) is None {
                Some(m)
            } else {
                None
            }),
            self.at(m.from.0 as int).unwrap().kind == PieceKind::King && m.to.0 == m.from.0 - 2 ==> (self.taken(m)
                == if self.at(m.from.0 - 1) is None && self.at(m.from.0 - 2) is None && self.at(m.from.0 - 3) is None {
                Some(m)
            } else {
                None
            }),
            self.at(m.from.0 as int).unwrap().kind == PieceKind::Pawn && (m.to.0 == m.from.0 + 8 * dr - 1 || m.to.0
                == m.from.0 + 8 * dr + 1) ==> (self.taken(m) is Some <==> (self.at(m.to.0 as int) is Some
                || self.en_passant_square == Some(m.to))),
            self.at(m.from.0 as int).unwrap().kind == PieceKind::Pawn && self.taken(m) is Some && (self.taken(
                m,
            ).unwrap().to.0 < 8 || self.taken(m).unwrap().to.0 >= 56) && self.en_passant_square != Some(m.to)
                && m.to.0 != m.from.0 + 16 * dr ==> self.taken(m).unwrap().promotion == Some(m.promotion.unwrap_or(PieceKind::Queen)),
    {
    }

    /// A request is never turned into a pass where the piece can set out: a
    /// pawn's step or double step whose first square is free, and any move of
    /// a knight, bishop, rook or queen, or of a king other than castling, is
    /// taken as a move of that piece from its square; a pawn then lands on the
    /// square ahead or on the square asked for.
    pub proof fn lemma_request_not_passed(self, m: Move, dr: int)
        requires
            dr == if self.turn() == Color::White { 1int } else { -1int },
            self.at(m.from.0 as int) is Some,
            self.at(m.from.0 as int).unwrap().color == self.turn(),
            match self.at(m.from.0 as int).unwrap().kind {
                PieceKind::Pawn => (m.to.0 == m.from.0 + 8 * dr || m.to.0 == m.from.0 + 16 * dr) && self.at(
                    m.from.0 + 8 * dr,
                ) is None,
                PieceKind::King => m.to.0 != m.from.0 - 2 && m.to.0 != m.from.0 + 2,
                _ => true,
            },
        ensures
            self.taken(m) is Some,
            self.taken(m).unwrap().from == m.from,
            self.at(m.from.0 as int).unwrap().kind == PieceKind::Pawn ==> self.taken(m).unwrap().to.0 == m.from.0 + 8
                * dr || self.taken(m).unwrap().to == m.to,
    {
    }

    /// The move actually made when `m` is requested.
    pub fn requested_to_taken(&self, m: Move) -> (r: Option<Move>)
        requires
            self.wf(),
            self.taken_ok(m),
        ensures
            r == self.taken(m),
    {
        let p = self.get_piece(m.from).unwrap();
        match p.kind {
            PieceKind::Pawn => {
                let dr: i8 = match self.side_to_play() {
                    Color::White => 1,
                    Color::Black => -1,
                };
                if m.to.0 == m.from.0 + 8 * dr {
                    if self.get_piece(m.to).is_none() {
                        if m.to.0 < 8 || m.to.0 >= 56 {
                            Some(Move { from: m.from, to: m.to, promotion: Some(m.promotion.unwrap_or(PieceKind::Queen)) })
                        } else {
                            Some(m)
                        }
                    } else {
                        None
                    }
                } else if m.to.0 == m.from.0 + 16 * dr {
                    if self.get_piece(Square(m.from.0 + 8 * dr)).is_some() {
                        None
                    } else if self.get_piece(m.to).is_some() {
                        Some(Move { from: m.from, to: Square(m.from.0 + 8 * dr), promotion: None })
                    } else {
                        Some(m)
                    }
                } else if self.en_passant_square == Some(m.to) {
                    Some(m)
                } else if self.get_piece(m.to).is_some() {
                    if m.to.0 < 8 || m.to.0 >= 56 {
                        Some(Move { from: m.from, to: m.to, promotion: Some(m.promotion.unwrap_or(PieceKind::Queen)) })
                    } else {
                        Some(m)
                    }
                } else {
                    None
                }
            },
            PieceKind::Knight => Some(m),
            PieceKind::King => {
                if m.to.0 == m.from.0 - 2 {
                    if self.get_piece(Square(m.from.0 - 1)).is_none() && self.get_piece(Square(m.from.0 - 2)).is_none()
                        && self.get_piece(Square(m.from.0 - 3)).is_none() {
                        Some(m)
                    } else {
                        None
                    }
                } else if m.to.0 == m.from.0 + 2 {
                    if self.get_piece(Square(m.from.0 + 1)).is_none() && self.get_piece(Square(m.from.0 + 2)).is_none() {
                        Some(m)
                    } else {
                        None
                    }
                } else {
                    Some(m)
                }
            },
            _ => {
                let mut r = m.from.0 / 8;
                let mut f = m.from.0 % 8;
                let dr = signum(m.to.0 / 8 - r);
                let df = signum(m.to.0 % 8 - f);
                let ghost stop = self.slide_stop(m).unwrap();
                let mut fuel: u32 = 64;
                let mut to = m.from;
                loop
                    invariant_except_break
                        self.wf(),
                        0 < fuel <= 64,
                        -1 <= dr <= 1,
                        -1 <= df <= 1,
                        m.from.rank() - (64 - fuel) <= r <= m.from.rank() + (64 - fuel),
                        m.from.file() - (64 - fuel) <= f <= m.from.file() + (64 - fuel),
                        m.from.valid(),
                        walk_stop(*self, r as int, f as int, dr as int, df as int, m.to.0 as int, fuel as nat) == Some(stop),
                    ensures
                        to.0 == stop,
                    decreases fuel,
                {
                    r = r + dr;
                    f = f + df;
                    let t = Square(r * 8 + f);
                    if t == m.to || self.get_piece(t).is_some() {
                        to = t;
                        break;
                    }
                    fuel = fuel - 1;
                }
                Some(Move { from: m.from, to, promotion: None })
            },
        }
    }
}

/// The sign of `x`.
pub fn signum(x: i8) -> (s: i8)
    ensures
        s == sign(x as int),
{
    if x > 0 {
        1
    } else if x < 0 {
        -1
    } else {
        0
    }
}

} // verus!

verus! {

pub open spec fn in_board(r: int, f: int) -> bool {
    0 <= r < 8 && 0 <= f < 8
}

pub open spec fn sq_of(r: int, f: int) -> Square {
    Square((r * 8 + f) as i8)
}

/// The square `n` steps from rank `r`, file `f` in direction `(dr, df)`.
pub open spec fn ray_end(r: int, f: int, dr: int, df: int, n: nat) -> (int, int)
    decreases n,
{
    if n == 0 {
        (r, f)
    } else {
        let (a, b) = ray_end(r, f, dr, df, (n - 1) as nat);
        (a + dr, b + df)
    }
}

/// The first `n` squares in direction `(dr, df)` from rank `r`, file `f`
/// are on the board and empty.
pub open spec fn ray_ok(b: BoardState, r: int, f: int, dr: int, df: int, n: nat) -> bool
    decreases n,
{
    if n == 0 {
        true
    } else {
        let (a, c) = ray_end(r, f, dr, df, n);
        ray_ok(b, r, f, dr, df, (n - 1) as nat) && in_board(a, c) && b.at(a * 8 + c) is None
    }
}

pub proof fn lemma_ray_ok_prefix(b: BoardState, r: int, f: int, dr: int, df: int, n: nat, j: nat)
    requires
        ray_ok(b, r, f, dr, df, n),
        j <= n,
    ensures
        ray_ok(b, r, f, dr, df, j),
    decreases n,
{
    if j < n {
        lemma_ray_ok_prefix(b, r, f, dr, df, (n - 1) as nat, j);
    }
}

/// The promotions a pawn move to the last rank may ask for, or only none.
pub open spec fn promotion_choices(promote: bool) -> Set<Option<PieceKind>> {
    if promote {
        set![Some(PieceKind::Knight), Some(PieceKind::Bishop), Some(PieceKind::Rook), Some(PieceKind::Queen), None]
    } else {
        set![None]
    }
}

pub open spec fn bishop_dirs() -> Seq<(i8, i8)> {
    seq![(-1i8, -1i8), (-1i8, 1i8), (1i8, -1i8), (1i8, 1i8)]
}

pub open spec fn rook_dirs() -> Seq<(i8, i8)> {
    seq![(-1i8, 0i8), (0i8, -1i8), (0i8, 1i8), (1i8, 0i8)]
}

pub open spec fn queen_dirs() -> Seq<(i8, i8)> {
    seq![(-1i8, -1i8), (-1i8, 0i8), (-1i8, 1i8), (0i8, -1i8), (0i8, 1i8), (1i8, -1i8), (1i8, 0i8), (1i8, 1i8)]
}

pub open spec fn knight_deltas() -> Seq<(i8, i8)> {
    seq![(-2i8, -1i8), (-2i8, 1i8), (-1i8, -2i8), (-1i8, 2i8), (1i8, -2i8), (1i8, 2i8), (2i8, -1i8), (2i8, 1i8)]
}

/// The shape of a knight's leap: two ranks and one file, or one rank and
/// two files.
pub open spec fn knight_shape(dr: int, df: int) -> bool {
    ((dr == 1 || dr == -1) && (df == 2 || df == -2)) || ((dr == 2 || dr == -2) && (df == 1 || df == -1))
}

/// The shape of a king's step: to a neighbouring square.
pub open spec fn king_shape(dr: int, df: int) -> bool {
    -1 <= dr <= 1 && -1 <= df <= 1 && (dr != 0 || df != 0)
}

impl BoardState {
    /// The step `(dr, df)` moves to the square those ranks and files away.
    proof fn lemma_step_square(self, m: Move, dr: int, df: int)
        requires
            m.from.valid(),
            self.step_to(m, dr, df),
        ensures
            m.to.valid(),
            m.to.rank() == m.from.rank() + dr,
            m.to.file() == m.from.file() + df,
    {
        let v = (m.from.rank() + dr) * 8 + m.from.file() + df;
        assert(0 <= v < 64);
        assert(m.to.0 as int == v);
    }

    /// A move to square `m.to` is the step `(dr, df)` where those are the
    /// rank and file differences.
    proof fn lemma_square_step(self, m: Move)
        requires
            m.from.valid(),
            m.to.valid(),
            m.promotion is None,
            self.at(m.to.0 as int) is None,
        ensures
            self.step_to(m, m.to.rank() - m.from.rank(), m.to.file() - m.from.file()),
    {
        vstd::arithmetic::div_mod::lemma_fundamental_div_mod(m.to.0 as int, 8);
        let v = m.to.rank() * 8 + m.to.file();
        assert(v == m.to.0 as int);
        assert(sq_of(m.to.rank(), m.to.file()) == m.to);
    }

    /// A knight's request worth trying is exactly a leap of two ranks and
    /// one file, or one rank and two files, to an empty square of the board.
    pub proof fn lemma_knight_requests(self, m: Move)
        requires
            m.from.valid(),
        ensures
            self.sensible_step(m, knight_deltas()) <==> (m.promotion is None && m.to.valid() && knight_shape(
                m.to.rank() - m.from.rank(),
                m.to.file() - m.from.file(),
            ) && self.at(m.to.0 as int) is None),
    {
        let k = knight_deltas();
        assert forall|d: int| 0 <= d < 8 implies knight_shape(#[trigger] k[d].0 as int, k[d].1 as int) by {
            assert(k[0] == (-2i8, -1i8) && k[1] == (-2i8, 1i8) && k[2] == (-1i8, -2i8) && k[3] == (-1i8, 2i8));
            assert(k[4] == (1i8, -2i8) && k[5] == (1i8, 2i8) && k[6] == (2i8, -1i8) && k[7] == (2i8, 1i8));
        }
        if self.sensible_step(m, k) {
            let d = choose|d: int| 0 <= d < 8 && d < k.len() && #[trigger] self.step_to(m, k[d].0 as int, k[d].1 as int);
            self.lemma_step_square(m, k[d].0 as int, k[d].1 as int);
        }
        if m.promotion is None && m.to.valid() && knight_shape(m.to.rank() - m.from.rank(), m.to.file() - m.from.file())
            && self.at(m.to.0 as int) is None {
            let dr = m.to.rank() - m.from.rank();
            let df = m.to.file() - m.from.file();
            self.lemma_square_step(m);
            let d: int = if dr == -2 && df == -1 {
                0
            } else if dr == -2 && df == 1 {
                1
            } else if dr == -1 && df == -2 {
                2
            } else if dr == -1 && df == 2 {
                3
            } else if dr == 1 && df == -2 {
                4
            } else if dr == 1 && df == 2 {
                5
            } else if dr == 2 && df == -1 {
                6
            } else {
                7
            };
            assert(k[0] == (-2i8, -1i8) && k[1] == (-2i8, 1i8) && k[2] == (-1i8, -2i8) && k[3] == (-1i8, 2i8));
            assert(k[4] == (1i8, -2i8) && k[5] == (1i8, 2i8) && k[6] == (2i8, -1i8) && k[7] == (2i8, 1i8));
            assert(k[d].0 as int == dr && k[d].1 as int == df);
            assert(self.step_to(m, k[d].0 as int, k[d].1 as int));
        }
    }

    /// A king's request worth trying, other than castling, is exactly a
    /// step to a neighbouring empty square of the board.
    pub proof fn lemma_king_requests(self, m: Move)
        requires
            m.from.valid(),
        ensures
            self.sensible_step(m, queen_dirs()) <==> (m.promotion is None && m.to.valid() && king_shape(
                m.to.rank() - m.from.rank(),
                m.to.file() - m.from.file(),
            ) && self.at(m.to.0 as int) is None),
    {
        let k = queen_dirs();
        assert forall|d: int| 0 <= d < 8 implies king_shape(#[trigger] k[d].0 as int, k[d].1 as int) by {
            assert(k[0] == (-1i8, -1i8) && k[1] == (-1i8, 0i8) && k[2] == (-1i8, 1i8) && k[3] == (0i8, -1i8));
            assert(k[4] == (0i8, 1i8) && k[5] == (1i8, -1i8) && k[6] == (1i8, 0i8) && k[7] == (1i8, 1i8));
        }
        if self.sensible_step(m, k) {
            let d = choose|d: int| 0 <= d < 8 && d < k.len() && #[trigger] self.step_to(m, k[d].0 as int, k[d].1 as int);
            self.lemma_step_square(m, k[d].0 as int, k[d].1 as int);
        }
        if m.promotion is None && m.to.valid() && king_shape(m.to.rank() - m.from.rank(), m.to.file() - m.from.file())
            && self.at(m.to.0 as int) is None {
            let dr = m.to.rank() - m.from.rank();
            let df = m.to.file() - m.from.file();
            self.lemma_square_step(m);
            let d: int = if dr == -1 && df == -1 {
                0
            } else if dr == -1 && df == 0 {
                1
            } else if dr == -1 && df == 1 {
                2
            } else if dr == 0 && df == -1 {
                3
            } else if dr == 0 && df == 1 {
                4
            } else if dr == 1 && df == -1 {
                5
            } else if dr == 1 && df == 0 {
                6
            } else {
                7
            };
            assert(k[0] == (-1i8, -1i8) && k[1] == (-1i8, 0i8) && k[2] == (-1i8, 1i8) && k[3] == (0i8, -1i8));
            assert(k[4] == (0i8, 1i8) && k[5] == (1i8, -1i8) && k[6] == (1i8, 0i8) && k[7] == (1i8, 1i8));
            assert(k[d].0 as int == dr && k[d].1 as int == df);
            assert(self.step_to(m, k[d].0 as int, k[d].1 as int));
        }
    }
}

impl BoardState {
    /// A requested pawn move worth trying: a step ahead to an empty square,
    /// a double step from the home rank over empty squares, or a step
    /// diagonally ahead to an empty square (where an unseen piece may be).
    pub open spec fn sensible_pawn_move(self, m: Move) -> bool {
        let from = m.from.0 as int;
        let (rank, file) = (from / 8, from % 8);
        let white = self.turn() == Color::White;
        let dr: int = if white { 1 } else { -1 };
        let home: int = if white { 1 } else { 6 };
        let last: int = if white { 6 } else { 1 };
        let ahead = from + 8 * dr;
        ||| self.at(ahead) is None && m.to.0 == ahead && promotion_choices(rank == last).contains(m.promotion)
        ||| self.at(ahead) is None && rank == home && self.at(from + 16 * dr) is None && m.to.0 == from + 16 * dr
            && m.promotion is None
        ||| self.pawn_diagonal(m, -1)
        ||| self.pawn_diagonal(m, 1)
    }

    /// A pawn's step diagonally ahead, to the side `df`, to an empty square.
    pub open spec fn pawn_diagonal(self, m: Move, df: int) -> bool {
        let from = m.from.0 as int;
        let (rank, file) = (from / 8, from % 8);
        let dr: int = if self.turn() == Color::White { 1 } else { -1 };
        &&& 0 <= file + df < 8
        &&& m.to.0 == (rank + dr) * 8 + file + df
        &&& self.at((rank + dr) * 8 + file + df) is None
        &&& promotion_choices(rank + dr == 0 || rank + dr == 7).contains(m.promotion)
    }

    /// A move of a sliding piece in direction `(dr, df)` over empty squares.
    pub open spec fn dir_reach(self, m: Move, dr: int, df: int) -> bool {
        let r = m.from.rank();
        let f = m.from.file();
        &&& m.promotion is None
        &&& exists|n: nat|
            1 <= n && #[trigger] ray_ok(self, r, f, dr, df, n) && m.to == sq_of(
                ray_end(r, f, dr, df, n).0,
                ray_end(r, f, dr, df, n).1,
            )
    }

    /// A move of a sliding piece along one of the first `dn` of `dirs`.
    pub open spec fn slide_upto(self, m: Move, dirs: Seq<(i8, i8)>, dn: int) -> bool {
        exists|d: int| 0 <= d < dn && d < dirs.len() && #[trigger] self.dir_reach(m, dirs[d].0 as int, dirs[d].1 as int)
    }

    /// A move of a sliding piece along one of `dirs` over empty squares.
    pub open spec fn sensible_slide(self, m: Move, dirs: Seq<(i8, i8)>) -> bool {
        self.slide_upto(m, dirs, dirs.len() as int)
    }

    /// A move by `(dr, df)` to an empty square on the board.
    pub open spec fn step_to(self, m: Move, dr: int, df: int) -> bool {
        let r = m.from.rank();
        let f = m.from.file();
        &&& m.promotion is None
        &&& in_board(r + dr, f + df)
        &&& sq_of(r + dr, f + df) == m.to
        &&& self.at((r + dr) * 8 + f + df) is None
    }

    /// A move by one of the first `dn` of `deltas`.
    pub open spec fn step_upto(self, m: Move, deltas: Seq<(i8, i8)>, dn: int) -> bool {
        exists|d: int| 0 <= d < dn && d < deltas.len() && #[trigger] self.step_to(m, deltas[d].0 as int, deltas[d].1 as int)
    }

    /// A move by one of `deltas` to an empty square on the board.
    pub open spec fn sensible_step(self, m: Move, deltas: Seq<(i8, i8)>) -> bool {
        self.step_upto(m, deltas, deltas.len() as int)
    }

    /// A castling whose right is kept and whose squares between are empty.
    pub open spec fn sensible_castling(self, m: Move) -> bool {
        &&& m.promotion is None
        &&& if self.turn() == Color::White {
            ||| m.from.0 == 4 && m.to.0 == 6 && self.flags.has(WHITE_CAN_OO) && self.at(5) is None && self.at(6) is None
            ||| m.from.0 == 4 && m.to.0 == 2 && self.flags.has(WHITE_CAN_OOO) && self.at(1) is None && self.at(2) is None
                && self.at(3) is None
        } else {
            ||| m.from.0 == 60 && m.to.0 == 62 && self.flags.has(BLACK_CAN_OO) && self.at(61) is None && self.at(62)
                is None
            ||| m.from.0 == 60 && m.to.0 == 58 && self.flags.has(BLACK_CAN_OOO) && self.at(57) is None && self.at(58)
                is None && self.at(59) is None
        }
    }

    /// A move worth requesting on a board that shows only one's own pieces.
    pub open spec fn sensible(self, m: Move) -> bool {
        ||| self.sensible_castling(m)
        ||| m.from.valid() && match self.at(m.from.0 as int) {
            None => false,
            Some(p) => match p.kind {
                PieceKind::Pawn => self.sensible_pawn_move(m),
                PieceKind::Knight => self.sensible_step(m, knight_deltas()),
                PieceKind::King => self.sensible_step(m, queen_dirs()),
                PieceKind::Bishop => self.sensible_slide(m, bishop_dirs()),
                PieceKind::Rook => self.sensible_slide(m, rook_dirs()),
                PieceKind::Queen => self.sensible_slide(m, queen_dirs()),
            },
        }
    }

    /// Every piece on the board is of the side to play, and no pawn stands
    /// where it could not step ahead.
    pub open spec fn fog_board(self) -> bool {
        forall|i: int|
            0 <= i < 64 ==> match #[trigger] self.at(i) {
                None => true,
                Some(p) => p.color == self.turn() && (p.kind == PieceKind::Pawn ==> if p.color == Color::White {
                    i / 8 < 7
                } else {
                    i / 8 > 0
                }),
            }
    }
}

} // verus!

verus! {

pub proof fn lemma_contains_push<T>(s: Seq<T>, x: T, y: T)
    ensures
        s.push(x).contains(y) <==> (s.contains(y) || y == x),
{
    if s.push(x).contains(y) {
        let i = choose|i: int| 0 <= i < s.push(x).len() && s.push(x)[i] == y;
        if i < s.len() {
            assert(s[i] == y);
        }
    }
    if s.contains(y) {
        let i = choose|i: int| 0 <= i < s.len() && s[i] == y;
        assert(s.push(x)[i] == y);
    }
    if y == x {
        assert(s.push(x)[s.len() as int] == y);
    }
}

/// No move occurs twice in `s`.
pub open spec fn no_dups(s: Seq<Move>) -> bool {
    forall|i: int, j: int| 0 <= i < j < s.len() ==> s[i] != s[j]
}

/// `s` repeats no move and holds none from square `from`.
pub open spec fn fresh_for(s: Seq<Move>, from: Square) -> bool {
    &&& no_dups(s)
    &&& forall|y: Move| #[trigger] s.contains(y) ==> y.from != from
}

/// `new` is `old` followed by moves from square `from`.
pub open spec fn appended_from(old: Seq<Move>, new: Seq<Move>, from: Square) -> bool {
    &&& old.len() <= new.len()
    &&& new.subrange(0, old.len() as int) == old
    &&& forall|k: int| old.len() <= k < new.len() ==> (#[trigger] new[k]).from == from
}

proof fn lemma_appended_refl(a: Seq<Move>, from: Square)
    ensures
        appended_from(a, a, from),
{
    assert(a.subrange(0, a.len() as int) =~= a);
}

proof fn lemma_appended_trans(a: Seq<Move>, b: Seq<Move>, c: Seq<Move>, from: Square)
    requires
        appended_from(a, b, from),
        appended_from(b, c, from),
    ensures
        appended_from(a, c, from),
{
    assert forall|k: int| a.len() <= k < c.len() implies (#[trigger] c[k]).from == from by {
        if k < b.len() {
            assert(c.subrange(0, b.len() as int)[k] == c[k]);
        }
    }
    assert forall|i: int| 0 <= i < a.len() implies c.subrange(0, a.len() as int)[i] == a[i] by {
        assert(c.subrange(0, b.len() as int)[i] == c[i]);
        assert(b.subrange(0, a.len() as int)[i] == b[i]);
    }
    assert(c.subrange(0, a.len() as int) =~= a);
}

fn push_move(result: &mut Vec<Move>, m: Move)
    ensures
        final(result)@ == old(result)@.push(m),
        appended_from(old(result)@, final(result)@, m.from),
        forall|y: Move| #[trigger] final(result)@.contains(y) <==> (old(result)@.contains(y) || y == m),
        no_dups(old(result)@) && !old(result)@.contains(m) ==> no_dups(final(result)@),
{
    result.push(m);
    proof {
        assert(result@.subrange(0, old(result)@.len() as int) =~= old(result)@);
        assert forall|y: Move| #[trigger] result@.contains(y) <==> (old(result)@.contains(y) || y == m) by {
            lemma_contains_push(old(result)@, m, y);
        }
        if no_dups(old(result)@) && !old(result)@.contains(m) {
            assert forall|i: int, j: int| 0 <= i < j < result@.len() implies result@[i] != result@[j] by {
                if j == old(result)@.len() {
                    assert(old(result)@[i] == result@[i]);
                    assert(old(result)@.contains(result@[i]));
                } else {
                    assert(old(result)@[i] == result@[i] && old(result)@[j] == result@[j]);
                }
            }
        }
    }
}

/// Pushes the move from `from` to `to` with each promotion a pawn may ask
/// for there (or with none).
fn push_promotions(result: &mut Vec<Move>, from: Square, to: Square, promote: bool)
    ensures
        appended_from(old(result)@, final(result)@, from),
        forall|y: Move| #[trigger] final(result)@.contains(y) <==> (old(result)@.contains(y) || (y.from == from
            && y.to == to && promotion_choices(promote).contains(y.promotion))),
        no_dups(old(result)@) && (forall|y: Move| #[trigger] old(result)@.contains(y) ==> !(y.from == from && y.to
            == to)) ==> no_dups(final(result)@),
{
    if promote {
        let ghost s0 = result@;
        push_move(result, Move { from, to, promotion: Some(PieceKind::Knight) });
        let ghost s1 = result@;
        push_move(result, Move { from, to, promotion: Some(PieceKind::Bishop) });
        let ghost s2 = result@;
        push_move(result, Move { from, to, promotion: Some(PieceKind::Rook) });
        let ghost s3 = result@;
        push_move(result, Move { from, to, promotion: Some(PieceKind::Queen) });
        let ghost s4 = result@;
        push_move(result, Move { from, to, promotion: None });
        proof {
            lemma_appended_trans(s0, s1, s2, from);
            lemma_appended_trans(s0, s2, s3, from);
            lemma_appended_trans(s0, s3, s4, from);
            lemma_appended_trans(s0, s4, result@, from);
        }
    } else {
        push_move(result, Move { from, to, promotion: None });
    }
}

impl BoardState {
    fn pawn_moves(&self, from: Square, result: &mut Vec<Move>)
        requires
            self.wf(),
            self.fog_board(),
            from.valid(),
            self.at(from.0 as int) == Some(Piece { kind: PieceKind::Pawn, color: self.turn() }),
        ensures
            appended_from(old(result)@, final(result)@, from),
            forall|y: Move| #[trigger] final(result)@.contains(y) <==> (old(result)@.contains(y) || (y.from == from
                && self.sensible_pawn_move(y))),
            fresh_for(old(result)@, from) ==> no_dups(final(result)@),
    {
        let ghost before = result@;
        let rank = from.0 / 8;
        let file = from.0 % 8;
        let (dr, home_rank, promotion_rank): (i8, i8, i8) = match self.side_to_play() {
            Color::White => (1, 1, 6),
            Color::Black => (-1, 6, 1),
        };
        proof {
            assert(match self.at(from.0 as int) {
                None => true,
                Some(p) => p.color == self.turn() && (p.kind == PieceKind::Pawn ==> if p.color == Color::White {
                    from.0 / 8 < 7
                } else {
                    from.0 / 8 > 0
                }),
            });
        }
        let ghost mid1 = result@;
        proof {
            lemma_appended_refl(before, from);
        }
        let ahead_free = self.get_piece(Square(from.0 + 8 * dr)).is_none();
        if ahead_free {
            push_promotions(result, from, Square(from.0 + 8 * dr), rank == promotion_rank);
            proof {
                lemma_appended_trans(before, mid1, result@, from);
            }
        }
        let ghost mid2 = result@;
        if ahead_free && rank == home_rank && self.get_piece(Square(from.0 + 16 * dr)).is_none() {
            push_move(result, Move { from, to: Square(from.0 + 16 * dr), promotion: None });
            proof {
                lemma_appended_trans(before, mid2, result@, from);
            }
        }
        let ghost mid3 = result@;
        if file - 1 >= 0 {
            let to = Square((rank + dr) * 8 + file - 1);
            if self.get_piece(to).is_none() {
                push_promotions(result, from, to, rank + dr == 0 || rank + dr == 7);
                proof {
                    lemma_appended_trans(before, mid3, result@, from);
                }
            }
        }
        let ghost mid4 = result@;
        if file + 1 < 8 {
            let to = Square((rank + dr) * 8 + file + 1);
            if self.get_piece(to).is_none() {
                push_promotions(result, from, to, rank + dr == 0 || rank + dr == 7);
                proof {
                    lemma_appended_trans(before, mid4, result@, from);
                }
            }
        }
        proof {
            if fresh_for(before, from) {
                let t1 = from.0 + 8 * dr;
                let t2 = from.0 + 16 * dr;
                let t3 = (rank + dr) * 8 + file - 1;
                let t4 = (rank + dr) * 8 + file + 1;
                assert(forall|y: Move| #[trigger] mid1.contains(y) ==> y.from != from);
                assert forall|y: Move| #[trigger] mid2.contains(y) implies y.from != from || y.to.0 == t1 by {
                    if mid1.contains(y) {
                    }
                }
                assert forall|y: Move| #[trigger] mid3.contains(y) implies y.from != from || y.to.0 == t1 || y.to.0
                    == t2 by {
                    if mid2.contains(y) {
                    }
                }
                assert forall|y: Move| #[trigger] mid4.contains(y) implies y.from != from || y.to.0 == t1 || y.to.0
                    == t2 || y.to.0 == t3 by {
                    if mid3.contains(y) {
                    }
                }
                assert(no_dups(mid2));
                assert(no_dups(mid3));
                assert(no_dups(mid4));
            }
        }
        proof {
            assert forall|y: Move| #[trigger] result@.contains(y) <==> (before.contains(y) || (y.from == from
                && self.sensible_pawn_move(y))) by {
                if y.from == from {
                    assert(self.pawn_diagonal(y, -1) <==> (file - 1 >= 0 && y.to == Square(((rank + dr) * 8 + file - 1) as i8) && self.at((rank + dr) * 8 + file - 1) is None && promotion_choices(rank + dr == 0 || rank + dr == 7).contains(y.promotion)));
                }
            }
        }
    }
}

} // verus!

verus! {

/// Directions are single steps, and not standing still.
pub open spec fn unit_dirs(dirs: Seq<(i8, i8)>) -> bool {
    forall|d: int|
        0 <= d < dirs.len() ==> -1 <= (#[trigger] dirs[d]).0 <= 1 && -1 <= dirs[d].1 <= 1 && (dirs[d].0 != 0
            || dirs[d].1 != 0)
}

/// No two entries of `v` are the same.
pub open spec fn distinct_pairs(v: Seq<(i8, i8)>) -> bool {
    forall|i: int, j: int| 0 <= i < j < v.len() ==> v[i] != v[j]
}

/// Deltas of at most two squares.
pub open spec fn short_deltas(deltas: Seq<(i8, i8)>) -> bool {
    forall|d: int| 0 <= d < deltas.len() ==> -2 <= (#[trigger] deltas[d]).0 <= 2 && -2 <= deltas[d].1 <= 2
}

impl BoardState {
    fn slide_moves(&self, from: Square, dirs: &[(i8, i8)], result: &mut Vec<Move>)
        requires
            self.wf(),
            from.valid(),
            unit_dirs(dirs@),
            distinct_pairs(dirs@),
        ensures
            appended_from(old(result)@, final(result)@, from),
            forall|y: Move| #[trigger] final(result)@.contains(y) <==> (old(result)@.contains(y) || (y.from == from
                && self.sensible_slide(y, dirs@))),
            fresh_for(old(result)@, from) ==> no_dups(final(result)@),
    {
        let ghost before = result@;
        let ghost r0 = from.rank();
        let ghost f0 = from.file();
        let mut d: usize = 0;
        proof {
            lemma_appended_refl(before, from);
        }
        while d < dirs.len()
            invariant
                self.wf(),
                from.valid(),
                unit_dirs(dirs@),
                distinct_pairs(dirs@),
                appended_from(before, result@, from),
                fresh_for(before, from) ==> no_dups(result@),
                r0 == from.rank(),
                f0 == from.file(),
                0 <= d <= dirs.len(),
                forall|y: Move| #[trigger] result@.contains(y) <==> (before.contains(y) || (y.from == from
                    && self.slide_upto(y, dirs@, d as int))),
            decreases dirs.len() - d,
        {
            let (dr, df) = dirs[d];
            let ghost dri = dr as int;
            let ghost dfi = df as int;
            let ghost start = result@;
            proof {
                assert(-1 <= dirs@[d as int].0 <= 1 && -1 <= dirs@[d as int].1 <= 1);
            }
            let mut r = from.0 / 8;
            let mut f = from.0 % 8;
            let ghost mut k: nat = 0;
            loop
                invariant_except_break
                    self.wf(),
                    from.valid(),
                    r0 == from.rank(),
                    f0 == from.file(),
                    dri == dr as int,
                    dfi == df as int,
                    d < dirs@.len(),
                    dirs@[d as int] == (dr, df),
                    unit_dirs(dirs@),
                    distinct_pairs(dirs@),
                    appended_from(before, result@, from),
                    fresh_for(before, from) ==> no_dups(result@),
                    forall|y: Move| #[trigger] start.contains(y) <==> (before.contains(y) || (y.from == from
                        && self.slide_upto(y, dirs@, d as int))),
                    -1 <= dr <= 1,
                    -1 <= df <= 1,
                    dr != 0 || df != 0,
                    0 <= r < 8,
                    0 <= f < 8,
                    (r as int, f as int) == ray_end(r0, f0, dri, dfi, k),
                    ray_ok(*self, r0, f0, dri, dfi, k),
                    forall|y: Move| #[trigger] result@.contains(y) <==> (start.contains(y) || (y.from == from
                        && y.promotion is None && exists|n: nat|
                        1 <= n <= k && #[trigger] ray_ok(*self, r0, f0, dri, dfi, n) && y.to == sq_of(
                            ray_end(r0, f0, dri, dfi, n).0,
                            ray_end(r0, f0, dri, dfi, n).1,
                        ))),
                ensures
                    forall|y: Move| #[trigger] result@.contains(y) <==> (start.contains(y) || (y.from == from
                        && self.dir_reach(y, dri, dfi))),
                    fresh_for(before, from) ==> no_dups(result@),
                    appended_from(before, result@, from),
                decreases (if dr > 0 {
                    8 - r
                } else if dr < 0 {
                    r + 1
                } else if df > 0 {
                    8 - f
                } else {
                    f + 1
                }),
            {
                r = r + dr;
                f = f + df;
                let ghost k1: nat = k + 1;
                assert(ray_end(r0, f0, dri, dfi, k1) == (r as int, f as int));
                if r < 0 || r >= 8 || f < 0 || f >= 8 {
                    proof {
                        assert(!ray_ok(*self, r0, f0, dri, dfi, k1));
                        lemma_reach_upto(*self, r0, f0, dri, dfi, k, from, start, result@);
                    }
                    break;
                }
                let to = Square(r * 8 + f);
                if self.get_piece(to).is_some() {
                    proof {
                        assert(!ray_ok(*self, r0, f0, dri, dfi, k1));
                        lemma_reach_upto(*self, r0, f0, dri, dfi, k, from, start, result@);
                    }
                    break;
                }
                let ghost prev = result@;
                proof {
                    let m = Move { from, to, promotion: None };
                    lemma_ray_end(r0, f0, dri, dfi, k1);
                    if fresh_for(before, from) && prev.contains(m) {
                        if start.contains(m) {
                            let dd = choose|dd: int| 0 <= dd < d && dd < dirs@.len() && #[trigger] self.dir_reach(m, dirs@[dd].0 as int, dirs@[dd].1 as int);
                            let a = dirs@[dd].0 as int;
                            let c = dirs@[dd].1 as int;
                            let n = choose|n: nat|
                                1 <= n && #[trigger] ray_ok(*self, r0, f0, a, c, n) && m.to == sq_of(
                                    ray_end(r0, f0, a, c, n).0,
                                    ray_end(r0, f0, a, c, n).1,
                                );
                            lemma_ray_end(r0, f0, a, c, n);
                            lemma_ray_in_board(*self, r0, f0, a, c, n);
                            lemma_sq_coords(r0 + n * a, f0 + n * c, r as int, f as int);
                            assert(-1 <= a <= 1 && -1 <= c <= 1 && (a != 0 || c != 0));
                            lemma_ray_same(a, c, n as int, dri, dfi, k1 as int);
                            assert(dirs@[dd] == dirs@[d as int]);
                        } else {
                            let n = choose|n: nat|
                                1 <= n <= k && #[trigger] ray_ok(*self, r0, f0, dri, dfi, n) && m.to == sq_of(
                                    ray_end(r0, f0, dri, dfi, n).0,
                                    ray_end(r0, f0, dri, dfi, n).1,
                                );
                            lemma_ray_end(r0, f0, dri, dfi, n);
                            lemma_ray_in_board(*self, r0, f0, dri, dfi, n);
                            lemma_sq_coords(r0 + n * dri, f0 + n * dfi, r as int, f as int);
                            lemma_ray_same(dri, dfi, n as int, dri, dfi, k1 as int);
                        }
                    }
                }
                push_move(result, Move { from, to, promotion: None });
                proof {
                    lemma_appended_trans(before, prev, result@, from);
                    assert(ray_ok(*self, r0, f0, dri, dfi, k1));
                    k = k1;
                    assert forall|y: Move| #[trigger] result@.contains(y) <==> (start.contains(y) || (y.from == from
                        && y.promotion is None && exists|n: nat|
                        1 <= n <= k && #[trigger] ray_ok(*self, r0, f0, dri, dfi, n) && y.to == sq_of(
                            ray_end(r0, f0, dri, dfi, n).0,
                            ray_end(r0, f0, dri, dfi, n).1,
                        ))) by {
                        if y == (Move { from, to, promotion: None }) {
                            assert(ray_ok(*self, r0, f0, dri, dfi, k));
                        }
                    }
                }
            }
            proof {
                assert forall|y: Move| #[trigger] result@.contains(y) <==> (before.contains(y) || (y.from == from
                    && self.slide_upto(y, dirs@, d + 1))) by {
                    if y.from == from && self.dir_reach(y, dri, dfi) {
                        assert(self.dir_reach(y, dirs@[d as int].0 as int, dirs@[d as int].1 as int));
                    }
                    if y.from == from && self.slide_upto(y, dirs@, d + 1) {
                        let dd = choose|dd: int| 0 <= dd < d + 1 && dd < dirs@.len() && #[trigger] self.dir_reach(y, dirs@[dd].0 as int, dirs@[dd].1 as int);
                        if dd < d {
                            assert(self.slide_upto(y, dirs@, d as int));
                        }
                    }
                    if y.from == from && self.slide_upto(y, dirs@, d as int) {
                        let dd = choose|dd: int| 0 <= dd < d && dd < dirs@.len() && #[trigger] self.dir_reach(y, dirs@[dd].0 as int, dirs@[dd].1 as int);
                        assert(self.slide_upto(y, dirs@, d + 1));
                    }
                }
            }
            d = d + 1;
        }
    }
}

/// The square `n` steps along a line.
pub proof fn lemma_ray_end(r: int, f: int, dr: int, df: int, n: nat)
    ensures
        ray_end(r, f, dr, df, n) == (r + n * dr, f + n * df),
    decreases n,
{
    if n > 0 {
        lemma_ray_end(r, f, dr, df, (n - 1) as nat);
        let m: int = n - 1;
        assert(m * dr + dr == (m + 1) * dr) by (nonlinear_arith);
        assert(m * df + df == (m + 1) * df) by (nonlinear_arith);
        assert(m + 1 == n);
    } else {
        assert(0 * dr == 0 && 0 * df == 0) by (nonlinear_arith);
    }
}

/// A clear stretch of a line ends on the board.
pub proof fn lemma_ray_in_board(b: BoardState, r: int, f: int, dr: int, df: int, n: nat)
    requires
        n >= 1,
        ray_ok(b, r, f, dr, df, n),
    ensures
        in_board(ray_end(r, f, dr, df, n).0, ray_end(r, f, dr, df, n).1),
{
}

/// Squares on the board with the same number have the same rank and file.
pub proof fn lemma_sq_coords(a: int, c: int, a2: int, c2: int)
    requires
        in_board(a, c),
        in_board(a2, c2),
        sq_of(a, c) == sq_of(a2, c2),
    ensures
        a == a2,
        c == c2,
{
}

/// Two steps of one or more squares along single-step directions that end
/// on the same square go the same way and as far.
pub proof fn lemma_ray_same(a: int, c: int, n: int, a2: int, c2: int, n2: int)
    requires
        -1 <= a <= 1,
        -1 <= c <= 1,
        a != 0 || c != 0,
        -1 <= a2 <= 1,
        -1 <= c2 <= 1,
        a2 != 0 || c2 != 0,
        n >= 1,
        n2 >= 1,
        n * a == n2 * a2,
        n * c == n2 * c2,
    ensures
        a == a2,
        c == c2,
        n == n2,
{
    if a == 1 {
        assert(n * a == n) by (nonlinear_arith)
            requires
                a == 1,
        ;
    } else if a == -1 {
        assert(n * a == -n) by (nonlinear_arith)
            requires
                a == -1,
        ;
    } else {
        assert(n * a == 0) by (nonlinear_arith)
            requires
                a == 0,
        ;
    }
    if a2 == 1 {
        assert(n2 * a2 == n2) by (nonlinear_arith)
            requires
                a2 == 1,
        ;
    } else if a2 == -1 {
        assert(n2 * a2 == -n2) by (nonlinear_arith)
            requires
                a2 == -1,
        ;
    } else {
        assert(n2 * a2 == 0) by (nonlinear_arith)
            requires
                a2 == 0,
        ;
    }
    if c == 1 {
        assert(n * c == n) by (nonlinear_arith)
            requires
                c == 1,
        ;
    } else if c == -1 {
        assert(n * c == -n) by (nonlinear_arith)
            requires
                c == -1,
        ;
    } else {
        assert(n * c == 0) by (nonlinear_arith)
            requires
                c == 0,
        ;
    }
    if c2 == 1 {
        assert(n2 * c2 == n2) by (nonlinear_arith)
            requires
                c2 == 1,
        ;
    } else if c2 == -1 {
        assert(n2 * c2 == -n2) by (nonlinear_arith)
            requires
                c2 == -1,
        ;
    } else {
        assert(n2 * c2 == 0) by (nonlinear_arith)
            requires
                c2 == 0,
        ;
    }
}

/// A step of at most one file keeps within one file of where it starts.
pub proof fn lemma_step_file(b: BoardState, m: Move, deltas: Seq<(i8, i8)>)
    requires
        b.sensible_step(m, deltas),
        unit_dirs(deltas),
    ensures
        -1 <= m.to.0 % 8 - m.from.0 % 8 <= 1,
{
    let d = choose|d: int| 0 <= d < deltas.len() && #[trigger] b.step_to(m, deltas[d].0 as int, deltas[d].1 as int);
    assert(-1 <= deltas[d].1 <= 1);
}

/// When the step after the `k`-th is blocked, every reachable square is one
/// of the first `k`.
pub proof fn lemma_reach_upto(
    b: BoardState,
    r0: int,
    f0: int,
    dr: int,
    df: int,
    k: nat,
    from: Square,
    start: Seq<Move>,
    result: Seq<Move>,
)
    requires
        !ray_ok(b, r0, f0, dr, df, k + 1),
        r0 == from.rank(),
        f0 == from.file(),
        forall|y: Move| #[trigger] result.contains(y) <==> (start.contains(y) || (y.from == from
            && y.promotion is None && exists|n: nat|
            1 <= n <= k && #[trigger] ray_ok(b, r0, f0, dr, df, n) && y.to == sq_of(
                ray_end(r0, f0, dr, df, n).0,
                ray_end(r0, f0, dr, df, n).1,
            ))),
    ensures
        forall|y: Move| #[trigger] result.contains(y) <==> (start.contains(y) || (y.from == from && b.dir_reach(y, dr, df))),
{
    assert forall|y: Move| #[trigger] result.contains(y) <==> (start.contains(y) || (y.from == from && b.dir_reach(y, dr, df))) by {
        if y.from == from && b.dir_reach(y, dr, df) {
            let (yr, yf) = (y.from.rank(), y.from.file());
            let n = choose|n: nat|
                1 <= n && #[trigger] ray_ok(b, yr, yf, dr, df, n) && y.to == sq_of(
                    ray_end(yr, yf, dr, df, n).0,
                    ray_end(yr, yf, dr, df, n).1,
                );
            assert(yr == r0 && yf == f0);
            if n > k {
                lemma_ray_ok_prefix(b, r0, f0, dr, df, n, k + 1);
            }
            assert(1 <= n <= k && ray_ok(b, r0, f0, dr, df, n) && y.to == sq_of(
                ray_end(r0, f0, dr, df, n).0,
                ray_end(r0, f0, dr, df, n).1,
            ));
            assert(result.contains(y));
        }
        if result.contains(y) && !start.contains(y) {
            let n = choose|n: nat|
                1 <= n <= k && #[trigger] ray_ok(b, r0, f0, dr, df, n) && y.to == sq_of(
                    ray_end(r0, f0, dr, df, n).0,
                    ray_end(r0, f0, dr, df, n).1,
                );
            assert(y.from.rank() == r0 && y.from.file() == f0);
            assert(ray_ok(b, y.from.rank(), y.from.file(), dr, df, n));
            assert(y.to == sq_of(
                ray_end(y.from.rank(), y.from.file(), dr, df, n).0,
                ray_end(y.from.rank(), y.from.file(), dr, df, n).1,
            ));
            assert(y.promotion is None);
            assert(b.dir_reach(y, dr, df));
        }
    }
}

} // verus!

verus! {

impl BoardState {
    fn step_moves(&self, from: Square, deltas: &[(i8, i8)], result: &mut Vec<Move>)
        requires
            self.wf(),
            from.valid(),
            short_deltas(deltas@),
            distinct_pairs(deltas@),
        ensures
            appended_from(old(result)@, final(result)@, from),
            forall|y: Move| #[trigger] final(result)@.contains(y) <==> (old(result)@.contains(y) || (y.from == from
                && self.sensible_step(y, deltas@))),
            fresh_for(old(result)@, from) ==> no_dups(final(result)@),
    {
        let ghost before = result@;
        let mut d: usize = 0;
        proof {
            lemma_appended_refl(before, from);
        }
        while d < deltas.len()
            invariant
                self.wf(),
                from.valid(),
                short_deltas(deltas@),
                distinct_pairs(deltas@),
                appended_from(before, result@, from),
                fresh_for(before, from) ==> no_dups(result@),
                0 <= d <= deltas.len(),
                forall|y: Move| #[trigger] result@.contains(y) <==> (before.contains(y) || (y.from == from
                    && self.step_upto(y, deltas@, d as int))),
            decreases deltas.len() - d,
        {
            let (dr, df) = deltas[d];
            proof {
                assert(-2 <= deltas@[d as int].0 <= 2 && -2 <= deltas@[d as int].1 <= 2);
            }
            let ghost prev = result@;
            let r = from.0 / 8 + dr;
            let f = from.0 % 8 + df;
            let ok = !(r < 0 || r >= 8 || f < 0 || f >= 8) && self.get_piece(Square(r * 8 + f)).is_none();
            if ok {
                proof {
                    let m = Move { from, to: Square((r * 8 + f) as i8), promotion: None };
                    if prev.contains(m) {
                        if !before.contains(m) {
                            let dd = choose|dd: int| 0 <= dd < d && dd < deltas@.len() && #[trigger] self.step_to(m, deltas@[dd].0 as int, deltas@[dd].1 as int);
                            assert(deltas@[dd] == deltas@[d as int]);
                            assert(false);
                        }
                    }
                }
                push_move(result, Move { from, to: Square(r * 8 + f), promotion: None });
                proof {
                    lemma_appended_trans(before, prev, result@, from);
                }
            }
            proof {
                assert forall|y: Move| #[trigger] result@.contains(y) <==> (before.contains(y) || (y.from == from
                    && self.step_upto(y, deltas@, d + 1))) by {
                    if y.from == from && self.step_to(y, dr as int, df as int) {
                        assert(self.step_to(y, deltas@[d as int].0 as int, deltas@[d as int].1 as int));
                        assert(ok);
                    }
                    if y.from == from && self.step_upto(y, deltas@, d + 1) {
                        let dd = choose|dd: int| 0 <= dd < d + 1 && dd < deltas@.len() && #[trigger] self.step_to(y, deltas@[dd].0 as int, deltas@[dd].1 as int);
                        if dd < d {
                            assert(self.step_upto(y, deltas@, d as int));
                        }
                    }
                    if y.from == from && self.step_upto(y, deltas@, d as int) {
                        let dd = choose|dd: int| 0 <= dd < d && dd < deltas@.len() && #[trigger] self.step_to(y, deltas@[dd].0 as int, deltas@[dd].1 as int);
                        assert(self.step_upto(y, deltas@, d + 1));
                    }
                    if ok && y == (Move { from, to: Square((r * 8 + f) as i8), promotion: None }) {
                        assert(self.step_to(y, deltas@[d as int].0 as int, deltas@[d as int].1 as int));
                    }
                }
            }
            d = d + 1;
        }
    }
}

} // verus!

verus! {

impl BoardState {
    /// The first `n` moves of `s` come by from square, lowest first, and the
    /// others are castlings.
    pub open spec fn by_square_then_castlings(self, s: Seq<Move>, n: int) -> bool {
        &&& 0 <= n <= s.len()
        &&& forall|i: int, j: int| 0 <= i < j < n ==> (#[trigger] s[i]).from.0 <= (#[trigger] s[j]).from.0
        &&& forall|k: int| n <= k < s.len() ==> self.sensible_castling(#[trigger] s[k])
    }

    /// The castling rights of the side to play go with its king on its home
    /// square.
    pub open spec fn castle_rights_fit(self) -> bool {
        if self.turn() == Color::White {
            (self.flags.has(WHITE_CAN_OO) || self.flags.has(WHITE_CAN_OOO)) ==> self.at(4) == Some(
                Piece { kind: PieceKind::King, color: Color::White },
            )
        } else {
            (self.flags.has(BLACK_CAN_OO) || self.flags.has(BLACK_CAN_OOO)) ==> self.at(60) == Some(
                Piece { kind: PieceKind::King, color: Color::Black },
            )
        }
    }

    /// A move of one of the pieces on the board, other than castling.
    pub open spec fn sensible_piece_move(self, m: Move) -> bool {
        m.from.valid() && match self.at(m.from.0 as int) {
            None => false,
            Some(p) => match p.kind {
                PieceKind::Pawn => self.sensible_pawn_move(m),
                PieceKind::Knight => self.sensible_step(m, knight_deltas()),
                PieceKind::King => self.sensible_step(m, queen_dirs()),
                PieceKind::Bishop => self.sensible_slide(m, bishop_dirs()),
                PieceKind::Rook => self.sensible_slide(m, rook_dirs()),
                PieceKind::Queen => self.sensible_slide(m, queen_dirs()),
            },
        }
    }

    /// All moves worth requesting on a board that shows only one's own
    /// pieces: every move of a piece to an empty square that its way of
    /// moving reaches, every promotion, and every castling whose squares are
    /// empty. The moves of the pieces come by from square, lowest first, and
    /// the castlings last. Each is listed once where the castling rights go with the king
    /// on its home square; a rook or queen on that square while a right is
    /// kept would list the castling's squares a second time.
    pub fn all_sensible_requested_moves(&self) -> (result: Vec<Move>)
        requires
            self.wf(),
            self.fog_board(),
        ensures
            forall|m: Move| #[trigger] result@.contains(m) <==> self.sensible(m),
            self.castle_rights_fit() ==> no_dups(result@),
            exists|n: int| #[trigger] self.by_square_then_castlings(result@, n),
    {
        let mut result: Vec<Move> = Vec::new();
        let bishop: [(i8, i8); 4] = [(-1, -1), (-1, 1), (1, -1), (1, 1)];
        let rook: [(i8, i8); 4] = [(-1, 0), (0, -1), (0, 1), (1, 0)];
        let queen: [(i8, i8); 8] = [(-1, -1), (-1, 0), (-1, 1), (0, -1), (0, 1), (1, -1), (1, 0), (1, 1)];
        let knight: [(i8, i8); 8] = [(-2, -1), (-2, 1), (-1, -2), (-1, 2), (1, -2), (1, 2), (2, -1), (2, 1)];
        proof {
            assert(bishop@ =~= bishop_dirs());
            assert(rook@ =~= rook_dirs());
            assert(queen@ =~= queen_dirs());
            assert(knight@ =~= knight_deltas());
            assert(unit_dirs(bishop@));
            assert(unit_dirs(rook@));
            assert(unit_dirs(queen@));
            assert(short_deltas(queen@));
            assert(short_deltas(knight@));
        }
        let mut from: i8 = 0;
        while from < 64
            invariant
                0 <= from <= 64,
                self.wf(),
                self.fog_board(),
                bishop@ == bishop_dirs(),
                rook@ == rook_dirs(),
                queen@ == queen_dirs(),
                knight@ == knight_deltas(),
                unit_dirs(bishop@),
                unit_dirs(rook@),
                unit_dirs(queen@),
                short_deltas(queen@),
                short_deltas(knight@),
                no_dups(result@),
                forall|m: Move| #[trigger] result@.contains(m) <==> (m.from.0 < from && self.sensible_piece_move(m)),
                forall|i: int, j: int| 0 <= i < j < result@.len() ==> (#[trigger] result@[i]).from.0 <= (#[trigger] result@[j]).from.0,
            decreases 64 - from,
        {
            let sq = Square(from);
            let ghost prev = result@;
            let p = self.get_piece(sq);
            if p.is_some() {
                let p = p.unwrap();
                proof {
                    assert(match self.at(from as int) {
                        None => true,
                        Some(q) => q.color == self.turn(),
                    });
                    assert(fresh_for(result@, sq));
                }
                match p.kind {
                    PieceKind::Pawn => self.pawn_moves(sq, &mut result),
                    PieceKind::Bishop => self.slide_moves(sq, &bishop, &mut result),
                    PieceKind::Rook => self.slide_moves(sq, &rook, &mut result),
                    PieceKind::Queen => self.slide_moves(sq, &queen, &mut result),
                    PieceKind::Knight => self.step_moves(sq, &knight, &mut result),
                    PieceKind::King => self.step_moves(sq, &queen, &mut result),
                }
            }
            proof {
                if result@ != prev {
                    assert forall|i: int, j: int| 0 <= i < j < result@.len() implies (#[trigger] result@[i]).from.0 <= (#[trigger] result@[j]).from.0 by {
                        if j >= prev.len() {
                            assert(result@[j].from == sq);
                            if i < prev.len() {
                                assert(result@.subrange(0, prev.len() as int)[i] == result@[i]);
                                assert(prev.contains(prev[i]));
                            }
                        } else {
                            assert(result@.subrange(0, prev.len() as int)[i] == result@[i]);
                            assert(result@.subrange(0, prev.len() as int)[j] == result@[j]);
                        }
                    }
                }
                assert forall|m: Move| #[trigger] result@.contains(m) <==> (m.from.0 < from + 1 && self.sensible_piece_move(m)) by {
                    if m.from.0 == from {
                        assert(m.from == sq);
                    }
                }
            }
            from = from + 1;
        }
        let white = match self.side_to_play() {
            Color::White => true,
            Color::Black => false,
        };
        let ghost pieces_part = result@;
        let c1 = Move { from: Square(4), to: Square(6), promotion: None };
        let c2 = Move { from: Square(4), to: Square(2), promotion: None };
        let c3 = Move { from: Square(60), to: Square(62), promotion: None };
        let c4 = Move { from: Square(60), to: Square(58), promotion: None };
        let k1 = white && self.flags.contains(WHITE_CAN_OO) && self.get_piece(Square(5)).is_none() && self.get_piece(Square(6)).is_none();
        let k2 = white && self.flags.contains(WHITE_CAN_OOO) && self.get_piece(Square(1)).is_none() && self.get_piece(Square(2)).is_none() && self.get_piece(Square(3)).is_none();
        let k3 = !white && self.flags.contains(BLACK_CAN_OO) && self.get_piece(Square(61)).is_none() && self.get_piece(Square(62)).is_none();
        let k4 = !white && self.flags.contains(BLACK_CAN_OOO) && self.get_piece(Square(57)).is_none() && self.get_piece(Square(58)).is_none() && self.get_piece(Square(59)).is_none();
        proof {
            if self.castle_rights_fit() {
                if k1 && pieces_part.contains(c1) {
                    assert(self.sensible_piece_move(c1));
                    lemma_step_file(*self, c1, queen_dirs());
                }
                if k2 && pieces_part.contains(c2) {
                    assert(self.sensible_piece_move(c2));
                    lemma_step_file(*self, c2, queen_dirs());
                }
                if k3 && pieces_part.contains(c3) {
                    assert(self.sensible_piece_move(c3));
                    lemma_step_file(*self, c3, queen_dirs());
                }
                if k4 && pieces_part.contains(c4) {
                    assert(self.sensible_piece_move(c4));
                    lemma_step_file(*self, c4, queen_dirs());
                }
            }
        }
        proof {
            assert(self.sensible_castling(c1) <== k1);
            assert(self.sensible_castling(c2) <== k2);
            assert(self.sensible_castling(c3) <== k3);
            assert(self.sensible_castling(c4) <== k4);
        }
        if k1 {
            push_move(&mut result, c1);
        }
        let ghost r1 = result@;
        if k2 {
            push_move(&mut result, c2);
        }
        let ghost r2 = result@;
        if k3 {
            push_move(&mut result, c3);
        }
        let ghost r3 = result@;
        if k4 {
            push_move(&mut result, c4);
        }
        proof {
            let n = pieces_part.len() as int;
            assert(r1.len() >= n && r1.subrange(0, n) == pieces_part && forall|k: int| n <= k < r1.len() ==> self.sensible_castling(#[trigger] r1[k]));
            assert(r2.len() >= n && r2.subrange(0, n) == pieces_part && forall|k: int| n <= k < r2.len() ==> self.sensible_castling(#[trigger] r2[k])) by {
                if k2 {
                    assert forall|k: int| 0 <= k < n implies r2.subrange(0, n)[k] == pieces_part[k] by {
                        assert(r2[k] == r1[k]);
                        assert(r1.subrange(0, n)[k] == r1[k]);
                    }
                    assert(r2.subrange(0, n) =~= pieces_part);
                    assert forall|k: int| n <= k < r2.len() implies self.sensible_castling(#[trigger] r2[k]) by {
                        if k < r1.len() {
                            assert(r2[k] == r1[k]);
                        }
                    }
                }
            }
            assert(r3.len() >= n && r3.subrange(0, n) == pieces_part && forall|k: int| n <= k < r3.len() ==> self.sensible_castling(#[trigger] r3[k])) by {
                if k3 {
                    assert forall|k: int| 0 <= k < n implies r3.subrange(0, n)[k] == pieces_part[k] by {
                        assert(r3[k] == r2[k]);
                        assert(r2.subrange(0, n)[k] == r2[k]);
                    }
                    assert(r3.subrange(0, n) =~= pieces_part);
                    assert forall|k: int| n <= k < r3.len() implies self.sensible_castling(#[trigger] r3[k]) by {
                        if k < r2.len() {
                            assert(r3[k] == r2[k]);
                        }
                    }
                }
            }
            assert(result@.len() >= n && result@.subrange(0, n) == pieces_part && forall|k: int| n <= k < result@.len() ==> self.sensible_castling(#[trigger] result@[k])) by {
                if k4 {
                    assert forall|k: int| 0 <= k < n implies result@.subrange(0, n)[k] == pieces_part[k] by {
                        assert(result@[k] == r3[k]);
                        assert(r3.subrange(0, n)[k] == r3[k]);
                    }
                    assert(result@.subrange(0, n) =~= pieces_part);
                    assert forall|k: int| n <= k < result@.len() implies self.sensible_castling(#[trigger] result@[k]) by {
                        if k < r3.len() {
                            assert(result@[k] == r3[k]);
                        }
                    }
                }
            }
            assert forall|i: int, j: int| 0 <= i < j < n implies (#[trigger] result@[i]).from.0 <= (#[trigger] result@[j]).from.0 by {
                assert(result@.subrange(0, n)[i] == result@[i]);
                assert(result@.subrange(0, n)[j] == result@[j]);
                assert(pieces_part[i].from.0 <= pieces_part[j].from.0);
            }
            assert(self.by_square_then_castlings(result@, n));
        }
        proof {
            assert forall|m: Move| #[trigger] result@.contains(m) <==> self.sensible(m) by {
                assert(self.sensible_castling(m) <==> ((k1 && m == c1) || (k2 && m == c2) || (k3 && m == c3) || (k4 && m == c4)));
                if pieces_part.contains(m) {
                    assert(m.from.0 < 64 && self.sensible_piece_move(m));
                }
            }
        }
        result
    }
}

} // verus!

verus! {

pub proof fn lemma_ray_closed(r: int, f: int, dr: int, df: int, n: nat)
    ensures
        ray_end(r, f, dr, df, n) == (r + n * dr, f + n * df),
    decreases n,
{
    if n > 0 {
        lemma_ray_closed(r, f, dr, df, (n - 1) as nat);
        assert(r + (n - 1) * dr + dr == r + n * dr) by (nonlinear_arith);
        assert(f + (n - 1) * df + df == f + n * df) by (nonlinear_arith);
    } else {
        assert(n * dr == 0 && n * df == 0) by (nonlinear_arith)
            requires
                n == 0,
        ;
    }
}

/// A walk along a ray whose first `n` squares are on the board, from its
/// `j`-th square, stops by its `n`-th square.
pub proof fn lemma_walk_reaches(b: BoardState, b2: BoardState, r0: int, f0: int, dr: int, df: int, n: nat, j: nat, fuel: nat)
    requires
        ray_ok(b2, r0, f0, dr, df, n),
        1 <= n,
        j < n,
        n - j <= fuel,
    ensures
        walk_stop(
            b,
            ray_end(r0, f0, dr, df, j).0,
            ray_end(r0, f0, dr, df, j).1,
            dr,
            df,
            ray_end(r0, f0, dr, df, n).0 * 8 + ray_end(r0, f0, dr, df, n).1,
            fuel,
        ) is Some,
    decreases n - j,
{
    lemma_ray_ok_prefix(b2, r0, f0, dr, df, n, (j + 1) as nat);
    if j + 1 < n {
        lemma_walk_reaches(b, b2, r0, f0, dr, df, n, (j + 1) as nat, (fuel - 1) as nat);
    }
}

/// The own pieces are those of the side to play; its pawns can step ahead.
pub open spec fn own_pawns_can_step(b: BoardState) -> bool {
    forall|i: int|
        0 <= i < 64 ==> match #[trigger] b.at(i) {
            None => true,
            Some(p) => p.color == b.turn() && p.kind == PieceKind::Pawn ==> if p.color == Color::White {
                i / 8 < 7
            } else {
                i / 8 > 0
            },
        }
}

impl BoardState {
    /// A piece of the side to play stands on `sq`.
    pub open spec fn own_piece_at(self, sq: int) -> bool {
        self.at(sq) is Some && self.at(sq).unwrap().color == self.turn()
    }

    /// What `all_moves` needs of the board: the side to play's pawns can step
    /// ahead, and where a castling would be tried there is a piece to make it.
    pub open spec fn all_moves_ok(self) -> bool {
        &&& self.wf()
        &&& own_pawns_can_step(self)
        &&& (self.turn() == Color::White && (self.flags.has(WHITE_CAN_OO) || self.flags.has(WHITE_CAN_OOO))) ==> self.own_piece_at(4)
        &&& (self.turn() == Color::Black && (self.flags.has(BLACK_CAN_OO) || self.flags.has(BLACK_CAN_OOO))) ==> self.own_piece_at(60)
    }

    /// Every move that some sensible requested move turns into, each once,
    /// where the first request in the list of sensible requests that gives
    /// it comes.
    pub fn all_moves(&self) -> (moves: Vec<Move>)
        requires
            self.all_moves_ok(),
        ensures
            forall|i: int, j: int| 0 <= i < j < moves@.len() ==> moves@[i] != moves@[j],
            forall|m: Move| #[trigger] moves@.contains(m) <==> listed(*self, m),
            exists|fog: BoardState, req: Seq<Move>|
                #![trigger is_fog_of(fog, *self), first_taken(*self, req)]
                is_fog_of(fog, *self) && (forall|r: Move| #[trigger] req.contains(r) <==> fog.sensible(r))
                    && moves@ == first_taken(*self, req),
    {
        let mut fog_state = self.clone();
        fog_state.fog_of_war(self.side_to_play());
        proof {
            lemma_fog_view(*self, fog_state);
        }
        let requested = fog_state.all_sensible_requested_moves();
        proof {
            assert forall|k: int| 0 <= k < requested.len() implies self.taken_ok(#[trigger] requested@[k]) by {
                assert(requested@.contains(requested@[k]));
                lemma_sensible_taken_ok(*self, fog_state, requested@[k]);
            }
        }
        let moves = self.taken_moves(&requested);
        proof {
            reveal(listed);
            assert(is_fog_of(fog_state, *self));
            assert forall|m: Move| #[trigger] moves@.contains(m) <==> listed(*self, m) by {
                if moves@.contains(m) {
                    let k = choose|k: int| 0 <= k < requested@.len() && #[trigger] self.taken(requested@[k]) == Some(m);
                    assert(requested@.contains(requested@[k]));
                    assert(fog_state.sensible(requested@[k]));
                    assert(is_fog_of(fog_state, *self) && fog_state.sensible(requested@[k]) && self.taken(requested@[k]) == Some(m));
                }
                if listed(*self, m) {
                    let (fog, r) = choose|fog: BoardState, r: Move| #[trigger] is_fog_of(fog, *self) && #[trigger] fog.sensible(r) && self.taken(r) == Some(m);
                    lemma_board_determined(fog, fog_state);
                    assert(requested@.contains(r));
                    let k = choose|k: int| 0 <= k < requested@.len() && requested@[k] == r;
                    assert(self.taken(requested@[k]) == Some(m));
                }
            }
        }
        proof {
            assert(is_fog_of(fog_state, *self));
            assert(moves@ == first_taken(*self, requested@));
        }
        moves
    }

    /// The moves that the requests of `requested` turn into on this board,
    /// in the order of the requests, each kept where it first comes.
    #[verifier::spinoff_prover]
    #[verifier::rlimit(30)]
    pub fn taken_moves(&self, requested: &Vec<Move>) -> (moves: Vec<Move>)
        requires
            self.wf(),
            forall|k: int| 0 <= k < requested.len() ==> self.taken_ok(#[trigger] requested@[k]),
        ensures
            moves@ == first_taken(*self, requested@),
            forall|i: int, j: int| 0 <= i < j < moves@.len() ==> moves@[i] != moves@[j],
            forall|m: Move|
                #[trigger] moves@.contains(m) <==> exists|k: int|
                    0 <= k < requested.len() && #[trigger] self.taken(requested@[k]) == Some(m),
    {
        let mut moves: Vec<Move> = Vec::new();
        let mut i: usize = 0;
        proof {
            assert(requested@.take(0) =~= Seq::<Move>::empty());
        }
        while i < requested.len()
            invariant
                self.wf(),
                forall|k: int| 0 <= k < requested.len() ==> self.taken_ok(#[trigger] requested@[k]),
                0 <= i <= requested.len(),
                moves@ == first_taken(*self, requested@.take(i as int)),
                forall|a: int, b: int| 0 <= a < b < moves@.len() ==> moves@[a] != moves@[b],
                forall|m: Move| #[trigger] moves@.contains(m) <==> exists|k: int| 0 <= k < i && #[trigger] self.taken(requested@[k]) == Some(m),
            decreases requested.len() - i,
        {
            let r = requested[i];
            let t = self.requested_to_taken(r);
            let ghost prev = moves@;
            proof {
                let next = requested@.take(i + 1);
                assert(next.drop_last() =~= requested@.take(i as int));
                assert(next.last() == r);
            }
            if let Some(m) = t {
                if !contains_move(&moves, m) {
                    push_move(&mut moves, m);
                    proof {
                        assert forall|a: int, b: int| 0 <= a < b < moves@.len() implies moves@[a] != moves@[b] by {
                            if b == moves@.len() - 1 && moves@[a] == moves@[b] {
                                assert(prev.contains(m));
                            }
                        }
                    }
                }
            }
            proof {
                assert forall|m: Move| #[trigger] moves@.contains(m) <==> exists|k: int| 0 <= k < i + 1 && #[trigger] self.taken(requested@[k]) == Some(m) by {
                    if exists|k: int| 0 <= k < i + 1 && #[trigger] self.taken(requested@[k]) == Some(m) {
                        let k = choose|k: int| 0 <= k < i + 1 && #[trigger] self.taken(requested@[k]) == Some(m);
                        if k < i {
                            assert(prev.contains(m));
                        }
                    }
                    if prev.contains(m) {
                        let k = choose|k: int| 0 <= k < i && #[trigger] self.taken(requested@[k]) == Some(m);
                        assert(0 <= k < i + 1 && self.taken(requested@[k]) == Some(m));
                    }
                }
            }
            i = i + 1;
        }
        proof {
            assert(requested@.take(requested.len() as int) =~= requested@);
        }
        moves
    }
}

/// The moves that the requests of `req` turn into on `b`, in the order of
/// the requests, each kept where it first comes.
pub open spec fn first_taken(b: BoardState, req: Seq<Move>) -> Seq<Move>
    decreases req.len(),
{
    if req.len() == 0 {
        Seq::empty()
    } else {
        let prev = first_taken(b, req.drop_last());
        match b.taken(req.last()) {
            Some(m) => if prev.contains(m) {
                prev
            } else {
                prev.push(m)
            },
            None => prev,
        }
    }
}

/// `fog` is the view that the side to play of `s` has of it: its own
/// pieces, every castling right of the other side, no en passant square.
pub open spec fn is_fog_of(fog: BoardState, s: BoardState) -> bool {
    &&& fog.wf()
    &&& fog.squares() == fogged(s.squares(), s.turn())
    &&& fog.flags.bits == s.flags.bits | fog_rights(s.turn())
    &&& fog.en_passant_square is None
}

/// `m` is a move that the side to play of `s` can make: some move worth
/// requesting on its view of the board turns into `m` on `s`.
#[verifier::opaque]
pub open spec fn listed(s: BoardState, m: Move) -> bool {
    exists|fog: BoardState, r: Move| #[trigger] is_fog_of(fog, s) && #[trigger] fog.sensible(r) && s.taken(r) == Some(m)
}

/// The castling rights that the fog of war grants the other side.
pub open spec fn fog_rights(c: Color) -> u8 {
    match c {
        Color::White => 24u8,
        Color::Black => 6u8,
    }
}

fn contains_move(v: &Vec<Move>, m: Move) -> (r: bool)
    ensures
        r == v@.contains(m),
{
    let mut i: usize = 0;
    while i < v.len()
        invariant
            0 <= i <= v.len(),
            forall|k: int| 0 <= k < i ==> v@[k] != m,
        decreases v.len() - i,
    {
        if v[i] == m {
            return true;
        }
        i = i + 1;
    }
    false
}

} // verus!

verus! {

pub proof fn lemma_fog_view(b: BoardState, fog: BoardState)
    requires
        b.all_moves_ok(),
        fog.wf(),
        fog.squares() == fogged(b.squares(), b.turn()),
        fog.flags.bits == b.flags.bits | match b.turn() {
            Color::White => (BLACK_CAN_OO | BLACK_CAN_OOO),
            Color::Black => (WHITE_CAN_OO | WHITE_CAN_OOO),
        },
    ensures
        fog.turn() == b.turn(),
        fog.flags.bits == b.flags.bits | fog_rights(b.turn()),
        fog.fog_board(),
        forall|i: int| 0 <= i < 64 ==> #[trigger] fog.at(i) == fogged(b.squares(), b.turn())[i],
{
    let x = b.flags.bits;
    lemma_small_bits(x, 0, 0, 0, 0);
    assert forall|i: int| 0 <= i < 64 implies #[trigger] fog.at(i) == fogged(b.squares(), b.turn())[i] by {
        assert(fog.squares()[i] == fog.at(i));
    }
    assert forall|i: int| 0 <= i < 64 implies match #[trigger] fog.at(i) {
        None => true,
        Some(p) => p.color == fog.turn() && (p.kind == PieceKind::Pawn ==> if p.color == Color::White {
            i / 8 < 7
        } else {
            i / 8 > 0
        }),
    } by {
        assert(fog.squares()[i] == fog.at(i));
        assert(b.squares()[i] == b.at(i));
        if fog.at(i) is Some {
            assert(b.at(i) == fog.at(i));
        }
    }
}

pub proof fn lemma_sign_mul(n: int, d: int)
    requires
        n >= 1,
        -1 <= d <= 1,
    ensures
        sign(n * d) == d,
{
    if d == 1 {
        assert(n * d == n);
    } else if d == -1 {
        assert(n * d == -n);
    } else {
        assert(n * d == 0);
    }
}

/// A sliding move worth requesting on the fogged board stops on the full board.
pub proof fn lemma_slide_taken_ok(b: BoardState, fog: BoardState, r: Move, dirs: Seq<(i8, i8)>)
    requires
        fog.sensible_slide(r, dirs),
        unit_dirs(dirs),
        r.from.valid(),
    ensures
        b.slide_stop(r) is Some,
{
    let r0 = r.from.rank();
    let f0 = r.from.file();
    let d = choose|d: int| 0 <= d < dirs.len() && dirs.len() as int > d && #[trigger] fog.dir_reach(r, dirs[d].0 as int, dirs[d].1 as int);
    let dr = dirs[d].0 as int;
    let df = dirs[d].1 as int;
    let n = choose|n: nat|
        1 <= n && #[trigger] ray_ok(fog, r0, f0, dr, df, n) && r.to == sq_of(
            ray_end(r0, f0, dr, df, n).0,
            ray_end(r0, f0, dr, df, n).1,
        );
    let (a, c) = ray_end(r0, f0, dr, df, n);
    assert(in_board(a, c));
    lemma_ray_closed(r0, f0, dr, df, n);
    assert(-1 <= dr <= 1 && -1 <= df <= 1 && (dr != 0 || df != 0));
    lemma_sign_mul(n as int, dr);
    lemma_sign_mul(n as int, df);
    assert(0 <= r0 < 8 && 0 <= f0 < 8);
    assert(n <= 7) by {
        if dr == 1 {
            assert(n * dr == n) by (nonlinear_arith) requires dr == 1;
        } else if dr == -1 {
            assert(n * dr == -n) by (nonlinear_arith) requires dr == -1;
        } else if df == 1 {
            assert(n * df == n) by (nonlinear_arith) requires df == 1;
        } else {
            assert(n * df == -n) by (nonlinear_arith) requires df == -1;
        }
    }
    assert(r.to.0 == a * 8 + c);
    assert(r.to.rank() == a);
    assert(r.to.file() == c);
    assert(ray_end(r0, f0, dr, df, 0) == (r0, f0));
    lemma_walk_reaches(b, fog, r0, f0, dr, df, n, 0, 64);
}

/// A move worth requesting on the fogged board can be turned into the move
/// taken on the full board.
#[verifier::spinoff_prover]
#[verifier::rlimit(40)]
pub proof fn lemma_sensible_taken_ok(b: BoardState, fog: BoardState, r: Move)
    requires
        b.all_moves_ok(),
        fog.wf(),
        fog.turn() == b.turn(),
        fog.flags.bits == b.flags.bits | fog_rights(b.turn()),
        forall|i: int| 0 <= i < 64 ==> #[trigger] fog.at(i) == fogged(b.squares(), b.turn())[i],
        fog.sensible(r),
    ensures
        b.taken_ok(r),
{
    let x = b.flags.bits;
    lemma_small_bits(x, 0, 0, 0, 0);
    if fog.sensible_castling(r) {
        reveal_with_fuel(walk_stop, 3);
        assert(b.own_piece_at(r.from.0 as int));
        assert(b.squares()[r.from.0 as int] == b.at(r.from.0 as int));
    } else {
        let from = r.from.0 as int;
        assert(fog.at(from) == fogged(b.squares(), b.turn())[from]);
        assert(b.squares()[from] == b.at(from));
        let p = fog.at(from).unwrap();
        assert(b.at(from) == Some(p));
        let r0 = r.from.rank();
        let f0 = r.from.file();
        match p.kind {
            PieceKind::Bishop => {
                lemma_slide_taken_ok(b, fog, r, bishop_dirs());
            },
            PieceKind::Rook => {
                lemma_slide_taken_ok(b, fog, r, rook_dirs());
            },
            PieceKind::Queen => {
                lemma_slide_taken_ok(b, fog, r, queen_dirs());
            },
            PieceKind::King => {
                let deltas = queen_dirs();
                assert(fog.sensible_step(r, deltas));
                let d = choose|d: int| 0 <= d < deltas.len() && deltas.len() as int > d && #[trigger] fog.step_to(r, deltas[d].0 as int, deltas[d].1 as int);
                assert(r.to.0 != from - 2);
            },
            PieceKind::Knight => {
                let d = choose|d: int| 0 <= d < knight_deltas().len() && knight_deltas().len() as int > d && #[trigger] fog.step_to(r, knight_deltas()[d].0 as int, knight_deltas()[d].1 as int);
            },
            PieceKind::Pawn => {
            },
        }
    }
}

} // verus!

verus! {

/// Making a move or passing hands the turn to the other side, whatever
/// castling rights go with it.
pub proof fn lemma_turn_flips(x: u8, from: i8, to: i8, p: i8)
    by (bit_vector)
    ensures
        ((x ^ 1u8) & 1u8 == 1u8) == !(x & 1u8 == 1u8),
        (((x ^ 1u8) & !(castle_mask(from) | castle_mask(to))) & 1u8 == 1u8) == !(x & 1u8 == 1u8),
        (((x ^ 1u8) & !lost_rights(Color::White, p)) & 1u8 == 1u8) == !(x & 1u8 == 1u8),
        (((x ^ 1u8) & !lost_rights(Color::Black, p)) & 1u8 == 1u8) == !(x & 1u8 == 1u8),
{
}

impl BoardState {
    /// Whether the board can make the move without failing.
    pub fn can_make_move(&self, m: Option<Move>) -> (r: bool)
        requires
            self.wf(),
        ensures
            r == self.move_ok(m),
    {
        let m = match m {
            None => {
                return true;
            },
            Some(m) => m,
        };
        if !(0 <= m.from.0 && m.from.0 < 64 && 0 <= m.to.0 && m.to.0 < 64) {
            return false;
        }
        let p = match self.get_piece(m.from) {
            None => {
                return false;
            },
            Some(p) => p,
        };
        let pawn = p.kind == PieceKind::Pawn;
        if pawn && self.en_passant_square == Some(m.to) {
            let victim: i8 = match self.side_to_play() {
                Color::White => m.to.0 - 8,
                Color::Black => m.to.0 + 8,
            };
            if !(0 <= victim && victim < 64) {
                return false;
            }
        }
        let last_rank = m.to.0 < 8 || m.to.0 >= 56;
        if pawn && last_rank && m.promotion.is_none() {
            return false;
        }
        let kind = if pawn && last_rank {
            m.promotion.unwrap()
        } else {
            p.kind
        };
        if kind != PieceKind::King {
            return true;
        }
        let (right, rf, rt): (u8, i8, i8) = if m.from.0 == 4 && m.to.0 == 6 {
            (WHITE_CAN_OO, 7, 5)
        } else if m.from.0 == 4 && m.to.0 == 2 {
            (WHITE_CAN_OOO, 0, 3)
        } else if m.from.0 == 60 && m.to.0 == 62 {
            (BLACK_CAN_OO, 63, 61)
        } else if m.from.0 == 60 && m.to.0 == 58 {
            (BLACK_CAN_OOO, 56, 59)
        } else {
            return true;
        };
        proof {
            let base = self.base_writes(m);
            let w0 = seq![(m.from, None::<Piece>)];
            reveal_with_fuel(replay, 4);
            assert(w0.drop_last() =~= Seq::<(Square, Option<Piece>)>::empty());
            if self.is_ep_capture(m) {
                let w1 = w0 + seq![(Square(self.ep_victim(m) as i8), None::<Piece>)];
                assert(base =~= w1 + seq![(m.to, self.moved_piece(m))]);
                assert(base.drop_last() =~= w1);
                assert(w1.drop_last() =~= w0);
            } else {
                assert(base =~= w0 + seq![(m.to, self.moved_piece(m))]);
                assert(base.drop_last() =~= w0);
            }
            assert(replay(self.squares(), base)[rf as int] == self.at(rf as int));
            assert(replay(self.squares(), base)[rt as int] == self.at(rt as int));
        }
        let rook = self.get_piece(Square(rf));
        self.flags.contains(right) && rook.is_some() && rook.unwrap().kind == PieceKind::Rook && self.get_piece(Square(rt)).is_none()
    }

    /// Whether `all_moves` can list the moves of the side to play.
    pub fn can_list_moves(&self) -> (r: bool)
        requires
            self.wf(),
        ensures
            r == self.all_moves_ok(),
    {
        let turn = self.side_to_play();
        let mut i: i8 = 0;
        while i < 64
            invariant
                self.wf(),
                turn == self.turn(),
                0 <= i <= 64,
                forall|j: int|
                    0 <= j < i ==> match #[trigger] self.at(j) {
                        None => true,
                        Some(p) => p.color == self.turn() && p.kind == PieceKind::Pawn ==> if p.color == Color::White {
                            j / 8 < 7
                        } else {
                            j / 8 > 0
                        },
                    },
            decreases 64 - i,
        {
            if let Some(p) = self.get_piece(Square(i)) {
                if p.color == turn && p.kind == PieceKind::Pawn {
                    let stuck = match turn {
                        Color::White => i / 8 == 7,
                        Color::Black => i / 8 == 0,
                    };
                    if stuck {
                        return false;
                    }
                }
            }
            i = i + 1;
        }
        let own = |sq: i8| -> (b: bool)
            requires
                0 <= sq < 64,
            ensures
                b == self.own_piece_at(sq as int),
            {
                match self.get_piece(Square(sq)) {
                    None => false,
                    Some(p) => p.color == turn,
                }
            };
        match turn {
            Color::White => !(self.flags.contains(WHITE_CAN_OO) || self.flags.contains(WHITE_CAN_OOO)) || own(4),
            Color::Black => !(self.flags.contains(BLACK_CAN_OO) || self.flags.contains(BLACK_CAN_OOO)) || own(60),
        }
    }

    /// Whether the board is one whose sensible requested moves can be
    /// listed: only the side to play has pieces on it, and none of its pawns
    /// stands on the rank it would step off.
    pub fn can_list_sensible_moves(&self) -> (r: bool)
        requires
            self.wf(),
        ensures
            r == self.fog_board(),
    {
        let turn = self.side_to_play();
        let mut i: i8 = 0;
        while i < 64
            invariant
                self.wf(),
                turn == self.turn(),
                0 <= i <= 64,
                forall|j: int|
                    0 <= j < i ==> match #[trigger] self.at(j) {
                        None => true,
                        Some(p) => p.color == self.turn() && (p.kind == PieceKind::Pawn ==> if p.color
                            == Color::White {
                            j / 8 < 7
                        } else {
                            j / 8 > 0
                        }),
                    },
            decreases 64 - i,
        {
            if let Some(p) = self.get_piece(Square(i)) {
                if p.color != turn {
                    return false;
                }
                if p.kind == PieceKind::Pawn {
                    let stuck = match turn {
                        Color::White => i / 8 == 7,
                        Color::Black => i / 8 == 0,
                    };
                    if stuck {
                        return false;
                    }
                }
            }
            i = i + 1;
        }
        true
    }

    /// Where a sliding piece's requested move stops: the first square along
    /// its line that is the target or holds a piece; `None` if the walk
    /// leaves the board first.
    fn slide_stop_exec(&self, m: Move) -> (r: Option<i8>)
        requires
            self.wf(),
            m.valid(),
        ensures
            match r {
                None => self.slide_stop(m) is None,
                Some(i) => self.slide_stop(m) == Some(i as int),
            },
    {
        let mut r: i32 = (m.from.0 / 8) as i32;
        let mut f: i32 = (m.from.0 % 8) as i32;
        let dr = signum(m.to.0 / 8 - m.from.0 / 8) as i32;
        let df = signum(m.to.0 % 8 - m.from.0 % 8) as i32;
        let mut fuel: u32 = 64;
        while fuel > 0
            invariant
                self.wf(),
                m.valid(),
                0 <= fuel <= 64,
                -1 <= dr <= 1,
                -1 <= df <= 1,
                m.from.rank() - (64 - fuel) <= r <= m.from.rank() + (64 - fuel),
                m.from.file() - (64 - fuel) <= f <= m.from.file() + (64 - fuel),
                walk_stop(*self, r as int, f as int, dr as int, df as int, m.to.0 as int, fuel as nat) == self.slide_stop(m),
            decreases fuel,
        {
            let i = (r + dr) * 8 + f + df;
            if !(0 <= i && i < 64) {
                return None;
            }
            if i == m.to.0 as i32 || self.get_piece(Square(i as i8)).is_some() {
                return Some(i as i8);
            }
            r = r + dr;
            f = f + df;
            fuel = fuel - 1;
        }
        None
    }

    /// Whether a requested move can be turned into the move taken without
    /// failing.
    pub fn can_take(&self, m: Move) -> (r: bool)
        requires
            self.wf(),
        ensures
            r == self.taken_ok(m),
    {
        if !(0 <= m.from.0 && m.from.0 < 64 && 0 <= m.to.0 && m.to.0 < 64) {
            return false;
        }
        let p = match self.get_piece(m.from) {
            None => {
                return false;
            },
            Some(p) => p,
        };
        if p.color != self.side_to_play() {
            return false;
        }
        match p.kind {
            PieceKind::Bishop | PieceKind::Rook | PieceKind::Queen => self.slide_stop_exec(m).is_some(),
            PieceKind::King => {
                let from = m.from.0;
                if m.to.0 == from - 2 && from >= 2 && self.get_piece(Square(from - 1)).is_none() && self.get_piece(
                    Square(from - 2),
                ).is_none() {
                    from >= 3
                } else {
                    true
                }
            },
            _ => true,
        }
    }
}

} // verus!
