use vstd::prelude::*;
use crate::game::{Square, Piece, Color, PieceKind, BoardState, BoardFlags, Move, first_king, lemma_small_bits};
use crate::fast::{State, piece_value, color_of};
use crate::eval::material_value;
use crate::moves::{annotate, replay, writes_valid, lemma_replay_push, lemma_steps_push};

verus! {

/// One change of one square: the square, the piece it held, the piece it holds.
pub type Edit = (Square, Option<Piece>, Option<Piece>);

/// Something told of every change of a square of a board.
pub trait Obs {
    type Model;

    spec fn model(&self) -> Self::Model;

    /// Whether the observer can take in the change.
    spec fn step_ok(m: Self::Model, e: Edit) -> bool;

    /// What the observer becomes when told of the change.
    spec fn step(m: Self::Model, e: Edit) -> Self::Model;

    fn replace_piece(&mut self, sq: Square, old_piece: Option<Piece>, new_piece: Option<Piece>)
        requires
            sq.valid(),
            Self::step_ok(old(self).model(), (sq, old_piece, new_piece)),
        ensures
            final(self).model() == Self::step(old(self).model(), (sq, old_piece, new_piece)),
    ;
}

/// Whether the observer can take in the changes `edits`, one after another.
pub open spec fn steps_ok<O: Obs>(m: O::Model, edits: Seq<Edit>) -> bool
    decreases edits.len(),
{
    if edits.len() == 0 {
        true
    } else {
        O::step_ok(m, edits[0]) && steps_ok::<O>(O::step(m, edits[0]), edits.drop_first())
    }
}

/// What the observer becomes when told of the changes `edits`, one after another.
pub open spec fn steps<O: Obs>(m: O::Model, edits: Seq<Edit>) -> O::Model
    decreases edits.len(),
{
    if edits.len() == 0 {
        m
    } else {
        steps::<O>(O::step(m, edits[0]), edits.drop_first())
    }
}

/// An observer that ignores everything.
pub struct NullObs;

impl Obs for NullObs {
    type Model = ();

    open spec fn model(&self) -> () {
        ()
    }

    open spec fn step_ok(m: (), e: Edit) -> bool {
        true
    }

    open spec fn step(m: (), e: Edit) -> () {
        ()
    }

    fn replace_piece(&mut self, _sq: Square, _old: Option<Piece>, _new: Option<Piece>) {
    }
}

/// The null observer takes in every sequence of changes.
pub proof fn lemma_null_steps_ok(edits: Seq<Edit>)
    ensures
        steps_ok::<NullObs>((), edits),
    decreases edits.len(),
{
    if edits.len() > 0 {
        lemma_null_steps_ok(edits.drop_first());
    }
}

/// The value of a square's contents for white: a white piece counts for,
/// a black one against.
pub open spec fn signed_value(p: Option<Piece>) -> int {
    match p {
        None => 0,
        Some(p) => if p.color == Color::White {
            piece_value(p.kind)
        } else {
            -piece_value(p.kind)
        },
    }
}

/// The material balance of the first `n` squares, white minus black.
pub open spec fn balance(sq: Seq<Option<Piece>>, n: nat) -> int
    decreases n,
{
    if n == 0 {
        0
    } else {
        balance(sq, (n - 1) as nat) + signed_value(sq[n - 1])
    }
}

pub proof fn lemma_balance_update(sq: Seq<Option<Piece>>, q: int, v: Option<Piece>, n: nat)
    requires
        0 <= q < sq.len(),
        n <= sq.len(),
    ensures
        balance(sq.update(q, v), n) == balance(sq, n) + if q < n {
            signed_value(v) - signed_value(sq[q])
        } else {
            0
        },
    decreases n,
{
    if n > 0 {
        lemma_balance_update(sq, q, v, (n - 1) as nat);
    }
}

pub proof fn lemma_balance_bound(sq: Seq<Option<Piece>>, n: nat)
    ensures
        -10000 * n <= balance(sq, n) <= 10000 * n,
    decreases n,
{
    if n > 0 {
        lemma_balance_bound(sq, (n - 1) as nat);
    }
}

/// The edits can be taken back one by one from the last: each one's new
/// piece is what its square holds at that point.
pub open spec fn history_ok(edits: Seq<Edit>, sq: Seq<Option<Piece>>) -> bool
    decreases edits.len(),
{
    if edits.len() == 0 {
        true
    } else {
        let e = edits.last();
        &&& e.0.valid()
        &&& sq[e.0.0 as int] == e.2
        &&& history_ok(edits.drop_last(), sq.update(e.0.0 as int, e.1))
    }
}

/// The board after taking back, from the last, the edits beyond the first
/// `pos`.
pub open spec fn undo_to(edits: Seq<Edit>, sq: Seq<Option<Piece>>, pos: int) -> Seq<Option<Piece>>
    decreases edits.len(),
{
    if edits.len() == 0 || edits.len() <= pos {
        sq
    } else {
        let e = edits.last();
        undo_to(edits.drop_last(), sq.update(e.0.0 as int, e.1), pos)
    }
}

/// What taking back the edits made since a `push` needs.
#[derive(Clone, Copy, PartialEq, Eq, Structural, Debug)]
pub struct UndoState {
    pub edit_pos: usize,
    pub flags: BoardFlags,
    pub en_passant_square: Option<Square>,
}

/// The abstract state of a `StateObs`: whether it is consistent, the board
/// it holds, the edits it was told of and its undo stack.
pub struct ObsView {
    pub ok: bool,
    pub squares: Seq<Option<Piece>>,
    pub edits: Seq<Edit>,
    pub undo: Seq<UndoState>,
}

/// An observer that keeps the board as masks with its material balance,
/// and a log of the edits so that they can be taken back.
pub struct StateObs {
    pub undo_states: Vec<UndoState>,
    pub edits: Vec<Edit>,
    pub material: i32,
    pub boards: State,
}

impl StateObs {
    /// The masks are consistent, the balance is that of the board, the log
    /// can be taken back, and the undo stack points into the log in order.
    pub open spec fn ok(self) -> bool {
        &&& self.boards.boards_ok()
        &&& self.material == balance(self.boards.squares(), 64)
        &&& history_ok(self.edits@, self.boards.squares())
        &&& forall|i: int|
            0 <= i < self.undo_states.len() ==> (#[trigger] self.undo_states@[i]).edit_pos <= self.edits.len() && match self.undo_states@[i].en_passant_square {
                Some(sq) => sq.valid(),
                None => true,
            }
        &&& forall|i: int, j: int|
            0 <= i < j < self.undo_states.len() ==> (#[trigger] self.undo_states@[i]).edit_pos <= (
            #[trigger] self.undo_states@[j]).edit_pos
    }

    /// Changes `sq` from `old_piece` to `new_piece` in the masks and the
    /// balance.
    fn replace_piece_raw(&mut self, sq: Square, old_piece: Option<Piece>, new_piece: Option<Piece>)
        requires
            old(self).boards.boards_ok(),
            old(self).material == balance(old(self).boards.squares(), 64),
            sq.valid(),
            old(self).boards.squares()[sq.0 as int] == old_piece,
        ensures
            final(self).boards.boards_ok(),
            final(self).boards.squares() == old(self).boards.squares().update(sq.0 as int, new_piece),
            final(self).material == balance(final(self).boards.squares(), 64),
            final(self).edits == old(self).edits,
            final(self).undo_states == old(self).undo_states,
    {
        let q = sq.0 as u32;
        proof {
            lemma_balance_bound(old(self).boards.squares(), 64);
            lemma_balance_update(old(self).boards.squares(), sq.0 as int, None, 64);
        }
        if let Some(p) = old_piece {
            let c: usize = match p.color {
                Color::White => 0,
                Color::Black => 1,
            };
            proof {
                assert(color_of(c as int) == p.color);
                assert(PieceKind::from_index(p.kind.index()) == p.kind);
            }
            self.boards.toggle_piece(q, c, p.kind.to_int() as usize);
            match p.color {
                Color::White => {
                    self.material = self.material - material_value(p.kind);
                },
                Color::Black => {
                    self.material = self.material + material_value(p.kind);
                },
            }
        }
        let ghost mid = self.boards.squares();
        proof {
            assert(mid == old(self).boards.squares().update(sq.0 as int, None));
            lemma_balance_bound(mid, 64);
            lemma_balance_update(mid, sq.0 as int, new_piece, 64);
            assert(mid.update(sq.0 as int, new_piece) =~= old(self).boards.squares().update(sq.0 as int, new_piece));
        }
        if let Some(p) = new_piece {
            let c: usize = match p.color {
                Color::White => 0,
                Color::Black => 1,
            };
            proof {
                assert(color_of(c as int) == p.color);
                assert(PieceKind::from_index(p.kind.index()) == p.kind);
            }
            self.boards.toggle_piece(q, c, p.kind.to_int() as usize);
            match p.color {
                Color::White => {
                    self.material = self.material + material_value(p.kind);
                },
                Color::Black => {
                    self.material = self.material - material_value(p.kind);
                },
            }
        }
    }
}

impl Obs for StateObs {
    type Model = ObsView;

    open spec fn model(&self) -> ObsView {
        ObsView { ok: self.ok(), squares: self.boards.squares(), edits: self.edits@, undo: self.undo_states@ }
    }

    open spec fn step_ok(m: ObsView, e: Edit) -> bool {
        m.ok && e.0.valid() && m.squares[e.0.0 as int] == e.1
    }

    open spec fn step(m: ObsView, e: Edit) -> ObsView {
        ObsView { ok: m.ok, squares: m.squares.update(e.0.0 as int, e.2), edits: m.edits.push(e), undo: m.undo }
    }

    fn replace_piece(&mut self, sq: Square, old_piece: Option<Piece>, new_piece: Option<Piece>) {
        let ghost s0 = self.boards.squares();
        self.replace_piece_raw(sq, old_piece, new_piece);
        self.edits.push((sq, old_piece, new_piece));
        proof {
            let e = (sq, old_piece, new_piece);
            assert(self.edits@.drop_last() =~= old(self).edits@);
            assert(self.boards.squares().update(sq.0 as int, old_piece) =~= s0);
            assert(history_ok(self.edits@, self.boards.squares()));
            assert forall|i: int| 0 <= i < self.undo_states.len() implies (#[trigger] self.undo_states@[i]).edit_pos
                <= self.edits.len() && match self.undo_states@[i].en_passant_square {
                Some(sq) => sq.valid(),
                None => true,
            } by {
                assert(old(self).undo_states@[i] == self.undo_states@[i]);
            }
        }
    }
}

impl StateObs {
    /// An observer holding the board `b`, with empty log and undo stack.
    pub fn new(b: &BoardState) -> (obs: StateObs)
        requires
            b.wf(),
        ensures
            obs.model() == (ObsView { ok: true, squares: b.squares(), edits: Seq::empty(), undo: Seq::empty() }),
    {
        let boards = State { by_color: [0, 0], by_kind: [0, 0, 0, 0, 0, 0], flags: 0, ep_file: 8, hash: 0, keys: Vec::new() };
        proof {
            assert forall|q: int| 0 <= q < 64 implies #[trigger] boards.square_ok(q) by {
                crate::bitboard::lemma_bit_zero(q as u64);
            }
            assert forall|q: int| 0 <= q < 64 implies #[trigger] boards.squares()[q] is None by {
                crate::bitboard::lemma_bit_zero(q as u64);
            }
            assert forall|n: nat| n <= 64 implies #[trigger] balance(boards.squares(), n) == 0 by {
                lemma_balance_empty(boards.squares(), n);
            }
        }
        let mut obs = StateObs { undo_states: Vec::new(), edits: Vec::new(), material: 0, boards };
        let mut sq: i8 = 0;
        while sq < 64
            invariant
                0 <= sq <= 64,
                b.wf(),
                obs.boards.boards_ok(),
                obs.material == balance(obs.boards.squares(), 64),
                obs.edits@ == Seq::<Edit>::empty(),
                obs.undo_states@ == Seq::<UndoState>::empty(),
                forall|j: int| 0 <= j < sq ==> #[trigger] obs.boards.squares()[j] == b.squares()[j],
                forall|j: int| sq <= j < 64 ==> #[trigger] obs.boards.squares()[j] is None,
            decreases 64 - sq,
        {
            let p = b.get_piece(Square(sq));
            if p.is_some() {
                obs.replace_piece_raw(Square(sq), None, p);
            }
            sq = sq + 1;
        }
        assert(obs.boards.squares() =~= b.squares());
        obs
    }

    /// Records the board's flags and en passant square and the length of
    /// the log, for `pop`.
    pub fn push(&mut self, b: &BoardState)
        requires
            b.wf(),
        ensures
            final(self).model() == (ObsView {
                undo: old(self).model().undo.push(
                    UndoState {
                        edit_pos: old(self).edits.len(),
                        flags: b.flags,
                        en_passant_square: b.en_passant_square,
                    },
                ),
                ..old(self).model()
            }),
    {
        self.undo_states.push(
            UndoState { edit_pos: self.edits.len(), flags: b.flags, en_passant_square: b.en_passant_square },
        );
        proof {
            assert forall|i: int| 0 <= i < old(self).undo_states.len() implies old(self).undo_states@[i]
                == #[trigger] self.undo_states@[i] by {}
            if old(self).ok() {
                assert forall|i: int, j: int| 0 <= i < j < self.undo_states.len() implies (
                #[trigger] self.undo_states@[i]).edit_pos <= (#[trigger] self.undo_states@[j]).edit_pos by {
                    assert(old(self).undo_states@[i].edit_pos <= old(self).edits.len());
                }
            }
            if !old(self).ok() {
                assert(!self.ok()) by {
                    if self.ok() {
                        assert forall|i: int| 0 <= i < old(self).undo_states.len() implies (
                        #[trigger] old(self).undo_states@[i]).edit_pos <= old(self).edits.len() && match old(
                            self,
                        ).undo_states@[i].en_passant_square {
                            Some(sq) => sq.valid(),
                            None => true,
                        } by {
                            assert(self.undo_states@[i] == old(self).undo_states@[i]);
                        }
                        assert forall|i: int, j: int| 0 <= i < j < old(self).undo_states.len() implies (
                        #[trigger] old(self).undo_states@[i]).edit_pos <= (
                        #[trigger] old(self).undo_states@[j]).edit_pos by {
                            assert(self.undo_states@[i] == old(self).undo_states@[i]);
                            assert(self.undo_states@[j] == old(self).undo_states@[j]);
                        }
                    }
                }
            }
        }
    }

    /// Takes back the edits made since the last `push`, on the observer and
    /// on the board `b` it tracks, and restores the flags and en passant
    /// square recorded then.
    pub fn pop(&mut self, b: &mut BoardState)
        requires
            old(self).model().ok,
            old(self).undo_states.len() > 0,
            old(b).wf(),
            old(b).squares() == old(self).boards.squares(),
        ensures
            final(self).model() == (ObsView {
                ok: true,
                squares: undo_to(
                    old(self).edits@,
                    old(self).boards.squares(),
                    old(self).undo_states@.last().edit_pos as int,
                ),
                edits: old(self).edits@.take(old(self).undo_states@.last().edit_pos as int),
                undo: old(self).undo_states@.drop_last(),
            }),
            final(b).wf(),
            final(b).squares() == final(self).boards.squares(),
            final(b).flags == old(self).undo_states@.last().flags,
            final(b).en_passant_square == old(self).undo_states@.last().en_passant_square,
    {
        let us = self.undo_states.pop().unwrap();
        let ghost e0 = self.edits@;
        let ghost s0 = self.boards.squares();
        proof {
            assert(old(self).undo_states@[old(self).undo_states.len() - 1] == us);
        }
        while self.edits.len() > us.edit_pos
            invariant
                us.edit_pos <= self.edits.len(),
                b.wf(),
                b.squares() == self.boards.squares(),
                self.boards.boards_ok(),
                self.material == balance(self.boards.squares(), 64),
                history_ok(self.edits@, self.boards.squares()),
                self.edits@ == e0.take(self.edits.len() as int),
                self.edits.len() <= e0.len(),
                undo_to(e0, s0, us.edit_pos as int) == undo_to(self.edits@, self.boards.squares(), us.edit_pos as int),
                self.undo_states@ == old(self).undo_states@.drop_last(),
            decreases self.edits.len(),
        {
            let ghost before = self.edits@;
            let ghost sq0 = self.boards.squares();
            let (sq, old_piece, new_piece) = self.edits.pop().unwrap();
            proof {
                assert(before.last() == (sq, old_piece, new_piece));
                assert(self.edits@ == before.drop_last());
                assert(before.drop_last() =~= e0.take(self.edits.len() as int));
            }
            self.replace_piece_raw(sq, new_piece, old_piece);
            let mut null = NullObs;
            let new2 = b.replace_piece(sq, old_piece, &mut null);
            proof {
                assert(new2 == new_piece);
            }
        }
        proof {
            assert(self.edits@ =~= e0.take(us.edit_pos as int));
        }
        b.flags = us.flags;
        b.en_passant_square = us.en_passant_square;
        proof {
            assert(old(self).undo_states@[old(self).undo_states.len() - 1] == us);
            assert forall|i: int| 0 <= i < self.undo_states.len() implies (#[trigger] self.undo_states@[i]).edit_pos
                <= self.edits.len() && match self.undo_states@[i].en_passant_square {
                Some(sq) => sq.valid(),
                None => true,
            } by {
                assert(self.undo_states@[i] == old(self).undo_states@[i]);
                assert(old(self).undo_states@[i].edit_pos <= us.edit_pos);
            }
            assert forall|i: int, j: int| 0 <= i < j < self.undo_states.len() implies (
            #[trigger] self.undo_states@[i]).edit_pos <= (#[trigger] self.undo_states@[j]).edit_pos by {
                assert(self.undo_states@[i] == old(self).undo_states@[i]);
                assert(self.undo_states@[j] == old(self).undo_states@[j]);
            }
        }
    }
}

proof fn lemma_balance_empty(sq: Seq<Option<Piece>>, n: nat)
    requires
        n <= sq.len(),
        forall|j: int| 0 <= j < n ==> #[trigger] sq[j] is None,
    ensures
        balance(sq, n) == 0,
    decreases n,
{
    if n > 0 {
        lemma_balance_empty(sq, (n - 1) as nat);
    }
}

/// Telling the observer of the edits that writing `writes` makes to the
/// board it holds keeps it consistent and gives it the written board.
pub proof fn lemma_steps_state_obs(m: ObsView, writes: Seq<(Square, Option<Piece>)>)
    requires
        m.ok,
        m.squares.len() == 64,
        writes_valid(writes),
    ensures
        steps_ok::<StateObs>(m, annotate(m.squares, writes)),
        steps::<StateObs>(m, annotate(m.squares, writes)) == (ObsView {
            squares: replay(m.squares, writes),
            edits: m.edits + annotate(m.squares, writes),
            ..m
        }),
    decreases writes.len(),
{
    if writes.len() > 0 {
        let w = writes.drop_last();
        let x = writes.last();
        assert(writes_valid(w)) by {
            assert forall|i: int| 0 <= i < w.len() implies (#[trigger] w[i]).0.valid() by {
                assert(w[i] == writes[i]);
            }
        }
        assert(x.0.valid()) by {
            assert(writes[writes.len() - 1] == x);
        }
        lemma_steps_state_obs(m, w);
        assert(w.push(x) =~= writes);
        lemma_replay_push(m.squares, w, x);
        let e = (x.0, replay(m.squares, w)[x.0.0 as int], x.1);
        lemma_steps_push::<StateObs>(m, annotate(m.squares, w), e);
        assert(m.edits + annotate(m.squares, w).push(e) =~= (m.edits + annotate(m.squares, w)).push(e));
    } else {
        assert(m.edits + annotate(m.squares, writes) =~= m.edits);
    }
}

/// Taking back the edits that writing `writes` made, from the last, gives
/// back the board they were made on.
pub proof fn lemma_undo_replay(prefix: Seq<Edit>, s: Seq<Option<Piece>>, writes: Seq<(Square, Option<Piece>)>)
    requires
        s.len() == 64,
        writes_valid(writes),
    ensures
        undo_to(prefix + annotate(s, writes), replay(s, writes), prefix.len() as int) == s,
    decreases writes.len(),
{
    if writes.len() > 0 {
        let w = writes.drop_last();
        let x = writes.last();
        assert(writes_valid(w)) by {
            assert forall|i: int| 0 <= i < w.len() implies (#[trigger] w[i]).0.valid() by {
                assert(w[i] == writes[i]);
            }
        }
        assert(w.push(x) =~= writes);
        lemma_replay_push(s, w, x);
        crate::moves::lemma_replay_len(s, w);
        assert(x.0.valid()) by {
            assert(writes[writes.len() - 1] == x);
        }
        let e = (x.0, replay(s, w)[x.0.0 as int], x.1);
        let all = prefix + annotate(s, writes);
        assert(all == (prefix + annotate(s, w)).push(e));
        assert(all.drop_last() =~= prefix + annotate(s, w));
        assert(replay(s, w).update(x.0.0 as int, x.1).update(x.0.0 as int, e.1) =~= replay(s, w));
        lemma_undo_replay(prefix, s, w);
    } else {
        assert(prefix + annotate(s, writes) =~= prefix);
    }
}

/// The writes of a move that the board can make are all to squares of the
/// board.
pub proof fn lemma_move_writes_valid(b: BoardState, m: Option<Move>)
    requires
        b.wf(),
        b.move_ok(m),
    ensures
        writes_valid(b.move_writes(m)),
{
    match m {
        None => {},
        Some(mv) => {
            let base = b.base_writes(mv);
            assert(writes_valid(base));
            let c = b.castling(mv);
            if c != 0 {
                let (rf, rt) = BoardState::rook_squares(c);
                let rook = replay(b.squares(), base)[rf];
                let all = base + seq![(Square(rf as i8), None::<Piece>), (Square(rt as i8), rook)];
                assert forall|i: int| 0 <= i < all.len() implies (#[trigger] all[i]).0.valid() by {
                    if i < base.len() {
                        assert(all[i] == base[i]);
                    }
                }
            }
        },
    }
}

/// A move made with a `StateObs` told of it, then taken back by `pop`,
/// leaves the board as it was: taking back the edits of a move restores the
/// squares, and `pop` restores the flags and en passant square that `push`
/// recorded.
pub proof fn lemma_push_move_pop(b: BoardState, prefix: Seq<Edit>, m: Option<Move>)
    requires
        b.wf(),
        b.move_ok(m),
    ensures
        undo_to(prefix + b.move_edits(m), replay(b.squares(), b.move_writes(m)), prefix.len() as int) == b.squares(),
{
    lemma_move_writes_valid(b, m);
    lemma_undo_replay(prefix, b.squares(), b.move_writes(m));
}

/// A board together with an observer that tracks it.
pub struct BigState {
    pub board: BoardState,
    pub obs: StateObs,
}

impl BigState {
    pub open spec fn wf(self) -> bool {
        &&& self.board.wf()
        &&& self.obs.model().ok
        &&& self.obs.boards.squares() == self.board.squares()
    }

    pub fn new(board: BoardState) -> (r: BigState)
        requires
            board.wf(),
        ensures
            r.wf(),
            r.board == board,
            r.obs.edits@ == Seq::<Edit>::empty(),
            r.obs.undo_states@ == Seq::<UndoState>::empty(),
    {
        let obs = StateObs::new(&board);
        BigState { obs, board }
    }

    /// Records the point to which `pop` returns.
    pub fn push(&mut self)
        requires
            old(self).wf(),
        ensures
            final(self).wf(),
            final(self).board == old(self).board,
            final(self).obs.edits@ == old(self).obs.edits@,
            final(self).obs.undo_states@ == old(self).obs.undo_states@.push(
                UndoState {
                    edit_pos: old(self).obs.edits.len(),
                    flags: old(self).board.flags,
                    en_passant_square: old(self).board.en_passant_square,
                },
            ),
    {
        self.obs.push(&self.board);
    }

    /// Takes back everything since the last `push`.
    pub fn pop(&mut self)
        requires
            old(self).wf(),
            old(self).obs.undo_states.len() > 0,
        ensures
            final(self).wf(),
            final(self).board.squares() == undo_to(
                old(self).obs.edits@,
                old(self).board.squares(),
                old(self).obs.undo_states@.last().edit_pos as int,
            ),
            final(self).board.flags == old(self).obs.undo_states@.last().flags,
            final(self).board.en_passant_square == old(self).obs.undo_states@.last().en_passant_square,
            final(self).obs.edits@ == old(self).obs.edits@.take(old(self).obs.undo_states@.last().edit_pos as int),
            final(self).obs.undo_states@ == old(self).obs.undo_states@.drop_last(),
    {
        self.obs.pop(&mut self.board);
    }

    /// Makes the move on the board, telling the observer of each change.
    pub fn make_move(&mut self, m: Option<Move>) -> (capture_square: Option<Square>)
        requires
            old(self).wf(),
            old(self).board.move_ok(m),
        ensures
            final(self).wf(),
            final(self).board.squares() == replay(old(self).board.squares(), old(self).board.move_writes(m)),
            final(self).board.flags.bits == old(self).board.flags_after(m),
            final(self).board.en_passant_square == old(self).board.ep_after(m),
            capture_square == old(self).board.capture_after(m),
            final(self).obs.edits@ == old(self).obs.edits@ + old(self).board.move_edits(m),
            final(self).obs.undo_states@ == old(self).obs.undo_states@,
    {
        proof {
            lemma_move_writes_valid(self.board, m);
            lemma_steps_state_obs(self.obs.model(), self.board.move_writes(m));
        }
        self.board.make_move(m, &mut self.obs)
    }

    pub fn find_king(&self, color: Color) -> (r: Option<Square>)
        requires
            self.wf(),
        ensures
            r == first_king(self.board.squares(), color),
    {
        self.obs.boards.find_king(color)
    }

    /// Whether a piece of `color` attacks `to`.
    pub fn can_attack_to(&self, to: Square, color: Color) -> (r: bool)
        requires
            self.wf(),
            to.valid(),
        ensures
            r == self.obs.boards.attacked_by(to.0 as int, color),
    {
        self.obs.boards.can_attack_to(to, color)
    }

    /// The cheapest capture of `to` by `color`: by pawn, knight, bishop,
    /// rook, queen, promoting pawn, then king, from the lowest square.
    pub fn cheapest_attack_to(&self, to: Square, color: Color) -> (r: Option<Move>)
        requires
            self.wf(),
            to.valid(),
        ensures
            r is Some <==> self.obs.boards.attacked_by(to.0 as int, color),
            r matches Some(mv) ==> self.obs.boards.is_cheapest(color, mv.from.0 as int, to.0 as int) && Some(mv)
                == self.obs.boards.attack_move(color, mv.from.0 as int, to.0 as int).simple(),
    {
        match self.obs.boards.cheapest_attack_to(to, color) {
            None => None,
            Some(m) => {
                proof {
                    let s = self.obs.boards;
                    let x = m.0;
                    lemma_small_bits(0, 0, 0, x, 0);
                    let f = m.from() as int;
                    let t = to.0 as int;
                    assert(s.attacks_from(color, f, t));
                    assert(s.square_ok(f));
                    assert(s.square_ok(t));
                    let fk = s.kind_at(f);
                    let tk = if s.attack_class(color, f, t) == 5 {
                        4
                    } else {
                        fk
                    };
                    crate::fast::lemma_encode(f as u32, t as u32, fk, tk, s.opt_kind(t), 8);
                    crate::fast::lemma_encode(1, 1, 0, 0, 0, 8);
                    assert(m.to() == t);
                    if m == crate::fast::Move::null_spec() {
                        assert(f == 1 && t == 1);
                        assert(!s.attacks_from(color, 1, 1));
                    }
                }
                m.to_simple_move()
            },
        }
    }

    /// The cheapest capture of `to` by `color` found by trying every square:
    /// the lowest square among those whose attacker is worth least.
    pub fn cheapest_attack_to_naive(&self, to: Square, color: Color) -> (r: Option<Move>)
        requires
            self.wf(),
            to.valid(),
        ensures
            r is Some <==> self.obs.boards.attacked_by(to.0 as int, color),
            r matches Some(mv) ==> {
                &&& mv.to == to
                &&& mv.from.valid()
                &&& self.obs.boards.attacks_from(color, mv.from.0 as int, to.0 as int)
                &&& mv.promotion == if self.obs.boards.attack_class(color, mv.from.0 as int, to.0 as int) == 5 {
                    Some(PieceKind::Queen)
                } else {
                    None
                }
                &&& forall|f: int|
                    0 <= f < 64 && #[trigger] self.obs.boards.attacks_from(color, f, to.0 as int)
                        ==> self.obs.boards.attack_cost(color, mv.from.0 as int, to.0 as int)
                        <= self.obs.boards.attack_cost(color, f, to.0 as int)
            },
    {
        let s = &self.obs.boards;
        let promo_rank = match color {
            Color::White => to.0 >= 56,
            Color::Black => to.0 < 8,
        };
        let mut best: Option<(i8, i32)> = None;
        let mut f: i8 = 0;
        while f < 64
            invariant
                s.boards_ok(),
                to.valid(),
                0 <= f <= 64,
                promo_rank == crate::fast::promo_rank(color, to.0 as int),
                best matches Some((b, cost)) ==> 0 <= b < f && s.attacks_from(color, b as int, to.0 as int) && cost
                    == s.attack_cost(color, b as int, to.0 as int),
                best is None ==> forall|g: int| 0 <= g < f ==> !#[trigger] s.attacks_from(color, g, to.0 as int),
                best matches Some((b, cost)) ==> forall|g: int|
                    0 <= g < f && #[trigger] s.attacks_from(color, g, to.0 as int) ==> cost <= s.attack_cost(
                        color,
                        g,
                        to.0 as int,
                    ),
            decreases 64 - f,
        {
            if s.attacks_from_exec(color, f, to.0) {
                let p = s.get_piece(Square(f)).unwrap();
                let cost = if p.kind == PieceKind::Pawn && promo_rank {
                    1000
                } else {
                    material_value(p.kind)
                };
                let better = match best {
                    None => true,
                    Some((_, c)) => cost < c,
                };
                if better {
                    best = Some((f, cost));
                }
            }
            f = f + 1;
        }
        match best {
            None => None,
            Some((b, _)) => {
                let p = s.get_piece(Square(b)).unwrap();
                let promotion = if p.kind == PieceKind::Pawn && promo_rank {
                    Some(PieceKind::Queen)
                } else {
                    None
                };
                Some(Move { from: Square(b), to, promotion })
            },
        }
    }

    /// The cheapest capture, which is worth as little as the one found by
    /// trying every square.
    pub fn cheapest_attack_to_for_testing(&self, to: Square, color: Color) -> (r: Option<Move>)
        requires
            self.wf(),
            to.valid(),
        ensures
            r is Some <==> self.obs.boards.attacked_by(to.0 as int, color),
            r matches Some(mv) ==> self.obs.boards.is_cheapest(color, mv.from.0 as int, to.0 as int) && Some(mv)
                == self.obs.boards.attack_move(color, mv.from.0 as int, to.0 as int).simple(),
    {
        let naive = self.cheapest_attack_to_naive(to, color);
        let fast = self.cheapest_attack_to(to, color);
        proof {
            match (naive, fast) {
                (Some(m1), Some(m2)) => {
                    let s = self.obs.boards;
                    let t = to.0 as int;
                    crate::fast::lemma_class_cost(s, color, m2.from.0 as int, m1.from.0 as int, t);
                    assert(s.attack_cost(color, m1.from.0 as int, t) == s.attack_cost(color, m2.from.0 as int, t));
                },
                _ => {},
            }
        }
        fast
    }

    /// Whether `color` attacks `to`, which agrees with whether it has a
    /// cheapest capture there.
    pub fn can_attack_to_for_testing(&self, to: Square, color: Color) -> (r: bool)
        requires
            self.wf(),
            to.valid(),
        ensures
            r == self.obs.boards.attacked_by(to.0 as int, color),
    {
        let res = self.can_attack_to(to, color);
        let cheapest = self.cheapest_attack_to(to, color);
        assert(res == cheapest.is_some());
        res
    }
}

} // verus!
