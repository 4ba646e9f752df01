use vstd::prelude::*;
use crate::bitboard::{Pattern, attacks, between};
use crate::game::{PieceKind, Piece, Color, Square, BoardState, lemma_small_bits, first_king};
use crate::fast::{pawn_attack, promo_rank, piece_value, material_of, lemma_playable_after, State, UndoEntry, Move, after_squares, color_of, lemma_unmake_undoes_make, lemma_flags_after, lemma_filter_bits, castle_filter, lemma_encode, lemma_state_unique};

verus! {

/// The material value of a kind of piece, in hundredths of a pawn.
pub fn material_value(k: PieceKind) -> (v: i32)
    ensures
        v == piece_value(k),
{
    match k {
        PieceKind::Pawn => 100,
        PieceKind::Knight => 350,
        PieceKind::Bishop => 350,
        PieceKind::Rook => 525,
        PieceKind::Queen => 1000,
        PieceKind::King => 10000,
    }
}

/// The weight of one square of mobility of a kind of piece.
pub open spec fn mobility_weight(k: PieceKind) -> int {
    match k {
        PieceKind::Pawn => 0,
        PieceKind::Knight | PieceKind::Bishop => 3,
        PieceKind::Rook => 2,
        PieceKind::Queen => 1,
        PieceKind::King => 1,
    }
}

pub fn mobility_value(kind: PieceKind) -> (v: i32)
    ensures
        v == mobility_weight(kind),
{
    match kind {
        PieceKind::Pawn => 0,
        PieceKind::Knight | PieceKind::Bishop => 3,
        PieceKind::Rook => 2,
        PieceKind::Queen => 1,
        PieceKind::King => 1,
    }
}

/// How many of the first `n` squares hold a piece.
pub open spec fn occupied_count(sq: Seq<Option<Piece>>, n: nat) -> nat
    decreases n,
{
    if n == 0 {
        0
    } else {
        occupied_count(sq, (n - 1) as nat) + if sq[n - 1] is Some {
            1nat
        } else {
            0nat
        }
    }
}

proof fn lemma_count_update(sq: Seq<Option<Piece>>, q: int, v: Option<Piece>, n: nat)
    requires
        0 <= q < sq.len(),
        n <= sq.len(),
    ensures
        occupied_count(sq.update(q, v), n) == occupied_count(sq, n) + if q < n {
            (if v is Some {
                1int
            } else {
                0int
            }) - (if sq[q] is Some {
                1int
            } else {
                0int
            })
        } else {
            0int
        },
    decreases n,
{
    if n > 0 {
        lemma_count_update(sq, q, v, (n - 1) as nat);
    }
}

/// The flags after a move give the turn to the other side.
proof fn lemma_turn_after(s: State, m: Move)
    requires
        s.wf(),
    ensures
        s.flags_after(m) < 32,
        s.flags_after(m) >> 4 == 1 - s.side(),
{
    let a = castle_filter(m.from() as int);
    let b = castle_filter(m.to() as int);
    lemma_filter_bits(m.from() as int);
    lemma_filter_bits(m.to() as int);
    lemma_flags_after(s.flags, a, b, 1);
    lemma_small_bits(s.flags, a, b, 0, 0);
}

/// No piece stands strictly between squares `a` and `b` of the board `sq`.
pub open spec fn sq_clear(sq: Seq<Option<Piece>>, a: int, b: int) -> bool {
    forall|p: int| 0 <= p < 64 && #[trigger] between(a, b, p) ==> sq[p] is None
}

/// Whether the piece on `from` of the board `sq`, of `color`, attacks `to`.
pub open spec fn sq_attacks(sq: Seq<Option<Piece>>, color: Color, from: int, to: int) -> bool {
    match sq[from] {
        Some(p) => p.color == color && match p.kind {
            PieceKind::Pawn => pawn_attack(color, from, to),
            PieceKind::Knight => attacks(Pattern::Knight, from, to),
            PieceKind::Bishop => attacks(Pattern::Bishop, from, to) && sq_clear(sq, to, from),
            PieceKind::Rook => attacks(Pattern::Rook, from, to) && sq_clear(sq, to, from),
            PieceKind::Queen => (attacks(Pattern::Bishop, from, to) || attacks(Pattern::Rook, from, to)) && sq_clear(
                sq,
                to,
                from,
            ),
            PieceKind::King => attacks(Pattern::King, from, to),
        },
        None => false,
    }
}

/// The rank of the attacker on `from` of the board `sq` in the order in
/// which the cheapest attack on `to` is taken: pawns that do not promote,
/// knights, bishops, rooks, queens, pawns that promote, the king.
pub open spec fn sq_class(sq: Seq<Option<Piece>>, color: Color, from: int, to: int) -> int {
    match sq[from] {
        Some(p) => match p.kind {
            PieceKind::Pawn => if promo_rank(color, to) {
                5
            } else {
                0
            },
            PieceKind::Knight => 1,
            PieceKind::Bishop => 2,
            PieceKind::Rook => 3,
            PieceKind::Queen => 4,
            PieceKind::King => 6,
        },
        None => 7,
    }
}

/// The attack on `to` from `from` comes first: no attacker of a lower
/// class, nor of the same class on a lower square.
pub open spec fn sq_cheapest(sq: Seq<Option<Piece>>, color: Color, from: int, to: int) -> bool {
    &&& 0 <= from < 64
    &&& sq_attacks(sq, color, from, to)
    &&& forall|f: int|
        0 <= f < 64 && #[trigger] sq_attacks(sq, color, f, to) ==> sq_class(sq, color, from, to) < sq_class(
            sq,
            color,
            f,
            to,
        ) || (sq_class(sq, color, from, to) == sq_class(sq, color, f, to) && from <= f)
}

/// The board after the piece on `from` of `color` captures on `to`; a pawn
/// that reaches the last rank becomes a queen.
pub open spec fn captured_by(sq: Seq<Option<Piece>>, color: Color, from: int, to: int) -> Seq<Option<Piece>> {
    let kind = if sq_class(sq, color, from, to) == 5 {
        PieceKind::Queen
    } else {
        sq[from].unwrap().kind
    };
    sq.update(from, None).update(to, Some(Piece { color, kind }))
}

/// What `color`, to play on the board `sq`, wins by capturing on `t` with
/// its cheapest attacker, the other side answering in the same way, each
/// side stopping where going on would lose.
pub open spec fn exchange(sq: Seq<Option<Piece>>, t: int, color: Color) -> int
    decreases occupied_count(sq, 64),
{
    if exists|f: int| sq_cheapest(sq, color, f, t) {
        let f = choose|f: int| sq_cheapest(sq, color, f, t);
        let next = captured_by(sq, color, f, t);
        if occupied_count(next, 64) < occupied_count(sq, 64) {
            let gain = piece_value(sq[t].unwrap().kind) - exchange(next, t, color.other());
            if gain > 0 {
                gain
            } else {
                0
            }
        } else {
            0
        }
    } else {
        0
    }
}

/// The attacks on a square of a position are those of its board.
proof fn lemma_sq_bridge(s: State, color: Color, t: int)
    requires
        s.wf(),
        0 <= t < 64,
    ensures
        forall|f: int|
            0 <= f < 64 ==> (#[trigger] s.attacks_from(color, f, t) == sq_attacks(s.squares(), color, f, t)
                && s.attack_class(color, f, t) == sq_class(s.squares(), color, f, t)),
        forall|f: int| #[trigger] s.is_cheapest(color, f, t) == sq_cheapest(s.squares(), color, f, t),
{
    assert forall|f: int| 0 <= f < 64 implies (#[trigger] s.attacks_from(color, f, t) == sq_attacks(
        s.squares(),
        color,
        f,
        t,
    ) && s.attack_class(color, f, t) == sq_class(s.squares(), color, f, t)) by {
        assert(s.squares()[f] == s.at(f));
        assert(s.clear(t, f) == sq_clear(s.squares(), t, f)) by {
            assert forall|p: int| 0 <= p < 64 implies (s.squares()[p] is None) == !s.occupied(p) by {
                assert(s.squares()[p] == s.at(p));
            }
        }
    }
    assert forall|f: int| #[trigger] s.is_cheapest(color, f, t) == sq_cheapest(s.squares(), color, f, t) by {
        if 0 <= f < 64 {
            if s.is_cheapest(color, f, t) {
                assert forall|g: int|
                    0 <= g < 64 && #[trigger] sq_attacks(s.squares(), color, g, t) implies sq_class(
                        s.squares(),
                        color,
                        f,
                        t,
                    ) < sq_class(s.squares(), color, g, t) || (sq_class(s.squares(), color, f, t) == sq_class(
                        s.squares(),
                        color,
                        g,
                        t,
                    ) && f <= g) by {
                    assert(s.attacks_from(color, g, t));
                }
            }
            if sq_cheapest(s.squares(), color, f, t) {
                assert forall|g: int| 0 <= g < 64 && #[trigger] s.attacks_from(color, g, t) implies s.attack_class(
                    color,
                    f,
                    t,
                ) < s.attack_class(color, g, t) || (s.attack_class(color, f, t) == s.attack_class(color, g, t) && f
                    <= g) by {
                    assert(sq_attacks(s.squares(), color, g, t));
                }
            }
        }
    }
}

/// The cheapest attacker is unique.
proof fn lemma_cheapest_unique(sq: Seq<Option<Piece>>, color: Color, f: int, g: int, t: int)
    requires
        sq_cheapest(sq, color, f, t),
        sq_cheapest(sq, color, g, t),
    ensures
        f == g,
{
}

/// Static exchange evaluation: what `color`, to play, wins by capturing on
/// `sq` with its cheapest attacker again and again, each side stopping when
/// going on would lose.
pub fn see(state: &mut State, undo_log: &mut Vec<UndoEntry>, sq: Square, color: Color) -> (r: i32)
    requires
        old(state).wf(),
        sq.valid(),
        old(state).turn() == color,
        old(state).at(sq.0 as int) is Some,
        old(state).at(sq.0 as int).unwrap().color != color,
    ensures
        final(state).wf(),
        final(state).squares() == old(state).squares(),
        final(state).flags == old(state).flags,
        final(state).ep_file == old(state).ep_file,
        final(state).hash == old(state).hash,
        final(state).keys@ == old(state).keys@,
        final(state).keys == old(state).keys,
        final(undo_log)@ == old(undo_log)@,
        r == exchange(old(state).squares(), sq.0 as int, color),
        0 <= r <= piece_value(old(state).at(sq.0 as int).unwrap().kind),
        !old(state).attacked_by(sq.0 as int, color) ==> r == 0,
    decreases occupied_count(old(state).squares(), 64),
{
    let cap = state.get_piece(sq).unwrap();
    let am = state.cheapest_attack_to(sq, color);
    proof {
        lemma_sq_bridge(*state, color, sq.0 as int);
    }
    match am {
        None => {
            proof {
                if exists|f: int| sq_cheapest(state.squares(), color, f, sq.0 as int) {
                    let f = choose|f: int| sq_cheapest(state.squares(), color, f, sq.0 as int);
                    assert(state.attacks_from(color, f, sq.0 as int));
                }
            }
            0
        },
        Some(am) => {
            let ghost s0 = *state;
            let ghost log0 = undo_log@;
            let ghost c = s0.side() as int;
            proof {
                let f = am.from() as int;
                let t = sq.0 as int;
                assert(s0.attacks_from(color, f, t));
                assert(s0.square_ok(f));
                assert(s0.square_ok(t));
                let fk = s0.kind_at(f);
                let tk = if s0.attack_class(color, f, t) == 5 {
                    4
                } else {
                    fk
                };
                lemma_encode(f as u32, t as u32, fk, tk, s0.opt_kind(t), 8);
                assert(c == 0 || c == 1) by {
                    lemma_small_bits(s0.flags, 0, 0, 0, 0);
                }
                assert(color_of(c) == color);
                assert(s0.squares()[f] == s0.at(f));
                assert(s0.squares()[t] == s0.at(t));
                assert(s0.move_ok(am));
                lemma_unmake_undoes_make(s0.squares(), c, s0.ep_file as int, am);
                lemma_turn_after(s0, am);
            }
            state.make_move(am, undo_log);
            let ghost s1 = *state;
            proof {
                let sq0 = s0.squares();
                let moved = sq0.update(am.from() as int, None);
                lemma_count_update(sq0, am.from() as int, None, 64);
                lemma_count_update(moved, sq.0 as int, s1.squares()[sq.0 as int], 64);
                assert(s1.squares() == moved.update(sq.0 as int, s1.squares()[sq.0 as int]));
                assert(s1.squares()[sq.0 as int] == s1.at(sq.0 as int));
                assert(s1.turn() == color.other());
                let f = am.from() as int;
                let t = sq.0 as int;
                assert(sq_cheapest(sq0, color, f, t));
                let g = choose|g: int| sq_cheapest(sq0, color, g, t);
                lemma_cheapest_unique(sq0, color, f, g, t);
                assert(s0.squares()[f] == s0.at(f));
                assert(s1.squares() =~= captured_by(sq0, color, f, t));
            }
            let next = see(state, undo_log, sq, color.opposite());
            proof {
                assert(undo_log@ == log0.push(UndoEntry { hash: s0.hash, flags: s0.flags, ep_file: s0.ep_file }));
            }
            state.unmake_move(am, undo_log);
            proof {
                assert(undo_log@ =~= log0);
            }
            let gain = material_value(cap.kind) - next;
            if gain > 0 {
                gain
            } else {
                0
            }
        },
    }
}

/// The material balance for `color`.
pub fn standing_pat_material_only(state: &State, color: Color) -> (r: i32)
    requires
        state.wf(),
    ensures
        r == material_of(state.squares(), color) - material_of(state.squares(), color.other()),
        -64 * 12325 <= r <= 64 * 12325,
{
    state.material(color) - state.material(color.opposite())
}

/// The material balance plus the mobility balance for `color`: the score
/// of standing pat in the quiescence search.
pub fn standing_pat(state: &State, color: Color) -> (r: i32)
    requires
        state.wf(),
    ensures
        r == material_of(state.squares(), color) - material_of(state.squares(), color.other()) + state.mobility_upto(
            color,
            64,
        ) - state.mobility_upto(color.other(), 64),
        -64 * 12325 - 12288 <= r <= 64 * 12325 + 12288,
{
    standing_pat_material_only(state, color) + state.mobility(color) - state.mobility(color.opposite())
}

/// A slot of the transposition table: the hash of a position and the best
/// move found there.
#[derive(Clone, Copy)]
pub struct TtEntry {
    pub hash: u64,
    pub best_move: Move,
}

/// Counters of the search.
#[derive(Debug)]
pub struct Stats {
    pub nodes: i64,
    pub full_branch: i64,
    pub q_branch: i64,
    pub tt_add_exact: i64,
    pub tt_add_beta_cutoff: i64,
    pub tt_miss: i64,
    pub tt_use_best_move: i64,
    pub tt_best_move_not_found: i64,
}

impl Default for Stats {
    fn default() -> (r: Stats)
        ensures
            r.nodes == 0 && r.full_branch == 0 && r.q_branch == 0 && r.tt_add_exact == 0 && r.tt_add_beta_cutoff == 0
                && r.tt_miss == 0 && r.tt_use_best_move == 0 && r.tt_best_move_not_found == 0,
    {
        Stats {
            nodes: 0,
            full_branch: 0,
            q_branch: 0,
            tt_add_exact: 0,
            tt_add_beta_cutoff: 0,
            tt_miss: 0,
            tt_use_best_move: 0,
            tt_best_move_not_found: 0,
        }
    }
}

/// The number of slots of the transposition table, a power of two.
pub const TT_SIZE: usize = 1048576;

/// How deep the search may recurse; deeper, it stands pat on the material.
pub const MAX_PLY: usize = 128;

/// The scores that the search takes as bounds.
pub const SCORE_LIMIT: i32 = 1000000;

/// The state of a search: the position with its undo log, a stack of
/// generated moves, the transposition table, the depth reached, and the
/// principal variation found at each depth.
pub struct Ctx {
    pub state: State,
    pub undo_log: Vec<UndoEntry>,
    pub moves: Vec<Move>,
    pub tt: Vec<TtEntry>,
    pub ply: usize,
    pub pvs: Vec<Vec<crate::game::Move>>,
    pub print: bool,
    pub expensive_eval: bool,
    pub stats: Stats,
}

impl Ctx {
    /// A search context on `board`, with an empty table.
    pub fn new(board: BoardState) -> (ctx: Ctx)
        requires
            board.wf(),
        ensures
            ctx.state.wf(),
            ctx.state.squares() == board.squares(),
            ctx.state.flags == crate::fast::state_flags(board.flags.bits),
            ctx.state.ep_file == crate::fast::board_ep_file(board),
            ctx.state.hash == ctx.state.zobrist(),
            ctx.undo_log@ == Seq::<UndoEntry>::empty(),
            ctx.moves@ == Seq::<Move>::empty(),
            ctx.tt.len() == TT_SIZE,
            ctx.ply == 0,
            ctx.pvs@ == Seq::<Vec<crate::game::Move>>::empty(),
            !ctx.print,
            !ctx.expensive_eval,
    {
        Ctx {
            state: State::from_board(&board),
            undo_log: Vec::new(),
            moves: Vec::new(),
            tt: vec![TtEntry { hash: 0, best_move: Move::null() }; TT_SIZE],
            ply: 0,
            pvs: Vec::new(),
            print: false,
            expensive_eval: false,
            stats: Stats::default(),
        }
    }
}

impl Ctx {
    /// Puts `board` in place of the position, between searches.
    pub fn reset(&mut self, board: BoardState)
        requires
            board.wf(),
            old(self).ply == 0,
            old(self).undo_log.len() == 0,
            old(self).moves.len() == 0,
        ensures
            final(self).state.wf(),
            final(self).state.squares() == board.squares(),
            final(self).state.flags == crate::fast::state_flags(board.flags.bits),
            final(self).state.ep_file == crate::fast::board_ep_file(board),
            final(self).state.hash == final(self).state.zobrist(),
            final(self).undo_log@ == old(self).undo_log@,
            final(self).moves@ == old(self).moves@,
            final(self).tt@ == old(self).tt@,
            final(self).ply == 0,
            final(self).pvs@ == old(self).pvs@,
            final(self).print == old(self).print,
            final(self).expensive_eval == old(self).expensive_eval,
    {
        self.state = State::from_board(&board);
    }
}

/// Two states with the same board, flags and en passant file allow the same
/// moves.
proof fn lemma_same_position(a: State, b: State)
    requires
        a.playable(),
        b.wf(),
        a.squares() == b.squares(),
        a.flags == b.flags,
        a.ep_file == b.ep_file,
    ensures
        b.playable(),
        forall|q: int| 0 <= q < 64 ==> #[trigger] b.at(q) == a.at(q),
        forall|m: Move| #[trigger] a.gen_ok(m) ==> b.gen_ok(m),
        forall|m: Move| #[trigger] a.capture_ok(m) ==> b.capture_ok(m),
{
    assert forall|q: int| 0 <= q < 64 implies #[trigger] b.at(q) == a.at(q) by {
        assert(a.squares()[q] == b.squares()[q]);
    }
}

/// Sorts by decreasing rank, keeping the order of equal ranks.
fn sort_by_rank(v: &mut Vec<(Move, i32)>, Ghost(s): Ghost<State>)
    requires
        forall|k: int| 0 <= k < old(v).len() ==> s.capture_ok(#[trigger] old(v)@[k].0),
    ensures
        final(v).len() == old(v).len(),
        forall|k: int| 0 <= k < final(v).len() ==> s.capture_ok(#[trigger] final(v)@[k].0),
        forall|a: int, b: int| 0 <= a < b < final(v).len() ==> (#[trigger] final(v)@[a]).1 >= (#[trigger] final(v)@[b]).1,
        forall|p: (Move, i32)| #[trigger] final(v)@.contains(p) <==> old(v)@.contains(p),
{
    let mut i: usize = 1;
    if v.len() == 0 {
        return;
    }
    while i < v.len()
        invariant
            1 <= i <= v.len(),
            v.len() == old(v).len(),
            forall|k: int| 0 <= k < v.len() ==> s.capture_ok(#[trigger] v@[k].0),
            forall|a: int, b: int| 0 <= a < b < i ==> (#[trigger] v@[a]).1 >= (#[trigger] v@[b]).1,
            forall|p: (Move, i32)| #[trigger] v@.contains(p) <==> old(v)@.contains(p),
        decreases v.len() - i,
    {
        let mut j: usize = i;
        while j > 0 && v[j - 1].1 < v[j].1
            invariant
                0 <= j <= i < v.len(),
                v.len() == old(v).len(),
                forall|k: int| 0 <= k < v.len() ==> s.capture_ok(#[trigger] v@[k].0),
                forall|a: int, b: int| 0 <= a < b < j ==> (#[trigger] v@[a]).1 >= (#[trigger] v@[b]).1,
                forall|a: int, b: int| j < a < b <= i ==> (#[trigger] v@[a]).1 >= (#[trigger] v@[b]).1,
                forall|a: int, b: int| 0 <= a < j && j < b <= i ==> (#[trigger] v@[a]).1 >= (#[trigger] v@[b]).1,
                forall|b: int| j < b <= i ==> v@[j as int].1 > (#[trigger] v@[b]).1,
                forall|p: (Move, i32)| #[trigger] v@.contains(p) <==> old(v)@.contains(p),
            decreases j,
        {
            let x = v[j - 1];
            let y = v[j];
            let ghost before = v@;
            v.set(j - 1, y);
            v.set(j, x);
            proof {
                assert forall|k: int| 0 <= k < v.len() implies s.capture_ok(#[trigger] v@[k].0) by {
                    if k == j - 1 {
                        assert(v@[k] == before[j as int]);
                    } else if k == j {
                        assert(v@[k] == before[j - 1]);
                    } else {
                        assert(v@[k] == before[k]);
                    }
                }
                assert forall|p: (Move, i32)| #[trigger] v@.contains(p) <==> before.contains(p) by {
                    if v@.contains(p) {
                        let k = choose|k: int| 0 <= k < v@.len() && v@[k] == p;
                        if k == j - 1 {
                            assert(before[j as int] == p);
                        } else if k == j {
                            assert(before[j - 1] == p);
                        } else {
                            assert(before[k] == p);
                        }
                    }
                    if before.contains(p) {
                        let k = choose|k: int| 0 <= k < before.len() && before[k] == p;
                        if k == j - 1 {
                            assert(v@[j as int] == p);
                        } else if k == j {
                            assert(v@[j - 1] == p);
                        } else {
                            assert(v@[k] == p);
                        }
                    }
                }
            }
            j = j - 1;
        }
        i = i + 1;
    }
}

/// Two states hold the same position.
pub open spec fn same_position(a: State, b: State) -> bool {
    &&& a.squares() == b.squares()
    &&& a.flags == b.flags
    &&& a.ep_file == b.ep_file
    &&& a.hash == b.hash
    &&& a.keys@ == b.keys@
    &&& a.keys == b.keys
}

/// Plays `m`, asks `f` about the position, and takes `m` back: the facts a
/// caller needs to do so.
proof fn lemma_make_unmake_ok(s0: State, m: Move)
    requires
        s0.playable(),
        s0.gen_ok(m),
    ensures
        lemma_facts(s0, m),
{
    let c = s0.side() as int;
    assert(c == 0 || c == 1) by {
        lemma_small_bits(s0.flags, 0, 0, 0, 0);
    }
    lemma_unmake_undoes_make(s0.squares(), c, s0.ep_file as int, m);
    lemma_turn_after(s0, m);
}

/// What playing a move that fits the position gives: it can be taken back,
/// the turn passes, and the mover stands on the to square.
pub open spec fn lemma_facts(s0: State, m: Move) -> bool {
    let c = s0.side() as int;
    &&& 0 <= c < 2
    &&& crate::fast::unmake_ok_sq(after_squares(s0.squares(), c, s0.ep_file as int, m), c, s0.ep_file as int, m)
    &&& crate::fast::before_squares(after_squares(s0.squares(), c, s0.ep_file as int, m), c, s0.ep_file as int, m)
        == s0.squares()
    &&& s0.flags_after(m) < 32
    &&& s0.flags_after(m) >> 4 == 1 - s0.side()
}

/// Ranks the captures from `start` on by what they win after the static
/// exchange on their square, drops those that lose, and puts the others
/// back best first.
/// Some entry of `v` ranks move `m`.
pub open spec fn has_move(v: Seq<(Move, i32)>, m: Move) -> bool {
    exists|k: int| 0 <= k < v.len() && (#[trigger] v[k]).0 == m
}

fn rank_captures(ctx: &mut Ctx, start: usize, color: Color)
    requires
        old(ctx).state.playable(),
        old(ctx).state.turn() == color,
        start <= old(ctx).moves.len(),
        forall|k: int| start <= k < old(ctx).moves.len() ==> old(ctx).state.capture_ok(#[trigger] old(ctx).moves@[k])
            && old(ctx).state.generated_capture(old(ctx).moves@[k]),
    ensures
        same_position(final(ctx).state, old(ctx).state),
        final(ctx).state.wf(),
        final(ctx).undo_log@ == old(ctx).undo_log@,
        final(ctx).moves.len() >= start,
        final(ctx).moves@.subrange(0, start as int) == old(ctx).moves@.subrange(0, start as int),
        forall|k: int| start <= k < final(ctx).moves.len() ==> old(ctx).state.capture_ok(#[trigger] final(ctx).moves@[k]),
        forall|m: Move|
            #[trigger] final(ctx).moves@.subrange(start as int, final(ctx).moves.len() as int).contains(m) <==> (old(ctx).moves@.subrange(start as int, old(ctx).moves.len() as int).contains(m) && good_capture(old(ctx).state, m)),
        final(ctx).tt@ == old(ctx).tt@,
        final(ctx).ply == old(ctx).ply,
        final(ctx).pvs@ == old(ctx).pvs@,
        final(ctx).print == old(ctx).print,
        final(ctx).expensive_eval == old(ctx).expensive_eval,
{
    let ghost s0 = ctx.state;
    let ghost input = ctx.moves@;
    let mut ranked: Vec<(Move, i32)> = Vec::new();
    let mut i: usize = start;
    while i < ctx.moves.len()
        invariant
            s0.playable(),
            s0.turn() == color,
            start <= i <= ctx.moves.len(),
            ctx.moves@ == old(ctx).moves@,
            input == old(ctx).moves@,
            forall|k: int| start <= k < ctx.moves.len() ==> s0.capture_ok(#[trigger] ctx.moves@[k])
                && s0.generated_capture(ctx.moves@[k]),
            same_position(ctx.state, s0),
            ctx.state.wf(),
            ctx.undo_log@ == old(ctx).undo_log@,
            forall|k: int| 0 <= k < ranked.len() ==> s0.capture_ok(#[trigger] ranked@[k].0),
            forall|m: Move|
                #[trigger] has_move(ranked@, m) <==> (input.subrange(start as int, i as int).contains(m) && good_capture(
                    s0,
                    m,
                )),
            s0 == old(ctx).state,
            ctx.tt@ == old(ctx).tt@,
            ctx.ply == old(ctx).ply,
            ctx.pvs@ == old(ctx).pvs@,
            ctx.print == old(ctx).print,
            ctx.expensive_eval == old(ctx).expensive_eval,
        decreases ctx.moves.len() - i,
    {
        let m = ctx.moves[i];
        let ghost cur = ctx.state;
        proof {
            assert(s0.capture_ok(ctx.moves@[i as int]));
            lemma_same_position(s0, cur);
            lemma_make_unmake_ok(cur, m);
            lemma_small_bits(0, 0, 0, m.0, 0);
            assert(cur.squares()[m.to() as int] == cur.at(m.to() as int));
            assert(s0.squares()[m.to() as int] == s0.at(m.to() as int));
        }
        let to = m.to_sq();
        let cap2 = ctx.state.get_piece(to).unwrap();
        ctx.state.make_move(m, &mut ctx.undo_log);
        let ghost after = ctx.state.squares();
        proof {
            assert(ctx.state.squares()[m.to() as int] == ctx.state.at(m.to() as int));
            assert(ctx.state.turn() == color.other());
        }
        let gain = see(&mut ctx.state, &mut ctx.undo_log, to, color.opposite());
        ctx.state.unmake_move(m, &mut ctx.undo_log);
        proof {
            assert(ctx.undo_log@ =~= old(ctx).undo_log@);
        }
        let rank = material_value(cap2.kind) - gain;
        let ghost before = ranked@;
        proof {
            assert(s0.generated_capture(m));
            assert(after == after_squares(s0.squares(), s0.side() as int, s0.ep_file as int, m));
            assert((rank >= 0) == good_capture(s0, m));
            assert(input.subrange(start as int, i as int + 1) =~= input.subrange(start as int, i as int).push(m));
        }
        if rank >= 0 {
            ranked.push((m, rank));
        }
        proof {
            assert forall|x: Move| #[trigger] has_move(ranked@, x) <==> (input.subrange(start as int, i as int + 1).contains(x)
                && good_capture(s0, x)) by {
                let pre = input.subrange(start as int, i as int);
                if has_move(ranked@, x) {
                    let k = choose|k: int| 0 <= k < ranked@.len() && (#[trigger] ranked@[k]).0 == x;
                    if k < before.len() {
                        assert(before[k] == ranked@[k]);
                        assert(has_move(before, x));
                        let w = choose|w: int| 0 <= w < pre.len() && pre[w] == x;
                        assert(pre.push(m)[w] == x);
                    } else {
                        assert(pre.push(m)[pre.len() as int] == x);
                    }
                }
                if input.subrange(start as int, i as int + 1).contains(x) && good_capture(s0, x) {
                    let w = choose|w: int| 0 <= w < pre.len() + 1 && pre.push(m)[w] == x;
                    if w < pre.len() {
                        assert(pre[w] == x);
                        assert(pre.contains(x));
                        assert(has_move(before, x));
                        let k = choose|k: int| 0 <= k < before.len() && (#[trigger] before[k]).0 == x;
                        assert(ranked@[k] == before[k]);
                    } else {
                        assert(ranked@[before.len() as int].0 == x);
                    }
                }
            }
        }
        i = i + 1;
    }
    let ghost unsorted = ranked@;
    sort_by_rank(&mut ranked, Ghost(s0));
    proof {
        assert forall|x: Move| #[trigger] has_move(ranked@, x) <==> has_move(unsorted, x) by {
            if has_move(ranked@, x) {
                let k = choose|k: int| 0 <= k < ranked@.len() && (#[trigger] ranked@[k]).0 == x;
                assert(ranked@.contains(ranked@[k]));
                assert(unsorted.contains(ranked@[k]));
                let k2 = choose|k2: int| 0 <= k2 < unsorted.len() && unsorted[k2] == ranked@[k];
                assert(unsorted[k2].0 == x);
            }
            if has_move(unsorted, x) {
                let k = choose|k: int| 0 <= k < unsorted.len() && (#[trigger] unsorted[k]).0 == x;
                assert(unsorted.contains(unsorted[k]));
                assert(ranked@.contains(unsorted[k]));
                let k2 = choose|k2: int| 0 <= k2 < ranked@.len() && ranked@[k2] == unsorted[k];
                assert(ranked@[k2].0 == x);
            }
        }
    }
    ctx.moves.truncate(start);
    let mut k: usize = 0;
    while k < ranked.len()
        invariant
            k <= ranked.len(),
            ctx.moves.len() == start + k,
            ctx.moves@.subrange(0, start as int) == old(ctx).moves@.subrange(0, start as int),
            forall|x: int| start <= x < ctx.moves.len() ==> s0.capture_ok(#[trigger] ctx.moves@[x]),
            forall|x: int| start <= x < ctx.moves.len() ==> #[trigger] ctx.moves@[x] == ranked@[x - start].0,
            forall|x: int| 0 <= x < ranked.len() ==> s0.capture_ok(#[trigger] ranked@[x].0),
            same_position(ctx.state, s0),
            ctx.state.wf(),
            s0 == old(ctx).state,
            ctx.undo_log@ == old(ctx).undo_log@,
            ctx.tt@ == old(ctx).tt@,
            ctx.ply == old(ctx).ply,
            ctx.pvs@ == old(ctx).pvs@,
            ctx.print == old(ctx).print,
            ctx.expensive_eval == old(ctx).expensive_eval,
        decreases ranked.len() - k,
    {
        let ghost before = ctx.moves@;
        ctx.moves.push(ranked[k].0);
        proof {
            assert(ctx.moves@.subrange(0, start as int) =~= before.subrange(0, start as int));
            assert(s0.capture_ok(ranked@[k as int].0));
        }
        k = k + 1;
    }
    proof {
        let out = ctx.moves@.subrange(start as int, ctx.moves.len() as int);
        assert forall|x: Move| #[trigger] out.contains(x) <==> has_move(ranked@, x) by {
            if out.contains(x) {
                let w = choose|w: int| 0 <= w < out.len() && out[w] == x;
                assert(ctx.moves@[start + w] == ranked@[w].0);
            }
            if has_move(ranked@, x) {
                let w = choose|w: int| 0 <= w < ranked@.len() && (#[trigger] ranked@[w]).0 == x;
                assert(ctx.moves@[start + w] == ranked@[w].0);
                assert(out[w] == x);
            }
        }
    }
}

/// `v` brought into `[alpha, beta]`.
pub open spec fn clamped(v: int, alpha: int, beta: int) -> int {
    if v < alpha {
        alpha
    } else if v > beta {
        beta
    } else {
        v
    }
}

/// The score of standing pat for the side to play: the material balance,
/// plus the mobility balance where `expensive`.
pub open spec fn static_value(s: State, expensive: bool) -> int {
    let c = s.turn();
    material_of(s.squares(), c) - material_of(s.squares(), c.other()) + if expensive {
        s.mobility_upto(c, 64) - s.mobility_upto(c.other(), 64)
    } else {
        0
    }
}

/// The position after the side to play of `s` plays `m`.
pub open spec fn child(s: State, m: Move) -> State {
    choose|t: State|
        t.wf() && t.squares() == after_squares(s.squares(), s.side() as int, s.ep_file as int, m) && t.flags
            == s.flags_after(m) && t.ep_file == m.ep_file() && t.hash == s.hash_after(m) && t.keys == s.keys
}

/// A capture that does not lose material once the static exchange on its
/// square is played out.
pub open spec fn good_capture(s: State, m: Move) -> bool {
    &&& s.generated_capture(m)
    &&& piece_value(s.at(m.to() as int).unwrap().kind) - exchange(
        after_squares(s.squares(), s.side() as int, s.ep_file as int, m),
        m.to() as int,
        s.turn().other(),
    ) >= 0
}

/// The moves searched from `s`: in the quiescence search the captures that
/// do not lose material, else all moves.
pub open spec fn candidate(s: State, m: Move, quiet: bool) -> bool {
    if quiet {
        good_capture(s, m)
    } else {
        s.generated(m)
    }
}

/// The depth to which the moves of a search to `depth` are searched.
pub open spec fn child_depth(depth: int) -> int {
    if depth > 1 {
        depth - 1
    } else {
        0
    }
}

/// The scores of the moves from `s` for its side to play: the negated
/// score of the position each leads to, searched to `depth` one ply
/// further.
pub open spec fn move_values(s: State, depth: int, ply: int, ex: bool) -> spec_fn(Move) -> int
    decreases MAX_PLY - ply, 0int,
{
    |m: Move|
        if ply < MAX_PLY {
            -negamax(child(s, m), depth, ply + 1, ex)
        } else {
            0
        }
}

/// The score of `m` for the side to play of `s`.
pub open spec fn move_value(s: State, m: Move, depth: int, ply: int, ex: bool) -> int {
    move_values(s, depth, ply, ex)(m)
}

/// The moves searched from `s`.
pub open spec fn candidates(s: State, quiet: bool) -> spec_fn(Move) -> bool {
    |m: Move| candidate(s, m, quiet)
}

/// `v` is the value of some move that `pred` admits, and no such move has
/// a higher one.
pub open spec fn is_max(pred: spec_fn(Move) -> bool, val: spec_fn(Move) -> int, v: int) -> bool {
    &&& exists|m: Move| #[trigger] pred(m) && val(m) == v
    &&& forall|m: Move| #[trigger] pred(m) ==> val(m) <= v
}

/// The highest value of a move that `pred` admits, or `floor` where none
/// is higher.
pub open spec fn max_of(pred: spec_fn(Move) -> bool, val: spec_fn(Move) -> int, floor: int) -> int {
    if exists|v: int| #[trigger] is_max(pred, val, v) && v > floor {
        choose|v: int| #[trigger] is_max(pred, val, v) && v > floor
    } else {
        floor
    }
}

/// The best score among the searched moves, or `floor` where none scores
/// higher.
pub open spec fn best_value(s: State, depth: int, ply: int, ex: bool, quiet: bool, floor: int) -> int
    decreases MAX_PLY - ply, 1int,
{
    max_of(candidates(s, quiet), move_values(s, depth, ply, ex), floor)
}

/// The score of position `s` at `ply` searched to `depth`, for the side to
/// play: at the ply limit the material balance; with its own king gone a
/// loss, with the other king gone a win, with the other king attacked a win
/// a ply later, each nearer the root scoring higher; at depth 0, not in
/// check, the best of standing pat and the captures that do not lose
/// material; else the best of all moves, each searched a ply less deep.
pub open spec fn negamax(s: State, depth: int, ply: int, ex: bool) -> int
    decreases MAX_PLY - ply, 2int,
{
    let c = s.turn();
    let sq = s.squares();
    if ply >= MAX_PLY {
        material_of(sq, c) - material_of(sq, c.other())
    } else if first_king(sq, c) is None {
        -10000 + ply
    } else if first_king(sq, c.other()) is None {
        10000 - ply
    } else if s.attacked_by(first_king(sq, c.other()).unwrap().0 as int, c) {
        10000 - 1 - ply
    } else if depth == 0 && !s.attacked_by(first_king(sq, c).unwrap().0 as int, c.other()) {
        best_value(s, 0, ply, ex, true, static_value(s, ex))
    } else {
        best_value(s, child_depth(depth), ply, ex, false, -SCORE_LIMIT - 1)
    }
}

/// A search to depth `d` of a position that no king capture decides, and
/// that is not a quiet position at depth 0, scores every move of the side
/// to play by the negated score of the position after it searched one ply
/// less deep, `e` (to depth 0 from depth 0 or below): a search to depth 2
/// searches all replies, not only the captures.
pub proof fn lemma_search_one_ply_less(s: State, d: int, e: int, ply: int, ex: bool)
    requires
        0 <= ply < MAX_PLY,
        e == if d >= 1 { d - 1 } else { 0 },
        first_king(s.squares(), s.turn()) is Some,
        first_king(s.squares(), s.turn().other()) is Some,
        !s.attacked_by(first_king(s.squares(), s.turn().other()).unwrap().0 as int, s.turn()),
        d != 0 || s.attacked_by(first_king(s.squares(), s.turn()).unwrap().0 as int, s.turn().other()),
    ensures
        negamax(s, d, ply, ex) == best_value(s, e, ply, ex, false, -SCORE_LIMIT - 1),
        forall|m: Move| #[trigger] move_value(s, m, e, ply, ex) == -negamax(child(s, m), e, ply + 1, ex),
{
    assert(child_depth(d) == e);
}

/// The scores that decide a search at once: with its own king gone the
/// side to play has lost, with the other king gone or attacked it has won,
/// each nearer the root scoring further from zero; and at depth 0, not in
/// check, it may stand pat, so the score is at least the static score, and
/// only captures that do not lose material are searched, to depth 0.
pub proof fn lemma_search_decided(s: State, d: int, ply: int, ex: bool)
    requires
        0 <= ply < MAX_PLY,
    ensures
        first_king(s.squares(), s.turn()) is None ==> negamax(s, d, ply, ex) == -10000 + ply,
        first_king(s.squares(), s.turn()) is Some && first_king(s.squares(), s.turn().other()) is None ==> negamax(
            s,
            d,
            ply,
            ex,
        ) == 10000 - ply,
        first_king(s.squares(), s.turn()) is Some && first_king(s.squares(), s.turn().other()) is Some
            && s.attacked_by(first_king(s.squares(), s.turn().other()).unwrap().0 as int, s.turn()) ==> negamax(
            s,
            d,
            ply,
            ex,
        ) == 10000 - 1 - ply,
        first_king(s.squares(), s.turn()) is Some && first_king(s.squares(), s.turn().other()) is Some
            && !s.attacked_by(first_king(s.squares(), s.turn().other()).unwrap().0 as int, s.turn()) && d == 0
            && !s.attacked_by(first_king(s.squares(), s.turn()).unwrap().0 as int, s.turn().other()) ==> negamax(
            s,
            d,
            ply,
            ex,
        ) == best_value(s, 0, ply, ex, true, static_value(s, ex)) && negamax(s, d, ply, ex) >= static_value(s, ex),
{
    lemma_max_of_floor(s, 0, ply, ex, true, static_value(s, ex));
}

/// The quiescence search looks only at moves that take a piece of the
/// other side, and only where the exchange on that square does not lose
/// material.
pub proof fn lemma_quiet_moves_capture(s: State, m: Move)
    requires
        s.wf(),
        candidate(s, m, true),
    ensures
        s.at(m.to() as int) is Some,
        s.at(m.to() as int).unwrap().color != s.turn(),
        s.at(m.from() as int) is Some,
        s.at(m.from() as int).unwrap().color == s.turn(),
        piece_value(s.at(m.to() as int).unwrap().kind) >= exchange(
            after_squares(s.squares(), s.side() as int, s.ep_file as int, m),
            m.to() as int,
            s.turn().other(),
        ),
{
    assert(s.squares()[m.to() as int] == s.at(m.to() as int));
    assert(s.squares()[m.from() as int] == s.at(m.from() as int));
    let c = s.side() as int;
    assert(c == 0 || c == 1) by {
        lemma_small_bits(s.flags, 0, 0, 0, 0);
    }
}

/// The best score is at least the score to beat.
proof fn lemma_max_of_floor(s: State, depth: int, ply: int, ex: bool, quiet: bool, floor: int)
    ensures
        best_value(s, depth, ply, ex, quiet, floor) >= floor,
{
}

/// A search of `s` to `depth` goes into the quiescence search: depth 0,
/// the king of `color` on `king` not in check.
pub open spec fn is_quiet(s: State, depth: int, king: int, color: Color) -> bool {
    depth == 0 && !s.attacked_by(king, color.other())
}

/// The best of `floor` and the scores of the moves of `l`.
pub open spec fn seq_best(s: State, l: Seq<Move>, depth: int, ply: int, ex: bool, floor: int) -> int
    decreases l.len(),
{
    if l.len() == 0 {
        floor
    } else {
        let b = seq_best(s, l.drop_last(), depth, ply, ex, floor);
        let v = move_value(s, l.last(), depth, ply, ex);
        if v > b {
            v
        } else {
            b
        }
    }
}

proof fn lemma_seq_best(s: State, l: Seq<Move>, depth: int, ply: int, ex: bool, floor: int)
    ensures
        seq_best(s, l, depth, ply, ex, floor) >= floor,
        forall|i: int| 0 <= i < l.len() ==> move_value(s, #[trigger] l[i], depth, ply, ex) <= seq_best(s, l, depth, ply, ex, floor),
        seq_best(s, l, depth, ply, ex, floor) == floor || exists|i: int|
            0 <= i < l.len() && move_value(s, #[trigger] l[i], depth, ply, ex) == seq_best(s, l, depth, ply, ex, floor),
    decreases l.len(),
{
    if l.len() > 0 {
        let d = l.drop_last();
        lemma_seq_best(s, d, depth, ply, ex, floor);
        assert forall|i: int| 0 <= i < l.len() implies move_value(s, #[trigger] l[i], depth, ply, ex) <= seq_best(
            s,
            l,
            depth,
            ply,
            ex,
            floor,
        ) by {
            if i < l.len() - 1 {
                assert(d[i] == l[i]);
            }
        }
        if seq_best(s, l, depth, ply, ex, floor) != floor {
            if seq_best(s, l, depth, ply, ex, floor) == move_value(s, l.last(), depth, ply, ex) {
                assert(l[l.len() - 1] == l.last());
            } else {
                let i = choose|i: int|
                    0 <= i < d.len() && move_value(s, #[trigger] d[i], depth, ply, ex) == seq_best(s, d, depth, ply, ex, floor);
                assert(d[i] == l[i]);
            }
        }
    }
}

/// Where `l` holds exactly the searched moves, their best score is the
/// best over `l`.
proof fn lemma_best_is_seq_best(s: State, l: Seq<Move>, depth: int, ply: int, ex: bool, quiet: bool, floor: int)
    requires
        forall|m: Move| #[trigger] candidate(s, m, quiet) <==> l.contains(m),
    ensures
        best_value(s, depth, ply, ex, quiet, floor) == seq_best(s, l, depth, ply, ex, floor),
{
    lemma_seq_best(s, l, depth, ply, ex, floor);
    let b = seq_best(s, l, depth, ply, ex, floor);
    let pred = candidates(s, quiet);
    let val = move_values(s, depth, ply, ex);
    assert(best_value(s, depth, ply, ex, quiet, floor) == max_of(pred, val, floor));
    assert forall|m: Move| #[trigger] pred(m) implies val(m) <= b by {
        let i = choose|i: int| 0 <= i < l.len() && l[i] == m;
    }
    if exists|m: Move| #[trigger] pred(m) && val(m) > floor {
        let m = choose|m: Move| #[trigger] pred(m) && val(m) > floor;
        assert(val(m) <= b);
        assert(b != floor);
        let i = choose|i: int| 0 <= i < l.len() && move_value(s, #[trigger] l[i], depth, ply, ex) == b;
        assert(l.contains(l[i]));
        assert(pred(l[i]));
        assert(is_max(pred, val, b) && b > floor);
        let v = max_of(pred, val, floor);
        assert(is_max(pred, val, v));
        let w = choose|w: Move| #[trigger] pred(w) && val(w) == v;
        assert(v <= b);
        assert(val(l[i]) <= v);
    } else {
        if b != floor {
            let i = choose|i: int| 0 <= i < l.len() && move_value(s, #[trigger] l[i], depth, ply, ex) == b;
            assert(l.contains(l[i]));
            assert(pred(l[i]));
        }
        if exists|v: int| #[trigger] is_max(pred, val, v) && v > floor {
            let v = choose|v: int| #[trigger] is_max(pred, val, v) && v > floor;
            let w = choose|w: Move| #[trigger] pred(w) && val(w) == v;
        }
    }
}

fn clamp(v: i32, alpha: i32, beta: i32) -> (r: i32)
    requires
        alpha <= beta,
    ensures
        r == clamped(v as int, alpha as int, beta as int),
{
    let v = if v < alpha {
        alpha
    } else {
        v
    };
    if v > beta {
        beta
    } else {
        v
    }
}

/// A move that fits the position is not the null move.
proof fn lemma_not_null(s: State, m: Move)
    requires
        s.move_ok(m),
    ensures
        m != Move::null_spec(),
{
    lemma_encode(1, 1, 0, 0, 0, 8);
}

/// Alpha-beta search to `depth` plies, then a quiescence search of the
/// captures that do not lose material, with a transposition table for move
/// ordering. The result is the score `negamax` gives the position, clamped
/// to `[alpha, beta]`: the move order, the table and the cutoffs change how
/// much is searched, not the result. The principal
/// variation is left in `ctx.pvs[ctx.ply]`: empty, or starting with a move
/// that the side to play can make; the lines of lower plies stay. The
/// position, the undo log, the move stack and the ply are as they were when
/// it returns.
#[verifier::rlimit(40)]
pub fn search(depth: i32, alpha: i32, beta: i32, ctx: &mut Ctx) -> (r: i32)
    requires
        old(ctx).state.playable(),
        old(ctx).tt.len() == TT_SIZE,
        old(ctx).ply <= MAX_PLY,
        -SCORE_LIMIT <= alpha < beta <= SCORE_LIMIT,
    ensures
        alpha <= r <= beta,
        same_position(final(ctx).state, old(ctx).state),
        final(ctx).state.wf(),
        final(ctx).undo_log@ == old(ctx).undo_log@,
        final(ctx).moves@ == old(ctx).moves@,
        final(ctx).ply == old(ctx).ply,
        final(ctx).tt.len() == TT_SIZE,
        final(ctx).pvs.len() > old(ctx).ply,
        final(ctx).pvs.len() >= old(ctx).pvs.len(),
        forall|k: int| 0 <= k < old(ctx).ply && k < old(ctx).pvs.len() ==> #[trigger] final(ctx).pvs@[k] == old(ctx).pvs@[k],
        line_opens(old(ctx).state, final(ctx).pvs@[old(ctx).ply as int]@),
        final(ctx).print == old(ctx).print,
        final(ctx).expensive_eval == old(ctx).expensive_eval,
        r == clamped(negamax(old(ctx).state, depth as int, old(ctx).ply as int, old(ctx).expensive_eval), alpha as int, beta as int),
    decreases MAX_PLY - old(ctx).ply, 1int,
{
    let ghost s0 = ctx.state;
    let ghost moves0 = ctx.moves@;
    let ghost alpha0 = alpha;
    let mut alpha = alpha;
    while ctx.pvs.len() <= ctx.ply
        invariant
            ctx.state == s0,
            ctx.moves@ == moves0,
            ctx.undo_log@ == old(ctx).undo_log@,
            ctx.ply == old(ctx).ply,
            ctx.ply <= MAX_PLY,
            ctx.tt.len() == TT_SIZE,
            ctx.print == old(ctx).print,
            ctx.expensive_eval == old(ctx).expensive_eval,
            ctx.pvs.len() >= old(ctx).pvs.len(),
            forall|k: int| 0 <= k < old(ctx).pvs.len() ==> #[trigger] ctx.pvs@[k] == old(ctx).pvs@[k],
        decreases ctx.ply + 1 - ctx.pvs.len(),
    {
        ctx.pvs.push(Vec::new());
    }
    ctx.pvs.set(ctx.ply, Vec::new());
    ctx.stats.nodes = ctx.stats.nodes.wrapping_add(1);
    if ctx.ply >= MAX_PLY {
        let v = standing_pat_material_only(&ctx.state, ctx.state.side_to_play());
        return clamp(v, alpha, beta);
    }
    let ply = ctx.ply as i32;
    let color = ctx.state.side_to_play();
    let king = match ctx.state.find_king(color) {
        None => {
            return clamp(-10000 + ply, alpha, beta);
        },
        Some(sq) => sq,
    };
    let opp_king = match ctx.state.find_king(color.opposite()) {
        None => {
            return clamp(10000 - ply, alpha, beta);
        },
        Some(sq) => sq,
    };
    proof {
        lemma_first_king_valid(ctx.state.squares(), color);
        lemma_first_king_valid(ctx.state.squares(), color.other());
    }
    if ctx.state.can_attack_to(opp_king, color) {
        record_king_capture(ctx, opp_king, color);
        return clamp(10000 - 1 - ply, alpha, beta);
    }
    let moves_start = ctx.moves.len();
    let ghost quiet = is_quiet(s0, depth as int, king.0 as int, color);
    let ghost floor: int = if quiet {
        static_value(s0, ctx.expensive_eval)
    } else {
        -SCORE_LIMIT - 1
    };
    let (cutoff, new_alpha) = prepare_moves(ctx, depth, alpha, beta, king, color, Ghost(s0));
    proof {
        lemma_max_of_floor(s0, child_depth(depth as int), ply as int, ctx.expensive_eval, quiet, floor);
    }
    if cutoff {
        return beta;
    }
    alpha = new_alpha;
    let moves_end = ctx.moves.len();
    let tt_idx = (ctx.state.hash() % (TT_SIZE as u64)) as usize;
    if depth >= 1 {
        probe_tt(ctx, moves_start, tt_idx, Ghost(s0));
    }
    search_moves(ctx, depth, alpha, beta, moves_start, tt_idx, Ghost(s0), Ghost(moves0), Ghost(quiet), Ghost(floor))
}

/// `m` is among the moves of `v` from index `start` on.
pub open spec fn listed_from(v: Seq<Move>, start: int, m: Move) -> bool {
    exists|k: int| start <= k < v.len() && v[k] == m
}

/// `new` is `old` with the first `m` from index `start` on swapped with the
/// move at `start`.
pub open spec fn brought_to_front(old: Seq<Move>, new: Seq<Move>, start: int, m: Move) -> bool {
    exists|i: int|
        start <= i < old.len() && old[i] == m && (forall|j: int| start <= j < i ==> old[j] != m) && new == old.update(
            start,
            old[i],
        ).update(i, old[start])
}

/// Moves the best move that the table holds for this position, if it is
/// among the moves from `start` on, to the front of them.
fn probe_tt(ctx: &mut Ctx, start: usize, tt_idx: usize, Ghost(s0): Ghost<State>)
    requires
        tt_idx < old(ctx).tt.len(),
        start <= old(ctx).moves.len(),
        forall|k: int| start <= k < old(ctx).moves.len() ==> s0.gen_ok(#[trigger] old(ctx).moves@[k]),
    ensures
        final(ctx).moves.len() == old(ctx).moves.len(),
        final(ctx).moves@.subrange(0, start as int) == old(ctx).moves@.subrange(0, start as int),
        forall|k: int| start <= k < final(ctx).moves.len() ==> s0.gen_ok(#[trigger] final(ctx).moves@[k]),
        forall|m: Move|
            #[trigger] final(ctx).moves@.subrange(start as int, final(ctx).moves.len() as int).contains(m) <==> old(ctx).moves@.subrange(start as int, old(ctx).moves.len() as int).contains(m),
        final(ctx).state == old(ctx).state,
        final(ctx).undo_log@ == old(ctx).undo_log@,
        final(ctx).ply == old(ctx).ply,
        final(ctx).tt@ == old(ctx).tt@,
        final(ctx).pvs@ == old(ctx).pvs@,
        final(ctx).print == old(ctx).print,
        final(ctx).expensive_eval == old(ctx).expensive_eval,
        if old(ctx).tt@[tt_idx as int].hash == old(ctx).state.hash && listed_from(
            old(ctx).moves@,
            start as int,
            old(ctx).tt@[tt_idx as int].best_move,
        ) {
            brought_to_front(old(ctx).moves@, final(ctx).moves@, start as int, old(ctx).tt@[tt_idx as int].best_move)
        } else {
            final(ctx).moves@ == old(ctx).moves@
        },
{
    let end = ctx.moves.len();
    let entry = ctx.tt[tt_idx];
    if entry.hash == ctx.state.hash() {
        let mut i = start;
        let mut found = false;
        while i < end && !found
            invariant
                start <= i <= end,
                end == ctx.moves.len(),
                ctx.moves@ == old(ctx).moves@,
                found ==> i < end && ctx.moves@[i as int] == entry.best_move,
                forall|j: int| start <= j < i ==> ctx.moves@[j] != entry.best_move,
            decreases end - i + if found {
                0int
            } else {
                1int
            },
        {
            if ctx.moves[i] == entry.best_move {
                found = true;
            } else {
                i = i + 1;
            }
        }
        if found && start < end {
            let a = ctx.moves[start];
            let b = ctx.moves[i];
            let ghost before = ctx.moves@;
            ctx.moves.set(start, b);
            ctx.moves.set(i, a);
            proof {
                assert(ctx.moves@ =~= before.update(start as int, before[i as int]).update(i as int, before[start as int]));
                assert(brought_to_front(before, ctx.moves@, start as int, entry.best_move));
                assert(ctx.moves@.subrange(0, start as int) =~= before.subrange(0, start as int));
                assert forall|k: int| start <= k < ctx.moves.len() implies s0.gen_ok(#[trigger] ctx.moves@[k]) by {
                    if k == start {
                        assert(ctx.moves@[k] == before[i as int]);
                    } else if k == i {
                        assert(ctx.moves@[k] == before[start as int]);
                    } else {
                        assert(ctx.moves@[k] == before[k]);
                    }
                }
                let nw = ctx.moves@.subrange(start as int, end as int);
                let od = before.subrange(start as int, end as int);
                assert forall|m: Move| #[trigger] nw.contains(m) <==> od.contains(m) by {
                    if nw.contains(m) {
                        let w = choose|w: int| 0 <= w < nw.len() && nw[w] == m;
                        if w == 0 {
                            assert(od[i - start] == m);
                        } else if w == i - start {
                            assert(od[0] == m);
                        } else {
                            assert(od[w] == m);
                        }
                    }
                    if od.contains(m) {
                        let w = choose|w: int| 0 <= w < od.len() && od[w] == m;
                        if w == 0 {
                            assert(nw[i - start] == m);
                        } else if w == i - start {
                            assert(nw[0] == m);
                        } else {
                            assert(nw[w] == m);
                        }
                    }
                }
            }
            ctx.stats.tt_use_best_move = ctx.stats.tt_use_best_move.wrapping_add(1);
        } else {
            proof {
                if listed_from(ctx.moves@, start as int, entry.best_move) {
                    let k = choose|k: int| start <= k < ctx.moves@.len() && ctx.moves@[k] == entry.best_move;
                }
            }
            ctx.stats.tt_best_move_not_found = ctx.stats.tt_best_move_not_found.wrapping_add(1);
        }
    } else {
        ctx.stats.tt_miss = ctx.stats.tt_miss.wrapping_add(1);
    }
}

/// Searches the moves from `start` on, each to `depth - 1` (at least 0),
/// and keeps the best in the table. The moves are those searched from the
/// position (`quiet` telling which), and `floor`, at most `alpha`, is the
/// score to beat.
#[verifier::spinoff_prover]
#[verifier::rlimit(80)]
fn search_moves(
    ctx: &mut Ctx,
    depth: i32,
    alpha: i32,
    beta: i32,
    moves_start: usize,
    tt_idx: usize,
    Ghost(s0): Ghost<State>,
    Ghost(moves0): Ghost<Seq<Move>>,
    Ghost(quiet): Ghost<bool>,
    Ghost(floor): Ghost<int>,
) -> (r: i32)
    requires
        s0.playable(),
        same_position(old(ctx).state, s0),
        old(ctx).state.wf(),
        moves_start == moves0.len(),
        moves_start <= old(ctx).moves.len(),
        old(ctx).moves@.subrange(0, moves_start as int) == moves0,
        forall|k: int| moves_start <= k < old(ctx).moves.len() ==> s0.gen_ok(#[trigger] old(ctx).moves@[k]),
        forall|m: Move|
            #[trigger] candidate(s0, m, quiet) <==> old(ctx).moves@.subrange(moves_start as int, old(ctx).moves.len() as int).contains(m),
        quiet ==> depth == 0,
        floor <= alpha,
        old(ctx).ply < MAX_PLY,
        old(ctx).tt.len() == TT_SIZE,
        tt_idx < TT_SIZE,
        old(ctx).pvs.len() > old(ctx).ply,
        line_opens(s0, old(ctx).pvs@[old(ctx).ply as int]@),
        -SCORE_LIMIT <= alpha < beta <= SCORE_LIMIT,
    ensures
        final(ctx).pvs.len() >= old(ctx).pvs.len(),
        forall|k: int| 0 <= k < old(ctx).ply && k < old(ctx).pvs.len() ==> #[trigger] final(ctx).pvs@[k] == old(ctx).pvs@[k],
        line_opens(s0, final(ctx).pvs@[old(ctx).ply as int]@),
        r == clamped(
            best_value(s0, child_depth(depth as int), old(ctx).ply as int, old(ctx).expensive_eval, quiet, floor),
            alpha as int,
            beta as int,
        ),
        same_position(final(ctx).state, s0),
        final(ctx).state.wf(),
        final(ctx).undo_log@ == old(ctx).undo_log@,
        final(ctx).moves@ == moves0,
        final(ctx).ply == old(ctx).ply,
        final(ctx).tt.len() == TT_SIZE,
        final(ctx).pvs.len() > old(ctx).ply,
        final(ctx).print == old(ctx).print,
        final(ctx).expensive_eval == old(ctx).expensive_eval,
    decreases MAX_PLY - old(ctx).ply, 0int,
{
    let ghost alpha0 = alpha;
    let ghost ply = ctx.ply as int;
    let ghost ex = ctx.expensive_eval;
    let ghost cd = child_depth(depth as int);
    let mut a = alpha;
    let moves_end = ctx.moves.len();
    let ghost l = ctx.moves@.subrange(moves_start as int, moves_end as int);
    proof {
        lemma_state_unique(ctx.state, s0);
        lemma_best_is_seq_best(s0, l, cd, ply, ex, quiet, floor);
        assert(l.take(0) =~= Seq::<Move>::empty());
    }
    let mut best_move = Move::null();
    let mut i = moves_start;
    while i < moves_end
        invariant
            s0.playable(),
            ctx.state == s0,
            moves_start <= i <= moves_end,
            ctx.moves.len() == moves_end,
            moves_start == moves0.len(),
            ctx.moves@.subrange(0, moves_start as int) == moves0,
            l == ctx.moves@.subrange(moves_start as int, moves_end as int),
            forall|k: int| moves_start <= k < moves_end ==> s0.gen_ok(#[trigger] ctx.moves@[k]),
            ctx.undo_log@ == old(ctx).undo_log@,
            ctx.ply == old(ctx).ply,
            ply == ctx.ply,
            ctx.ply < MAX_PLY,
            ctx.tt.len() == TT_SIZE,
            tt_idx < TT_SIZE,
            ctx.pvs.len() > ctx.ply,
            ctx.pvs.len() >= old(ctx).pvs.len(),
            forall|k: int| 0 <= k < ply && k < old(ctx).pvs.len() ==> #[trigger] ctx.pvs@[k] == old(ctx).pvs@[k],
            line_opens(s0, ctx.pvs@[ply]@),
            ctx.print == old(ctx).print,
            ctx.expensive_eval == old(ctx).expensive_eval,
            ex == ctx.expensive_eval,
            cd == child_depth(depth as int),
            alpha0 <= a < beta <= SCORE_LIMIT,
            -SCORE_LIMIT <= alpha0,
            alpha0 == alpha,
            floor <= alpha0,
            best_value(s0, cd, ply, ex, quiet, floor) == seq_best(s0, l, cd, ply, ex, floor),
            a == (if seq_best(s0, l.take(i - moves_start), cd, ply, ex, floor) > alpha0 {
                seq_best(s0, l.take(i - moves_start), cd, ply, ex, floor)
            } else {
                alpha0 as int
            }),
        decreases moves_end - i,
    {
        let m = ctx.moves[i];
        let ghost cur = ctx.state;
        proof {
            assert(s0.gen_ok(ctx.moves@[i as int]));
            lemma_same_position(s0, cur);
            lemma_make_unmake_ok(cur, m);
            lemma_not_null(cur, m);
            assert(l[i - moves_start] == m);
        }
        ctx.state.make_move(m, &mut ctx.undo_log);
        proof {
            lemma_playable_after(cur, ctx.state, m);
            let e = ctx.state;
            assert(e.wf() && e.squares() == after_squares(s0.squares(), s0.side() as int, s0.ep_file as int, m)
                && e.flags == s0.flags_after(m) && e.ep_file == m.ep_file() && e.hash == s0.hash_after(m) && e.keys
                == s0.keys);
            let t = child(s0, m);
            lemma_state_unique(t, e);
        }
        ctx.ply = ctx.ply + 1;
        let child_depth = if depth > 1 {
            depth - 1
        } else {
            0
        };
        let t = -search(child_depth, -beta, -a, ctx);
        ctx.ply = ctx.ply - 1;
        ctx.state.unmake_move(m, &mut ctx.undo_log);
        proof {
            assert(ctx.undo_log@ =~= old(ctx).undo_log@);
            lemma_state_unique(ctx.state, s0);
            assert(move_value(s0, m, cd, ply, ex) == -negamax(child(s0, m), cd, ply + 1, ex));
            let pre = l.take(i - moves_start);
            let post = l.take(i - moves_start + 1);
            assert(post.drop_last() =~= pre);
            assert(post.last() == m);
        }
        if t > a {
            best_move = m;
            let mv = m.to_simple_move().unwrap();
            let mut line: Vec<crate::game::Move> = Vec::new();
            line.push(mv);
            let next_ply = ctx.ply + 1;
            let mut j: usize = 0;
            while j < ctx.pvs[next_ply].len()
                invariant
                    next_ply < ctx.pvs.len(),
                    j <= ctx.pvs[next_ply as int].len(),
                    line@.len() == j + 1,
                    line@[0] == mv,
                decreases ctx.pvs[next_ply as int].len() - j,
            {
                line.push(ctx.pvs[next_ply][j]);
                j = j + 1;
            }
            proof {
                assert(s0.move_ok(m) && m.simple() == Some(line@[0]));
            }
            ctx.pvs.set(ctx.ply, line);
        }
        if t >= beta {
            if depth >= 1 {
                ctx.tt.set(tt_idx, TtEntry { hash: ctx.state.hash(), best_move });
                ctx.stats.tt_add_beta_cutoff = ctx.stats.tt_add_beta_cutoff.wrapping_add(1);
            }
            ctx.moves.truncate(moves_start);
            proof {
                assert(ctx.moves@ =~= moves0);
                lemma_seq_best(s0, l, cd, ply, ex, floor);
                assert(l[i - moves_start] == m);
            }
            return beta;
        }
        if t > a {
            a = t;
        }
        i = i + 1;
    }
    ctx.moves.truncate(moves_start);
    proof {
        assert(ctx.moves@ =~= moves0);
        assert(l.take(moves_end - moves_start) =~= l);
    }
    if depth >= 1 && best_move != Move::null() {
        ctx.tt.set(tt_idx, TtEntry { hash: ctx.state.hash(), best_move });
        ctx.stats.tt_add_exact = ctx.stats.tt_add_exact.wrapping_add(1);
    }
    a
}

/// The capture of `to` by the cheapest attacker of `color`.
pub open spec fn cheapest_attack(s: State, to: int, color: Color) -> Move {
    s.attack_move(color, choose|f: int| s.is_cheapest(color, f, to), to)
}

/// The cheapest attacker of a square is unique.
proof fn lemma_is_cheapest_unique(s: State, color: Color, f: int, g: int, to: int)
    requires
        s.is_cheapest(color, f, to),
        s.is_cheapest(color, g, to),
    ensures
        f == g,
{
}

/// A line of play that is empty or starts with the board form of a move
/// that the side to play can make on `s`.
pub open spec fn line_opens(s: State, line: Seq<crate::game::Move>) -> bool {
    line.len() == 0 || exists|m: Move| #[trigger] s.move_ok(m) && m.simple() == Some(line[0])
}

/// Leaves the capture of the enemy king as the principal variation.
fn record_king_capture(ctx: &mut Ctx, opp_king: Square, color: Color)
    requires
        old(ctx).state.wf(),
        opp_king.valid(),
        old(ctx).state.attacked_by(opp_king.0 as int, color),
        old(ctx).ply < old(ctx).pvs.len(),
        color == old(ctx).state.turn(),
        old(ctx).state.squares()[opp_king.0 as int] == Some(Piece { color: color.other(), kind: PieceKind::King }),
    ensures
        line_opens(old(ctx).state, final(ctx).pvs@[old(ctx).ply as int]@),
        final(ctx).state == old(ctx).state,
        final(ctx).moves@ == old(ctx).moves@,
        final(ctx).undo_log@ == old(ctx).undo_log@,
        final(ctx).ply == old(ctx).ply,
        final(ctx).tt@ == old(ctx).tt@,
        final(ctx).pvs.len() == old(ctx).pvs.len(),
        final(ctx).pvs@[old(ctx).ply as int]@ == seq![
            cheapest_attack(old(ctx).state, opp_king.0 as int, color).simple().unwrap(),
        ],
        forall|k: int| 0 <= k < final(ctx).pvs.len() && k != old(ctx).ply ==> #[trigger] final(ctx).pvs@[k] == old(ctx).pvs@[k],
        final(ctx).print == old(ctx).print,
        final(ctx).expensive_eval == old(ctx).expensive_eval,
{
    let am = ctx.state.cheapest_attack_to(opp_king, color).unwrap();
    proof {
        let f = choose|f: int| ctx.state.is_cheapest(color, f, opp_king.0 as int);
        lemma_is_cheapest_unique(ctx.state, color, f, am.from() as int, opp_king.0 as int);
    }
    proof {
        let st = ctx.state;
        let f = am.from() as int;
        let t = opp_king.0 as int;
        assert(st.attacks_from(color, f, t));
        assert(st.square_ok(f));
        assert(st.square_ok(t));
        let fk = st.kind_at(f);
        let tk = if st.attack_class(color, f, t) == 5 {
            4
        } else {
            fk
        };
        lemma_encode(f as u32, t as u32, fk, tk, st.opt_kind(t), 8);
        lemma_encode(1, 1, 0, 0, 0, 8);
        assert(st.squares()[f] == st.at(f));
        assert(st.squares()[t] == st.at(t));
        let c = st.side() as int;
        assert(c == 0 || c == 1) by {
            lemma_small_bits(st.flags, 0, 0, 0, 0);
        }
        assert(color_of(c) == color);
        assert(color_of(1 - c) == color.other());
        assert(am.from() == f && am.to() == t);
        assert(am.from_kind() == fk && am.cap() == st.opt_kind(t));
        assert(st.at(f) is Some && st.at(f).unwrap().color == color);
        assert(PieceKind::from_index(fk) == st.at(f).unwrap().kind);
        assert(st.opt_kind(t) == 6);
        assert(am.from() != am.to());
        assert(st.move_ok(am));
    }
    let mv = am.to_simple_move().unwrap();
    let mut line: Vec<crate::game::Move> = Vec::new();
    line.push(mv);
    ctx.pvs.set(ctx.ply, line);
}

/// Generates the moves to search: at depth 0 and not in check, the
/// captures that do not lose material, best first, after standing pat
/// (`(true, beta)` if that already reaches `beta`); else all moves. Returns
/// the raised alpha.
fn prepare_moves(
    ctx: &mut Ctx,
    depth: i32,
    alpha: i32,
    beta: i32,
    king: Square,
    color: Color,
    Ghost(s0): Ghost<State>,
) -> (r: (bool, i32))
    requires
        s0.playable(),
        old(ctx).state == s0,
        s0.turn() == color,
        king.valid(),
        -SCORE_LIMIT <= alpha < beta <= SCORE_LIMIT,
    ensures
        same_position(final(ctx).state, s0),
        final(ctx).state.wf(),
        final(ctx).undo_log@ == old(ctx).undo_log@,
        final(ctx).ply == old(ctx).ply,
        final(ctx).tt@ == old(ctx).tt@,
        final(ctx).pvs@ == old(ctx).pvs@,
        final(ctx).print == old(ctx).print,
        final(ctx).expensive_eval == old(ctx).expensive_eval,
        r.0 <==> (is_quiet(s0, depth as int, king.0 as int, color) && static_value(
            s0,
            old(ctx).expensive_eval,
        ) >= beta),
        r.0 ==> r.1 == beta,
        r.0 ==> final(ctx).moves@ == old(ctx).moves@,
        !r.0 ==> alpha <= r.1 < beta,
        !r.0 ==> final(ctx).moves.len() >= old(ctx).moves.len(),
        !r.0 ==> final(ctx).moves@.subrange(0, old(ctx).moves.len() as int) == old(ctx).moves@,
        !r.0 ==> forall|k: int|
            old(ctx).moves.len() <= k < final(ctx).moves.len() ==> s0.gen_ok(#[trigger] final(ctx).moves@[k]),
        !r.0 ==> forall|m: Move|
            #[trigger] candidate(s0, m, is_quiet(s0, depth as int, king.0 as int, color)) <==> final(ctx).moves@.subrange(old(ctx).moves.len() as int, final(ctx).moves.len() as int).contains(m),
        !r.0 ==> r.1 == if is_quiet(s0, depth as int, king.0 as int, color) {
            if static_value(s0, old(ctx).expensive_eval) > alpha {
                static_value(s0, old(ctx).expensive_eval)
            } else {
                alpha as int
            }
        } else {
            alpha as int
        },
        !r.0 && is_quiet(s0, depth as int, king.0 as int, color) ==> static_value(
            s0,
            old(ctx).expensive_eval,
        ) < beta,
{
    let moves_start = ctx.moves.len();
    let ghost moves0 = ctx.moves@;
    let quiet = depth == 0 && !ctx.state.can_attack_to(king, color.opposite());
    if quiet {
        ctx.stats.q_branch = ctx.stats.q_branch.wrapping_add(1);
        let static_val = if ctx.expensive_eval {
            standing_pat(&ctx.state, color)
        } else {
            standing_pat_material_only(&ctx.state, color)
        };
        if static_val >= beta {
            return (true, beta);
        }
        let a = if static_val > alpha {
            static_val
        } else {
            alpha
        };
        ctx.state.all_attacks(&mut ctx.moves);
        let ghost attacks = ctx.moves@;
        proof {
            assert(ctx.moves@.subrange(0, moves_start as int) == moves0);
            assert forall|m: Move| #[trigger] s0.generated_capture(m) <==> attacks.subrange(
                moves_start as int,
                attacks.len() as int,
            ).contains(m) by {
                if s0.generated_capture(m) {
                    let x = choose|x: int| moves_start <= x < attacks.len() && attacks[x] == m;
                    assert(attacks.subrange(moves_start as int, attacks.len() as int)[x - moves_start] == m);
                }
                if attacks.subrange(moves_start as int, attacks.len() as int).contains(m) {
                    let w = choose|w: int|
                        0 <= w < attacks.len() - moves_start && attacks.subrange(
                            moves_start as int,
                            attacks.len() as int,
                        )[w] == m;
                    assert(attacks.subrange(moves_start as int, attacks.len() as int)[w] == attacks[moves_start + w]);
                    assert(moves0.len() <= moves_start + w < attacks.len());
                    assert(ctx.state.capture_ok(attacks[moves_start + w]));
                    assert(s0.capture_ok(attacks[moves_start + w]) && s0.generated_capture(attacks[moves_start + w]));
                }
            }
        }
        proof {
            assert forall|k: int| moves_start <= k < ctx.moves.len() implies ctx.state.capture_ok(
                #[trigger] ctx.moves@[k],
            ) && ctx.state.generated_capture(ctx.moves@[k]) by {
                assert(ctx.state.capture_ok(attacks[k]));
            }
        }
        rank_captures(ctx, moves_start, color);
        proof {
            assert(ctx.moves@.subrange(0, moves_start as int) =~= moves0);
            assert forall|k: int| moves_start <= k < ctx.moves.len() implies s0.gen_ok(#[trigger] ctx.moves@[k]) by {
                assert(s0.capture_ok(ctx.moves@[k]));
            }
        }
        (false, a)
    } else {
        ctx.state.all_moves(&mut ctx.moves);
        ctx.stats.full_branch = ctx.stats.full_branch.wrapping_add(1);
        proof {
            assert(ctx.moves@.subrange(0, moves_start as int) == moves0);
            let all = ctx.moves@;
            assert forall|m: Move| #[trigger] s0.generated(m) <==> all.subrange(moves_start as int, all.len() as int).contains(
                m,
            ) by {
                if s0.generated(m) {
                    let x = choose|x: int| moves_start <= x < all.len() && all[x] == m;
                    assert(all.subrange(moves_start as int, all.len() as int)[x - moves_start] == m);
                }
                if all.subrange(moves_start as int, all.len() as int).contains(m) {
                    let w = choose|w: int|
                        0 <= w < all.len() - moves_start && all.subrange(moves_start as int, all.len() as int)[w] == m;
                    assert(all.subrange(moves_start as int, all.len() as int)[w] == all[moves_start + w]);
                    assert(moves0.len() <= moves_start + w < all.len());
                    assert(ctx.state.gen_ok(all[moves_start + w]));
                    assert(s0.gen_ok(all[moves_start + w]) && s0.generated(all[moves_start + w]));
                }
            }
        }
        (false, alpha)
    }
}

/// The first king is on a square of the board.
proof fn lemma_first_king_valid(sq: Seq<Option<Piece>>, color: Color)
    ensures
        crate::game::first_king(sq, color) matches Some(k) ==> k.valid() && sq[k.0 as int] == Some(
            Piece { color, kind: PieceKind::King },
        ),
{
}

} // verus!
