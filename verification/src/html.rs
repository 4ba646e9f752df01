use vstd::prelude::*;
use crate::game::{Square, Color, PieceKind, Piece, Move, BoardState, first_king, piece_of_code, lemma_board_determined};
use crate::infoset::{Infoset, played, has_code, codes_seen};
use crate::fast::board_attacked;
use crate::obs::{NullObs, lemma_null_steps_ok};
use crate::text::{digit, digit_char, decimal, push_char, push_str, push_decimal};

verus! {

/// The head of a page of boards: the style sheet and the summary line.
pub const PREAMBLE: &'static str = "
<meta charset=\"utf-8\">
<link href=\"../static/style.css\" rel=\"stylesheet\">
<script>
let summary = \"\";
</script>
<div id=\"summary\"></div>
";

impl Piece {
    /// The chess symbol of the piece.
    pub open spec fn emoji(self) -> char {
        match (self.color, self.kind) {
            (Color::White, PieceKind::Pawn) => '♙',
            (Color::White, PieceKind::Knight) => '♘',
            (Color::White, PieceKind::Bishop) => '♗',
            (Color::White, PieceKind::Rook) => '♖',
            (Color::White, PieceKind::Queen) => '♕',
            (Color::White, PieceKind::King) => '♔',
            (Color::Black, PieceKind::Pawn) => '♟',
            (Color::Black, PieceKind::Knight) => '♞',
            (Color::Black, PieceKind::Bishop) => '♝',
            (Color::Black, PieceKind::Rook) => '♜',
            (Color::Black, PieceKind::Queen) => '♛',
            (Color::Black, PieceKind::King) => '♚',
        }
    }

    pub fn to_emoji(self) -> (c: char)
        ensures
            c == self.emoji(),
    {
        match (self.color, self.kind) {
            (Color::White, PieceKind::Pawn) => '♙',
            (Color::White, PieceKind::Knight) => '♘',
            (Color::White, PieceKind::Bishop) => '♗',
            (Color::White, PieceKind::Rook) => '♖',
            (Color::White, PieceKind::Queen) => '♕',
            (Color::White, PieceKind::King) => '♔',
            (Color::Black, PieceKind::Pawn) => '♟',
            (Color::Black, PieceKind::Knight) => '♞',
            (Color::Black, PieceKind::Bishop) => '♝',
            (Color::Black, PieceKind::Rook) => '♜',
            (Color::Black, PieceKind::Queen) => '♛',
            (Color::Black, PieceKind::King) => '♚',
        }
    }
}

/// The opening tag of the cell of rank `rank`, file `file`: dark cells
/// carry the class `bc`.
pub open spec fn cell_open(rank: int, file: int) -> Seq<char> {
    if (rank + file) % 2 == 0 {
        "<td class=bc>"@
    } else {
        "<td>"@
    }
}

/// The labels of the file row: a blank corner, then the files.
pub open spec fn file_labels() -> Seq<char> {
    seq![' ', 'a', 'b', 'c', 'd', 'e', 'f', 'g', 'h']
}

/// The cells of the first `n` labels of the file row.
pub open spec fn label_cells(n: nat) -> Seq<char>
    decreases n,
{
    if n == 0 {
        Seq::empty()
    } else {
        label_cells((n - 1) as nat) + "<td class=coord>"@ + seq![file_labels()[n - 1]] + "</td>"@
    }
}

/// The row of file labels that closes a board table.
pub open spec fn label_row() -> Seq<char> {
    "<tr>"@ + label_cells(9) + "</tr>"@
}

/// The cell of the square of rank `rank`, file `file` of `b`.
pub open spec fn board_cell(b: BoardState, rank: int, file: int) -> Seq<char> {
    cell_open(rank, file) + match b.at(rank * 8 + file) {
        Some(p) => "<div class=piece>"@ + seq![p.emoji()] + "</div>"@,
        None => Seq::empty(),
    } + "</td>"@
}

/// The first `n` cells of rank `rank` of `b`.
pub open spec fn board_cells(b: BoardState, rank: int, n: nat) -> Seq<char>
    decreases n,
{
    if n == 0 {
        Seq::empty()
    } else {
        board_cells(b, rank, (n - 1) as nat) + board_cell(b, rank, n - 1)
    }
}

/// The row of rank `rank` (0 for the first) of `b`.
pub open spec fn board_row(b: BoardState, rank: int) -> Seq<char> {
    "<tr>"@ + "<td class=coord>"@ + seq![digit_char(rank + 1)] + "</td>"@ + board_cells(b, rank, 8) + "</tr>"@
}

/// The rows of the top `n` ranks of `b`, from the eighth down.
pub open spec fn board_rows(b: BoardState, n: nat) -> Seq<char>
    decreases n,
{
    if n == 0 {
        Seq::empty()
    } else {
        board_rows(b, (n - 1) as nat) + board_row(b, 8 - n)
    }
}

/// The board `b` as an HTML table.
pub open spec fn board_html(b: BoardState) -> Seq<char> {
    "<table class=board>"@ + board_rows(b, 8) + label_row() + "</table>"@
}

/// The symbols of the pieces of codes 1 to `n - 1` that some board of `v`
/// holds on `sq`.
pub open spec fn symbols_upto(v: Seq<BoardState>, sq: int, n: nat) -> Seq<char>
    decreases n,
{
    if n <= 1 {
        Seq::empty()
    } else {
        symbols_upto(v, sq, (n - 1) as nat) + if has_code(v, sq, n - 1) {
            seq![piece_of_code((n - 1) as u32).unwrap().emoji()]
        } else {
            Seq::empty()
        }
    }
}

/// What the possible boards `v` hold on `sq`: the symbols of the pieces,
/// then '?' if some board has it empty.
pub open spec fn square_symbols(v: Seq<BoardState>, sq: int) -> Seq<char> {
    symbols_upto(v, sq, 13) + if has_code(v, sq, 0) {
        seq!['?']
    } else {
        Seq::empty()
    }
}

/// The cell of square `sq` of the possibilities table: unless the square is
/// empty on every possible board, a box classed by the number of symbols,
/// holding them, or "???" for seven of them.
pub open spec fn possibilities_cell(v: Seq<BoardState>, rank: int, file: int) -> Seq<char> {
    let ps = square_symbols(v, rank * 8 + file);
    cell_open(rank, file) + (if ps != seq!['?'] {
        "<div class=\"piece cnt"@ + decimal(ps.len()) + "\">"@ + (if ps.len() == 7 {
            "???"@
        } else {
            ps
        }) + "</div>"@
    } else {
        Seq::empty()
    }) + "</td>"@
}

/// The first `n` cells of rank `rank` of the possibilities table.
pub open spec fn possibilities_cells(v: Seq<BoardState>, rank: int, n: nat) -> Seq<char>
    decreases n,
{
    if n == 0 {
        Seq::empty()
    } else {
        possibilities_cells(v, rank, (n - 1) as nat) + possibilities_cell(v, rank, n - 1)
    }
}

/// The row of rank `rank` of the possibilities table.
pub open spec fn possibilities_row(v: Seq<BoardState>, rank: int) -> Seq<char> {
    "<tr>"@ + "<td class=coord>"@ + seq![digit_char(rank + 1)] + "</td>"@ + possibilities_cells(v, rank, 8)
        + "</tr>"@
}

/// The rows of the top `n` ranks of the possibilities table.
pub open spec fn possibilities_rows(v: Seq<BoardState>, n: nat) -> Seq<char>
    decreases n,
{
    if n == 0 {
        Seq::empty()
    } else {
        possibilities_rows(v, (n - 1) as nat) + possibilities_row(v, 8 - n)
    }
}

/// The possibilities table of the boards `v`, and their number.
pub open spec fn possibilities_html(v: Seq<BoardState>) -> Seq<char> {
    "<table class=board-large>"@ + possibilities_rows(v, 8) + label_row() + "</table>"@ + decimal(v.len())
        + " possibilities"@
}

/// Appends the row of file labels.
fn push_label_row(s: &mut String)
    ensures
        final(s)@ == old(s)@ + label_row(),
{
    let labels: [char; 9] = [' ', 'a', 'b', 'c', 'd', 'e', 'f', 'g', 'h'];
    assert(labels@ =~= file_labels());
    push_str(s, "<tr>");
    let ghost head = s@;
    let mut k: usize = 0;
    while k < 9
        invariant
            0 <= k <= 9,
            labels@ == file_labels(),
            s@ == head + label_cells(k as nat),
        decreases 9 - k,
    {
        push_str(s, "<td class=coord>");
        push_char(s, labels[k]);
        push_str(s, "</td>");
        assert(s@ =~= head + label_cells((k + 1) as nat));
        k = k + 1;
    }
    push_str(s, "</tr>");
    assert(s@ =~= old(s)@ + label_row());
}

/// Appends the opening tag of the cell of rank `rank`, file `file`.
fn push_cell_open(s: &mut String, rank: usize, file: usize)
    requires
        rank < 8,
        file < 8,
    ensures
        final(s)@ == old(s)@ + cell_open(rank as int, file as int),
{
    if (rank + file) % 2 == 0 {
        push_str(s, "<td class=bc>");
    } else {
        push_str(s, "<td>");
    }
}

impl BoardState {
    /// The board as an HTML table: the ranks from the eighth down, each
    /// square's piece shown by its symbol, then the file labels.
    pub fn to_html(&self) -> (r: String)
        requires
            self.wf(),
        ensures
            r@ == board_html(*self),
    {
        let mut s = String::new();
        push_str(&mut s, "<table class=board>");
        let ghost head = s@;
        let mut n: usize = 0;
        while n < 8
            invariant
                0 <= n <= 8,
                self.wf(),
                s@ == head + board_rows(*self, n as nat),
            decreases 8 - n,
        {
            let rank = 7 - n;
            let ghost before = s@;
            push_str(&mut s, "<tr>");
            push_str(&mut s, "<td class=coord>");
            push_char(&mut s, digit((rank + 1) as u32));
            push_str(&mut s, "</td>");
            let ghost row_head = s@;
            let mut file: usize = 0;
            while file < 8
                invariant
                    0 <= file <= 8,
                    0 <= rank < 8,
                    self.wf(),
                    s@ == row_head + board_cells(*self, rank as int, file as nat),
                decreases 8 - file,
            {
                let ghost c0 = s@;
                push_cell_open(&mut s, rank, file);
                if let Some(piece) = self.get_piece(Square((rank * 8 + file) as i8)) {
                    push_str(&mut s, "<div class=piece>");
                    push_char(&mut s, piece.to_emoji());
                    push_str(&mut s, "</div>");
                }
                push_str(&mut s, "</td>");
                assert(s@ =~= c0 + board_cell(*self, rank as int, file as int));
                assert(s@ =~= row_head + board_cells(*self, rank as int, (file + 1) as nat));
                file = file + 1;
            }
            push_str(&mut s, "</tr>");
            assert(s@ =~= before + board_row(*self, rank as int));
            assert(s@ =~= head + board_rows(*self, (n + 1) as nat));
            n = n + 1;
        }
        push_label_row(&mut s);
        push_str(&mut s, "</table>");
        assert(s@ =~= board_html(*self));
        s
    }
}

/// Appends the cell of rank `rank`, file `file` of the possibilities table,
/// read from the codes seen on the boards of `v`.
fn push_possibilities_cell(s: &mut String, seen: &Vec<bool>, Ghost(v): Ghost<Seq<BoardState>>, rank: usize, file: usize)
    requires
        rank < 8,
        file < 8,
        seen@.len() == 64 * 13,
        forall|q: int, c: int| 0 <= q < 64 && 0 <= c < 13 ==> seen@[13 * q + c] == has_code(v, q, c),
    ensures
        final(s)@ == old(s)@ + possibilities_cell(v, rank as int, file as int),
{
    let sq = rank * 8 + file;
    let mut ps = String::new();
    let mut c: usize = 1;
    while c < 13
        invariant
            1 <= c <= 13,
            sq < 64,
            seen@.len() == 64 * 13,
            forall|q: int, c: int| 0 <= q < 64 && 0 <= c < 13 ==> seen@[13 * q + c] == has_code(v, q, c),
            ps@ == symbols_upto(v, sq as int, c as nat),
        decreases 13 - c,
    {
        if seen[13 * sq + c] {
            let p = Piece::from_int(c as u32).unwrap();
            push_char(&mut ps, p.to_emoji());
        }
        proof {
            assert(seen@[13 * sq + c] == has_code(v, sq as int, c as int));
        }
        c = c + 1;
    }
    if seen[13 * sq] {
        push_char(&mut ps, '?');
    }
    proof {
        assert(seen@[13 * sq + 0] == has_code(v, sq as int, 0));
        assert(ps@ =~= square_symbols(v, sq as int));
    }
    let ghost s0 = s@;
    push_cell_open(s, rank, file);
    let ghost s1 = s@;
    let n = ps.as_str().unicode_len();
    let only_unknown = n == 1 && ps.as_str().get_char(0) == '?';
    proof {
        if ps@ == seq!['?'] {
            assert(ps@[0] == '?');
        }
        if only_unknown {
            assert(ps@ =~= seq!['?']);
        }
    }
    if !only_unknown {
        push_str(s, "<div class=\"piece cnt");
        push_decimal(s, n as u64);
        push_str(s, "\">");
        let ghost s2 = s@;
        if n == 7 {
            push_str(s, "???");
        } else {
            push_str(s, ps.as_str());
        }
        assert(s@ == s2 + (if ps@.len() == 7 {
            "???"@
        } else {
            ps@
        }));
        push_str(s, "</div>");
        assert(s@ =~= s1 + ("<div class=\"piece cnt"@ + decimal(ps@.len()) + "\">"@ + (if ps@.len() == 7 {
            "???"@
        } else {
            ps@
        }) + "</div>"@));
    }
    push_str(s, "</td>");
    assert(s@ =~= s0 + possibilities_cell(v, rank as int, file as int));
}

impl Infoset {
    /// The possibilities table as HTML: for each square, the symbols of
    /// what the possible boards hold there; then how many boards are
    /// possible.
    pub fn to_html(&self) -> (r: String)
        requires
            self.wf(),
        ensures
            r@ == possibilities_html(self.possible_states@),
    {
        let ghost v = self.possible_states@;
        let seen = codes_seen(&self.possible_states);
        let mut s = String::new();
        push_str(&mut s, "<table class=board-large>");
        let ghost head = s@;
        let mut n: usize = 0;
        while n < 8
            invariant
                0 <= n <= 8,
                seen@.len() == 64 * 13,
                forall|q: int, c: int| 0 <= q < 64 && 0 <= c < 13 ==> seen@[13 * q + c] == has_code(v, q, c),
                s@ == head + possibilities_rows(v, n as nat),
            decreases 8 - n,
        {
            let rank = 7 - n;
            let ghost before = s@;
            push_str(&mut s, "<tr>");
            push_str(&mut s, "<td class=coord>");
            push_char(&mut s, digit((rank + 1) as u32));
            push_str(&mut s, "</td>");
            let ghost row_head = s@;
            let mut file: usize = 0;
            while file < 8
                invariant
                    0 <= file <= 8,
                    0 <= rank < 8,
                    seen@.len() == 64 * 13,
                    forall|q: int, c: int| 0 <= q < 64 && 0 <= c < 13 ==> seen@[13 * q + c] == has_code(v, q, c),
                    s@ == row_head + possibilities_cells(v, rank as int, file as nat),
                decreases 8 - file,
            {
                push_possibilities_cell(&mut s, &seen, Ghost(v), rank, file);
                assert(s@ =~= row_head + possibilities_cells(v, rank as int, (file + 1) as nat));
                file = file + 1;
            }
            push_str(&mut s, "</tr>");
            assert(s@ =~= before + possibilities_row(v, rank as int));
            assert(s@ =~= head + possibilities_rows(v, (n + 1) as nat));
            n = n + 1;
        }
        push_label_row(&mut s);
        push_str(&mut s, "</table>");
        push_decimal(&mut s, self.possible_states.len() as u64);
        push_str(&mut s, " possibilities");
        assert(s@ =~= possibilities_html(v));
        s
    }
}


/// The board that `b` becomes when `m` is played on it.
pub open spec fn after(b: BoardState, m: Option<Move>) -> BoardState {
    choose|t: BoardState| played(b, m, t)
}

/// The piece a move takes can be seen on the board before it.
pub open spec fn capture_shown(b: BoardState, m: Option<Move>) -> bool {
    match b.capture_after(m) {
        Some(c) => c.valid() && b.at(c.0 as int) is Some,
        None => true,
    }
}

/// Every move of `moves`, from the first, can be made in turn starting
/// from `b`, and shows the piece it takes.
pub open spec fn playable(b: BoardState, moves: Seq<Option<Move>>) -> bool
    decreases moves.len(),
{
    moves.len() == 0 || (b.wf() && b.move_ok(moves[0]) && capture_shown(b, moves[0]) && playable(
        after(b, moves[0]),
        moves.drop_first(),
    ))
}

/// Whether, on `b2`, some piece of `mover` attacks the king of the side to
/// play.
pub open spec fn gives_check(b2: BoardState, mover: Color) -> bool {
    match first_king(b2.squares(), b2.turn()) {
        Some(k) => b2.square_attacked(k.0 as int, mover),
        None => false,
    }
}

/// A move made on `b`, written with symbols: the piece and its square, what
/// it takes, where it goes, what it becomes, and '+' for check.
pub open spec fn move_html(b: BoardState, m: Move, check: bool) -> Seq<char> {
    "<span style=\"white-space:nowrap\">"@ + seq![b.at(m.from.0 as int).unwrap().emoji()]
        + "<span class=negspace></span>"@ + m.from.san() + match b.capture_after(Some(m)) {
        Some(c) => "&thinsp;x"@ + seq![b.at(c.0 as int).unwrap().emoji()] + "<span class=negspace></span>"@ + m.to.san(),
        None => m.to.san(),
    } + match m.promotion {
        Some(k) => "<span class=negspace></span>"@ + seq![Piece { color: b.turn(), kind: k }.emoji()],
        None => Seq::empty(),
    } + (if check {
        seq!['+']
    } else {
        Seq::empty()
    }) + "</span>"@
}

/// A move or pass made on `b`, written out.
pub open spec fn step_html(b: BoardState, m: Option<Move>) -> Seq<char> {
    match m {
        None => "pass"@,
        Some(mv) => move_html(b, mv, gives_check(after(b, m), b.turn())),
    }
}

/// The moves after the first, each written after "; ".
pub open spec fn later_steps_html(b: BoardState, moves: Seq<Option<Move>>) -> Seq<char>
    decreases moves.len(),
{
    if moves.len() == 0 {
        Seq::empty()
    } else {
        "; "@ + step_html(b, moves[0]) + later_steps_html(after(b, moves[0]), moves.drop_first())
    }
}

/// The moves, made in turn from `b`, written out and separated by "; ".
pub open spec fn moves_html(b: BoardState, moves: Seq<Option<Move>>) -> Seq<char> {
    if moves.len() == 0 {
        Seq::empty()
    } else {
        step_html(b, moves[0]) + later_steps_html(after(b, moves[0]), moves.drop_first())
    }
}

/// Makes `m` on a copy of `b`: the board it becomes, and the square of the
/// piece it took.
fn play(b: &BoardState, m: Option<Move>) -> (r: (BoardState, Option<Square>))
    requires
        b.wf(),
        b.move_ok(m),
    ensures
        r.0 == after(*b, m),
        r.0.wf(),
        r.1 == b.capture_after(m),
{
    let mut b2 = b.clone();
    let mut null = NullObs;
    proof {
        lemma_null_steps_ok(b.move_edits(m));
    }
    let cap = b2.make_move(m, &mut null);
    proof {
        reveal(played);
        assert(played(*b, m, b2));
        let t = after(*b, m);
        lemma_board_determined(t, b2);
    }
    (b2, cap)
}

/// Whether the moves can be made in turn from `b`, each showing the piece
/// it takes.
pub fn can_play_all(b: &BoardState, moves: &[Option<Move>]) -> (r: bool)
    requires
        b.wf(),
    ensures
        r == playable(*b, moves@),
{
    let mut cur = b.clone();
    let mut i: usize = 0;
    assert(moves@.skip(0) =~= moves@);
    while i < moves.len()
        invariant
            0 <= i <= moves@.len(),
            cur.wf(),
            playable(*b, moves@) == playable(cur, moves@.skip(i as int)),
        decreases moves.len() - i,
    {
        let m = moves[i];
        assert(moves@.skip(i as int)[0] == m);
        assert(moves@.skip(i as int).drop_first() =~= moves@.skip(i + 1));
        if !cur.can_make_move(m) {
            return false;
        }
        let (next, cap) = play(&cur, m);
        if let Some(c) = cap {
            if !(0 <= c.0 && c.0 < 64) || cur.get_piece(c).is_none() {
                return false;
            }
        }
        cur = next;
        i = i + 1;
    }
    assert(moves@.skip(i as int).len() == 0);
    true
}

/// Whether, on `b2`, some piece of `mover` attacks the king of the side
/// to play.
fn in_check(b2: &BoardState, mover: Color) -> (r: bool)
    requires
        b2.wf(),
    ensures
        r == gives_check(*b2, mover),
{
    match b2.find_king_naive(b2.side_to_play()) {
        Some(king) => board_attacked(b2, king, mover),
        None => false,
    }
}

/// Writes out a move or pass made on `b`, `b2` being the board after it and
/// `cap` the square of the piece it took.
fn step_text(b: &BoardState, m: Option<Move>, b2: &BoardState, cap: Option<Square>) -> (s: String)
    requires
        b.wf(),
        m matches Some(mv) ==> mv.valid() && b.at(mv.from.0 as int) is Some,
        capture_shown(*b, m),
        *b2 == after(*b, m),
        b2.wf(),
        cap == b.capture_after(m),
    ensures
        s@ == step_html(*b, m),
{
    let mut s = String::new();
    match m {
        None => {
            push_str(&mut s, "pass");
        },
        Some(mv) => {
            push_str(&mut s, "<span style=\"white-space:nowrap\">");
            push_char(&mut s, b.get_piece(mv.from).unwrap().to_emoji());
            push_str(&mut s, "<span class=negspace></span>");
            let from_name = mv.from.to_san();
            push_str(&mut s, from_name.as_str());
            let ghost head = s@;
            let to_name = mv.to.to_san();
            if let Some(c) = cap {
                push_str(&mut s, "&thinsp;x");
                push_char(&mut s, b.get_piece(c).unwrap().to_emoji());
                push_str(&mut s, "<span class=negspace></span>");
                push_str(&mut s, to_name.as_str());
            } else {
                push_str(&mut s, to_name.as_str());
            }
            let ghost taken_part = match b.capture_after(Some(mv)) {
                Some(c) => "&thinsp;x"@ + seq![b.at(c.0 as int).unwrap().emoji()] + "<span class=negspace></span>"@
                    + mv.to.san(),
                None => mv.to.san(),
            };
            assert(s@ =~= head + taken_part);
            let ghost head2 = s@;
            if let Some(k) = mv.promotion {
                let p = Piece { color: b.side_to_play(), kind: k };
                push_str(&mut s, "<span class=negspace></span>");
                push_char(&mut s, p.to_emoji());
            }
            let ghost promo_part = match mv.promotion {
                Some(k) => "<span class=negspace></span>"@ + seq![Piece { color: b.turn(), kind: k }.emoji()],
                None => Seq::empty(),
            };
            assert(s@ =~= head2 + promo_part);
            let check = in_check(b2, b.side_to_play());
            if check {
                push_char(&mut s, '+');
            }
            push_str(&mut s, "</span>");
            assert(s@ =~= move_html(*b, mv, gives_check(*b2, b.turn())));
        },
    }
    s
}

/// The moves, made in turn from `b`, written with piece symbols and
/// separated by "; ", a pass written "pass".
pub fn moves_to_html(b: &BoardState, moves: &[Option<Move>]) -> (r: String)
    requires
        b.wf(),
        playable(*b, moves@),
    ensures
        r@ == moves_html(*b, moves@),
{
    let mut result = String::new();
    let mut cur = b.clone();
    let mut i: usize = 0;
    assert(moves@.skip(0) =~= moves@);
    while i < moves.len()
        invariant
            0 <= i <= moves@.len(),
            cur.wf(),
            playable(cur, moves@.skip(i as int)),
            i == 0 ==> cur == *b && result@ == Seq::<char>::empty(),
            i > 0 ==> result@ + later_steps_html(cur, moves@.skip(i as int)) == moves_html(*b, moves@),
        decreases moves.len() - i,
    {
        let m = moves[i];
        let ghost rest = moves@.skip(i as int);
        assert(rest[0] == m);
        assert(rest.drop_first() =~= moves@.skip(i + 1));
        let (next, cap) = play(&cur, m);
        let text = step_text(&cur, m, &next, cap);
        let ghost r0 = result@;
        if i > 0 {
            push_str(&mut result, "; ");
        }
        push_str(&mut result, text.as_str());
        proof {
            if i == 0 {
                assert(moves@.drop_first() =~= moves@.skip(1));
            } else {
                assert(later_steps_html(cur, rest) == "; "@ + step_html(cur, m) + later_steps_html(
                    next,
                    moves@.skip(i + 1),
                ));
                assert(result@ + later_steps_html(next, moves@.skip(i + 1)) =~= r0 + later_steps_html(cur, rest));
            }
        }
        cur = next;
        i = i + 1;
    }
    proof {
        if i > 0 {
            assert(moves@.skip(i as int).len() == 0);
            assert(result@ + Seq::<char>::empty() =~= result@);
        }
    }
    result
}

} // verus!
