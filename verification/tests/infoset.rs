use rbc::game::{BoardState, Color, Move, Piece, PieceKind, Square};
use rbc::infoset::Infoset;

#[test]
fn a_new_infoset_holds_the_starting_position() {
    let info = Infoset::new(Color::White);
    assert_eq!(info.color, Color::White);
    assert_eq!(info.possible_states.len(), 1);
    assert_eq!(info.possible_states[0], BoardState::initial());
    assert_eq!(info.fog_state.get_piece(Square::from_san("e8")), None);
    assert_eq!(
        info.fog_state.get_piece(Square::from_san("e1")),
        Some(Piece { color: Color::White, kind: PieceKind::King })
    );
}

#[test]
fn the_first_unseen_move_opens_every_option() {
    let mut info = Infoset::new(Color::Black);
    info.opponent_move(None);
    // Sixteen pawn moves, four knight moves, and the pass.
    assert_eq!(info.possible_states.len(), 21);
    assert_eq!(info.fog_state.side_to_play(), Color::Black);
    for s in &info.possible_states {
        assert_eq!(s.side_to_play(), Color::Black);
    }
}

#[test]
fn a_sense_keeps_only_the_boards_that_agree() {
    let mut info = Infoset::new(Color::Black);
    info.opponent_move(None);
    let mut truth = BoardState::initial();
    let mut null = rbc::obs::NullObs;
    truth.make_move(Some(Move::from_uci("e2e4")), &mut null);
    let sq = Square::from_san("e3");
    let shown = truth.sense(sq);
    info.sense(sq, &shown);
    assert_eq!(info.possible_states.len(), 1);
    assert_eq!(info.possible_states[0], truth);
}

#[test]
fn one_s_own_move_is_played_on_every_board() {
    let mut info = Infoset::new(Color::White);
    let m = Move::from_uci("e2e4");
    info.my_move(Some(m), Some(m), None);
    assert_eq!(info.possible_states.len(), 1);
    assert_eq!(info.fog_state.side_to_play(), Color::Black);
    assert_eq!(
        info.fog_state.get_piece(Square::from_san("e4")),
        Some(Piece { color: Color::White, kind: PieceKind::Pawn })
    );
    assert_eq!(info.possible_states[0].get_piece(Square::from_san("e2")), None);
}

#[test]
fn a_request_that_became_another_move_drops_the_boards_that_disagree() {
    let mut info = Infoset::new(Color::White);
    let m = Move::from_uci("e2e4");
    // On the starting position e2e4 is played as asked; a report that it
    // was not played at all fits no board.
    info.my_move(Some(m), None, None);
    assert_eq!(info.possible_states.len(), 0);
}

#[test]
fn the_possibilities_board_as_text() {
    let mut info = Infoset::new(Color::Black);
    info.opponent_move(None);
    let lines = info.render();
    assert_eq!(lines.len(), 26);
    assert_eq!(lines[0], "8     r      n      b      q      k      b      n      r   ");
    assert_eq!(lines[1], "");
    assert_eq!(lines[15], "21 possibilities");
    assert_eq!(lines[16], "KQkq  Black to move");
    assert_eq!(lines[25], "  a b c d e f g h");
    // The third rank: empty, or reached by a pawn, or by a knight.
    assert_eq!(lines[10], "3    .PN     .P    .PN     .P     .P    .PN     .P    .PN  ");
}
