use rbc::fast::{iter_one_positions, Move, State};
use rbc::game::{BoardState, Color, Move as SimpleMove, PieceKind, Square};

fn board(fen: &str) -> BoardState {
    BoardState::from_fen(fen).unwrap()
}

#[test]
fn positions_of_set_bits() {
    assert_eq!(iter_one_positions(0), Vec::<u32>::new());
    assert_eq!(iter_one_positions(0b10010), vec![1, 4]);
    assert_eq!(iter_one_positions(1u64 << 63), vec![63]);
}

#[test]
fn packed_move_fields() {
    let m = Move::new(12, 28, 0, 0, 6, 8);
    assert_eq!(m.from(), 12);
    assert_eq!(m.to(), 28);
    assert_eq!(m.from_kind(), 0);
    assert_eq!(m.cap(), 6);
    assert_eq!(m.ep_file(), 8);
    assert_eq!(m.to_sq(), Square(28));
    assert_eq!(m.to_simple_move(), Some(SimpleMove::from_uci("e2e4")));
    assert_eq!(Move::null().to_simple_move(), None);
}

#[test]
fn simple_moves_round_trip() {
    let s = State::from_board(&BoardState::initial());
    for uci in ["e2e4", "g1f3", "b1c3", "a2a3"] {
        let gm = Some(SimpleMove::from_uci(uci));
        assert_eq!(Move::from_simple_move(gm, &s).to_simple_move(), gm);
    }
    assert_eq!(Move::from_simple_move(None, &s).to_simple_move(), None);
}

#[test]
fn make_then_unmake_restores_the_state() {
    let b = board("r3k2r/pppq1ppp/2n5/3pP3/8/2N5/PPP2PPP/R3K2R w KQkq d6 0 1");
    let s0 = State::from_board(&b);
    let mut moves = Vec::new();
    s0.all_moves(&mut moves);
    assert!(!moves.is_empty());
    for &m in &moves {
        let mut s = s0.clone();
        let mut undo_log = Vec::new();
        s.make_move(m, &mut undo_log);
        assert!(s.check());
        assert_ne!(s.side_to_play(), s0.side_to_play());
        s.unmake_move(m, &mut undo_log);
        assert_eq!(s, s0);
        assert!(undo_log.is_empty());
    }
}

#[test]
fn passing_flips_the_side_and_clears_en_passant() {
    let b = board("r3k2r/pppq1ppp/2n5/3pP3/8/2N5/PPP2PPP/R3K2R w KQkq d6 0 1");
    let s0 = State::from_board(&b);
    let mut s = s0.clone();
    let mut undo_log = Vec::new();
    s.make_move(Move::null(), &mut undo_log);
    assert!(s.check());
    assert_eq!(s.side_to_play(), Color::Black);
    assert_eq!(undo_log.len(), 1);
    let mut b2 = b.clone();
    b2.make_move(None, &mut rbc::obs::NullObs);
    b2.clear_irrelevant_en_passant_square();
    assert_eq!(s, State::from_board(&b2));
    assert_eq!(s.hash(), State::from_board(&b2).hash());
    s.unmake_move(Move::null(), &mut undo_log);
    assert_eq!(s, s0);
    assert!(undo_log.is_empty());
}

#[test]
fn generated_moves_include_castling_and_en_passant() {
    let b = board("r3k2r/pppq1ppp/2n5/3pP3/8/2N5/PPP2PPP/R3K2R w KQkq d6 0 1");
    let s = State::from_board(&b);
    let mut moves = Vec::new();
    s.all_moves(&mut moves);
    let simple: Vec<_> = moves.iter().map(|m| m.to_simple_move()).collect();
    assert!(simple.contains(&Some(SimpleMove::from_uci("e1g1"))));
    assert!(simple.contains(&Some(SimpleMove::from_uci("e1c1"))));
    assert!(simple.contains(&Some(SimpleMove::from_uci("e5d6"))));
    let mut attacks = Vec::new();
    s.all_attacks(&mut attacks);
    for m in &attacks {
        assert!(moves.contains(m));
        assert!(m.cap() != 0);
    }
}

#[test]
fn board_and_state_agree() {
    let b = board("rnbqkb1r/pppppppp/5n2/8/4P3/8/PPPP1PPP/RNBQKBNR b KQkq - 0 0");
    let s = State::from_board(&b);
    assert!(s.check());
    assert_eq!(s.side_to_play(), Color::Black);
    let b2 = s.to_board();
    assert_eq!(b2.render(), b.render());
    assert_eq!(s.get_piece(Square::from_san("f6")).unwrap().kind, PieceKind::Knight);
    assert_eq!(s.find_king(Color::White), Some(Square::from_san("e1")));
    assert!(s.can_attack_to(Square::from_san("e4"), Color::Black));
    let m = s.cheapest_attack_to(Square::from_san("e4"), Color::Black).unwrap();
    assert_eq!(m.from(), Square::from_san("f6").0 as u32);
    assert_eq!(State::from_board(&b).hash(), s.hash());
}

#[test]
fn mobility_of_the_starting_position() {
    let s = State::from_board(&BoardState::initial());
    // Knights 3 * 3 each, bishops 3 * 2 each, rooks 2 * 2 each, queen 5,
    // king 5: every attacked square counts, taken or not.
    assert_eq!(s.mobility(Color::White), 48);
    assert_eq!(s.mobility(Color::Black), 48);
}

#[test]
fn empty_state() {
    let s = State::empty();
    assert_eq!(s.side_to_play(), Color::White);
    assert_eq!(s.get_piece(Square(0)), None);
    assert_eq!(s.material(Color::White), 0);
}

#[test]
fn a_board_survives_the_trip_to_a_position_and_back() {
    let b = board("4k3/8/8/3pP3/8/8/8/4K3 w - d6 0 1");
    let s = State::from_board(&b);
    assert_eq!(s.to_board(), b);
    let mut b = board("4k3/8/8/3p4/8/8/8/4K3 w - d6 0 1");
    let s = State::from_board(&b);
    let back = s.to_board();
    assert_eq!(back.en_passant_square, None);
    b.clear_irrelevant_en_passant_square();
    assert_eq!(back, b);
}

#[test]
fn both_forms_make_the_same_moves() {
    for fen in [
        "r3k2r/pppq1ppp/2n5/3pP3/8/2N5/PPP2PPP/R3K2R w KQkq d6 0 1",
        "rnbqkb1r/pppppppp/5n2/8/4P3/8/PPPP1PPP/RNBQKBNR b KQkq - 0 0",
        "4k3/1P6/8/8/8/8/6p1/4K3 w - - 0 1",
    ] {
        let b = board(fen);
        let s0 = State::from_board(&b);
        for gm in b.all_moves() {
            let m = Move::from_simple_move(Some(gm), &s0);
            let mut s = s0.clone();
            let mut undo_log = Vec::new();
            s.make_move(m, &mut undo_log);
            let mut b2 = b.clone();
            let mut null = rbc::obs::NullObs;
            b2.make_move(Some(gm), &mut null);
            b2.clear_irrelevant_en_passant_square();
            assert_eq!(s, State::from_board(&b2), "{} {}", fen, gm.to_uci());
        }
    }
}

#[test]
fn the_starting_position_has_twenty_moves_and_no_captures() {
    let s = State::from_board(&BoardState::initial());
    let mut moves = Vec::new();
    s.all_moves(&mut moves);
    assert_eq!(moves.len(), 20);
    let mut attacks = Vec::new();
    s.all_attacks(&mut attacks);
    assert!(attacks.is_empty());
}

#[test]
fn generated_moves_extend_what_was_there() {
    let s = State::from_board(&BoardState::initial());
    let mut moves = vec![Move::null()];
    s.all_moves(&mut moves);
    assert_eq!(moves.len(), 21);
    assert_eq!(moves[0], Move::null());
}

#[test]
fn playable_when_rights_and_en_passant_fit() {
    assert!(State::from_board(&BoardState::initial()).is_playable());
    let b = board("r3k2r/pppq1ppp/2n5/3pP3/8/2N5/PPP2PPP/R3K2R w KQkq d6 0 1");
    assert!(State::from_board(&b).is_playable());
    let no_rook = board("4k3/8/8/8/8/8/8/4K3 w K - 0 1");
    assert!(!State::from_board(&no_rook).is_playable());
}

#[test]
fn generated_moves_and_captures_are_listed_once() {
    let b = board("r3k2r/pppq1ppp/2n5/3pP3/8/2N5/PPP2PPP/R3K2R w KQkq d6 0 1");
    let s = State::from_board(&b);
    let mut moves = vec![Move::null()];
    s.all_moves(&mut moves);
    assert_eq!(moves[0], Move::null());
    for i in 1..moves.len() {
        for j in 1..i {
            assert_ne!(moves[i], moves[j]);
        }
    }
    let mut caps = Vec::new();
    s.all_attacks(&mut caps);
    assert!(!caps.is_empty());
    for i in 0..caps.len() {
        assert!(moves.contains(&caps[i]) || caps[i].from_kind() == 0);
        for j in 0..i {
            assert_ne!(caps[i], caps[j]);
        }
    }
}
