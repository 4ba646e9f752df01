use rbc::game::{BoardState, Color, Move, Piece, PieceKind, Square};

#[test]
fn test_piece_to_from_char() {
    for c in "pnbrqkPNBRQK".chars() {
        assert_eq!(Piece::from_char(c).to_char(), c);
    }
}

#[test]
fn test_piece_to_from_int() {
    for i in 0..13 {
        assert_eq!(i, Piece::to_int(Piece::from_int(i)));
    }
}

#[test]
fn test_square_to_from_san() {
    assert_eq!(Square(0).to_san(), "a1");
    assert_eq!(Square(1).to_san(), "b1");
    assert_eq!(Square(63).to_san(), "h8");

    assert_eq!(Square::from_san("a1").0, 0);
    assert_eq!(Square::from_san("b1").0, 1);
    assert_eq!(Square::from_san("h8").0, 63);
}

#[test]
fn test_move_to_from_uci() {
    assert_eq!(Move::from_uci("a2c1"), Move { from: Square(8), to: Square(2), promotion: None });
    assert_eq!(
        Move::from_uci("a2c1q"),
        Move { from: Square(8), to: Square(2), promotion: Some(PieceKind::Queen) }
    );
    assert_eq!(Move { from: Square(8), to: Square(2), promotion: None }.to_uci(), "a2c1");
    assert_eq!(
        Move { from: Square(8), to: Square(2), promotion: Some(PieceKind::Queen) }.to_uci(),
        "a2c1q"
    );
}

#[test]
fn piece_kind_codes_round_trip() {
    for i in 0..6 {
        assert_eq!(PieceKind::from_int(i).to_int(), i);
    }
    assert_eq!(PieceKind::from_char('q'), PieceKind::Queen);
    assert_eq!(PieceKind::Knight.to_char(), 'n');
    assert_eq!(Piece::to_int(None), 0);
    assert_eq!(Piece::to_int(Some(Piece { color: Color::Black, kind: PieceKind::King })), 12);
    assert_eq!(Color::White.opposite(), Color::Black);
}

#[test]
fn initial_board_renders() {
    let b = BoardState::initial();
    let lines = b.render();
    assert_eq!(lines.len(), 10);
    assert_eq!(lines[0], "KQkq  White to move");
    assert_eq!(lines[1], "8 r n b q k b n r");
    assert_eq!(lines[2], "7 p p p p p p p p");
    assert_eq!(lines[5], "4 . . . . . . . .");
    assert_eq!(lines[8], "1 R N B Q K B N R");
    assert_eq!(lines[9], "  a b c d e f g h");
    assert_eq!(b.side_to_play(), Color::White);
    assert_eq!(b.get_piece(Square(4)), Some(Piece { color: Color::White, kind: PieceKind::King }));
    assert_eq!(b.find_king(Color::Black), Some(Square(60)));
    assert_eq!(b.find_king_naive(Color::White), Some(Square(4)));
    assert_eq!(b.winner(), None);
}

#[test]
fn sense_shows_the_block_around_a_square() {
    let b = BoardState::initial();
    let shown = b.sense(Square::from_san("a1"));
    assert_eq!(shown.len(), 4);
    assert_eq!(shown[0], (Square(8), Some(Piece { color: Color::White, kind: PieceKind::Pawn })));
    assert_eq!(shown[2], (Square(0), Some(Piece { color: Color::White, kind: PieceKind::Rook })));
    let shown = b.sense(Square::from_san("e4"));
    assert_eq!(shown.len(), 9);
    assert_eq!(shown[0].0, Square::from_san("d5"));
    assert_eq!(shown[8].0, Square::from_san("f3"));
}

#[test]
fn fog_hides_the_other_side() {
    let mut b = BoardState::initial();
    b.fog_of_war(Color::White);
    assert_eq!(b.get_piece(Square(60)), None);
    assert_eq!(b.get_piece(Square(4)), Some(Piece { color: Color::White, kind: PieceKind::King }));
    assert_eq!(b.find_king_naive(Color::Black), None);
}

#[test]
fn winner_when_a_king_is_gone() {
    let mut b = BoardState::initial();
    b.fog_of_war(Color::White);
    assert_eq!(b.winner(), Some(Color::White));
}

#[test]
fn the_fogged_starting_board_has_thirty_four_requests() {
    let mut b = BoardState::initial();
    b.fog_of_war(Color::White);
    let r = b.all_sensible_requested_moves();
    assert_eq!(r.len(), 34);
    for i in 0..r.len() {
        assert_eq!(r[i].promotion, None);
        for j in 0..i {
            assert_ne!(r[i], r[j]);
        }
    }
    assert!(r.contains(&Move::from_uci("a2b3")));
    assert!(r.contains(&Move::from_uci("h2g3")));
    assert!(r.contains(&Move::from_uci("g1f3")));
    assert!(!r.contains(&Move::from_uci("e1g1")));
    for i in 1..r.len() {
        assert!(r[i - 1].from.0 <= r[i].from.0);
    }
    assert_eq!(r[0].from, Square::from_san("b1"));
}

#[test]
fn castlings_are_requested_last() {
    let mut b = BoardState::from_fen("r3k2r/8/8/8/8/8/8/R3K2R w KQkq - 0 1").unwrap();
    b.fog_of_war(Color::White);
    let r = b.all_sensible_requested_moves();
    let n = r.len();
    assert_eq!(r[n - 2], Move::from_uci("e1g1"));
    assert_eq!(r[n - 1], Move::from_uci("e1c1"));
    for i in 1..n - 2 {
        assert!(r[i - 1].from.0 <= r[i].from.0);
    }
    let mut all = BoardState::from_fen("r3k2r/8/8/8/8/8/8/R3K2R w KQkq - 0 1").unwrap().all_moves();
    let before = all.len();
    all.dedup();
    assert_eq!(all.len(), before);
}

#[test]
fn moves_come_in_the_order_of_their_requests() {
    let m = BoardState::initial().all_moves();
    assert_eq!(m.len(), 20);
    assert_eq!(m[0], Move::from_uci("b1a3"));
    assert_eq!(m[1], Move::from_uci("b1c3"));
    assert_eq!(m[2], Move::from_uci("g1f3"));
    assert_eq!(m[3], Move::from_uci("g1h3"));
    assert_eq!(m[4], Move::from_uci("a2a3"));
    assert_eq!(m[5], Move::from_uci("a2a4"));
}
