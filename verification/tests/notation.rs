use rbc::fast::State;
use rbc::game::{BoardState, Color, Piece, PieceKind, Square};
use rbc::notation::{is_fen_safe, STARTING_FEN};

#[test]
fn reading_a_record() {
    let b = BoardState::from_fen("4k3/8/8/3pP3/8/8/8/4K2R w K d6 0 1").unwrap();
    assert_eq!(b.get_piece(Square::from_san("e1")), Some(Piece { color: Color::White, kind: PieceKind::King }));
    assert_eq!(b.get_piece(Square::from_san("h1")), Some(Piece { color: Color::White, kind: PieceKind::Rook }));
    assert_eq!(b.get_piece(Square::from_san("d5")), Some(Piece { color: Color::Black, kind: PieceKind::Pawn }));
    assert_eq!(b.get_piece(Square::from_san("a1")), None);
    assert_eq!(b.side_to_play(), Color::White);
    assert_eq!(b.en_passant_square, Some(Square::from_san("d6")));
    assert_eq!(b.render()[0], "ep=d6 K  White to move");
}

#[test]
fn the_starting_record() {
    assert!(is_fen_safe(STARTING_FEN));
    assert_eq!(BoardState::from_fen(STARTING_FEN), Some(BoardState::initial()));
    let b = BoardState::initial();
    assert_eq!(b.get_piece(Square::from_san("d8")), Some(Piece { color: Color::Black, kind: PieceKind::Queen }));
}

#[test]
fn records_that_are_refused() {
    assert!(!is_fen_safe("rnbqkbnrr/8/8/8/8/8/8/8 w - - 0 1"));
    assert_eq!(BoardState::from_fen("rnbqkbnrr/8/8/8/8/8/8/8 w - - 0 1"), None);
    assert_eq!(BoardState::from_fen("not a record"), None);
}

#[test]
fn zobrist_keys_are_drawn() {
    let s = State::from_board(&BoardState::initial());
    assert_ne!(s.hash(), 0);
    let t = State::from_board(&BoardState::from_fen("4k3/8/8/8/8/8/8/4K3 w - - 0 1").unwrap());
    assert_ne!(s.hash(), t.hash());
    assert!(s.check());
}
