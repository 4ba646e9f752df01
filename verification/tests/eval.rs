use rbc::eval::{material_value, mobility_value, search, see, standing_pat, standing_pat_material_only, Ctx};
use rbc::fast::State;
use rbc::game::{BoardState, Color, PieceKind, Square};

fn board(fen: &str) -> BoardState {
    BoardState::from_fen(fen).unwrap()
}

#[test]
fn test_see() {
    for &(b, expected) in &[
        ("rnbqkbnr/pppppppp/8/8/4P3/8/PPPP1PPP/RNBQKBNR b KQkq - 0 0", 0),
        ("rnbqkb1r/pppppppp/5n2/8/4P3/8/PPPP1PPP/RNBQKBNR b KQkq - 0 0", 100),
        ("rnbqkb1r/pppppppp/5n2/8/4P3/3B4/PPPP1PPP/RNBQK1NR b KQkq - 0 0", 0),
        ("rnb1kb1r/pppppppp/4qn2/8/4P3/3B4/PPPP1PPP/RNBQK1NR b KQkq - 0 0", 100),
        (
            "rnbqkbbr/pppppppp/8/6n1/4R3/3P4/PPP1PPPP/RNBQKBN1 b KQkq - 0 0",
            material_value(PieceKind::Rook) - material_value(PieceKind::Knight),
        ),
        (
            "r1bqkbbr/pppppppp/8/2n3n1/4R3/3PQ3/PPP1PPPP/RNB1KBN1 b KQkq - 0 0",
            material_value(PieceKind::Rook) - material_value(PieceKind::Knight),
        ),
    ] {
        let board = board(b);
        println!("{:?}", board.render());
        let mut s = State::from_board(&board);
        let mut undo_log = Vec::new();
        assert_eq!(see(&mut s, &mut undo_log, Square::from_san("e4"), Color::Black), expected);
    }
}

#[test]
fn test_standing_pat() {
    let board = board("r1bqk2r/p1pp1ppp/2p5/4N3/4n3/2P5/PPP2PPP/R1BQK2R w KQkq - 0 0");
    println!("{:?}", board.render());
    let s = State::from_board(&board);
    println!("{}", standing_pat(&s, Color::White));
    println!("{}", standing_pat(&s, Color::Black));
    println!("{}", s.material(Color::White));
    println!("{}", s.material(Color::Black));
    println!("{}", s.mobility(Color::White));
    println!("{}", s.mobility(Color::Black));
}

#[test]
fn test_quiescence() {
    let board = board("rnbqkbnr/pppp1ppp/8/4p2Q/4P3/8/PPPP1PPP/RNB1KBNR w KQkq - 0 0");
    println!("{:?}", board.render());
    let mut ctx = Ctx::new(board);
    ctx.print = true;
    let q = search(0, -10000, 10000, &mut ctx);
    assert_eq!(ctx.ply, 0);
    println!("{}", q);
    println!("{:?}", ctx.pvs[0]);
}

#[test]
fn piece_values() {
    assert_eq!(material_value(PieceKind::Pawn), 100);
    assert_eq!(material_value(PieceKind::Knight), 350);
    assert_eq!(material_value(PieceKind::Bishop), 350);
    assert_eq!(material_value(PieceKind::Rook), 525);
    assert_eq!(material_value(PieceKind::Queen), 1000);
    assert_eq!(material_value(PieceKind::King), 10000);
    assert_eq!(mobility_value(PieceKind::Pawn), 0);
    assert_eq!(mobility_value(PieceKind::Knight), 3);
    assert_eq!(mobility_value(PieceKind::Rook), 2);
    assert_eq!(mobility_value(PieceKind::King), 1);
}

#[test]
fn material_of_the_starting_position_is_even() {
    let s = State::from_board(&BoardState::initial());
    let side = 8 * 100 + 2 * 350 + 2 * 350 + 2 * 525 + 1000 + 10000;
    assert_eq!(s.material(Color::White), side);
    assert_eq!(s.material(Color::Black), side);
    assert_eq!(standing_pat_material_only(&s, Color::White), 0);
    assert_eq!(s.mobility(Color::White), s.mobility(Color::Black));
    assert_eq!(standing_pat(&s, Color::Black), 0);
}

#[test]
fn search_stays_within_the_window_and_restores_the_position() {
    let b = board("rnbqkbnr/pppp1ppp/8/4p2Q/4P3/8/PPPP1PPP/RNB1KBNR w KQkq - 0 0");
    let mut ctx = Ctx::new(b);
    let before = ctx.state.clone();
    let q = search(2, -300, 300, &mut ctx);
    assert!(-300 <= q && q <= 300);
    assert_eq!(ctx.ply, 0);
    assert!(ctx.undo_log.is_empty());
    assert_eq!(ctx.state.to_board().render(), before.to_board().render());
}

#[test]
fn see_of_an_undefended_piece_is_its_value() {
    let b = board("4k3/8/8/8/4n3/8/8/4R1K1 w - - 0 1");
    let mut s = State::from_board(&b);
    let mut undo_log = Vec::new();
    assert_eq!(see(&mut s, &mut undo_log, Square::from_san("e4"), Color::White), 350);
    assert!(undo_log.is_empty());
}

#[test]
fn search_takes_an_exposed_king_at_once() {
    let mut ctx = Ctx::new(board("k6R/8/8/8/8/8/8/K7 w - - 0 1"));
    assert_eq!(search(3, -10000, 10000, &mut ctx), 9999);
    let mut ctx = Ctx::new(board("k6R/8/8/8/8/8/8/K7 w - - 0 1"));
    assert_eq!(search(3, -500, 500, &mut ctx), 500);
}

#[test]
fn quiescence_stands_pat_at_beta() {
    let mut ctx = Ctx::new(board("rnbqkbnr/pppppppp/8/8/8/8/PPPPPPPP/RNBQKBNR w KQkq - 0 1"));
    assert_eq!(search(0, -100, -10, &mut ctx), -10);
}

#[test]
fn the_principal_variation_starts_with_the_king_capture() {
    let mut ctx = Ctx::new(board("k6R/8/8/8/8/8/8/K7 w - - 0 1"));
    search(3, -10000, 10000, &mut ctx);
    assert_eq!(ctx.pvs[0], vec![rbc::game::Move::from_uci("h8a8")]);
}

#[test]
fn the_principal_variation_of_a_winning_capture() {
    let mut ctx = Ctx::new(board("4k3/8/8/8/4n3/8/8/4R1K1 w - - 0 1"));
    let v = search(1, -10000, 10000, &mut ctx);
    assert!(v > 0);
    assert_eq!(ctx.pvs[0][0], rbc::game::Move::from_uci("e1e4"));
}
