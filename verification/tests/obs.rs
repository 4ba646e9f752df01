use rbc::game::{BoardState, Color, Move, Square};
use rbc::obs::{BigState, StateObs};

#[test]
fn test_obs() {
    let mut b = BoardState::initial();
    let mut obs = StateObs::new(&b);
    let m = Move::from_uci("e2e4");
    obs.push(&b);
    b.make_move(Some(m), &mut obs);
    obs.pop(&mut b);
    assert_eq!(b, BoardState::initial());
}

#[test]
fn big_state_push_move_pop_restores_the_board() {
    let mut big = BigState::new(BoardState::initial());
    big.push();
    let cap = big.make_move(Some(Move::from_uci("g1f3")));
    assert_eq!(cap, None);
    big.push();
    big.make_move(None);
    big.pop();
    big.pop();
    assert_eq!(big.board, BoardState::initial());
}

#[test]
fn big_state_attacks() {
    let b = BoardState::from_fen("4k3/8/8/8/4n3/3P4/8/4R1K1 w - - 0 1").unwrap();
    let big = BigState::new(b);
    let e4 = Square::from_san("e4");
    assert!(big.can_attack_to(e4, Color::White));
    assert!(!big.can_attack_to(Square::from_san("a8"), Color::White));
    let m = big.cheapest_attack_to(e4, Color::White).unwrap();
    assert_eq!(m.from, Square::from_san("d3"));
    assert_eq!(m.to, e4);
    assert_eq!(big.cheapest_attack_to_naive(e4, Color::White).unwrap().from, Square::from_san("d3"));
    assert_eq!(big.find_king(Color::Black), Some(Square::from_san("e8")));
}
