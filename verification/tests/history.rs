use rbc::game::{Color, Square};
use rbc::history::{GameHistory, SideHistory};

fn side(turns: usize, extra_sense: bool) -> SideHistory {
    let senses = (0..turns + extra_sense as usize).map(|k| Some(Square(k as i8))).collect();
    let sense_results = (0..turns + extra_sense as usize).map(|_| Vec::new()).collect();
    SideHistory {
        senses,
        sense_results,
        requested_moves: (0..turns).map(|k| Some(format!("r{}", k))).collect(),
        taken_moves: (0..turns).map(|k| if k == 0 { None } else { Some(format!("t{}", k)) }).collect(),
        capture_squares: (0..turns).map(|_| None).collect(),
        fens_before_move: (0..turns).map(|k| format!("before {}", k)).collect(),
        fens_after_move: (0..turns).map(|k| format!("after {}", k)).collect(),
    }
}

#[test]
fn turns_alternate_white_first() {
    let white = side(3, false);
    let black = side(2, true);
    assert!(white.is_consistent());
    assert!(black.is_consistent());
    let h = GameHistory::from_sides(
        "w".to_owned(),
        "b".to_owned(),
        Some(Color::White),
        "KING_CAPTURE".to_owned(),
        &white,
        &black,
    );
    assert_eq!(h.moves.len(), 5);
    assert_eq!(h.moves[0].fen_before, "before 0");
    assert_eq!(h.moves[1].requested_move, Some("r0".to_owned()));
    assert_eq!(h.moves[2].taken_move, Some("t1".to_owned()));
    assert_eq!(h.moves[3].sense, Some(Square(1)));
    assert_eq!(h.moves[4].fen_after, "after 2");
    assert_eq!(h.winner_color, Some(Color::White));
    assert_eq!(h.win_reason, "KING_CAPTURE");
}

#[test]
fn lists_of_the_wrong_length_are_noticed() {
    let mut s = side(2, false);
    s.fens_after_move.pop();
    assert!(!s.is_consistent());
}
