use rbc::bitboard::{
    attack_mask, attacks_by_pred, behind, blockers_and_beyond, blockers_and_beyond_from, in_between,
    iter_one_positions, iter_one_squares, render_bb, Pattern,
};
use rbc::game::Square;

const QUEEN_DELTAS: [(i8, i8); 8] = [(-1, -1), (-1, 0), (-1, 1), (0, -1), (0, 1), (1, -1), (1, 0), (1, 1)];
const ROOK_DELTAS: [(i8, i8); 4] = [(-1, 0), (0, -1), (0, 1), (1, 0)];

fn mask(squares: &[u32]) -> u64 {
    let mut m = 0u64;
    for &s in squares {
        m |= 1 << s;
    }
    m
}

#[test]
fn test_bits_iter() {
    let ones: Vec<_> = iter_one_positions(0b10010);
    assert_eq!(ones, [1, 4]);
}

#[test]
fn test_in_between() {
    assert!(in_between(8, 2).is_none());
    let lines = render_bb(in_between(0, 36).unwrap());
    assert_eq!(lines.len(), 8);
}

#[test]
fn test_behind() {
    assert!(behind(8, 2).is_none());
    let lines = render_bb(behind(0, 9).unwrap());
    assert_eq!(lines.len(), 8);
}

#[test]
fn test_attacks() {
    let lines = render_bb(attacks_by_pred(Pattern::King)[36]);
    assert_eq!(lines.len(), 8);
}

#[test]
fn test_blockers_and_beyond() {
    assert!(in_between(8, 2).is_none());
    let lines = render_bb(blockers_and_beyond(&QUEEN_DELTAS)[1]);
    assert_eq!(lines.len(), 8);
}

#[test]
fn iter_one_positions_lists_all_bits_in_order() {
    assert_eq!(iter_one_positions(0), Vec::<u32>::new());
    assert_eq!(iter_one_positions(u64::MAX), (0..64).collect::<Vec<u32>>());
    assert_eq!(iter_one_positions(1 << 63 | 1), vec![0, 63]);
    assert_eq!(iter_one_squares(0b1001), vec![Square(0), Square(3)]);
}

#[test]
fn render_bb_shows_bits_top_rank_first() {
    let lines = render_bb(1 | 1 << 63);
    assert_eq!(lines[0], " . . . . . . . 1 ");
    assert_eq!(lines[7], " 1 . . . . . . . ");
    assert_eq!(lines[3], " . . . . . . . . ");
}

#[test]
fn in_between_exact_squares() {
    assert_eq!(in_between(0, 36), Some(mask(&[9, 18, 27])));
    assert_eq!(in_between(36, 0), Some(mask(&[9, 18, 27])));
    assert_eq!(in_between(0, 7), Some(mask(&[1, 2, 3, 4, 5, 6])));
    assert_eq!(in_between(0, 1), Some(0));
    assert_eq!(in_between(5, 5), None);
    assert_eq!(in_between(0, 17), None);
}

#[test]
fn behind_exact_squares() {
    assert_eq!(behind(0, 9), Some(mask(&[18, 27, 36, 45, 54, 63])));
    assert_eq!(behind(0, 63), Some(0));
    assert_eq!(behind(16, 8), Some(mask(&[0])));
    assert_eq!(behind(3, 3), None);
}

#[test]
fn attack_masks_exact() {
    assert_eq!(attacks_by_pred(Pattern::King)[36], mask(&[27, 28, 29, 35, 37, 43, 44, 45]));
    assert_eq!(attack_mask(Pattern::Knight, 0), mask(&[10, 17]));
    assert_eq!(attack_mask(Pattern::Rook, 0).count_ones(), 14);
    assert_eq!(attack_mask(Pattern::Bishop, 0), mask(&[9, 18, 27, 36, 45, 54, 63]));
}

#[test]
fn blockers_and_beyond_exact() {
    assert_eq!(
        blockers_and_beyond(&QUEEN_DELTAS)[1],
        mask(&[9, 17, 25, 33, 41, 49, 2, 3, 4, 5, 6, 10, 19, 28, 37, 46])
    );
    assert_eq!(blockers_and_beyond_from(0, &ROOK_DELTAS), mask(&[1, 2, 3, 4, 5, 6, 8, 16, 24, 32, 40, 48]));
}
