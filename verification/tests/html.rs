use rbc::game::{BoardState, Color, Move, Piece, PieceKind};
use rbc::html::{can_play_all, moves_to_html, PREAMBLE};
use rbc::infoset::Infoset;

#[test]
fn piece_symbols() {
    assert_eq!(Piece { color: Color::White, kind: PieceKind::King }.to_emoji(), '♔');
    assert_eq!(Piece { color: Color::Black, kind: PieceKind::Pawn }.to_emoji(), '♟');
    assert_eq!(Piece { color: Color::Black, kind: PieceKind::Queen }.to_emoji(), '♛');
}

#[test]
fn board_table() {
    let html = BoardState::initial().to_html();
    assert!(html.starts_with(
        "<table class=board><tr><td class=coord>8</td><td><div class=piece>♜</div></td><td class=bc><div class=piece>♞</div></td>"
    ));
    assert!(html.ends_with(
        "<tr><td class=coord> </td><td class=coord>a</td><td class=coord>b</td><td class=coord>c</td><td class=coord>d</td><td class=coord>e</td><td class=coord>f</td><td class=coord>g</td><td class=coord>h</td></tr></table>"
    ));
    assert!(html.contains("<tr><td class=coord>4</td><td></td><td class=bc></td>"));
}

#[test]
fn possibilities_table() {
    let mut info = Infoset::new(Color::Black);
    info.opponent_move(None);
    let html = info.to_html();
    assert!(html.starts_with("<table class=board-large><tr><td class=coord>8</td><td><div class=\"piece cnt1\">♜</div></td>"));
    assert!(html.ends_with("</table>21 possibilities"));
    // a3: empty, a pawn or a knight.
    assert!(html.contains("<tr><td class=coord>3</td><td class=bc><div class=\"piece cnt3\">♙♘?</div></td>"));
    // An empty square on every board shows nothing.
    assert!(html.contains("<tr><td class=coord>5</td><td class=bc></td><td></td>"));
}

#[test]
fn moves_written_out() {
    let b = BoardState::initial();
    let moves = [Some(Move::from_uci("e2e4")), None, Some(Move::from_uci("d1h5"))];
    assert!(can_play_all(&b, &moves));
    assert_eq!(
        moves_to_html(&b, &moves),
        "<span style=\"white-space:nowrap\">♙<span class=negspace></span>e2e4</span>; pass; \
         <span style=\"white-space:nowrap\">♕<span class=negspace></span>d1h5</span>"
    );
}

#[test]
fn a_check_and_a_capture_are_marked() {
    let b = BoardState::initial();
    let moves = [
        Some(Move::from_uci("e2e4")),
        Some(Move::from_uci("f7f6")),
        Some(Move::from_uci("d1h5")),
        Some(Move::from_uci("g7g6")),
        Some(Move::from_uci("h5g6")),
    ];
    let text = moves_to_html(&b, &moves);
    let parts: Vec<&str> = text.split("; ").collect();
    assert_eq!(parts.len(), 5);
    assert_eq!(parts[2], "<span style=\"white-space:nowrap\">♕<span class=negspace></span>d1h5+</span>");
    assert_eq!(
        parts[4],
        "<span style=\"white-space:nowrap\">♕<span class=negspace></span>h5&thinsp;x♟<span class=negspace></span>g6+</span>"
    );
}

#[test]
fn a_move_from_an_empty_square_cannot_be_played() {
    let b = BoardState::initial();
    assert!(!can_play_all(&b, &[Some(Move::from_uci("e3e4"))]));
    assert!(can_play_all(&b, &[]));
    assert_eq!(moves_to_html(&b, &[]), "");
}

#[test]
fn the_page_head() {
    assert!(PREAMBLE.contains("<div id=\"summary\"></div>"));
}
