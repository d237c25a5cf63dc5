use chess_brute::board::Board;
use chess_brute::piece::Piece;
use chess_brute::piece_set::PieceSet;

const INPUT: &str = "r6k7r/pp4ppp3ppk//14K///PP6PP5P/2B1K3R6R";
const PIECES: &str = "KKQQBNRRRRPPPPPPPPPPPkkqqbbnrrppppppppppp";

fn set(fen: &str) -> PieceSet {
    PieceSet::from_fen(fen)
}

fn letters(s: &PieceSet) -> String {
    s.pieces.iter().map(|p| p.to_fen().unwrap()).collect()
}

#[test]
fn reads_piece_letters() {
    let s = set("KqP");
    assert_eq!(s.pieces, vec![Piece::from_fen('K'), Piece::from_fen('q'), Piece::from_fen('P')]);
    assert!(PieceSet::read_fen("Kx").is_none());
    assert!(PieceSet::read_fen("").unwrap().is_empty());
}

#[test]
fn from_keeps_the_vector() {
    let v = vec![Piece(5), Piece(6)];
    assert_eq!(PieceSet::from(v.clone()).pieces, v);
}

#[test]
fn sort_is_by_value_and_stable() {
    let mut s = set("QpNkRbPK");
    s.sort();
    assert_eq!(letters(&s), "kKpPNbRQ");
}

#[test]
fn removes_first_occurrence() {
    let mut s = set("PpPp");
    s.remove_piece(Piece::from_fen('p'));
    assert_eq!(letters(&s), "PPp");
}

#[test]
fn removes_the_board_pieces() {
    let board = Board::from_fen(INPUT);
    let mut s = set(PIECES);
    assert!(s.holds_board(&board));
    s.remove_board(&board);
    assert_eq!(letters(&s), "QQNRRPPPPPPqqbbnpppp");
    s.sort();
    assert_eq!(letters(&s), "PPPPPPppppNbbnRRQQqq");
    assert!(s.all_known());
}

#[test]
fn board_with_a_missing_piece() {
    let board = Board::read_fen("KK14").unwrap();
    assert!(!set("K").holds_board(&board));
    assert!(set("QKK").holds_board(&board));
}

#[test]
fn next_pop_and_empty() {
    let mut s = set("Rq");
    assert!(!s.is_empty());
    assert_eq!(s.next(), Some(Piece::from_fen('q')));
    assert_eq!(s.pop(), Some(Piece::from_fen('q')));
    assert_eq!(s.pop(), Some(Piece::from_fen('R')));
    assert_eq!(s.pop(), None);
    assert_eq!(s.next(), None);
    assert!(s.is_empty());
}

#[test]
fn pop_off_same_takes_the_last_run() {
    let mut s = set("PPNbb");
    let run = s.pop_off_same().unwrap();
    assert_eq!(letters(&run), "bb");
    assert_eq!(letters(&s), "PPN");
    let run = s.pop_off_same().unwrap();
    assert_eq!(letters(&run), "N");
    let run = s.pop_off_same().unwrap();
    assert_eq!(letters(&run), "PP");
    assert!(s.is_empty());
    assert!(s.pop_off_same().is_none());
}

#[test]
fn pop_off_same_all_equal() {
    let mut s = set("rrr");
    let run = s.pop_off_same().unwrap();
    assert_eq!(letters(&run), "rrr");
    assert!(s.is_empty());
}

#[test]
fn known_pieces() {
    assert!(!PieceSet::from(vec![Piece(5), Piece(7)]).all_known());
    assert!(!PieceSet::from(vec![Piece(0)]).all_known());
}

#[test]
fn display_paints_each_piece() {
    colored::control::set_override(false);
    assert_eq!(set("KqP").display(), "♚ ♕ ♟ ");
    assert_eq!(set("").display(), "");
    colored::control::unset_override();
}

#[test]
fn clone_and_default() {
    let s = set("Nn");
    assert_eq!(s.clone(), s);
    assert!(PieceSet::default().is_empty());
}
