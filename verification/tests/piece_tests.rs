use chess_brute::attack::Ray;
use chess_brute::board::Board;
use chess_brute::piece::{Piece, BISHOP, BLACK, KING, KNIGHT, PAWN, QUEEN, ROOK, WHITE};

const LETTERS: &str = "KQRBNPkqrbnp";

#[test]
fn fen_letters_round_trip() {
    for c in LETTERS.chars() {
        let p = Piece::from_fen(c);
        assert_eq!(p.to_fen(), Some(c));
    }
    assert_eq!(Piece(0).to_fen(), None);
}

#[test]
fn fen_letters_give_flags() {
    assert_eq!(Piece::from_fen('K'), Piece(WHITE | KING));
    assert_eq!(Piece::from_fen('Q'), Piece(WHITE | QUEEN));
    assert_eq!(Piece::from_fen('R'), Piece(WHITE | ROOK));
    assert_eq!(Piece::from_fen('B'), Piece(WHITE | BISHOP));
    assert_eq!(Piece::from_fen('N'), Piece(WHITE | KNIGHT));
    assert_eq!(Piece::from_fen('P'), Piece(WHITE | PAWN));
    assert_eq!(Piece::from_fen('k'), Piece(BLACK | KING));
    assert_eq!(Piece::from_fen('q'), Piece(BLACK | QUEEN));
    assert_eq!(Piece::from_fen('r'), Piece(BLACK | ROOK));
    assert_eq!(Piece::from_fen('b'), Piece(BLACK | BISHOP));
    assert_eq!(Piece::from_fen('n'), Piece(BLACK | KNIGHT));
    assert_eq!(Piece::from_fen('p'), Piece(BLACK | PAWN));
}

#[test]
fn piece_values() {
    let values: Vec<usize> = LETTERS.chars().map(|c| Piece::from_fen(c).value()).collect();
    assert_eq!(values, vec![0, 9, 5, 3, 3, 1, 0, 9, 5, 3, 3, 1]);
    assert_eq!(Piece(0).value(), 0);
}

#[test]
fn piece_emptiness() {
    assert!(Piece(0).is_empty());
    assert!(!Piece::from_fen('p').is_empty());
}

#[test]
fn piece_glyphs() {
    let glyphs: String = LETTERS.chars().map(|c| Piece::from_fen(c).char()).collect();
    assert_eq!(glyphs, "♚♛♜♝♞♟♔♕♖♗♘♙");
    assert_eq!(Piece(0).char(), '·');
}

#[test]
fn piece_from_byte() {
    let p: Piece = Piece::from(WHITE | QUEEN);
    assert_eq!(p, Piece(9));
    let q: Piece = (BLACK | PAWN).into();
    assert_eq!(q, Piece::from_fen('p'));
}

#[test]
fn piece_format_plain_and_coloured() {
    colored::control::set_override(false);
    assert_eq!(Piece::from_fen('K').format(), "♚");
    assert_eq!(Piece(0).format(), "·");
    colored::control::set_override(true);
    assert_eq!(Piece::from_fen('K').format(), "\u{1b}[33m♚\u{1b}[0m");
    assert_eq!(Piece::from_fen('k').format(), "\u{1b}[34m♔\u{1b}[0m");
    assert_eq!(Piece(0).format(), "\u{1b}[90m·\u{1b}[0m");
    colored::control::unset_override();
}

#[test]
fn attack_rays_per_kind() {
    let counts: Vec<usize> = LETTERS.chars().map(|c| Piece::from_fen(c).attacked_iters().len()).collect();
    assert_eq!(counts, vec![8, 8, 4, 4, 8, 2, 8, 8, 4, 4, 8, 2]);
    assert!(Piece(0).attacked_iters().is_empty());
    let white_pawn = Piece::from_fen('P').attacked_iters();
    assert_eq!(white_pawn[0], Ray { dx: -1, dy: -1, repeat: false });
    assert_eq!(white_pawn[1], Ray { dx: 1, dy: -1, repeat: false });
    let black_pawn = Piece::from_fen('p').attacked_iters();
    assert_eq!(black_pawn[0], Ray { dx: -1, dy: 1, repeat: false });
    let rook = Piece::from_fen('r').attacked_iters();
    assert!(rook.iter().all(|r| r.repeat));
}

#[test]
fn rook_attacks_first_piece_on_each_line() {
    // Black rook at (4, 3); a white king at (4, 0), a white pawn at (1, 3),
    // a white pawn behind it at (0, 3), nothing below or to the right.
    let board = Board::read_fen("4K11/16/16/Pp2r11/16/16/16/16").unwrap();
    let rook = *board.index((4, 3));
    assert_eq!(rook, Piece::from_fen('r'));
    let hits = rook.attacked_pieces(&board, (4, 3));
    assert_eq!(hits, vec![(1, 3), (4, 0)]);
}

#[test]
fn knight_and_pawn_attacks() {
    let board = Board::read_fen("16/2K13/16/1n14/P15/16/16/16").unwrap();
    let knight = Piece::from_fen('n');
    assert_eq!(knight.attacked_pieces(&board, (1, 3)), vec![(2, 1)]);
    // The white pawn at (0, 4) attacks (1, 3) upwards.
    let pawn = Piece::from_fen('P');
    assert_eq!(pawn.attacked_pieces(&board, (0, 4)), vec![(1, 3)]);
}

#[test]
fn default_piece_is_an_empty_cell() {
    assert!(Piece::default().is_empty());
    assert_eq!(Piece::default(), Piece(0));
}
