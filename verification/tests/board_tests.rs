use chess_brute::board::{rank_fen, Board, FileTable, RankTable};
use chess_brute::piece::Piece;

const INPUT: &str = "r6k7r/pp4ppp3ppk//14K///PP6PP5P/2B1K3R6R";

const RANKS: RankTable = [(0, 10), (0, 7), (1, 4), (1, 2), (10, 6), (20, 9), (5, 10), (18, 0)];

const FILES: FileTable = [
    (1, 6), (6, 7), (6, 9), (1, 0), (5, 0), (1, 0), (9, 2), (0, 1),
    (6, 1), (1, 0), (1, 1), (1, 4), (1, 1), (9, 1), (1, 0), (6, 15),
];

fn p(c: char) -> Piece {
    Piece::from_fen(c)
}

#[test]
fn reads_the_puzzle_board() {
    let board = Board::from_fen(INPUT);
    assert_eq!(board.board[0][0], p('r'));
    assert_eq!(board.board[0][7], p('k'));
    assert_eq!(board.board[0][15], p('r'));
    assert_eq!(board.board[3][14], p('K'));
    assert_eq!(board.board[7][2], p('B'));
    assert_eq!(board.board[7][4], p('K'));
    assert!(board.board[2].iter().all(|c| c.is_empty()));
    assert!(board.is_well_formed());
}

#[test]
fn writes_fen() {
    let board = Board::from_fen(INPUT);
    assert_eq!(board.to_fen(), "r6k7r/pp4ppp3ppk1/16/14K1/16/16/PP6PP5P/2B1K3R6R");
    let (left, right) = board.to_fen_left_right();
    assert_eq!(left, "r6k/pp4pp/8/8/8/8/PP6/2B1K3");
    assert_eq!(right, "7r/p3ppk1/8/6K1/8/8/PP5P/R6R");
}

#[test]
fn fen_round_trip() {
    let board = Board::from_fen(INPUT);
    let again = Board::read_fen(&board.to_fen()).unwrap();
    assert!(again == board);
}

#[test]
fn rejects_bad_fen() {
    assert!(Board::read_fen("x15").is_none());
    // A piece past the right edge of a rank.
    assert!(Board::read_fen("16K").is_none());
    // A ninth rank.
    assert!(Board::read_fen("////////K").is_none());
    // Running past the edge with digits alone is fine.
    assert!(Board::read_fen("99").is_some());
    assert!(Board::read_fen("").unwrap() == Board::default());
}

#[test]
fn two_digit_runs() {
    let board = Board::read_fen("12K3").unwrap();
    assert_eq!(board.board[0][12], p('K'));
    assert_eq!(board.to_fen(), "12K3/16/16/16/16/16/16/16");
}

#[test]
fn rank_fen_counts_empty_runs() {
    let e = Piece(0);
    assert_eq!(rank_fen(&[p('K'), e, e, e, p('q')]), "K3q");
    assert_eq!(rank_fen(&[e; 16]), "16");
    assert_eq!(rank_fen(&[]), "");
    assert_eq!(rank_fen(&[e, p('P'), e]), "1P1");
}

#[test]
fn get_and_index() {
    let board = Board::from_fen(INPUT);
    assert_eq!(board.get((7, 0)), Some(&p('k')));
    assert_eq!(board.get((16, 0)), None);
    assert_eq!(board.get((0, 8)), None);
    assert_eq!(*board.index((15, 7)), p('R'));
}

#[test]
fn iterates_cells_and_pieces() {
    let board = Board::from_fen(INPUT);
    let cells = board.iter();
    assert_eq!(cells.len(), 128);
    assert_eq!(cells[0], ((0, 0), p('r')));
    assert_eq!(cells[17], ((1, 1), p('p')));
    let pieces = board.iter_pieces();
    assert_eq!(pieces.len(), 21);
    assert_eq!(pieces[0], ((0, 0), p('r')));
    assert_eq!(pieces[1], ((7, 0), p('k')));
    assert_eq!(pieces[20], ((15, 7), p('R')));
}

#[test]
fn rank_and_file_scores() {
    let board = Board::from_fen(INPUT);
    assert_eq!(board.rank_score(0), (0, 10));
    assert_eq!(board.rank_score(1), (0, 7));
    assert_eq!(board.rank_score(2), (0, 0));
    assert_eq!(board.rank_score(6), (5, 0));
    assert_eq!(board.rank_score(7), (13, 0));
    assert_eq!(board.file_score(0), (1, 6));
    assert_eq!(board.file_score(15), (6, 5));
    assert_eq!(board.file_score(2), (3, 0));
}

#[test]
fn targets() {
    let board = Board::from_fen(INPUT);
    assert!(!board.matches_target(RANKS, FILES));
    assert!(board.is_within(RANKS, FILES));
    let (ranks, files) = board.target_diff(RANKS, FILES);
    assert_eq!(ranks[0], (0, 0));
    assert_eq!(ranks[6], (0, 10));
    assert_eq!(ranks[7], (5, 0));
    assert_eq!(files[15], (0, 10));
    assert_eq!(files[0], (0, 0));
    let mut tight = RANKS;
    tight[7] = (10, 0);
    assert!(!board.is_within(tight, FILES));
}

#[test]
fn an_empty_board_meets_zero_targets() {
    let board = Board::default();
    assert!(board.matches_target([(0, 0); 8], [(0, 0); 16]));
    assert!(!board.matches_target([(1, 0); 8], [(0, 0); 16]));
}

#[test]
fn set_writes_one_cell() {
    let mut board = Board::default();
    board.set(3, 5, p('Q'));
    assert_eq!(board.board[5][3], p('Q'));
    assert_eq!(board.iter_pieces().len(), 1);
}

#[test]
fn malformed_board_is_detected() {
    let mut board = Board::default();
    assert!(board.is_well_formed());
    board.board[2][2] = Piece(3);
    assert!(!board.is_well_formed());
}

#[test]
fn display_shows_ranks_files_and_fen() {
    colored::control::set_override(false);
    let board = Board::read_fen("K15/16/16/16/16/16/16/7K8").unwrap();
    let mut expected = String::new();
    for y in 0..8 {
        expected += &format!(" {} ", 8 - y);
        for x in 0..16 {
            let c = if (x == 0 && y == 0) || (x == 7 && y == 7) { "♚" } else { "·" };
            expected += c;
            expected += " ";
        }
        expected += "\n";
    }
    expected += "   a b c d e f g h i j k l m n o p \n";
    expected += "\nFEN: K15/16/16/16/16/16/16/7K8 ";
    expected += "\nFEN L: K7/8/8/8/8/8/8/7K ";
    expected += "\nFEN R: 8/8/8/8/8/8/8/8 ";
    assert_eq!(board.display(), expected);
    colored::control::unset_override();
}
