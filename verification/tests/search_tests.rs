use chess_brute::board::{Board, FileTable, RankTable};
use chess_brute::piece::Piece;
use chess_brute::piece_set::PieceSet;
use chess_brute::puzzle::{search_positions, PuzzleError};
use chess_brute::search::{brute, brute_same_type, handle_complete, is_white_check, SearchError};

const INPUT: &str = "r6k7r/pp4ppp3ppk//14K///PP6PP5P/2B1K3R6R";
const PIECES: &str = "KKQQBNRRRRPPPPPPPPPPPkkqqbbnrrppppppppppp";
const RANKS: RankTable = [(0, 10), (0, 7), (1, 4), (1, 2), (10, 6), (20, 9), (5, 10), (18, 0)];
const FILES: FileTable = [
    (1, 6), (6, 7), (6, 9), (1, 0), (5, 0), (1, 0), (9, 2), (0, 1),
    (6, 1), (1, 0), (1, 1), (1, 4), (1, 1), (9, 1), (1, 0), (6, 15),
];

/// Two white kings, at a8 and h1.
const KINGS: &str = "K15/16/16/16/16/16/16/7K8";

fn kings() -> Board {
    Board::from_fen(KINGS)
}

fn targets(rank: usize, rank_sum: (usize, usize), file_sums: &[(usize, (usize, usize))]) -> (RankTable, FileTable) {
    let mut ranks = [(0, 0); 8];
    ranks[rank] = rank_sum;
    let mut files = [(0, 0); 16];
    for (x, s) in file_sums {
        files[*x] = *s;
    }
    (ranks, files)
}

#[test]
fn one_rook_has_one_place() {
    let (ranks, files) = targets(3, (5, 0), &[(5, (5, 0))]);
    let mut found = Vec::new();
    let tested = brute(kings(), PieceSet::from_fen("R"), ranks, files, &mut found).unwrap();
    assert_eq!(found.len(), 1);
    assert_eq!(found[0].to_fen(), "K15/16/16/5R10/16/16/16/7K8");
    assert_eq!(tested, 1);
}

#[test]
fn equal_rooks_are_placed_once() {
    let (ranks, files) = targets(3, (10, 0), &[(5, (5, 0)), (6, (5, 0))]);
    let mut found = Vec::new();
    let tested = brute(kings(), PieceSet::from_fen("RR"), ranks, files, &mut found).unwrap();
    assert_eq!(found.len(), 1);
    assert_eq!(found[0].to_fen(), "K15/16/16/5RR9/16/16/16/7K8");
    assert_eq!(tested, 3);
}

#[test]
fn positions_with_white_in_check_are_left_out() {
    // A black rook on a5 attacks the king on a8.
    let (ranks, files) = targets(3, (0, 5), &[(0, (0, 5))]);
    let mut found = Vec::new();
    let tested = brute(kings(), PieceSet::from_fen("r"), ranks, files, &mut found).unwrap();
    assert!(found.is_empty());
    assert_eq!(tested, 1);
    // On b5 it attacks neither king.
    let (ranks, files) = targets(3, (0, 5), &[(1, (0, 5))]);
    let tested = brute(kings(), PieceSet::from_fen("r"), ranks, files, &mut found).unwrap();
    assert_eq!(found.len(), 1);
    assert_eq!(found[0].to_fen(), "K15/16/16/1r14/16/16/16/7K8");
    assert_eq!(tested, 1);
}

#[test]
fn two_kinds_of_pieces_in_turn() {
    // A white rook and a white knight on rank 5, files d and e in either order.
    let (ranks, files) = targets(3, (8, 0), &[(3, (3, 0)), (4, (5, 0))]);
    let mut found = Vec::new();
    brute(kings(), PieceSet::from_fen("NR"), ranks, files, &mut found).unwrap();
    assert_eq!(found.len(), 1);
    assert_eq!(found[0].to_fen(), "K15/16/16/3NR11/16/16/16/7K8");
}

#[test]
fn several_solutions_each_once() {
    // Two white pawns on ranks 6 and 5 and on files c and d: two ways.
    let mut ranks = [(0, 0); 8];
    ranks[2] = (1, 0);
    ranks[3] = (1, 0);
    let mut files = [(0, 0); 16];
    files[2] = (1, 0);
    files[3] = (1, 0);
    let mut found = Vec::new();
    brute(kings(), PieceSet::from_fen("PP"), ranks, files, &mut found).unwrap();
    let mut fens: Vec<String> = found.iter().map(|b| b.to_fen()).collect();
    fens.sort();
    assert_eq!(fens, vec!["K15/16/2P13/3P12/16/16/16/7K8".to_string(), "K15/16/3P12/2P13/16/16/16/7K8".to_string()]);
}

#[test]
fn nothing_to_place_finds_nothing() {
    let mut found = Vec::new();
    let tested = brute(kings(), PieceSet::default(), [(0, 0); 8], [(0, 0); 16], &mut found).unwrap();
    assert!(found.is_empty());
    assert_eq!(tested, 0);
}

#[test]
fn brute_same_type_from_a_start_cell() {
    let (ranks, files) = targets(3, (5, 0), &[(5, (5, 0))]);
    let mut found = Vec::new();
    let mut tested = 0;
    let r = brute_same_type(kings(), PieceSet::from_fen("R"), (6, 0), PieceSet::default(), ranks, files, &mut found, &mut tested);
    assert_eq!(r, Ok(()));
    assert!(found.is_empty());
    assert_eq!(tested, 0);
    let r = brute_same_type(kings(), PieceSet::from_fen("R"), (5, 3), PieceSet::default(), ranks, files, &mut found, &mut tested);
    assert_eq!(r, Ok(()));
    assert_eq!(found.len(), 1);
    assert_eq!(tested, 1);
}

#[test]
fn brute_same_type_start_off_the_board() {
    let (ranks, files) = targets(3, (5, 0), &[(5, (5, 0))]);
    let mut found = Vec::new();
    let mut tested = 0;
    let r = brute_same_type(kings(), PieceSet::from_fen("R"), (5, 8), PieceSet::default(), ranks, files, &mut found, &mut tested);
    assert_eq!(r, Ok(()));
    assert!(found.is_empty());
    let r = brute_same_type(kings(), PieceSet::from_fen("R"), (20, 0), PieceSet::default(), ranks, files, &mut found, &mut tested);
    assert_eq!(r, Ok(()));
    assert!(found.is_empty());
    assert_eq!(tested, 0);
}

#[test]
fn brute_same_type_with_the_piece_also_in_the_rest() {
    // Nothing can be placed: all targets are zero.
    let mut found = Vec::new();
    let mut tested = 0;
    let r = brute_same_type(Board::default(), PieceSet::from_fen("B"), (0, 0), PieceSet::from_fen("B"),
        [(0, 0); 8], [(0, 0); 16], &mut found, &mut tested);
    assert_eq!(r, Ok(()));
    assert!(found.is_empty());
    assert_eq!(tested, 0);
}

#[test]
fn a_position_reached_twice_is_kept_once() {
    // The runs R, P, R place the two rooks in either order.
    let (ranks, files) = targets(3, (11, 0), &[(5, (5, 0)), (6, (5, 0)), (7, (1, 0))]);
    let mut found = Vec::new();
    let tested = brute(kings(), PieceSet::from_fen("RPR"), ranks, files, &mut found).unwrap();
    assert_eq!(found.len(), 1);
    assert_eq!(found[0].to_fen(), "K15/16/16/5RRP8/16/16/16/7K8");
    assert_eq!(tested, 8);
}

#[test]
fn the_search_stops_at_a_missed_target() {
    // A knight fits where a rook's worth is asked for.
    let (ranks, files) = targets(3, (5, 0), &[(5, (5, 0))]);
    let mut found = Vec::new();
    assert_eq!(brute(kings(), PieceSet::from_fen("N"), ranks, files, &mut found), Err(SearchError::TargetsNotMet));
    let mut tested = 0;
    assert_eq!(brute_same_type(kings(), PieceSet::from_fen("N"), (0, 0), PieceSet::default(), ranks, files,
        &mut found, &mut tested), Err(SearchError::TargetsNotMet));
}

#[test]
fn the_search_stops_without_two_white_kings() {
    let one_king = Board::from_fen("K15/16/16/16/16/16/16/16");
    let (ranks, files) = targets(3, (5, 0), &[(5, (5, 0))]);
    let mut found = Vec::new();
    assert_eq!(brute(one_king, PieceSet::from_fen("R"), ranks, files, &mut found), Err(SearchError::NotTwoWhiteKings));
    // Where nothing completes, nothing is checked.
    let mut found = Vec::new();
    assert_eq!(brute(one_king, PieceSet::from_fen("RR"), ranks, files, &mut found), Ok(1));
}

#[test]
fn handle_complete_keeps_boards_without_check() {
    let board = Board::from_fen("K15/16/16/1r14/16/16/16/7K8");
    let (ranks, files) = targets(3, (0, 5), &[(1, (0, 5))]);
    let mut found = Vec::new();
    handle_complete(board, ranks, files, &mut found);
    assert_eq!(found.len(), 1);
    let checked = Board::from_fen("K15/16/16/r15/16/16/16/7K8");
    let (ranks, files) = targets(3, (0, 5), &[(0, (0, 5))]);
    handle_complete(checked, ranks, files, &mut found);
    assert_eq!(found.len(), 1);
}

#[test]
fn white_check_detection() {
    assert!(!is_white_check(&kings()));
    assert!(is_white_check(&Board::from_fen("K15/16/16/r15/16/16/16/7K8")));
    // A black pawn on g2 attacks h1.
    assert!(is_white_check(&Board::from_fen("K15/16/16/16/16/16/6p9/7K8")));
    // A black pawn on h2 does not.
    assert!(!is_white_check(&Board::from_fen("K15/16/16/16/16/16/7p8/7K8")));
    // A white piece in between blocks a black bishop.
    assert!(is_white_check(&Board::from_fen("K15/16/2b13/16/16/16/16/7K8")));
    assert!(is_white_check(&Board::from_fen("K15/1P14/2b13/16/16/16/16/7K8")));
    assert!(!is_white_check(&Board::from_fen("K15/1P14/2b13/3P12/16/16/16/7K8")));
}

#[test]
fn search_positions_small_puzzle() {
    let (ranks, files) = targets(3, (5, 0), &[(5, (5, 0))]);
    let (found, tested) = search_positions(kings(), PieceSet::from_fen("R"), ranks, files).unwrap();
    assert_eq!(found.len(), 1);
    assert_eq!(found[0].to_fen(), "K15/16/16/5R10/16/16/16/7K8");
    assert_eq!(tested, 1);
}

#[test]
fn search_positions_errors() {
    let (ranks, files) = targets(3, (5, 0), &[(5, (5, 0))]);
    let mut bad = kings();
    bad.board[1][1] = Piece(3);
    assert_eq!(search_positions(bad, PieceSet::from_fen("R"), ranks, files).err(), Some(PuzzleError::MalformedBoard));
    assert_eq!(search_positions(kings(), PieceSet::from(vec![Piece(7)]), ranks, files).err(),
        Some(PuzzleError::UnknownPiece));
    let board = Board::from_fen("K15/16/16/16/16/16/16/7K7Q");
    assert_eq!(search_positions(board, PieceSet::from_fen("R"), [(0, 0); 8], [(0, 0); 16]).err(),
        Some(PuzzleError::TargetExceeded));
    assert_eq!(search_positions(kings(), PieceSet::from_fen("N"), ranks, files).err(), Some(PuzzleError::TargetsNotMet));
    let one_king = Board::from_fen("K15/16/16/16/16/16/16/16");
    assert_eq!(search_positions(one_king, PieceSet::from_fen("R"), ranks, files).err(),
        Some(PuzzleError::NotTwoWhiteKings));
    // Ungrouped pieces, or too much material: the search runs and finds nothing.
    let (found, _) = search_positions(kings(), PieceSet::from_fen("BNB"), ranks, files).unwrap();
    assert!(found.is_empty());
    let (found, _) = search_positions(kings(), PieceSet::from_fen("PRR"), ranks, files).unwrap();
    assert!(found.is_empty());
    // Nothing to place: no search, nothing found.
    let (found, tested) = search_positions(kings(), PieceSet::default(), ranks, files).unwrap();
    assert!(found.is_empty());
    assert_eq!(tested, 0);
}

#[test]
fn search_positions_the_program_way() {
    // Load, take the board's pieces out, sort, search.
    let board = Board::from_fen(KINGS);
    let mut pieces = PieceSet::from_fen("KKRR");
    pieces.remove_board(&board);
    pieces.sort();
    let (ranks, files) = targets(3, (10, 0), &[(5, (5, 0)), (6, (5, 0))]);
    let (found, _) = search_positions(board, pieces, ranks, files).unwrap();
    assert_eq!(found.len(), 1);
}

