use chess_brute::board::Board;
use chess_brute::piece::Piece;
use chess_brute::piece_set::PieceSet;

#[test]
fn fen_round_trip_on_several_boards() {
    for fen in [
        "K15/16/16/16/16/16/16/7K8",
        "r6k7r/pp4ppp3ppk1/16/14K1/16/16/PP6PP5P/2B1K3R6R",
        "QqRrBbNnPpKk4/16/16/16/16/16/16/16",
        "16/16/16/16/16/16/16/16",
    ] {
        let board = Board::read_fen(fen).unwrap();
        assert_eq!(board.to_fen(), fen);
        assert!(Board::read_fen(&board.to_fen()).unwrap() == board);
    }
}

#[test]
fn letter_round_trip_for_every_byte() {
    for b in 0u8..=255 {
        let p = Piece(b);
        if let Some(c) = if [5u8, 9, 17, 33, 65, 129, 6, 10, 18, 34, 66, 130].contains(&b) { p.to_fen() } else { None } {
            assert_eq!(Piece::from_fen(c), p);
        }
    }
}

#[test]
fn sort_keeps_the_pieces_and_orders_values() {
    let mut s = PieceSet::from_fen("qPbKRnpQkBrN");
    let before = s.clone();
    s.sort();
    let values: Vec<usize> = s.pieces.iter().map(|p| p.value()).collect();
    let mut sorted_values = values.clone();
    sorted_values.sort();
    assert_eq!(values, sorted_values);
    let mut a: Vec<u8> = s.pieces.iter().map(|p| p.0).collect();
    let mut b: Vec<u8> = before.pieces.iter().map(|p| p.0).collect();
    a.sort();
    b.sort();
    assert_eq!(a, b);
}

#[test]
fn pop_off_same_splits_the_list() {
    let original = PieceSet::from_fen("PPNNbbb");
    let mut rest = original.clone();
    let run = rest.pop_off_same().unwrap();
    let mut joined = rest.pieces.clone();
    joined.extend(run.pieces.iter().copied());
    assert_eq!(joined, original.pieces);
    assert!(run.pieces.iter().all(|p| *p == Piece::from_fen('b')));
    assert_ne!(*rest.pieces.last().unwrap(), Piece::from_fen('b'));
}

#[test]
fn removing_the_board_is_multiset_difference() {
    let board = Board::read_fen("Kk2pP10").unwrap();
    let mut s = PieceSet::from_fen("PpKkQpP");
    s.remove_board(&board);
    let letters: String = s.pieces.iter().map(|p| p.to_fen().unwrap()).collect();
    assert_eq!(letters, "QpP");
}

#[test]
fn attacked_positions_hold_pieces() {
    let board = Board::read_fen("r3K11/1p14/16/Q15/16/16/16/7q8").unwrap();
    for ((x, y), piece) in board.iter_pieces() {
        for (ax, ay) in piece.attacked_pieces(&board, (x, y)) {
            assert!(ax < 16 && ay < 8);
            assert!(!board.board[ay][ax].is_empty());
        }
    }
}

#[test]
fn sliding_attacks_reach_across_the_board() {
    let board = Board::read_fen("16/16/16/r14K/16/16/16/16").unwrap();
    let rook = Piece::from_fen('r');
    assert_eq!(rook.attacked_pieces(&board, (0, 3)), vec![(15, 3)]);
    let board = Board::read_fen("b15/16/16/16/16/16/16/7K8").unwrap();
    let bishop = Piece::from_fen('b');
    assert_eq!(bishop.attacked_pieces(&board, (0, 0)), vec![(7, 7)]);
}

#[test]
fn queen_attacks_what_rook_and_bishop_attack() {
    let base = Board::read_fen("r3K11/1p14/16/3p12/16/5P10/16/7q8").unwrap();
    for (x, y) in [(3usize, 1usize), (0, 7), (10, 4)] {
        if !base.board[y][x].is_empty() {
            continue;
        }
        for c in ['Q', 'q'] {
            let (r, b) = if c == 'Q' { ('R', 'B') } else { ('r', 'b') };
            let mut bq = base;
            bq.board[y][x] = Piece::from_fen(c);
            let mut br = base;
            br.board[y][x] = Piece::from_fen(r);
            let mut bb = base;
            bb.board[y][x] = Piece::from_fen(b);
            let mut expected = Piece::from_fen(r).attacked_pieces(&br, (x, y));
            expected.extend(Piece::from_fen(b).attacked_pieces(&bb, (x, y)));
            assert_eq!(Piece::from_fen(c).attacked_pieces(&bq, (x, y)), expected);
        }
    }
}

#[test]
fn each_half_reads_back() {
    let board = Board::read_fen("r6k7r/pp4ppp3ppk1/16/14K1/16/16/PP6PP5P/2B1K3R6R").unwrap();
    let (left, right) = board.to_fen_left_right();
    let l = Board::read_fen(&left).unwrap();
    let r = Board::read_fen(&right).unwrap();
    for y in 0..8 {
        for x in 0..8 {
            assert_eq!(l.board[y][x], board.board[y][x]);
            assert_eq!(r.board[y][x], board.board[y][x + 8]);
            assert!(l.board[y][x + 8].is_empty());
            assert!(r.board[y][x + 8].is_empty());
        }
    }
}
