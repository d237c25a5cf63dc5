use vstd::prelude::*;
use crate::board::{targets_met, within_targets, Board, Cells, FileTable, RankTable};
use crate::placement::completes;
use crate::piece_set::PieceSet;
use crate::piece::Piece;
use crate::search::{all_pieces, brute, is_solution, targets_forced, tries, views, white_king_count, wrapped, SearchError};

verus! {

/// Why the search for positions did not run, or stopped.
#[derive(Clone, Copy, Debug, PartialEq, Eq, Structural)]
pub enum PuzzleError {
    /// A cell of the board holds a byte that is no piece.
    MalformedBoard,
    /// One of the pieces to place is not one of the twelve pieces.
    UnknownPiece,
    /// The board already exceeds the target of a rank or a file.
    TargetExceeded,
    /// The search reached a complete board within the targets that does
    /// not meet all of them.
    TargetsNotMet,
    /// The search reached a complete board that meets the targets without
    /// holding exactly two white kings.
    NotTwoWhiteKings,
}

/// Places `pieces` on the empty cells of `board` in every way that meets
/// the rank and file targets with white not in check, each way once, as
/// `brute` does, after checking the inputs for what the search needs; the
/// first check that fails is the error. With no piece to place nothing is
/// searched. Returns the positions found and the number of placements
/// tried (see `tries`).
pub fn search_positions(board: Board, pieces: PieceSet, ranks: RankTable, files: FileTable)
    -> (res: Result<(Vec<Board>, usize), PuzzleError>)
    ensures
        (res == Err::<(Vec<Board>, usize), PuzzleError>(PuzzleError::MalformedBoard)) <==> !board.well_formed(),
        (res == Err::<(Vec<Board>, usize), PuzzleError>(PuzzleError::UnknownPiece))
            <==> board.well_formed() && !all_pieces(pieces@),
        (res == Err::<(Vec<Board>, usize), PuzzleError>(PuzzleError::TargetExceeded))
            <==> board.well_formed() && all_pieces(pieces@) && pieces@.len() > 0
                && !within_targets(board@, ranks@, files@),
        res is Ok <==> board.well_formed() && all_pieces(pieces@) && (pieces@.len() == 0
            || (within_targets(board@, ranks@, files@) && targets_forced(board@, pieces@.to_multiset(), ranks@, files@))),
        res == Err::<(Vec<Board>, usize), PuzzleError>(PuzzleError::TargetsNotMet) ==> exists|f: Cells|
            #[trigger] completes(board@, pieces@.to_multiset(), f) && within_targets(f, ranks@, files@)
            && !targets_met(f, ranks@, files@),
        res == Err::<(Vec<Board>, usize), PuzzleError>(PuzzleError::NotTwoWhiteKings) ==> exists|f: Cells|
            #[trigger] completes(board@, pieces@.to_multiset(), f) && targets_met(f, ranks@, files@)
            && white_king_count(f) != 2,
        res matches Ok((found, tested)) ==> {
            &&& views(found@).no_duplicates()
            &&& pieces@.len() == 0 ==> found@.len() == 0 && tested == 0
            &&& pieces@.len() > 0 ==> forall|f: Cells| #![trigger views(found@).contains(f)]
                #![trigger is_solution(board@, pieces@, ranks@, files@, f)]
                views(found@).contains(f) <==> is_solution(board@, pieces@, ranks@, files@, f)
            &&& tested == wrapped(tries(board@, Seq::<Piece>::empty(), (0, 0), pieces@, ranks@, files@) as int)
        },
{
    if !board.is_well_formed() {
        return Err(PuzzleError::MalformedBoard);
    }
    proof { board.lemma_well_formed(); }
    if !pieces.all_known() {
        return Err(PuzzleError::UnknownPiece);
    }
    if !pieces.is_empty() && !board.is_within(ranks, files) {
        return Err(PuzzleError::TargetExceeded);
    }
    let ghost all = pieces@;
    let mut found: Vec<Board> = Vec::new();
    assert(views(found@) =~= Seq::<Cells>::empty());
    match brute(board, pieces, ranks, files, &mut found) {
        Ok(tested) => {
            assert(found@.take(0) =~= found@.take(0));
            proof {
                assert forall|f: Cells| !views(Seq::<Board>::empty()).contains(f) by {}
            }
            Ok((found, tested))
        },
        Err(SearchError::TargetsNotMet) => Err(PuzzleError::TargetsNotMet),
        Err(SearchError::NotTwoWhiteKings) => Err(PuzzleError::NotTwoWhiteKings),
    }
}

} // verus!
