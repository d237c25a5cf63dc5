use vstd::prelude::*;
use vstd::multiset::Multiset;
use crate::attack::attacked_from;
use crate::balance::ranks_kings;
use crate::board::{
    file_cells, has_colour, on_board, set_cell, shaped, side_sum, targets_met,
    within_targets, Board, Cells, FileTable, RankTable,
};
use crate::piece::{lemma_flag_bits, value_of, Piece, BLACK, HEIGHT, KING, WHITE, WIDTH};
use crate::piece_set::{lemma_trailing_run, trailing_run, PieceSet};
use crate::walk::{
    at_or_after, branch_candidate, branch_forced, branch_solution, child_candidate, lemma_child_exceeds,
    lemma_children, lemma_key_cell, lemma_leaf, lemma_next_run, lemma_walk_done, lemma_walk_end, lemma_walk_step,
    solved_before, walk_state,
};
use crate::placement::{completes, lemma_set_cell_lines, lemma_side_sum_update};

verus! {

/// A white king stands at `pos`.
pub open spec fn white_king_at(cells: Cells, pos: (usize, usize)) -> bool {
    on_board(pos.0 as int, pos.1 as int) && cells[pos.1 as int][pos.0 as int].0 == 5
}

/// Number of white kings on the board.
pub open spec fn white_king_count(cells: Cells) -> nat {
    ranks_kings(cells, HEIGHT as int)
}

/// Some black piece attacks a white king.
pub open spec fn white_in_check(cells: Cells) -> bool {
    exists|x: int, y: int|
        #![trigger attacked_from(cells, x, y)]
        on_board(x, y) && has_colour(cells[y][x], false) && exists|t: int|
            0 <= t < attacked_from(cells, x, y).len() && white_king_at(cells, #[trigger] attacked_from(cells, x, y)[t])
}

/// Positions of the white kings, found by scanning the board.
fn white_kings(board: &Board) -> (res: Vec<(usize, usize)>)
    ensures
        forall|p: (usize, usize)| res@.contains(p) <==> white_king_at(board@, p),
{
    proof { lemma_flag_bits(0); }
    let mut res: Vec<(usize, usize)> = Vec::new();
    let mut y: usize = 0;
    while y < HEIGHT
        invariant
            y <= HEIGHT,
            forall|p: (usize, usize)| res@.contains(p) <==> (white_king_at(board@, p) && p.1 < y),
        decreases HEIGHT - y,
    {
        let mut x: usize = 0;
        while x < WIDTH
            invariant
                y < HEIGHT,
                x <= WIDTH,
                forall|p: (usize, usize)| res@.contains(p) <==> (white_king_at(board@, p)
                    && (p.1 < y || (p.1 == y && p.0 < x))),
            decreases WIDTH - x,
        {
            proof { lemma_flag_bits(0); }
            let ghost old_res = res@;
            assert(board.board[y as int][x as int] == board@[y as int][x as int]);
            if board.board[y][x].0 == WHITE | KING {
                res.push((x, y));
                assert forall|p: (usize, usize)| res@.contains(p) implies old_res.contains(p) || p == (x, y) by {
                    let k = choose|k: int| 0 <= k < res@.len() && res@[k] == p;
                    if k < old_res.len() {
                        assert(old_res[k] == p);
                    }
                }
                assert(res@[res@.len() - 1] == (x, y));
                assert forall|p: (usize, usize)| old_res.contains(p) implies res@.contains(p) by {
                    let k = choose|k: int| 0 <= k < old_res.len() && old_res[k] == p;
                    assert(res@[k] == p);
                }
            } else {
                assert(!white_king_at(board@, (x, y)));
            }
            assert forall|p: (usize, usize)| res@.contains(p) <==> (white_king_at(board@, p)
                && (p.1 < y || (p.1 == y && p.0 < x + 1))) by {
                if p == (x, y) {
                } else {
                    assert(res@.contains(p) <==> old_res.contains(p));
                }
            }
            x = x + 1;
        }
        y = y + 1;
    }
    res
}

/// Whether `list` holds `p`.
fn contains_pos(list: &Vec<(usize, usize)>, p: (usize, usize)) -> (res: bool)
    ensures
        res == list@.contains(p),
{
    let mut i: usize = 0;
    while i < list.len()
        invariant
            i <= list@.len(),
            forall|j: int| 0 <= j < i ==> list@[j] != p,
        decreases list@.len() - i,
    {
        if list[i].0 == p.0 && list[i].1 == p.1 {
            return true;
        }
        i = i + 1;
    }
    false
}

/// Check whether white is currently checked by black.
pub fn is_white_check(board: &Board) -> (res: bool)
    requires
        forall|x: int, y: int| on_board(x, y) && has_colour(#[trigger] board.at(x, y), false) ==> board.at(x, y).has_value(),
        white_king_count(board@) == 2,
    ensures
        res == white_in_check(board@),
{
    // Find white kings
    let kings = white_kings(board);
    // For each black piece, does it attack one of white's kings?
    let mut y: usize = 0;
    while y < HEIGHT
        invariant
            y <= HEIGHT,
            forall|x: int, y: int| on_board(x, y) && has_colour(#[trigger] board.at(x, y), false) ==> board.at(x, y).has_value(),
            forall|p: (usize, usize)| kings@.contains(p) <==> white_king_at(board@, p),
            forall|bx: int, by: int| on_board(bx, by) && by < y && has_colour(board@[by][bx], false) ==>
                forall|t: int| 0 <= t < attacked_from(board@, bx, by).len() ==>
                    !white_king_at(board@, #[trigger] attacked_from(board@, bx, by)[t]),
        decreases HEIGHT - y,
    {
        let mut x: usize = 0;
        while x < WIDTH
            invariant
                y < HEIGHT,
                x <= WIDTH,
                forall|x: int, y: int| on_board(x, y) && has_colour(#[trigger] board.at(x, y), false) ==> board.at(x, y).has_value(),
                forall|p: (usize, usize)| kings@.contains(p) <==> white_king_at(board@, p),
                forall|bx: int, by: int| on_board(bx, by) && (by < y || (by == y && bx < x))
                    && has_colour(board@[by][bx], false) ==>
                    forall|t: int| 0 <= t < attacked_from(board@, bx, by).len() ==>
                        !white_king_at(board@, #[trigger] attacked_from(board@, bx, by)[t]),
            decreases WIDTH - x,
        {
            let piece = board.board[y][x];
            assert(piece == board@[y as int][x as int]);
            if piece.0 & BLACK > 0 {
                assert(board.at(x as int, y as int).has_value());
                let attacks = piece.attacked_pieces(board, (x, y));
                let mut t: usize = 0;
                while t < attacks.len()
                    invariant
                        t <= attacks@.len(),
                        attacks@ == attacked_from(board@, x as int, y as int),
                        on_board(x as int, y as int),
                        has_colour(board@[y as int][x as int], false),
                        forall|p: (usize, usize)| kings@.contains(p) <==> white_king_at(board@, p),
                        forall|u: int| 0 <= u < t ==> !white_king_at(board@, #[trigger] attacks@[u]),
                    decreases attacks@.len() - t,
                {
                    if contains_pos(&kings, attacks[t]) {
                        assert(white_king_at(board@, attacked_from(board@, x as int, y as int)[t as int]));
                        assert(on_board(x as int, y as int) && has_colour(board@[y as int][x as int], false));
                        return true;
                    }
                    t = t + 1;
                }
            }
            x = x + 1;
        }
        y = y + 1;
    }
    false
}

/// Every piece of the sequence is one of the twelve pieces.
pub open spec fn all_pieces(s: Seq<Piece>) -> bool {
    forall|i: int| 0 <= i < s.len() ==> #[trigger] s[i].is_piece()
}

/// The pieces left to place: the run being placed and the rest.
pub open spec fn to_place(same: Seq<Piece>, rest: Seq<Piece>) -> Multiset<Piece> {
    same.to_multiset().add(rest.to_multiset())
}

/// Column-major index of the cell at file `x`, rank `y`: the order in which
/// the search visits the cells.
pub open spec fn col_key(x: int, y: int) -> int {
    x * 8 + y
}

/// `f` is a solution of the puzzle: the board `b` with exactly the pieces
/// `pieces` placed on its empty cells, every rank and file sum at its
/// target, and white not in check.
pub open spec fn is_solution(b: Cells, pieces: Seq<Piece>, ranks: Seq<(usize, usize)>,
    files: Seq<(usize, usize)>, f: Cells) -> bool {
    &&& completes(b, pieces.to_multiset(), f)
    &&& targets_met(f, ranks, files)
    &&& !white_in_check(f)
}

/// The search may put `p` at `(x, y)` of `b`: the cell is empty and the
/// piece keeps its rank and its file within the targets of its side.
pub open spec fn can_place(b: Cells, p: Piece, x: int, y: int, ranks: Seq<(usize, usize)>,
    files: Seq<(usize, usize)>) -> bool {
    let w = has_colour(p, true);
    &&& b[y][x].empty()
    &&& side_sum(b[y], w) + value_of(p.0) <= side_target(ranks[y], w)
    &&& side_sum(file_cells(b, x), w) + value_of(p.0) <= side_target(files[x], w)
}

/// Number of placements that the search tries in a branch: where a piece
/// of `same` is left, one for each cell at or after `start` where the
/// search may put it, plus those tried after that placement; once `same`
/// is used up, those of the next run of `rest`.
pub open spec fn tries(b: Cells, same: Seq<Piece>, start: (usize, usize), rest: Seq<Piece>,
    ranks: Seq<(usize, usize)>, files: Seq<(usize, usize)>) -> nat
    decreases same.len() + rest.len(), if same.len() == 0 { 1nat } else { 0nat }, 129nat,
{
    if same.len() == 0 {
        if rest.len() == 0 {
            0
        } else {
            proof { lemma_trailing_run(rest); }
            let n = rest.len() - trailing_run(rest);
            tries(b, rest.skip(n), (0, 0), rest.take(n), ranks, files)
        }
    } else {
        tries_before(b, same, start, rest, ranks, files, 128)
    }
}

/// The placements that a branch tries at the cells whose column-major
/// index is below `k`, with those tried after each of them.
pub open spec fn tries_before(b: Cells, same: Seq<Piece>, start: (usize, usize), rest: Seq<Piece>,
    ranks: Seq<(usize, usize)>, files: Seq<(usize, usize)>, k: nat) -> nat
    decreases same.len() + rest.len(), 0nat, k,
{
    if k == 0 || same.len() == 0 {
        0
    } else {
        let x = (k - 1) / 8;
        let y = (k - 1) % 8;
        let p = same.last();
        tries_before(b, same, start, rest, ranks, files, (k - 1) as nat) + if at_or_after(x, y, start)
            && can_place(b, p, x, y, ranks, files) {
            1 + tries(set_cell(b, x, y, p), same.drop_last(), (x as usize, y as usize), rest, ranks, files)
        } else {
            0
        }
    }
}

/// `n` as a `usize` counter that wraps around.
pub open spec fn wrapped(n: int) -> int {
    n % (usize::MAX + 1)
}

proof fn lemma_wrapped_add(a: int, c: int)
    requires
        a >= 0,
        c >= 0,
    ensures
        wrapped(wrapped(a) + c) == wrapped(a + c),
        0 <= wrapped(a) <= usize::MAX,
{
    let m = usize::MAX + 1;
    vstd::arithmetic::div_mod::lemma_add_mod_noop(a, c, m);
    vstd::arithmetic::div_mod::lemma_add_mod_noop(a % m, c, m);
    vstd::arithmetic::div_mod::lemma_mod_twice(a, m);
    vstd::arithmetic::div_mod::lemma_mod_bound(a, m);
}

/// No placement is tried before the file of the start cell.
proof fn lemma_tries_before_start(b: Cells, same: Seq<Piece>, start: (usize, usize), rest: Seq<Piece>,
    ranks: Seq<(usize, usize)>, files: Seq<(usize, usize)>, k: nat)
    requires
        k <= col_key(start.0 as int, 0),
    ensures
        tries_before(b, same, start, rest, ranks, files, k) == 0,
    decreases k,
{
    if k > 0 && same.len() > 0 {
        lemma_tries_before_start(b, same, start, rest, ranks, files, (k - 1) as nat);
        let x = (k - 1) / 8;
        let y = (k - 1) % 8;
        assert(x * 8 + y == k - 1 && 0 <= y < 8) by (nonlinear_arith)
            requires x == (k - 1) / 8, y == (k - 1) % 8, k >= 1;
        assert(!at_or_after(x, y, start));
    }
}

/// Every completion of `b` by `rem` that stays within the targets meets
/// them exactly and has two white kings.
pub open spec fn targets_forced(b: Cells, rem: Multiset<Piece>, ranks: Seq<(usize, usize)>,
    files: Seq<(usize, usize)>) -> bool {
    forall|f: Cells| #[trigger] completes(b, rem, f) && within_targets(f, ranks, files)
        ==> targets_met(f, ranks, files) && white_king_count(f) == 2
}

/// The boards of a list, as cells.
pub open spec fn views(s: Seq<Board>) -> Seq<Cells> {
    s.map_values(|b: Board| b@)
}

/// The target of one side in a `(white, black)` pair.
pub open spec fn side_target(t: (usize, usize), white: bool) -> nat {
    if white { t.0 as nat } else { t.1 as nat }
}

/// Placing `p` at `(x, y)` within the target of its rank and file keeps the
/// board within all targets.
proof fn lemma_place_within(b: Cells, ranks: Seq<(usize, usize)>, files: Seq<(usize, usize)>,
    x: int, y: int, p: Piece)
    requires
        shaped(b),
        on_board(x, y),
        b[y][x].empty(),
        p.is_piece(),
        within_targets(b, ranks, files),
        side_sum(b[y], has_colour(p, true)) + value_of(p.0) <= side_target(ranks[y], has_colour(p, true)),
        side_sum(file_cells(b, x), has_colour(p, true)) + value_of(p.0) <= side_target(files[x], has_colour(p, true)),
    ensures
        within_targets(set_cell(b, x, y, p), ranks, files),
{
    let b2 = set_cell(b, x, y, p);
    crate::piece::lemma_piece_facts(p);
    lemma_set_cell_lines(b, x, y, p);
    lemma_side_sum_update(b[y], x, p, true);
    lemma_side_sum_update(b[y], x, p, false);
    lemma_side_sum_update(file_cells(b, x), y, p, true);
    lemma_side_sum_update(file_cells(b, x), y, p, false);
    assert forall|r: int| 0 <= r < HEIGHT implies #[trigger] crate::board::rank_sums(b2, r).0 <= ranks[r].0
        && crate::board::rank_sums(b2, r).1 <= ranks[r].1 by {
        assert(crate::board::rank_sums(b, r).0 <= ranks[r].0);
    }
    assert forall|c: int| 0 <= c < WIDTH implies #[trigger] crate::board::file_sums(b2, c).0 <= files[c].0
        && crate::board::file_sums(b2, c).1 <= files[c].1 by {
        assert(crate::board::file_sums(b, c).0 <= files[c].0);
    }
    assert(within_targets(b2, ranks, files));
}

/// Why the search stopped: a complete board within the targets that
/// misses one of them, or one without exactly two white kings.
#[derive(Clone, Copy, Debug, PartialEq, Eq, Structural)]
pub enum SearchError {
    /// A complete board within the targets does not meet all of them.
    TargetsNotMet,
    /// A complete board that meets the targets does not hold exactly two
    /// white kings.
    NotTwoWhiteKings,
}

/// Whether two boards hold the same pieces everywhere.
fn same_cells(a: &Board, b: &Board) -> (res: bool)
    ensures
        res == (a@ == b@),
{
    let mut y: usize = 0;
    while y < HEIGHT
        invariant
            y <= HEIGHT,
            forall|r: int| 0 <= r < y ==> #[trigger] a@[r] == b@[r],
        decreases HEIGHT - y,
    {
        let mut x: usize = 0;
        while x < WIDTH
            invariant
                y < HEIGHT,
                x <= WIDTH,
                forall|c: int| 0 <= c < x ==> a@[y as int][c] == b@[y as int][c],
            decreases WIDTH - x,
        {
            if a.board[y][x] != b.board[y][x] {
                assert(a@[y as int][x as int] != b@[y as int][x as int]);
                return false;
            }
            x = x + 1;
        }
        assert(a@[y as int] =~= b@[y as int]);
        y = y + 1;
    }
    assert(a@ =~= b@);
    true
}

/// Whether a list of boards holds a board with the same pieces.
fn holds_board(found: &Vec<Board>, b: &Board) -> (res: bool)
    ensures
        res == views(found@).contains(b@),
{
    let mut i: usize = 0;
    while i < found.len()
        invariant
            i <= found@.len(),
            forall|j: int| 0 <= j < i ==> found@[j]@ != b@,
        decreases found@.len() - i,
    {
        if same_cells(&found[i], b) {
            assert(views(found@)[i as int] == b@);
            return true;
        }
        i = i + 1;
    }
    assert forall|j: int| 0 <= j < views(found@).len() implies views(found@)[j] != b@ by {
        assert(views(found@)[j] == found@[j]@);
    }
    false
}

/// Records a complete board unless white is in check.
pub fn handle_complete(board: Board, ranks: RankTable, files: FileTable, found: &mut Vec<Board>)
    requires
        board.well_formed(),
        targets_met(board@, ranks@, files@),
        white_king_count(board@) == 2,
        !white_in_check(board@) ==> !views(old(found)@).contains(board@),
    ensures
        !white_in_check(board@) ==> final(found)@ == old(found)@.push(board),
        white_in_check(board@) ==> final(found)@ == old(found)@,
{
    proof { board.lemma_well_formed(); }
    let complete = board.matches_target(ranks, files);
    assert(complete);
    // White cannot be in check
    if is_white_check(&board) {
        return;
    }
    found.push(board);
}

/// Brute force with the pieces of `same_pieces`, which are all the same
/// piece, placed only at or after `start_cell` (file by file, down each
/// file); once they are all placed, the runs of `rest_pieces` follow, last
/// run first, each from the first cell on. Each complete board with white
/// not in check is appended to `found`, unless `found` already holds it
/// (where the program would stop). The search stops with an error at the
/// first complete board that misses a target or does not hold two white
/// kings. `tested` counts the placements tried (`tries`), wrapping around.
#[verifier::loop_isolation(false)]
#[verifier::spinoff_prover]
#[verifier::rlimit(100)]
pub fn brute_same_type(
    board: Board,
    same_pieces: PieceSet,
    start_cell: (usize, usize),
    rest_pieces: PieceSet,
    ranks: RankTable,
    files: FileTable,
    found: &mut Vec<Board>,
    tested: &mut usize,
) -> (res: Result<(), SearchError>)
    requires
        board.well_formed(),
        all_pieces(same_pieces@),
        all_pieces(rest_pieces@),
        forall|i: int| 0 <= i < same_pieces@.len() ==> #[trigger] same_pieces@[i] == same_pieces@.last(),
        within_targets(board@, ranks@, files@),
    ensures
        final(found)@.len() >= old(found)@.len(),
        final(found)@.take(old(found)@.len() as int) == old(found)@,
        views(old(found)@).no_duplicates() ==> views(final(found)@).no_duplicates(),
        res is Ok <==> branch_forced(board@, same_pieces@, start_cell, rest_pieces@, ranks@, files@),
        res is Ok ==> forall|f: Cells| #![trigger views(final(found)@).contains(f)]
            #![trigger branch_solution(board@, same_pieces@, start_cell, rest_pieces@, ranks@, files@, f)]
            views(final(found)@).contains(f) <==> views(old(found)@).contains(f)
            || branch_solution(board@, same_pieces@, start_cell, rest_pieces@, ranks@, files@, f),
        res is Ok ==> *final(tested) == wrapped(*old(tested) + tries(board@, same_pieces@, start_cell, rest_pieces@,
            ranks@, files@)),
        res == Err::<(), SearchError>(SearchError::TargetsNotMet) ==> exists|f: Cells|
            #[trigger] branch_candidate(board@, same_pieces@, start_cell, rest_pieces@, ranks@, files@, f)
            && !targets_met(f, ranks@, files@),
        res == Err::<(), SearchError>(SearchError::NotTwoWhiteKings) ==> exists|f: Cells|
            #[trigger] branch_candidate(board@, same_pieces@, start_cell, rest_pieces@, ranks@, files@, f)
            && targets_met(f, ranks@, files@) && white_king_count(f) != 2,
    decreases same_pieces@.len() + rest_pieces@.len(), if same_pieces@.len() == 0 { 1nat } else { 0nat }, 1nat,
{
    let mut rest_pieces = rest_pieces;
    let ghost rest0 = rest_pieces@;
    let ghost base = found@;
    let ghost t0: int = *tested as int;
    proof {
        board.lemma_well_formed();
        assert(found@.take(base.len() as int) =~= base);
        vstd::arithmetic::div_mod::lemma_small_mod(t0 as nat, (usize::MAX + 1) as nat);
    }
    // If same piece set is empty, get new pieces or check complete
    if same_pieces.is_empty() {
        // Try to get new same pieces
        match rest_pieces.pop_off_same() {
            Some(next_same) => {
                proof {
                    lemma_trailing_run(rest0);
                    assert(same_pieces@ =~= Seq::<Piece>::empty());
                    assert(next_same@.len() + rest_pieces@.len() == rest0.len());
                    let n = rest0.len() - trailing_run(rest0);
                    assert forall|i: int| 0 <= i < next_same@.len() implies #[trigger] next_same@[i] == next_same@.last() by {
                        assert(next_same@[i] == rest0[n + i]);
                        assert(next_same@.last() == rest0[rest0.len() - 1]);
                    }
                    assert forall|i: int| n <= i < rest0.len() implies #[trigger] rest0[i] == rest0.last() by {}
                    assert forall|i: int| 0 <= i < next_same@.len() implies #[trigger] next_same@[i].is_piece() by {
                        assert(next_same@[i] == rest0[n + i]);
                    }
                    assert forall|i: int| 0 <= i < rest_pieces@.len() implies #[trigger] rest_pieces@[i].is_piece() by {
                        assert(rest_pieces@[i] == rest0[i]);
                    }
                    assert forall|f: Cells| #[trigger] branch_candidate(board@, same_pieces@, start_cell, rest0, ranks@, files@, f)
                        <==> branch_candidate(board@, next_same@, (0, 0), rest_pieces@, ranks@, files@, f) by {
                        lemma_next_run(board@, start_cell, rest0, ranks@, files@, n, f);
                    }
                }
                let r = brute_same_type(board, next_same, (0, 0), rest_pieces, ranks, files, found, tested);
                proof {
                    let parent = branch_forced(board@, same_pieces@, start_cell, rest0, ranks@, files@);
                    let child = branch_forced(board@, next_same@, (0, 0), rest_pieces@, ranks@, files@);
                    if parent {
                        assert forall|f: Cells| #[trigger] branch_candidate(board@, next_same@, (0, 0), rest_pieces@, ranks@, files@, f)
                            implies targets_met(f, ranks@, files@) && white_king_count(f) == 2 by {
                            assert(branch_candidate(board@, same_pieces@, start_cell, rest0, ranks@, files@, f));
                        }
                    }
                    if child {
                        assert forall|f: Cells| #[trigger] branch_candidate(board@, same_pieces@, start_cell, rest0, ranks@, files@, f)
                            implies targets_met(f, ranks@, files@) && white_king_count(f) == 2 by {
                            assert(branch_candidate(board@, next_same@, (0, 0), rest_pieces@, ranks@, files@, f));
                        }
                    }
                    assert(parent == child);
                    assert(tries(board@, same_pieces@, start_cell, rest0, ranks@, files@)
                        == tries(board@, next_same@, (0, 0), rest_pieces@, ranks@, files@));
                    assert forall|f: Cells| #[trigger] branch_solution(board@, same_pieces@, start_cell, rest0, ranks@, files@, f)
                        <==> branch_solution(board@, next_same@, (0, 0), rest_pieces@, ranks@, files@, f) by {}
                    if r == Err::<(), SearchError>(SearchError::TargetsNotMet) {
                        let f = choose|f: Cells| #[trigger] branch_candidate(board@, next_same@, (0, 0), rest_pieces@, ranks@, files@, f)
                            && !targets_met(f, ranks@, files@);
                        assert(branch_candidate(board@, same_pieces@, start_cell, rest0, ranks@, files@, f));
                    }
                    if r == Err::<(), SearchError>(SearchError::NotTwoWhiteKings) {
                        let f = choose|f: Cells| #[trigger] branch_candidate(board@, next_same@, (0, 0), rest_pieces@, ranks@, files@, f)
                            && targets_met(f, ranks@, files@) && white_king_count(f) != 2;
                        assert(branch_candidate(board@, same_pieces@, start_cell, rest0, ranks@, files@, f));
                    }
                }
                return r;
            },
            None => {},
        }
        proof {
            assert(same_pieces@ =~= Seq::<Piece>::empty());
            assert(rest_pieces@ =~= Seq::<Piece>::empty());
            assert forall|f: Cells| #[trigger] branch_candidate(board@, same_pieces@, start_cell, rest_pieces@, ranks@, files@, f)
                <==> f == board@ by {
                lemma_leaf(board@, start_cell, ranks@, files@, f);
            }
            assert(branch_candidate(board@, same_pieces@, start_cell, rest_pieces@, ranks@, files@, board@));
        }
        if !board.matches_target(ranks, files) {
            return Err(SearchError::TargetsNotMet);
        }
        if crate::balance::board_kings(&board) != 2 {
            return Err(SearchError::NotTwoWhiteKings);
        }
        if !holds_board(found, &board) {
            handle_complete(board, ranks, files, found);
            proof {
                if !white_in_check(board@) {
                    assert(views(found@) =~= views(base).push(board@));
                    assert(views(base).no_duplicates() ==> views(found@).no_duplicates()) by {
                        if views(base).no_duplicates() {
                            assert forall|i: int, j: int| 0 <= i < views(found@).len() && 0 <= j < views(found@).len()
                                && i != j implies views(found@)[i] != views(found@)[j] by {
                                if i == views(base).len() as int {
                                    assert(views(found@)[j] == views(base)[j]);
                                    assert(views(base).contains(views(base)[j]));
                                } else if j == views(base).len() as int {
                                    assert(views(found@)[i] == views(base)[i]);
                                    assert(views(base).contains(views(base)[i]));
                                } else {
                                    assert(views(found@)[i] == views(base)[i]);
                                    assert(views(found@)[j] == views(base)[j]);
                                }
                            }
                        }
                    }
                    assert forall|f: Cells| views(found@).contains(f) <==> views(base).contains(f) || f == board@ by {
                        if views(found@).contains(f) {
                            let k = choose|k: int| 0 <= k < views(found@).len() && views(found@)[k] == f;
                            if k < views(base).len() {
                                assert(views(base)[k] == f);
                            }
                        }
                        if views(base).contains(f) {
                            let k = choose|k: int| 0 <= k < views(base).len() && views(base)[k] == f;
                            assert(views(found@)[k] == f);
                        }
                        if f == board@ {
                            assert(views(found@)[views(base).len() as int] == f);
                        }
                    }
                }
            }
        }
        proof {
            assert(found@.take(base.len() as int) =~= base);
        }
        return Ok(());
    }

    let ghost p = same_pieces@.last();
    proof {
        crate::piece::lemma_piece_facts(p);
        assert(same_pieces@[same_pieces@.len() - 1] == p);
    }
    // Get board diff
    let (rank_diff, file_diff) = board.target_diff(ranks, files);

    let piece = match same_pieces.next() {
        Some(piece) => piece,
        None => Piece(0),
    };
    assert(piece == p);
    let val = piece.value();
    let white = piece.0 & WHITE > 0;
    assert(white == has_colour(p, true));

    proof {
        lemma_tries_before_start(board@, same_pieces@, start_cell, rest_pieces@, ranks@, files@,
            col_key(start_cell.0 as int, 0) as nat);
        assert forall|f: Cells| !solved_before(board@, same_pieces@, start_cell, rest_pieces@, ranks@, files@, f,
            col_key(start_cell.0 as int, 0)) by {}
    }

    let mut x: usize = start_cell.0;
    let ghost mut key: int = col_key(start_cell.0 as int, 0);
    while x < WIDTH
        invariant
            start_cell.0 <= x,
            x == start_cell.0 || x <= WIDTH,
            key == col_key(x as int, 0),
            found@.len() >= base.len(),
            found@.take(base.len() as int) == base,
            views(base).no_duplicates() ==> views(found@).no_duplicates(),
            walk_state(board@, same_pieces@, start_cell, rest_pieces@, ranks@, files@, views(base), views(found@), key),
            *tested == wrapped(t0 + tries_before(board@, same_pieces@, start_cell, rest_pieces@, ranks@, files@,
                key as nat)),
        decreases WIDTH - x,
    {
        let column = file_diff[x];
        // Ensure file sum is <= target
        let column_open = if white { column.0 >= val } else { column.1 >= val };
        let mut y: usize = 0;
        while y < HEIGHT
            invariant
                start_cell.0 <= x < WIDTH,
                y <= HEIGHT,
                key == col_key(x as int, y as int),
                found@.len() >= base.len(),
                found@.take(base.len() as int) == base,
                views(base).no_duplicates() ==> views(found@).no_duplicates(),
                walk_state(board@, same_pieces@, start_cell, rest_pieces@, ranks@, files@, views(base), views(found@), key),
                *tested == wrapped(t0 + tries_before(board@, same_pieces@, start_cell, rest_pieces@, ranks@, files@,
                    key as nat)),
            decreases HEIGHT - y,
        {
            let row = rank_diff[y];
            let row_open = if white { row.0 >= val } else { row.1 >= val };
            let ghost mid = found@;
            let ghost t_mid = *tested as int;
            proof {
                lemma_key_cell(x as int, y as int);
                assert(crate::board::rank_sums(board@, y as int).0 <= ranks@[y as int].0);
                assert(crate::board::file_sums(board@, x as int).0 <= files@[x as int].0);
            }
            let r = place_at(board, &same_pieces, piece, start_cell, &rest_pieces, ranks, files, x, y,
                column_open, row_open, found, tested);
            if r.is_err() {
                proof {
                    assert(found@.take(base.len() as int) =~= found@.take(mid.len() as int).take(base.len() as int));
                    match r {
                        Err(SearchError::TargetsNotMet) => {
                            let f = choose|f: Cells| #[trigger] branch_candidate(board@, same_pieces@, start_cell, rest_pieces@, ranks@, files@, f)
                                && !targets_met(f, ranks@, files@);
                            assert(!branch_forced(board@, same_pieces@, start_cell, rest_pieces@, ranks@, files@));
                        },
                        Err(SearchError::NotTwoWhiteKings) => {
                            let f = choose|f: Cells| #[trigger] branch_candidate(board@, same_pieces@, start_cell, rest_pieces@, ranks@, files@, f)
                                && targets_met(f, ranks@, files@) && white_king_count(f) != 2;
                            assert(!branch_forced(board@, same_pieces@, start_cell, rest_pieces@, ranks@, files@));
                        },
                        Ok(_) => {},
                    }
                }
                return r;
            }
            proof {
                assert(found@.take(base.len() as int) =~= found@.take(mid.len() as int).take(base.len() as int));
                lemma_walk_step(board@, same_pieces@, start_cell, rest_pieces@, ranks@, files@, views(base), views(mid),
                    views(found@), x as int, y as int);
                lemma_tries_step(board@, same_pieces@, start_cell, rest_pieces@, ranks@, files@, x as int, y as int);
                lemma_wrapped_add(t0 + tries_before(board@, same_pieces@, start_cell, rest_pieces@, ranks@, files@,
                    key as nat), cell_tries(board@, same_pieces@, start_cell, rest_pieces@, ranks@, files@, x as int, y as int) as int);
                key = key + 1;
            }
            y = y + 1;
        }
        x = x + 1;
    }
    proof {
        let b = board@;
        assert(key >= 128);
        if start_cell.0 >= WIDTH {
            lemma_tries_before_start(b, same_pieces@, start_cell, rest_pieces@, ranks@, files@, 128);
        }
        lemma_walk_end(b, same_pieces@, start_cell, rest_pieces@, ranks@, files@, key);
        lemma_walk_done(b, same_pieces@, start_cell, rest_pieces@, ranks@, files@, views(base), views(found@), key);
    }
    Ok(())
}

/// What placing the next copy at `(x, y)` adds to the count of placements
/// tried.
pub open spec fn cell_tries(b: Cells, same: Seq<Piece>, start: (usize, usize), rest: Seq<Piece>,
    ranks: Seq<(usize, usize)>, files: Seq<(usize, usize)>, x: int, y: int) -> nat {
    if at_or_after(x, y, start) && can_place(b, same.last(), x, y, ranks, files) {
        1 + tries(set_cell(b, x, y, same.last()), same.drop_last(), (x as usize, y as usize), rest, ranks, files)
    } else {
        0
    }
}

proof fn lemma_tries_step(b: Cells, same: Seq<Piece>, start: (usize, usize), rest: Seq<Piece>,
    ranks: Seq<(usize, usize)>, files: Seq<(usize, usize)>, x: int, y: int)
    requires
        on_board(x, y),
        same.len() > 0,
    ensures
        tries_before(b, same, start, rest, ranks, files, (col_key(x, y) + 1) as nat)
            == tries_before(b, same, start, rest, ranks, files, col_key(x, y) as nat)
            + cell_tries(b, same, start, rest, ranks, files, x, y),
{
    lemma_key_cell(x, y);
}

/// The search at one cell of a branch: where the next copy of the piece
/// of `same_pieces` may stand at `(x, y)`, place it there and search on.
#[verifier::spinoff_prover]
#[verifier::rlimit(60)]
fn place_at(
    board: Board,
    same_pieces: &PieceSet,
    piece: Piece,
    start_cell: (usize, usize),
    rest_pieces: &PieceSet,
    ranks: RankTable,
    files: FileTable,
    x: usize,
    y: usize,
    column_open: bool,
    row_open: bool,
    found: &mut Vec<Board>,
    tested: &mut usize,
) -> (res: Result<(), SearchError>)
    requires
        board.well_formed(),
        all_pieces(same_pieces@),
        all_pieces(rest_pieces@),
        same_pieces@.len() > 0,
        piece == same_pieces@.last(),
        forall|i: int| 0 <= i < same_pieces@.len() ==> #[trigger] same_pieces@[i] == same_pieces@.last(),
        within_targets(board@, ranks@, files@),
        on_board(x as int, y as int),
        x >= start_cell.0,
        column_open == (side_sum(file_cells(board@, x as int), has_colour(piece, true)) + value_of(piece.0)
            <= side_target(files@[x as int], has_colour(piece, true))),
        row_open == (side_sum(board@[y as int], has_colour(piece, true)) + value_of(piece.0)
            <= side_target(ranks@[y as int], has_colour(piece, true))),
    ensures
        final(found)@.len() >= old(found)@.len(),
        final(found)@.take(old(found)@.len() as int) == old(found)@,
        views(old(found)@).no_duplicates() ==> views(final(found)@).no_duplicates(),
        res is Ok ==> forall|f: Cells| #![trigger views(final(found)@).contains(f)]
            #![trigger child_candidate(board@, same_pieces@, rest_pieces@, ranks@, files@, x as int, y as int, f)]
            views(final(found)@).contains(f) <==> views(old(found)@).contains(f)
            || (at_or_after(x as int, y as int, start_cell) && board@[y as int][x as int].empty()
                && child_candidate(board@, same_pieces@, rest_pieces@, ranks@, files@, x as int, y as int, f)
                && !white_in_check(f)),
        res is Ok ==> (at_or_after(x as int, y as int, start_cell) && board@[y as int][x as int].empty() ==> forall|f: Cells|
            #[trigger] child_candidate(board@, same_pieces@, rest_pieces@, ranks@, files@, x as int, y as int, f)
            ==> targets_met(f, ranks@, files@) && white_king_count(f) == 2),
        res is Ok ==> *final(tested) == wrapped(*old(tested) + cell_tries(board@, same_pieces@, start_cell,
            rest_pieces@, ranks@, files@, x as int, y as int)),
        res == Err::<(), SearchError>(SearchError::TargetsNotMet) ==> exists|f: Cells|
            #[trigger] branch_candidate(board@, same_pieces@, start_cell, rest_pieces@, ranks@, files@, f)
            && !targets_met(f, ranks@, files@),
        res == Err::<(), SearchError>(SearchError::NotTwoWhiteKings) ==> exists|f: Cells|
            #[trigger] branch_candidate(board@, same_pieces@, start_cell, rest_pieces@, ranks@, files@, f)
            && targets_met(f, ranks@, files@) && white_king_count(f) != 2,
    decreases same_pieces@.len() + rest_pieces@.len(), 0nat, 0nat,
{
    let ghost b = board@;
    let ghost p = piece;
    let ghost t0: int = *tested as int;
    proof {
        board.lemma_well_formed();
        assert(same_pieces@[same_pieces@.len() - 1].is_piece());
        crate::piece::lemma_piece_facts(p);
        assert(found@.take(found@.len() as int) =~= found@);
        vstd::arithmetic::div_mod::lemma_small_mod(t0 as nat, (usize::MAX + 1) as nat);
    }
    assert(board.board[y as int][x as int] == board@[y as int][x as int]);
    let free = board.board[y][x].0 == 0;
    if column_open && !(start_cell.0 == x && start_cell.1 > y) && free && row_open {
        // Increment position check counter
        *tested = tested.wrapping_add(1);
        proof {
            let m = usize::MAX + 1;
            if t0 + 1 <= usize::MAX {
                vstd::arithmetic::div_mod::lemma_small_mod((t0 + 1) as nat, m as nat);
            } else {
                vstd::arithmetic::div_mod::lemma_mod_self_0(m);
            }
            assert(*tested == wrapped(t0 + 1));
        }
        let mut next_board = board;
        next_board.set(x, y, piece);
        let mut pieces = same_pieces.clone();
        pieces.pop();
        proof {
            lemma_place_within(b, ranks@, files@, x as int, y as int, p);
            assert forall|i: int| 0 <= i < pieces@.len() implies #[trigger] pieces@[i] == pieces@.last() by {
                assert(pieces@[i] == same_pieces@[i]);
                assert(pieces@.last() == same_pieces@[pieces@.len() - 1]);
            }
            assert forall|i: int| 0 <= i < pieces@.len() implies #[trigger] pieces@[i].is_piece() by {
                assert(pieces@[i] == same_pieces@[i]);
            }
            assert forall|xx: int, yy: int| on_board(xx, yy) implies #[trigger] next_board.at(xx, yy).well_formed() by {
                assert(next_board.at(xx, yy) == next_board@[yy][xx]);
                assert(next_board@ == set_cell(b, x as int, y as int, p));
                assert(b[yy].len() == WIDTH);
                if (xx, yy) == (x as int, y as int) {
                    assert(next_board@[yy][xx] == p);
                } else {
                    assert(next_board@[yy][xx] == b[yy][xx]);
                    assert(board.at(xx, yy) == b[yy][xx]);
                }
            }
        }
        let rest_copy = rest_pieces.clone();
        let ghost t1: int = *tested as int;
        let r = brute_same_type(next_board, pieces, (x, y), rest_copy, ranks, files, found, tested);
        proof {
            assert(next_board@ == set_cell(b, x as int, y as int, p));
            assert(pieces@ == same_pieces@.drop_last());
            assert(rest_copy@ == rest_pieces@);
            assert(at_or_after(x as int, y as int, start_cell));
            assert(forall|f: Cells| #[trigger] branch_candidate(next_board@, pieces@, (x, y), rest_copy@, ranks@, files@, f)
                == child_candidate(b, same_pieces@, rest_pieces@, ranks@, files@, x as int, y as int, f));
            if r == Err::<(), SearchError>(SearchError::TargetsNotMet) {
                let f = choose|f: Cells| #[trigger] branch_candidate(next_board@, pieces@, (x, y), rest_copy@, ranks@, files@, f)
                    && !targets_met(f, ranks@, files@);
                assert(child_candidate(b, same_pieces@, rest_pieces@, ranks@, files@, x as int, y as int, f));
                lemma_children(b, same_pieces@, start_cell, rest_pieces@, ranks@, files@, f);
                assert(branch_candidate(b, same_pieces@, start_cell, rest_pieces@, ranks@, files@, f));
            } else if r == Err::<(), SearchError>(SearchError::NotTwoWhiteKings) {
                let f = choose|f: Cells| #[trigger] branch_candidate(next_board@, pieces@, (x, y), rest_copy@, ranks@, files@, f)
                    && targets_met(f, ranks@, files@) && white_king_count(f) != 2;
                assert(child_candidate(b, same_pieces@, rest_pieces@, ranks@, files@, x as int, y as int, f));
                lemma_children(b, same_pieces@, start_cell, rest_pieces@, ranks@, files@, f);
                assert(branch_candidate(b, same_pieces@, start_cell, rest_pieces@, ranks@, files@, f));
            } else {
                lemma_wrapped_add(t0 + 1, tries(next_board@, pieces@, (x, y), rest_copy@, ranks@, files@) as int);
                assert(can_place(b, p, x as int, y as int, ranks@, files@));
                assert(forall|f: Cells| #[trigger] branch_solution(next_board@, pieces@, (x, y), rest_copy@, ranks@, files@, f)
                    == (child_candidate(b, same_pieces@, rest_pieces@, ranks@, files@, x as int, y as int, f) && !white_in_check(f)));
            }
        }
        r
    } else {
        proof {
            if free && !(start_cell.0 == x && start_cell.1 > y) {
                assert forall|f: Cells| !child_candidate(b, same_pieces@, rest_pieces@, ranks@, files@, x as int, y as int, f) by {
                    lemma_child_exceeds(b, same_pieces@, rest_pieces@, ranks@, files@, x as int, y as int, f);
                }
            }
            assert(!(at_or_after(x as int, y as int, start_cell) && can_place(b, p, x as int, y as int, ranks@, files@)));
        }
        Ok(())
    }
}

/// Brute force the given board with the given pieces: place all of them on
/// empty cells in every way that meets the rank and file targets, and
/// append each resulting board with white not in check to `found`, each
/// once. The pieces are taken in runs of equal pieces from the end of the
/// list. The search stops with an error at the first complete board within
/// the targets that misses one of them or does not hold two white kings.
/// Returns the number of placements tried (`tries`, counted in a `usize`
/// that wraps around).
pub fn brute(board: Board, pieces: PieceSet, ranks: RankTable, files: FileTable, found: &mut Vec<Board>)
    -> (res: Result<usize, SearchError>)
    requires
        board.well_formed(),
        all_pieces(pieces@),
        pieces@.len() > 0 ==> within_targets(board@, ranks@, files@),
    ensures
        pieces@.len() == 0 ==> final(found)@ == old(found)@ && res == Ok::<usize, SearchError>(0),
        final(found)@.len() >= old(found)@.len(),
        final(found)@.take(old(found)@.len() as int) == old(found)@,
        views(old(found)@).no_duplicates() ==> views(final(found)@).no_duplicates(),
        pieces@.len() > 0 ==> (res is Ok <==> targets_forced(board@, pieces@.to_multiset(), ranks@, files@)),
        pieces@.len() > 0 && res is Ok ==> forall|f: Cells| #![trigger views(final(found)@).contains(f)]
            #![trigger is_solution(board@, pieces@, ranks@, files@, f)]
            views(final(found)@).contains(f) <==> views(old(found)@).contains(f)
            || is_solution(board@, pieces@, ranks@, files@, f),
        res matches Ok(tested) ==> tested == wrapped(tries(board@, Seq::<Piece>::empty(), (0, 0), pieces@, ranks@, files@) as int),
        res == Err::<usize, SearchError>(SearchError::TargetsNotMet) ==> exists|f: Cells|
            #[trigger] completes(board@, pieces@.to_multiset(), f) && within_targets(f, ranks@, files@)
            && !targets_met(f, ranks@, files@),
        res == Err::<usize, SearchError>(SearchError::NotTwoWhiteKings) ==> exists|f: Cells|
            #[trigger] completes(board@, pieces@.to_multiset(), f) && targets_met(f, ranks@, files@)
            && white_king_count(f) != 2,
{
    let mut pieces = pieces;
    let ghost all = pieces@;
    let mut tested: usize = 0;
    proof {
        vstd::arithmetic::div_mod::lemma_small_mod(0, (usize::MAX + 1) as nat);
    }
    if pieces.is_empty() {
        return Ok(tested);
    }
    proof {
        broadcast use vstd::multiset::group_multiset_axioms;
        broadcast use vstd::seq_lib::group_to_multiset_ensures;
        assert(Seq::<Piece>::empty().to_multiset() =~= Multiset::<Piece>::empty());
        assert(to_place(Seq::<Piece>::empty(), all) =~= all.to_multiset());
        assert forall|f: Cells| #[trigger] completes(board@, all.to_multiset(), f) && within_targets(f, ranks@, files@)
            <==> branch_candidate(board@, Seq::<Piece>::empty(), (0, 0), all, ranks@, files@, f) by {}
        assert forall|f: Cells| #[trigger] is_solution(board@, all, ranks@, files@, f)
            implies within_targets(f, ranks@, files@) by {}
    }
    match pieces.pop_off_same() {
        Some(same_pieces) => {
            let ghost rest = pieces@;
            proof {
                lemma_trailing_run(all);
                let n = all.len() - trailing_run(all);
                assert forall|i: int| 0 <= i < same_pieces@.len() implies #[trigger] same_pieces@[i] == same_pieces@.last() by {
                    assert(same_pieces@[i] == all[n + i]);
                    assert(same_pieces@.last() == all[all.len() - 1]);
                }
                assert forall|i: int| 0 <= i < same_pieces@.len() implies #[trigger] same_pieces@[i].is_piece() by {
                    assert(same_pieces@[i] == all[n + i]);
                }
                assert forall|i: int| 0 <= i < rest.len() implies #[trigger] rest[i].is_piece() by {
                    assert(rest[i] == all[i]);
                }
                assert forall|i: int| n <= i < all.len() implies #[trigger] all[i] == all.last() by {}
                assert forall|f: Cells| #[trigger] branch_candidate(board@, Seq::<Piece>::empty(), (0, 0), all, ranks@, files@, f)
                    <==> branch_candidate(board@, same_pieces@, (0, 0), rest, ranks@, files@, f) by {
                    lemma_next_run(board@, (0, 0), all, ranks@, files@, n, f);
                }
                assert(tries(board@, Seq::<Piece>::empty(), (0, 0), all, ranks@, files@)
                    == tries(board@, same_pieces@, (0, 0), rest, ranks@, files@));
            }
            let r = brute_same_type(board, same_pieces, (0, 0), pieces, ranks, files, found, &mut tested);
            proof {
                if r == Err::<(), SearchError>(SearchError::TargetsNotMet) {
                    let f = choose|f: Cells| #[trigger] branch_candidate(board@, same_pieces@, (0, 0), rest, ranks@, files@, f)
                        && !targets_met(f, ranks@, files@);
                    assert(branch_candidate(board@, Seq::<Piece>::empty(), (0, 0), all, ranks@, files@, f));
                    assert(completes(board@, all.to_multiset(), f));
                }
                if r == Err::<(), SearchError>(SearchError::NotTwoWhiteKings) {
                    let f = choose|f: Cells| #[trigger] branch_candidate(board@, same_pieces@, (0, 0), rest, ranks@, files@, f)
                        && targets_met(f, ranks@, files@) && white_king_count(f) != 2;
                    assert(branch_candidate(board@, Seq::<Piece>::empty(), (0, 0), all, ranks@, files@, f));
                    assert(completes(board@, all.to_multiset(), f));
                }
                if r is Ok {
                    assert forall|f: Cells| #[trigger] completes(board@, all.to_multiset(), f) && within_targets(f, ranks@, files@)
                        implies targets_met(f, ranks@, files@) && white_king_count(f) == 2 by {
                        assert(branch_candidate(board@, same_pieces@, (0, 0), rest, ranks@, files@, f));
                    }
                    assert forall|f: Cells| views(found@).contains(f) <==> views(old(found)@).contains(f)
                        || #[trigger] is_solution(board@, all, ranks@, files@, f) by {
                        if is_solution(board@, all, ranks@, files@, f) {
                            assert(branch_solution(board@, same_pieces@, (0, 0), rest, ranks@, files@, f));
                        }
                        if branch_solution(board@, same_pieces@, (0, 0), rest, ranks@, files@, f) {
                            assert(branch_candidate(board@, Seq::<Piece>::empty(), (0, 0), all, ranks@, files@, f));
                        }
                    }
                } else {
                    assert(!targets_forced(board@, all.to_multiset(), ranks@, files@));
                }
            }
            match r {
                Ok(()) => Ok(tested),
                Err(e) => Err(e),
            }
        },
        None => Ok(tested),
    }
}

} // verus!
