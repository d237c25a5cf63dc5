use vstd::prelude::*;
use vstd::multiset::Multiset;
use crate::board::{Board, file_cells, on_board, set_cell, shaped, side_sum, targets_met, within_targets, Cells};
use crate::piece::{Piece, HEIGHT, WIDTH};
use crate::placement::{completes, is_new, lemma_completes_has, lemma_completes_nothing, lemma_completes_set,
    lemma_set_cell_lines, lemma_side_sum_update, share};
use crate::search::{side_target, targets_forced, white_king_count};

verus! {

/// Number of white kings among `s`.
pub open spec fn kings_in(s: Seq<Piece>) -> nat
    decreases s.len(),
{
    if s.len() == 0 {
        0
    } else {
        kings_in(s.drop_last()) + if s.last().0 == 5 { 1nat } else { 0nat }
    }
}

/// Number of white kings on the first `n` ranks.
pub open spec fn ranks_kings(cells: Cells, n: int) -> nat
    decreases n,
{
    if n <= 0 { 0 } else { ranks_kings(cells, n - 1) + kings_in(cells[n - 1]) }
}

/// Sum of one side's rank sums over the first `n` ranks.
pub open spec fn ranks_total(cells: Cells, n: int, white: bool) -> nat
    decreases n,
{
    if n <= 0 { 0 } else { ranks_total(cells, n - 1, white) + side_sum(cells[n - 1], white) }
}

/// Sum of one side's file sums over the first `n` files.
pub open spec fn files_total(cells: Cells, n: int, white: bool) -> nat
    decreases n,
{
    if n <= 0 { 0 } else { files_total(cells, n - 1, white) + side_sum(file_cells(cells, n - 1), white) }
}

/// Sum of one side's targets over the first `n` entries.
pub open spec fn targets_total(t: Seq<(usize, usize)>, n: int, white: bool) -> nat
    decreases n,
{
    if n <= 0 { 0 } else { targets_total(t, n - 1, white) + side_target(t[n - 1], white) }
}

/// Material of one side among the pieces `s`.
pub open spec fn pieces_total(s: Seq<Piece>, white: bool) -> nat
    decreases s.len(),
{
    if s.len() == 0 { 0 } else { pieces_total(s.drop_last(), white) + share(s.last(), white) }
}

/// The material of one side on the board and among the pieces left adds
/// up to the sum of that side's rank targets and to that of its file
/// targets.
pub open spec fn side_balanced(b: Cells, pieces: Seq<Piece>, ranks: Seq<(usize, usize)>,
    files: Seq<(usize, usize)>, white: bool) -> bool {
    &&& ranks_total(b, HEIGHT as int, white) + pieces_total(pieces, white) == targets_total(ranks, HEIGHT as int, white)
    &&& files_total(b, WIDTH as int, white) + pieces_total(pieces, white) == targets_total(files, WIDTH as int, white)
}

/// Both sides balance their targets, and the board and the pieces left
/// hold two white kings in all.
pub open spec fn balanced(b: Cells, pieces: Seq<Piece>, ranks: Seq<(usize, usize)>,
    files: Seq<(usize, usize)>) -> bool {
    &&& side_balanced(b, pieces, ranks, files, true)
    &&& side_balanced(b, pieces, ranks, files, false)
    &&& white_king_count(b) + kings_in(pieces) == 2
}

/// Filling an empty cell adds one white king when the piece is one.
proof fn lemma_kings_update(s: Seq<Piece>, i: int, p: Piece)
    requires
        0 <= i < s.len(),
        s[i].empty(),
    ensures
        kings_in(s.update(i, p)) == kings_in(s) + if p.0 == 5 { 1nat } else { 0nat },
    decreases s.len(),
{
    if i == s.len() - 1 {
        assert(s.update(i, p).drop_last() =~= s.drop_last());
    } else {
        lemma_kings_update(s.drop_last(), i, p);
        assert(s.update(i, p).drop_last() =~= s.drop_last().update(i, p));
    }
}

/// Placing `p` on the empty cell `(x, y)` adds its share to the totals of
/// the lines that pass through that cell, and its king to the count.
proof fn lemma_totals_set(b: Cells, x: int, y: int, p: Piece, n: int, white: bool)
    requires
        shaped(b),
        on_board(x, y),
        b[y][x].empty(),
        0 <= n,
    ensures
        n <= HEIGHT ==> ranks_total(set_cell(b, x, y, p), n, white) == ranks_total(b, n, white)
            + if y < n { share(p, white) } else { 0 },
        n <= WIDTH ==> files_total(set_cell(b, x, y, p), n, white) == files_total(b, n, white)
            + if x < n { share(p, white) } else { 0 },
        n <= HEIGHT ==> ranks_kings(set_cell(b, x, y, p), n) == ranks_kings(b, n)
            + if y < n && p.0 == 5 { 1nat } else { 0nat },
    decreases n,
{
    lemma_set_cell_lines(b, x, y, p);
    let b2 = set_cell(b, x, y, p);
    if n > 0 {
        lemma_totals_set(b, x, y, p, n - 1, white);
        if n - 1 == y {
            lemma_side_sum_update(b[y], x, p, white);
            lemma_kings_update(b[y], x, p);
        } else if n - 1 < HEIGHT {
            assert(b2[n - 1] == b[n - 1]);
        }
        if n <= WIDTH {
            if n - 1 == x {
                assert(file_cells(b, x)[y] == b[y][x]);
                lemma_side_sum_update(file_cells(b, x), y, p, white);
            } else {
                assert(file_cells(b2, n - 1) == file_cells(b, n - 1));
            }
        }
    }
}

/// The totals of a completion: those of the board plus those of the pieces
/// placed.
proof fn lemma_completion_totals(b: Cells, s: Seq<Piece>, f: Cells, white: bool)
    requires
        shaped(b),
        completes(b, s.to_multiset(), f),
    ensures
        ranks_total(f, HEIGHT as int, white) == ranks_total(b, HEIGHT as int, white) + pieces_total(s, white),
        files_total(f, WIDTH as int, white) == files_total(b, WIDTH as int, white) + pieces_total(s, white),
        white_king_count(f) == white_king_count(b) + kings_in(s),
    decreases s.len(),
{
    broadcast use vstd::seq_lib::group_to_multiset_ensures;
    broadcast use vstd::multiset::group_multiset_axioms;
    if s.len() == 0 {
        assert(s.to_multiset() =~= Multiset::<Piece>::empty());
        lemma_completes_nothing(b, f);
    } else {
        let p = s.last();
        let s2 = s.drop_last();
        assert(s2.push(p) =~= s);
        assert(s.to_multiset() =~= s2.to_multiset().insert(p));
        assert(s.to_multiset().count(p) > 0);
        lemma_completes_has(b, s.to_multiset(), f, p);
        let (x, y) = choose|x: int, y: int| on_board(x, y) && is_new(b, f, x, y) && f[y][x] == p;
        lemma_completes_set(b, s2.to_multiset(), f, x, y, p);
        lemma_set_cell_lines(b, x, y, p);
        let b2 = set_cell(b, x, y, p);
        lemma_completion_totals(b2, s2, f, white);
        lemma_totals_set(b, x, y, p, HEIGHT as int, white);
        lemma_totals_set(b, x, y, p, WIDTH as int, white);
    }
}

/// Lines within their targets whose total reaches the total of the targets
/// meet each target.
proof fn lemma_ranks_tight(f: Cells, ranks: Seq<(usize, usize)>, n: int, white: bool)
    requires
        0 <= n,
        forall|y: int| 0 <= y < n ==> side_sum(#[trigger] f[y], white) <= side_target(ranks[y], white),
    ensures
        ranks_total(f, n, white) <= targets_total(ranks, n, white),
        ranks_total(f, n, white) == targets_total(ranks, n, white)
            ==> forall|y: int| 0 <= y < n ==> side_sum(#[trigger] f[y], white) == side_target(ranks[y], white),
    decreases n,
{
    if n > 0 {
        lemma_ranks_tight(f, ranks, n - 1, white);
    }
}

proof fn lemma_files_tight(f: Cells, files: Seq<(usize, usize)>, n: int, white: bool)
    requires
        0 <= n,
        forall|x: int| 0 <= x < n ==> side_sum(#[trigger] file_cells(f, x), white) <= side_target(files[x], white),
    ensures
        files_total(f, n, white) <= targets_total(files, n, white),
        files_total(f, n, white) == targets_total(files, n, white)
            ==> forall|x: int| 0 <= x < n ==> side_sum(#[trigger] file_cells(f, x), white) == side_target(files[x], white),
    decreases n,
{
    if n > 0 {
        lemma_files_tight(f, files, n - 1, white);
    }
}

/// Where the material balances the targets and two white kings are to be
/// had, every completion of the board by the pieces left that stays within
/// the targets meets them exactly and holds two white kings.
pub proof fn law_balanced_targets_forced(b: Cells, pieces: Seq<Piece>, ranks: Seq<(usize, usize)>,
    files: Seq<(usize, usize)>)
    requires
        shaped(b),
        balanced(b, pieces, ranks, files),
    ensures
        targets_forced(b, pieces.to_multiset(), ranks, files),
{
    assert forall|f: Cells| #[trigger] completes(b, pieces.to_multiset(), f) && within_targets(f, ranks, files)
        implies targets_met(f, ranks, files) && white_king_count(f) == 2 by {
        lemma_completion_totals(b, pieces, f, true);
        lemma_completion_totals(b, pieces, f, false);
        assert forall|y: int| 0 <= y < HEIGHT implies side_sum(#[trigger] f[y], true) <= side_target(ranks[y], true)
            && side_sum(f[y], false) <= side_target(ranks[y], false) by {
            assert(crate::board::rank_sums(f, y).0 <= ranks[y].0);
        }
        assert forall|x: int| 0 <= x < WIDTH implies side_sum(#[trigger] file_cells(f, x), true) <= side_target(files[x], true)
            && side_sum(file_cells(f, x), false) <= side_target(files[x], false) by {
            assert(crate::board::file_sums(f, x).0 <= files[x].0);
        }
        lemma_ranks_tight(f, ranks, HEIGHT as int, true);
        lemma_ranks_tight(f, ranks, HEIGHT as int, false);
        lemma_files_tight(f, files, WIDTH as int, true);
        lemma_files_tight(f, files, WIDTH as int, false);
        assert forall|y: int| 0 <= y < HEIGHT implies #[trigger] crate::board::rank_sums(f, y)
            == (ranks[y].0 as nat, ranks[y].1 as nat) by {
            assert(side_sum(f[y], true) == side_target(ranks[y], true));
            assert(side_sum(f[y], false) == side_target(ranks[y], false));
        }
        assert forall|x: int| 0 <= x < WIDTH implies #[trigger] crate::board::file_sums(f, x)
            == (files[x].0 as nat, files[x].1 as nat) by {
            assert(side_sum(file_cells(f, x), true) == side_target(files[x], true));
            assert(side_sum(file_cells(f, x), false) == side_target(files[x], false));
        }
    }
}


/// Number of white kings on the board.
pub(crate) fn board_kings(board: &Board) -> (res: u128)
    ensures
        res == white_king_count(board@),
        res <= 128,
{
    let mut n: u128 = 0;
    let mut y: usize = 0;
    while y < HEIGHT
        invariant
            y <= HEIGHT,
            n == ranks_kings(board@, y as int),
            n <= y * 16,
        decreases HEIGHT - y,
    {
        let ghost row = board@[y as int];
        let mut x: usize = 0;
        while x < WIDTH
            invariant
                y < HEIGHT,
                x <= WIDTH,
                row == board@[y as int],
                row.len() == WIDTH,
                n == ranks_kings(board@, y as int) + kings_in(row.take(x as int)),
                n <= y * 16 + x,
            decreases WIDTH - x,
        {
            proof {
                assert(row.take(x + 1).drop_last() =~= row.take(x as int));
                assert(row.take(x + 1).last() == board.board[y as int][x as int]);
            }
            if board.board[y][x].0 == 5 {
                n = n + 1;
            }
            x = x + 1;
        }
        assert(row.take(WIDTH as int) =~= row);
        y = y + 1;
    }
    n
}

} // verus!
