use vstd::prelude::*;
use vstd::multiset::Multiset;
use crate::board::{file_cells, has_colour, on_board, set_cell, shaped, side_sum, targets_met, within_targets, Cells};
use crate::piece::{value_of, Piece, HEIGHT};
use crate::placement::{
    cell_index, cell_of, completes, is_new, lemma_agrees_sums, lemma_cell_index, lemma_cell_of,
    lemma_completes_nothing, lemma_completes_set, lemma_set_cell_lines, lemma_side_sum_update, new_pieces,
    new_pieces_upto,
};
use crate::search::{col_key, side_target, to_place, white_in_check, white_king_count};

verus! {

broadcast use vstd::multiset::group_multiset_axioms;

/// `(x, y)` comes at or after `start` in the order in which the search
/// visits the cells: file by file, and down each file.
pub open spec fn at_or_after(x: int, y: int, start: (usize, usize)) -> bool {
    x > start.0 || (x == start.0 && y >= start.1)
}

/// The first column-major index of a cell at or after `start`.
pub open spec fn start_key(start: (usize, usize)) -> int {
    if start.1 < HEIGHT { start.0 * 8 + start.1 } else { start.0 * 8 + 8 }
}

/// Among the first `n` cells in row-major order, those that are empty in
/// `b`, hold `p` in `f`, and have column-major index at least `k`.
pub open spec fn new_count_upto(b: Cells, f: Cells, p: Piece, k: int, n: nat) -> nat
    decreases n,
{
    if n == 0 {
        0
    } else {
        let c = cell_of(n - 1);
        new_count_upto(b, f, p, k, (n - 1) as nat) + if is_new(b, f, c.0, c.1) && f[c.1][c.0] == p
            && col_key(c.0, c.1) >= k { 1nat } else { 0nat }
    }
}

/// Number of cells of column-major index at least `k` that are empty in
/// `b` and hold `p` in `f`.
pub open spec fn new_count(b: Cells, f: Cells, p: Piece, k: int) -> nat {
    new_count_upto(b, f, p, k, 128)
}

/// `f` is a complete board that a branch of the search may reach: `b` with
/// the pieces of `same` and `rest` placed on its empty cells, within the
/// targets, with as many copies of the piece of `same` as `same` holds at
/// or after `start`.
pub open spec fn branch_candidate(b: Cells, same: Seq<Piece>, start: (usize, usize), rest: Seq<Piece>,
    ranks: Seq<(usize, usize)>, files: Seq<(usize, usize)>, f: Cells) -> bool {
    &&& completes(b, to_place(same, rest), f)
    &&& within_targets(f, ranks, files)
    &&& same.len() > 0 ==> new_count(b, f, same.last(), start_key(start)) >= same.len()
}

/// What a branch of the search finds: its candidates with white not in check.
pub open spec fn branch_solution(b: Cells, same: Seq<Piece>, start: (usize, usize), rest: Seq<Piece>,
    ranks: Seq<(usize, usize)>, files: Seq<(usize, usize)>, f: Cells) -> bool {
    branch_candidate(b, same, start, rest, ranks, files, f) && !white_in_check(f)
}

/// Every candidate of a branch meets the targets and holds two white kings
/// (the search stops at the first one that does not).
pub open spec fn branch_forced(b: Cells, same: Seq<Piece>, start: (usize, usize), rest: Seq<Piece>,
    ranks: Seq<(usize, usize)>, files: Seq<(usize, usize)>) -> bool {
    forall|f: Cells| #[trigger] branch_candidate(b, same, start, rest, ranks, files, f)
        ==> targets_met(f, ranks, files) && white_king_count(f) == 2
}

/// The child of a branch that puts the first copy of `same`'s piece at `(x, y)`.
pub open spec fn child_candidate(b: Cells, same: Seq<Piece>, rest: Seq<Piece>, ranks: Seq<(usize, usize)>,
    files: Seq<(usize, usize)>, x: int, y: int, f: Cells) -> bool {
    branch_candidate(set_cell(b, x, y, same.last()), same.drop_last(), (x as usize, y as usize), rest, ranks, files, f)
}

/// Some child at a cell of column-major index below `key` finds `f`.
pub open spec fn solved_before(b: Cells, same: Seq<Piece>, start: (usize, usize), rest: Seq<Piece>,
    ranks: Seq<(usize, usize)>, files: Seq<(usize, usize)>, f: Cells, key: int) -> bool {
    exists|x: int, y: int| #![trigger child_candidate(b, same, rest, ranks, files, x, y, f)]
        on_board(x, y) && col_key(x, y) < key && at_or_after(x, y, start) && b[y][x].empty()
        && child_candidate(b, same, rest, ranks, files, x, y, f) && !white_in_check(f)
}

/// Every child at a cell of column-major index below `key` is forced.
pub open spec fn forced_before(b: Cells, same: Seq<Piece>, start: (usize, usize), rest: Seq<Piece>,
    ranks: Seq<(usize, usize)>, files: Seq<(usize, usize)>, key: int) -> bool {
    forall|x: int, y: int, f: Cells| #![trigger child_candidate(b, same, rest, ranks, files, x, y, f)]
        on_board(x, y) && col_key(x, y) < key && at_or_after(x, y, start) && b[y][x].empty()
        && child_candidate(b, same, rest, ranks, files, x, y, f)
        ==> targets_met(f, ranks, files) && white_king_count(f) == 2
}

/// The cell of a column-major index.
pub proof fn lemma_col_cell(k: int)
    requires
        0 <= k < 128,
    ensures
        on_board(k / 8, k % 8),
        col_key(k / 8, k % 8) == k,
{
    assert(0 <= k / 8 < 16 && 0 <= k % 8 < 8 && (k / 8) * 8 + k % 8 == k) by (nonlinear_arith)
        requires 0 <= k < 128;
}

/// The column-major index of a cell.
pub proof fn lemma_key_cell(x: int, y: int)
    requires
        on_board(x, y),
    ensures
        col_key(x, y) / 8 == x,
        col_key(x, y) % 8 == y,
        0 <= col_key(x, y) < 128,
{
    assert((x * 8 + y) / 8 == x && (x * 8 + y) % 8 == y) by (nonlinear_arith)
        requires 0 <= x < 16, 0 <= y < 8;
}

/// With no bound on the index, the count is that of the new pieces.
proof fn lemma_new_count_all(b: Cells, f: Cells, p: Piece, n: nat)
    requires
        n <= 128,
    ensures
        new_count_upto(b, f, p, 0, n) == new_pieces_upto(b, f, n).count(p),
    decreases n,
{
    if n > 0 {
        lemma_new_count_all(b, f, p, (n - 1) as nat);
        lemma_cell_of(n - 1);
        let c = cell_of(n - 1);
        lemma_key_cell(c.0, c.1);
    }
}

/// Raising the bound by one leaves out the cell with that index.
proof fn lemma_new_count_step(b: Cells, f: Cells, p: Piece, k: int, n: nat)
    requires
        n <= 128,
        0 <= k < 128,
    ensures
        new_count_upto(b, f, p, k, n) == new_count_upto(b, f, p, k + 1, n) + if cell_index(k / 8, k % 8) < n
            && is_new(b, f, k / 8, k % 8) && f[k % 8][k / 8] == p { 1nat } else { 0nat },
    decreases n,
{
    lemma_col_cell(k);
    lemma_cell_index(k / 8, k % 8);
    if n > 0 {
        lemma_new_count_step(b, f, p, k, (n - 1) as nat);
        lemma_cell_of(n - 1);
        let c = cell_of(n - 1);
        lemma_key_cell(c.0, c.1);
        if col_key(c.0, c.1) == k {
            assert(c.0 == k / 8 && c.1 == k % 8);
        }
        if cell_index(k / 8, k % 8) == n - 1 {
            assert(cell_of(cell_index(k / 8, k % 8)) == (k / 8, k % 8));
        }
    }
}

/// No cell has a column-major index of 128 or more.
proof fn lemma_new_count_end(b: Cells, f: Cells, p: Piece, k: int, n: nat)
    requires
        n <= 128,
        k >= 128,
    ensures
        new_count_upto(b, f, p, k, n) == 0,
    decreases n,
{
    if n > 0 {
        lemma_new_count_end(b, f, p, k, (n - 1) as nat);
        lemma_cell_of(n - 1);
        let c = cell_of(n - 1);
        lemma_key_cell(c.0, c.1);
    }
}

/// The count shrinks as the bound grows.
proof fn lemma_new_count_mono(b: Cells, f: Cells, p: Piece, k1: int, k2: int)
    requires
        0 <= k1 <= k2,
    ensures
        new_count(b, f, p, k1) >= new_count(b, f, p, k2),
    decreases k2 - k1,
{
    if k1 < k2 {
        lemma_new_count_mono(b, f, p, k1 + 1, k2);
        if k1 < 128 {
            lemma_new_count_step(b, f, p, k1, 128);
        } else {
            lemma_new_count_end(b, f, p, k1, 128);
            lemma_new_count_end(b, f, p, k2, 128);
        }
    }
}

/// Filling a cell of `b` with what `f` holds there takes that cell out of
/// the count.
proof fn lemma_new_count_set(b: Cells, f: Cells, x: int, y: int, p: Piece, k: int, n: nat)
    requires
        shaped(b),
        on_board(x, y),
        b[y][x].empty(),
        !p.empty(),
        f[y][x] == p,
        n <= 128,
    ensures
        new_count_upto(b, f, p, k, n) == new_count_upto(set_cell(b, x, y, p), f, p, k, n)
            + if cell_index(x, y) < n && col_key(x, y) >= k { 1nat } else { 0nat },
    decreases n,
{
    lemma_cell_index(x, y);
    if n > 0 {
        let b2 = set_cell(b, x, y, p);
        lemma_new_count_set(b, f, x, y, p, k, (n - 1) as nat);
        lemma_cell_of(n - 1);
        let c = cell_of(n - 1);
        if c == (x, y) {
            assert(b2[y][x] == p);
        } else {
            assert(b2[c.1][c.0] == b[c.1][c.0]);
            if cell_index(x, y) == n - 1 {
                assert(cell_of(cell_index(x, y)) == (x, y));
            }
        }
    }
}

/// A count of at least `m` has a first cell, whose removal leaves `m - 1`.
proof fn lemma_new_count_first(b: Cells, f: Cells, p: Piece, k: int, m: nat) -> (j: int)
    requires
        0 <= k,
        m >= 1,
        new_count(b, f, p, k) >= m,
    ensures
        k <= j < 128,
        is_new(b, f, j / 8, j % 8),
        f[j % 8][j / 8] == p,
        new_count(b, f, p, j + 1) >= m - 1,
    decreases 128 - k,
{
    if k >= 128 {
        lemma_new_count_end(b, f, p, k, 128);
        k
    } else {
        lemma_new_count_step(b, f, p, k, 128);
        lemma_col_cell(k);
        lemma_cell_index(k / 8, k % 8);
        if is_new(b, f, k / 8, k % 8) && f[k % 8][k / 8] == p {
            k
        } else {
            lemma_new_count_first(b, f, p, k + 1, m)
        }
    }
}

/// A sequence of copies of `p` counts as many copies of `p` as it is long.
proof fn lemma_run_count(s: Seq<Piece>, p: Piece)
    requires
        forall|i: int| 0 <= i < s.len() ==> #[trigger] s[i] == p,
    ensures
        s.to_multiset().count(p) == s.len(),
    decreases s.len(),
{
    broadcast use vstd::seq_lib::group_to_multiset_ensures;
    if s.len() > 0 {
        lemma_run_count(s.drop_last(), p);
        assert(s.drop_last().push(s.last()) =~= s);
    }
}

/// Cells at or after `start` are those from its first column-major index on.
proof fn lemma_at_or_after_key(x: int, y: int, start: (usize, usize))
    requires
        on_board(x, y),
    ensures
        at_or_after(x, y, start) <==> col_key(x, y) >= start_key(start),
        start_key((x as usize, y as usize)) == col_key(x, y),
        start_key(start) >= 0,
{
}

/// The candidates of a branch that still places copies of `p` are the
/// candidates of its children, one for each cell at or after the start
/// that is empty.
pub proof fn lemma_children(b: Cells, same: Seq<Piece>, start: (usize, usize), rest: Seq<Piece>,
    ranks: Seq<(usize, usize)>, files: Seq<(usize, usize)>, f: Cells)
    requires
        shaped(b),
        same.len() > 0,
        !same.last().empty(),
        forall|i: int| 0 <= i < same.len() ==> #[trigger] same[i] == same.last(),
    ensures
        branch_candidate(b, same, start, rest, ranks, files, f) <==> exists|x: int, y: int|
            #![trigger child_candidate(b, same, rest, ranks, files, x, y, f)]
            on_board(x, y) && at_or_after(x, y, start) && b[y][x].empty()
            && child_candidate(b, same, rest, ranks, files, x, y, f),
{
    broadcast use vstd::seq_lib::group_to_multiset_ensures;
    let p = same.last();
    let s2 = same.drop_last();
    assert(s2.push(p) =~= same);
    assert(to_place(same, rest) =~= to_place(s2, rest).insert(p));
    if branch_candidate(b, same, start, rest, ranks, files, f) {
        lemma_new_count_mono(b, f, p, 0, start_key(start));
        let j = lemma_new_count_first(b, f, p, if start_key(start) >= 0 { start_key(start) } else { 0 }, same.len());
        lemma_col_cell(j);
        let x = j / 8;
        let y = j % 8;
        lemma_at_or_after_key(x, y, start);
        lemma_completes_set(b, to_place(s2, rest), f, x, y, p);
        lemma_set_cell_lines(b, x, y, p);
        lemma_new_count_set(b, f, x, y, p, j, 128);
        lemma_new_count_step(b, f, p, j, 128);
        lemma_cell_index(x, y);
        if s2.len() > 0 {
            assert(s2.last() == p);
        }
        assert(child_candidate(b, same, rest, ranks, files, x, y, f));
    }
    if exists|x: int, y: int| #![trigger child_candidate(b, same, rest, ranks, files, x, y, f)]
        on_board(x, y) && at_or_after(x, y, start) && b[y][x].empty()
        && child_candidate(b, same, rest, ranks, files, x, y, f) {
        let (x, y) = choose|x: int, y: int| #![trigger child_candidate(b, same, rest, ranks, files, x, y, f)]
            on_board(x, y) && at_or_after(x, y, start) && b[y][x].empty()
            && child_candidate(b, same, rest, ranks, files, x, y, f);
        lemma_completes_set(b, to_place(s2, rest), f, x, y, p);
        lemma_at_or_after_key(x, y, start);
        lemma_key_cell(x, y);
        lemma_cell_index(x, y);
        lemma_new_count_set(b, f, x, y, p, col_key(x, y), 128);
        lemma_new_count_mono(b, f, p, start_key(start), col_key(x, y));
        if s2.len() > 0 {
            assert(s2.last() == p);
        }
        assert(new_count(b, f, p, start_key(start)) >= same.len());
    }
}

/// Once a run is placed, the next run of the pieces left, taken from their
/// end, is placed from the first cell on.
pub proof fn lemma_next_run(b: Cells, start: (usize, usize), rest: Seq<Piece>,
    ranks: Seq<(usize, usize)>, files: Seq<(usize, usize)>, n: int, f: Cells)
    requires
        0 <= n < rest.len(),
        forall|i: int| n <= i < rest.len() ==> #[trigger] rest[i] == rest.last(),
    ensures
        to_place(rest.skip(n), rest.take(n)) == to_place(Seq::<Piece>::empty(), rest),
        branch_candidate(b, Seq::<Piece>::empty(), start, rest, ranks, files, f)
            <==> branch_candidate(b, rest.skip(n), (0, 0), rest.take(n), ranks, files, f),
{
    broadcast use vstd::seq_lib::group_to_multiset_ensures;
    let s2 = rest.skip(n);
    let r2 = rest.take(n);
    assert(r2 + s2 =~= rest);
    vstd::seq_lib::lemma_multiset_commutative(r2, s2);
    assert(Seq::<Piece>::empty().to_multiset() =~= Multiset::<Piece>::empty());
    assert(to_place(s2, r2) =~= to_place(Seq::<Piece>::empty(), rest));
    if completes(b, to_place(s2, r2), f) {
        let p = s2.last();
        assert forall|i: int| 0 <= i < s2.len() implies #[trigger] s2[i] == p by {
            assert(s2[i] == rest[n + i]);
        }
        lemma_run_count(s2, p);
        lemma_new_count_all(b, f, p, 128);
        assert(new_pieces(b, f).count(p) >= s2.len());
        assert(start_key((0usize, 0usize)) == 0);
    }
}

/// A branch with nothing left to place has the board itself as its one
/// candidate, where it stays within the targets.
pub proof fn lemma_leaf(b: Cells, start: (usize, usize), ranks: Seq<(usize, usize)>,
    files: Seq<(usize, usize)>, f: Cells)
    requires
        shaped(b),
    ensures
        branch_candidate(b, Seq::<Piece>::empty(), start, Seq::<Piece>::empty(), ranks, files, f)
            <==> f == b && within_targets(b, ranks, files),
{
    broadcast use vstd::seq_lib::group_to_multiset_ensures;
    assert(Seq::<Piece>::empty().to_multiset() =~= Multiset::<Piece>::empty());
    assert(to_place(Seq::<Piece>::empty(), Seq::<Piece>::empty()) =~= Multiset::<Piece>::empty());
    lemma_completes_nothing(b, f);
}

/// A child where the piece would push its rank or its file past the
/// target has no candidate.
pub proof fn lemma_child_exceeds(b: Cells, same: Seq<Piece>, rest: Seq<Piece>,
    ranks: Seq<(usize, usize)>, files: Seq<(usize, usize)>, x: int, y: int, f: Cells)
    requires
        shaped(b),
        on_board(x, y),
        b[y][x].empty(),
        same.len() > 0,
        same.last().is_piece(),
        ({
            let p = same.last();
            let w = has_colour(p, true);
            side_sum(b[y], w) + value_of(p.0) > side_target(ranks[y], w)
            || side_sum(file_cells(b, x), w) + value_of(p.0) > side_target(files[x], w)
        }),
    ensures
        !child_candidate(b, same, rest, ranks, files, x, y, f),
{
    let p = same.last();
    let w = has_colour(p, true);
    let b2 = set_cell(b, x, y, p);
    crate::piece::lemma_piece_facts(p);
    assert(has_colour(p, w));
    if child_candidate(b, same, rest, ranks, files, x, y, f) {
        lemma_set_cell_lines(b, x, y, p);
        lemma_agrees_sums(b2, f, w);
        lemma_side_sum_update(b[y], x, p, w);
        lemma_side_sum_update(file_cells(b, x), y, p, w);
        assert(side_sum(b2[y], w) <= side_sum(f[y], w));
        assert(side_sum(file_cells(b2, x), w) <= side_sum(file_cells(f, x), w));
        assert(crate::board::rank_sums(f, y).0 <= ranks[y].0);
        assert(crate::board::file_sums(f, x).0 <= files[x].0);
    }
}

/// One more cell in the walk: what the children below `key + 1` find is
/// what those below `key` find and what the child at the cell of index
/// `key` finds.
pub proof fn lemma_before_step(b: Cells, same: Seq<Piece>, start: (usize, usize), rest: Seq<Piece>,
    ranks: Seq<(usize, usize)>, files: Seq<(usize, usize)>, x: int, y: int)
    requires
        on_board(x, y),
    ensures
        forall|f: Cells| solved_before(b, same, start, rest, ranks, files, f, col_key(x, y) + 1)
            <==> solved_before(b, same, start, rest, ranks, files, f, col_key(x, y))
                || (at_or_after(x, y, start) && b[y][x].empty()
                    && #[trigger] child_candidate(b, same, rest, ranks, files, x, y, f) && !white_in_check(f)),
        forced_before(b, same, start, rest, ranks, files, col_key(x, y) + 1)
            <==> forced_before(b, same, start, rest, ranks, files, col_key(x, y))
                && (at_or_after(x, y, start) && b[y][x].empty() ==> forall|f: Cells|
                    #[trigger] child_candidate(b, same, rest, ranks, files, x, y, f)
                    ==> targets_met(f, ranks, files) && white_king_count(f) == 2),
{
    lemma_key_cell(x, y);
    assert forall|xx: int, yy: int| on_board(xx, yy) && col_key(xx, yy) < col_key(x, y) + 1
        && col_key(xx, yy) >= col_key(x, y) implies xx == x && yy == y by {
        lemma_key_cell(xx, yy);
    }
}


/// Past the last cell, the children found and forced are those of the whole
/// branch.
pub proof fn lemma_walk_end(b: Cells, same: Seq<Piece>, start: (usize, usize), rest: Seq<Piece>,
    ranks: Seq<(usize, usize)>, files: Seq<(usize, usize)>, end: int)
    requires
        shaped(b),
        same.len() > 0,
        !same.last().empty(),
        forall|i: int| 0 <= i < same.len() ==> #[trigger] same[i] == same.last(),
        end >= 128,
    ensures
        forall|f: Cells| #[trigger] branch_solution(b, same, start, rest, ranks, files, f)
            <==> solved_before(b, same, start, rest, ranks, files, f, end),
        forced_before(b, same, start, rest, ranks, files, end) ==> branch_forced(b, same, start, rest, ranks, files),
{
    assert forall|f: Cells| #[trigger] branch_solution(b, same, start, rest, ranks, files, f)
        <==> solved_before(b, same, start, rest, ranks, files, f, end) by {
        lemma_children(b, same, start, rest, ranks, files, f);
        if branch_candidate(b, same, start, rest, ranks, files, f) {
            let (xx, yy) = choose|xx: int, yy: int| #![trigger child_candidate(b, same, rest, ranks, files, xx, yy, f)]
                on_board(xx, yy) && at_or_after(xx, yy, start) && b[yy][xx].empty()
                && child_candidate(b, same, rest, ranks, files, xx, yy, f);
            lemma_key_cell(xx, yy);
        }
    }
    if forced_before(b, same, start, rest, ranks, files, end) {
        assert forall|f: Cells| #[trigger] branch_candidate(b, same, start, rest, ranks, files, f)
            implies targets_met(f, ranks, files) && white_king_count(f) == 2 by {
            lemma_children(b, same, start, rest, ranks, files, f);
            let (xx, yy) = choose|xx: int, yy: int| #![trigger child_candidate(b, same, rest, ranks, files, xx, yy, f)]
                on_board(xx, yy) && at_or_after(xx, yy, start) && b[yy][xx].empty()
                && child_candidate(b, same, rest, ranks, files, xx, yy, f);
            lemma_key_cell(xx, yy);
        }
    }
}

/// Where the walk over the cells of a branch stands before the cell of
/// column-major index `key`: the boards found are those found before and
/// those that the children below `key` find, and those children are forced.
pub open spec fn walk_state(b: Cells, same: Seq<Piece>, start: (usize, usize), rest: Seq<Piece>,
    ranks: Seq<(usize, usize)>, files: Seq<(usize, usize)>, base: Seq<Cells>, found: Seq<Cells>, key: int) -> bool {
    &&& forall|f: Cells| #![trigger found.contains(f)] #![trigger solved_before(b, same, start, rest, ranks, files, f, key)]
        found.contains(f) <==> base.contains(f) || solved_before(b, same, start, rest, ranks, files, f, key)
    &&& forced_before(b, same, start, rest, ranks, files, key)
}

/// One cell further in the walk.
pub proof fn lemma_walk_step(b: Cells, same: Seq<Piece>, start: (usize, usize), rest: Seq<Piece>,
    ranks: Seq<(usize, usize)>, files: Seq<(usize, usize)>, base: Seq<Cells>, mid: Seq<Cells>, found: Seq<Cells>,
    x: int, y: int)
    requires
        on_board(x, y),
        walk_state(b, same, start, rest, ranks, files, base, mid, col_key(x, y)),
        forall|f: Cells| #![trigger found.contains(f)] #![trigger child_candidate(b, same, rest, ranks, files, x, y, f)]
            found.contains(f) <==> mid.contains(f)
            || (at_or_after(x, y, start) && b[y][x].empty()
                && child_candidate(b, same, rest, ranks, files, x, y, f) && !white_in_check(f)),
        at_or_after(x, y, start) && b[y][x].empty() ==> forall|f: Cells|
            #[trigger] child_candidate(b, same, rest, ranks, files, x, y, f)
            ==> targets_met(f, ranks, files) && white_king_count(f) == 2,
    ensures
        walk_state(b, same, start, rest, ranks, files, base, found, col_key(x, y) + 1),
{
    lemma_before_step(b, same, start, rest, ranks, files, x, y);
    assert forall|f: Cells| #![trigger found.contains(f)] #![trigger solved_before(b, same, start, rest, ranks, files, f, col_key(x, y) + 1)]
        found.contains(f) <==> base.contains(f)
        || solved_before(b, same, start, rest, ranks, files, f, col_key(x, y) + 1) by {
        assert(mid.contains(f) <==> base.contains(f) || solved_before(b, same, start, rest, ranks, files, f, col_key(x, y)));
        assert(found.contains(f) <==> mid.contains(f)
            || (at_or_after(x, y, start) && b[y][x].empty()
                && child_candidate(b, same, rest, ranks, files, x, y, f) && !white_in_check(f)));
    }
}

/// At the end of the walk, the boards found are those found before and
/// the solutions of the branch, and the branch is forced.
pub proof fn lemma_walk_done(b: Cells, same: Seq<Piece>, start: (usize, usize), rest: Seq<Piece>,
    ranks: Seq<(usize, usize)>, files: Seq<(usize, usize)>, base: Seq<Cells>, found: Seq<Cells>, end: int)
    requires
        walk_state(b, same, start, rest, ranks, files, base, found, end),
        forall|f: Cells| #[trigger] branch_solution(b, same, start, rest, ranks, files, f)
            <==> solved_before(b, same, start, rest, ranks, files, f, end),
        forced_before(b, same, start, rest, ranks, files, end) ==> branch_forced(b, same, start, rest, ranks, files),
    ensures
        forall|f: Cells| #![trigger found.contains(f)] #![trigger branch_solution(b, same, start, rest, ranks, files, f)]
            found.contains(f) <==> base.contains(f) || branch_solution(b, same, start, rest, ranks, files, f),
        branch_forced(b, same, start, rest, ranks, files),
{
    assert forall|f: Cells| #![trigger found.contains(f)] #![trigger branch_solution(b, same, start, rest, ranks, files, f)]
        found.contains(f) <==> base.contains(f) || branch_solution(b, same, start, rest, ranks, files, f) by {
        assert(found.contains(f) <==> base.contains(f) || solved_before(b, same, start, rest, ranks, files, f, end));
    }
}
} // verus!
