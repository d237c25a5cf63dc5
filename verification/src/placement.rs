use vstd::prelude::*;
use vstd::multiset::Multiset;
use crate::board::{file_cells, has_colour, on_board, set_cell, shaped, side_sum, Cells};
use crate::piece::{lemma_flag_bits, value_of, Piece, HEIGHT, WIDTH};

verus! {

broadcast use vstd::multiset::group_multiset_axioms;

/// The cell with row-major index `i`: `(file, rank)`.
pub open spec fn cell_of(i: int) -> (int, int) {
    (i % 16, i / 16)
}

/// Row-major index of the cell at file `x`, rank `y`.
pub open spec fn cell_index(x: int, y: int) -> int {
    y * 16 + x
}

pub proof fn lemma_cell_index(x: int, y: int)
    requires
        on_board(x, y),
    ensures
        cell_of(cell_index(x, y)) == (x, y),
        0 <= cell_index(x, y) < 128,
{
    assert((y * 16 + x) % 16 == x && (y * 16 + x) / 16 == y) by (nonlinear_arith)
        requires 0 <= x < 16, 0 <= y;
    assert(y * 16 + x < 128) by (nonlinear_arith) requires 0 <= x < 16, 0 <= y < 8;
}

pub proof fn lemma_cell_of(i: int)
    requires
        0 <= i < 128,
    ensures
        on_board(cell_of(i).0, cell_of(i).1),
        cell_index(cell_of(i).0, cell_of(i).1) == i,
{
    assert(0 <= i % 16 < 16 && 0 <= i / 16 < 8 && (i / 16) * 16 + i % 16 == i) by (nonlinear_arith)
        requires 0 <= i < 128;
}

/// The cell at `(x, y)` is empty in `b` and holds a piece in `f`.
pub open spec fn is_new(b: Cells, f: Cells, x: int, y: int) -> bool {
    b[y][x].empty() && !f[y][x].empty()
}

/// The pieces that `f` holds on the first `n` cells (row-major) that are
/// empty in `b`.
pub open spec fn new_pieces_upto(b: Cells, f: Cells, n: nat) -> Multiset<Piece>
    decreases n,
{
    if n == 0 {
        Multiset::empty()
    } else {
        let c = cell_of(n - 1);
        let before = new_pieces_upto(b, f, (n - 1) as nat);
        if is_new(b, f, c.0, c.1) {
            before.insert(f[c.1][c.0])
        } else {
            before
        }
    }
}

/// The pieces that `f` holds on the cells that are empty in `b`.
pub open spec fn new_pieces(b: Cells, f: Cells) -> Multiset<Piece> {
    new_pieces_upto(b, f, 128)
}

/// `f` keeps every piece of `b` where it stands.
pub open spec fn agrees(b: Cells, f: Cells) -> bool {
    forall|x: int, y: int| on_board(x, y) && !(#[trigger] b[y][x]).empty() ==> f[y][x] == b[y][x]
}

/// `f` is `b` with exactly the pieces `rem` placed on cells empty in `b`.
pub open spec fn completes(b: Cells, rem: Multiset<Piece>, f: Cells) -> bool {
    &&& shaped(f)
    &&& agrees(b, f)
    &&& new_pieces(b, f) == rem
}

/// What placing `p` on the empty cell `(x, y)` of `b` takes out of the new
/// pieces of `f`, which holds `p` there.
pub proof fn lemma_new_pieces_set(b: Cells, f: Cells, x: int, y: int, p: Piece, n: nat)
    requires
        shaped(b),
        on_board(x, y),
        b[y][x].empty(),
        !p.empty(),
        f[y][x] == p,
        n <= 128,
    ensures
        new_pieces_upto(b, f, n) == if cell_index(x, y) < n {
            new_pieces_upto(set_cell(b, x, y, p), f, n).insert(p)
        } else {
            new_pieces_upto(set_cell(b, x, y, p), f, n)
        },
    decreases n,
{
    lemma_cell_index(x, y);
    if n > 0 {
        let b2 = set_cell(b, x, y, p);
        let c = cell_of(n - 1);
        lemma_cell_of(n - 1);
        lemma_new_pieces_set(b, f, x, y, p, (n - 1) as nat);
        if c == (x, y) {
            assert(b2[y][x] == p);
        } else {
            assert(b2[c.1][c.0] == b[c.1][c.0]);
            if cell_index(x, y) < n - 1 {
                let m = new_pieces_upto(b2, f, (n - 1) as nat);
                assert(m.insert(p).insert(f[c.1][c.0]) =~= m.insert(f[c.1][c.0]).insert(p));
            }
        }
    }
}

/// A piece on a new cell counts among the new pieces.
pub proof fn lemma_new_pieces_has(b: Cells, f: Cells, i: int, n: nat)
    requires
        0 <= i < n <= 128,
        is_new(b, f, cell_of(i).0, cell_of(i).1),
    ensures
        new_pieces_upto(b, f, n).count(f[cell_of(i).1][cell_of(i).0]) > 0,
    decreases n,
{
    if i < n - 1 {
        lemma_new_pieces_has(b, f, i, (n - 1) as nat);
    }
}

/// Each new piece stands on some new cell.
pub proof fn lemma_new_pieces_from(b: Cells, f: Cells, p: Piece, n: nat)
    requires
        n <= 128,
        new_pieces_upto(b, f, n).count(p) > 0,
    ensures
        exists|i: int| 0 <= i < n && is_new(b, f, cell_of(i).0, cell_of(i).1)
            && f[cell_of(i).1][cell_of(i).0] == p,
    decreases n,
{
    let c = cell_of(n - 1);
    if is_new(b, f, c.0, c.1) && f[c.1][c.0] == p {
        assert(is_new(b, f, cell_of(n - 1).0, cell_of(n - 1).1));
    } else {
        lemma_new_pieces_from(b, f, p, (n - 1) as nat);
        let i = choose|i: int| 0 <= i < n - 1 && is_new(b, f, cell_of(i).0, cell_of(i).1)
            && f[cell_of(i).1][cell_of(i).0] == p;
        assert(0 <= i < n && is_new(b, f, cell_of(i).0, cell_of(i).1) && f[cell_of(i).1][cell_of(i).0] == p);
    }
}

/// Placing `p` on an empty cell: completions of the new board are the
/// completions of the old one, with `p` on that cell, that place one `p` less.
pub proof fn lemma_completes_set(b: Cells, rem: Multiset<Piece>, f: Cells, x: int, y: int, p: Piece)
    requires
        shaped(b),
        on_board(x, y),
        b[y][x].empty(),
        !p.empty(),
    ensures
        completes(set_cell(b, x, y, p), rem, f) ==> completes(b, rem.insert(p), f) && f[y][x] == p,
        completes(b, rem.insert(p), f) && f[y][x] == p ==> completes(set_cell(b, x, y, p), rem, f),
{
    let b2 = set_cell(b, x, y, p);
    lemma_cell_index(x, y);
    if completes(b2, rem, f) {
        assert(b2[y][x] == p);
        assert(f[y][x] == p);
        assert forall|xx: int, yy: int| on_board(xx, yy) && !(#[trigger] b[yy][xx]).empty() implies f[yy][xx] == b[yy][xx] by {
            assert(b2[yy][xx] == b[yy][xx]);
        }
        lemma_new_pieces_set(b, f, x, y, p, 128);
    }
    if completes(b, rem.insert(p), f) && f[y][x] == p {
        assert forall|xx: int, yy: int| on_board(xx, yy) && !(#[trigger] b2[yy][xx]).empty() implies f[yy][xx] == b2[yy][xx] by {
            if (xx, yy) != (x, y) {
                assert(b2[yy][xx] == b[yy][xx]);
            }
        }
        lemma_new_pieces_set(b, f, x, y, p, 128);
        assert(new_pieces(b2, f).insert(p) == rem.insert(p));
        assert(new_pieces(b2, f) =~= rem.insert(p).remove(p));
        assert(rem.insert(p).remove(p) =~= rem);
    }
}

/// A completion that places some `p` puts it on a cell empty in `b`.
pub proof fn lemma_completes_has(b: Cells, rem: Multiset<Piece>, f: Cells, p: Piece)
    requires
        completes(b, rem, f),
        rem.count(p) > 0,
    ensures
        exists|x: int, y: int| on_board(x, y) && is_new(b, f, x, y) && f[y][x] == p,
{
    lemma_new_pieces_from(b, f, p, 128);
    let i = choose|i: int| 0 <= i < 128 && is_new(b, f, cell_of(i).0, cell_of(i).1)
        && f[cell_of(i).1][cell_of(i).0] == p;
    lemma_cell_of(i);
    let c = cell_of(i);
    assert(on_board(c.0, c.1) && is_new(b, f, c.0, c.1) && f[c.1][c.0] == p);
}

/// A board completes itself with nothing to place, and nothing else does.
pub proof fn lemma_completes_nothing(b: Cells, f: Cells)
    requires
        shaped(b),
    ensures
        completes(b, Multiset::empty(), b),
        completes(b, Multiset::empty(), f) ==> f == b,
{
    assert forall|n: nat| n <= 128 implies #[trigger] new_pieces_upto(b, b, n) =~= Multiset::<Piece>::empty() by {
        lemma_new_pieces_nothing(b, n);
    }
    assert(new_pieces_upto(b, b, 128) =~= Multiset::<Piece>::empty());
    if completes(b, Multiset::empty(), f) {
        assert forall|y: int| 0 <= y < HEIGHT implies #[trigger] f[y] =~= b[y] by {
            assert forall|x: int| 0 <= x < WIDTH implies f[y][x] == b[y][x] by {
                lemma_cell_index(x, y);
                if is_new(b, f, x, y) {
                    lemma_new_pieces_has(b, f, cell_index(x, y), 128);
                }
                if b[y][x].empty() {
                    assert(f[y][x].0 == 0);
                }
            }
        }
        assert(f =~= b);
    }
}

proof fn lemma_new_pieces_nothing(b: Cells, n: nat)
    ensures
        new_pieces_upto(b, b, n) =~= Multiset::<Piece>::empty(),
    decreases n,
{
    if n > 0 {
        lemma_new_pieces_nothing(b, (n - 1) as nat);
    }
}

/// What a piece adds to the sum of a side.
pub open spec fn share(p: Piece, white: bool) -> nat {
    if has_colour(p, white) { value_of(p.0) } else { 0 }
}

pub proof fn lemma_empty_share(p: Piece, white: bool)
    requires
        p.empty(),
    ensures
        share(p, white) == 0,
{
    lemma_flag_bits(p.0);
}

/// Sums only grow when empty cells get filled.
pub proof fn lemma_side_sum_mono(s1: Seq<Piece>, s2: Seq<Piece>, white: bool)
    requires
        s1.len() == s2.len(),
        forall|i: int| 0 <= i < s1.len() && !(#[trigger] s1[i]).empty() ==> s2[i] == s1[i],
    ensures
        side_sum(s1, white) <= side_sum(s2, white),
    decreases s1.len(),
{
    if s1.len() > 0 {
        lemma_side_sum_mono(s1.drop_last(), s2.drop_last(), white);
        if s1.last().empty() {
            lemma_empty_share(s1.last(), white);
        }
    }
}

/// Filling one empty cell adds exactly that piece's share.
pub proof fn lemma_side_sum_update(s: Seq<Piece>, i: int, p: Piece, white: bool)
    requires
        0 <= i < s.len(),
        s[i].empty(),
    ensures
        side_sum(s.update(i, p), white) == side_sum(s, white) + share(p, white),
    decreases s.len(),
{
    lemma_empty_share(s[i], white);
    if i == s.len() - 1 {
        assert(s.update(i, p).drop_last() =~= s.drop_last());
    } else {
        lemma_side_sum_update(s.drop_last(), i, p, white);
        assert(s.update(i, p).drop_last() =~= s.drop_last().update(i, p));
    }
}

/// The rows and files of a board after placing a piece.
pub proof fn lemma_set_cell_lines(b: Cells, x: int, y: int, p: Piece)
    requires
        shaped(b),
        on_board(x, y),
    ensures
        shaped(set_cell(b, x, y, p)),
        set_cell(b, x, y, p)[y] == b[y].update(x, p),
        forall|r: int| 0 <= r < HEIGHT && r != y ==> #[trigger] set_cell(b, x, y, p)[r] == b[r],
        file_cells(set_cell(b, x, y, p), x) == file_cells(b, x).update(y, p),
        forall|c: int| 0 <= c < WIDTH && c != x ==> #[trigger] file_cells(set_cell(b, x, y, p), c) == file_cells(b, c),
{
    let b2 = set_cell(b, x, y, p);
    assert(file_cells(b2, x) =~= file_cells(b, x).update(y, p));
    assert forall|c: int| 0 <= c < WIDTH && c != x implies #[trigger] file_cells(b2, c) == file_cells(b, c) by {
        assert(file_cells(b2, c) =~= file_cells(b, c));
    }
}

/// The sums of a completion are at least those of the board it completes.
pub proof fn lemma_agrees_sums(b: Cells, f: Cells, white: bool)
    requires
        shaped(b),
        shaped(f),
        agrees(b, f),
    ensures
        forall|y: int| 0 <= y < HEIGHT ==> side_sum(#[trigger] b[y], white) <= side_sum(f[y], white),
        forall|x: int| 0 <= x < WIDTH ==> side_sum(#[trigger] file_cells(b, x), white) <= side_sum(file_cells(f, x), white),
{
    assert forall|y: int| 0 <= y < HEIGHT implies side_sum(#[trigger] b[y], white) <= side_sum(f[y], white) by {
        assert forall|i: int| 0 <= i < b[y].len() && !(#[trigger] b[y][i]).empty() implies f[y][i] == b[y][i] by {
            assert(on_board(i, y));
        }
        lemma_side_sum_mono(b[y], f[y], white);
    }
    assert forall|x: int| 0 <= x < WIDTH implies side_sum(#[trigger] file_cells(b, x), white) <= side_sum(file_cells(f, x), white) by {
        assert forall|i: int| 0 <= i < file_cells(b, x).len() && !(#[trigger] file_cells(b, x)[i]).empty()
            implies file_cells(f, x)[i] == file_cells(b, x)[i] by {
            assert(on_board(x, i));
        }
        lemma_side_sum_mono(file_cells(b, x), file_cells(f, x), white);
    }
}

} // verus!
