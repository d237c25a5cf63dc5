use vstd::prelude::*;
use crate::attack::{attacked_from, hits_of, ray_hit, Ray};
use crate::board::{on_board, shaped, Cells};
use crate::laws::exit_bound;
use crate::piece::{lemma_flag_bits, Piece, BISHOP, BLACK, KING, KNIGHT, PAWN, QUEEN, ROOK, WHITE, WIDTH};

verus! {

/// `k` steps of `s` (-1, 0 or 1) along one axis.
pub open spec fn offset(s: int, k: int) -> int {
    if s > 0 { k } else if s < 0 { -k } else { 0 }
}

/// The cell `k` steps from `(x, y)` in direction `(sx, sy)` lies on the board.
pub open spec fn on_board_along(x: int, y: int, sx: int, sy: int, k: int) -> bool {
    on_board(x + offset(sx, k), y + offset(sy, k))
}

/// What stands `k` steps from `(x, y)` in direction `(sx, sy)`.
pub open spec fn cell_along(b: Cells, x: int, y: int, sx: int, sy: int, k: int) -> Piece {
    b[y + offset(sy, k)][x + offset(sx, k)]
}

/// Looking from `(x, y)` in direction `(sx, sy)`, the first cell that holds
/// a piece is `k` steps away: the cells before it are on the board and empty.
pub open spec fn first_piece_at(b: Cells, x: int, y: int, sx: int, sy: int, k: int) -> bool {
    &&& k >= 1
    &&& on_board_along(x, y, sx, sy, k)
    &&& !cell_along(b, x, y, sx, sy, k).empty()
    &&& forall|j: int| 1 <= j < k ==> on_board_along(x, y, sx, sy, j) && (#[trigger] cell_along(b, x, y, sx, sy, j)).empty()
}

/// The first piece met from `(x, y)` in direction `(sx, sy)` before the edge
/// of the board, if any.
pub open spec fn first_piece(b: Cells, x: int, y: int, sx: int, sy: int) -> Option<(usize, usize)> {
    if exists|k: int| #[trigger] first_piece_at(b, x, y, sx, sy, k) {
        let k = choose|k: int| #[trigger] first_piece_at(b, x, y, sx, sy, k);
        Some(((x + offset(sx, k)) as usize, (y + offset(sy, k)) as usize))
    } else {
        None
    }
}

/// The cell `(x + dx, y + dy)`, where it is on the board and holds a piece.
pub open spec fn piece_near(b: Cells, x: int, y: int, dx: int, dy: int) -> Option<(usize, usize)> {
    if on_board(x + dx, y + dy) && !b[y + dy][x + dx].empty() {
        Some(((x + dx) as usize, (y + dy) as usize))
    } else {
        None
    }
}

/// The positions that are there, in order.
pub open spec fn present(s: Seq<Option<(usize, usize)>>) -> Seq<(usize, usize)>
    decreases s.len(),
{
    if s.len() == 0 {
        seq![]
    } else {
        match s.last() {
            Some(p) => present(s.drop_last()).push(p),
            None => present(s.drop_last()),
        }
    }
}

proof fn lemma_hits_present(b: Cells, x: int, y: int, rays: Seq<Ray>)
    ensures
        hits_of(b, x, y, rays) == present(rays.map_values(|r: Ray| ray_hit(b, x, y, r, WIDTH as nat))),
    decreases rays.len(),
{
    if rays.len() > 0 {
        lemma_hits_present(b, x, y, rays.drop_last());
        assert(rays.drop_last().map_values(|r: Ray| ray_hit(b, x, y, r, WIDTH as nat))
            =~= rays.map_values(|r: Ray| ray_hit(b, x, y, r, WIDTH as nat)).drop_last());
    }
}

/// Two first pieces along one direction are one.
proof fn lemma_first_piece_unique(b: Cells, x: int, y: int, sx: int, sy: int, k1: int, k2: int)
    requires
        first_piece_at(b, x, y, sx, sy, k1),
        first_piece_at(b, x, y, sx, sy, k2),
    ensures
        k1 == k2,
{
    if k1 < k2 {
        assert(cell_along(b, x, y, sx, sy, k1).empty());
    } else if k2 < k1 {
        assert(cell_along(b, x, y, sx, sy, k2).empty());
    }
}

proof fn lemma_offset_shift(s: int, j: int)
    requires
        -1 <= s <= 1,
    ensures
        offset(s, j + 1) == s + offset(s, j),
        offset(s, 1) == s,
{
}

/// Seen from one cell further, the first piece is one step nearer.
proof fn lemma_first_piece_shift(b: Cells, x: int, y: int, sx: int, sy: int, k: int)
    requires
        -1 <= sx <= 1,
        -1 <= sy <= 1,
        k >= 1,
    ensures
        first_piece_at(b, x, y, sx, sy, k + 1) <==> (on_board(x + sx, y + sy) && b[y + sy][x + sx].empty()
            && first_piece_at(b, x + sx, y + sy, sx, sy, k)),
{
    let nx = x + sx;
    let ny = y + sy;
    lemma_offset_shift(sx, 0);
    lemma_offset_shift(sy, 0);
    assert forall|j: int| #![trigger cell_along(b, nx, ny, sx, sy, j)]
        cell_along(b, x, y, sx, sy, j + 1) == cell_along(b, nx, ny, sx, sy, j)
        && (on_board_along(x, y, sx, sy, j + 1) <==> on_board_along(nx, ny, sx, sy, j)) by {
        lemma_offset_shift(sx, j);
        lemma_offset_shift(sy, j);
    }
    if first_piece_at(b, x, y, sx, sy, k + 1) {
        assert(cell_along(b, x, y, sx, sy, 1) == b[ny][nx]);
        assert(cell_along(b, x, y, sx, sy, 1).empty());
        assert(cell_along(b, nx, ny, sx, sy, k) == cell_along(b, x, y, sx, sy, k + 1));
        assert forall|j: int| 1 <= j < k implies on_board_along(nx, ny, sx, sy, j)
            && (#[trigger] cell_along(b, nx, ny, sx, sy, j)).empty() by {
            assert(cell_along(b, x, y, sx, sy, j + 1).empty());
        }
    }
    if on_board(nx, ny) && b[ny][nx].empty() && first_piece_at(b, nx, ny, sx, sy, k) {
        assert(cell_along(b, nx, ny, sx, sy, k) == cell_along(b, x, y, sx, sy, k + 1));
        assert forall|j: int| 1 <= j < k + 1 implies on_board_along(x, y, sx, sy, j)
            && (#[trigger] cell_along(b, x, y, sx, sy, j)).empty() by {
            if j > 1 {
                assert(cell_along(b, x, y, sx, sy, (j - 1) + 1) == cell_along(b, nx, ny, sx, sy, j - 1));
                assert(cell_along(b, nx, ny, sx, sy, j - 1).empty());
            } else {
                assert(cell_along(b, x, y, sx, sy, 1) == b[ny][nx]);
            }
        }
    }
}

/// The first piece is one step away exactly where the next cell holds one.
proof fn lemma_first_piece_next(b: Cells, x: int, y: int, sx: int, sy: int)
    requires
        -1 <= sx <= 1,
        -1 <= sy <= 1,
    ensures
        first_piece_at(b, x, y, sx, sy, 1) <==> on_board(x + sx, y + sy) && !b[y + sy][x + sx].empty(),
        !on_board(x + sx, y + sy) ==> forall|k: int| !#[trigger] first_piece_at(b, x, y, sx, sy, k),
{
    lemma_offset_shift(sx, 0);
    lemma_offset_shift(sy, 0);
    assert(cell_along(b, x, y, sx, sy, 1) == b[y + sy][x + sx]);
    if !on_board(x + sx, y + sy) {
        assert forall|k: int| !#[trigger] first_piece_at(b, x, y, sx, sy, k) by {
            if first_piece_at(b, x, y, sx, sy, k) && k > 1 {
                assert(cell_along(b, x, y, sx, sy, 1).empty());
            }
        }
    }
}

/// Walking a sliding ray stops at the first piece along its direction.
proof fn lemma_slide_first(b: Cells, x: int, y: int, r: Ray, s: nat)
    requires
        on_board(x, y),
        r.repeat,
        -1 <= r.dx <= 1,
        -1 <= r.dy <= 1,
        r.dx != 0 || r.dy != 0,
        s >= exit_bound(x, y, r),
    ensures
        ray_hit(b, x, y, r, s) == first_piece(b, x, y, r.dx as int, r.dy as int),
    decreases s,
{
    let sx = r.dx as int;
    let sy = r.dy as int;
    let nx = x + sx;
    let ny = y + sy;
    lemma_first_piece_next(b, x, y, sx, sy);
    if !on_board(nx, ny) {
    } else if !b[ny][nx].empty() {
        assert(first_piece_at(b, x, y, sx, sy, 1));
        let k1 = choose|k: int| #[trigger] first_piece_at(b, x, y, sx, sy, k);
        lemma_first_piece_unique(b, x, y, sx, sy, 1, k1);
        lemma_offset_shift(sx, 0);
        lemma_offset_shift(sy, 0);
    } else {
        assert(exit_bound(nx, ny, r) == exit_bound(x, y, r) - 1);
        lemma_slide_first(b, nx, ny, r, (s - 1) as nat);
        if exists|k: int| #[trigger] first_piece_at(b, nx, ny, sx, sy, k) {
            let k = choose|k: int| #[trigger] first_piece_at(b, nx, ny, sx, sy, k);
            lemma_first_piece_shift(b, x, y, sx, sy, k);
            assert(first_piece_at(b, x, y, sx, sy, k + 1));
            let k1 = choose|k: int| #[trigger] first_piece_at(b, x, y, sx, sy, k);
            lemma_first_piece_unique(b, x, y, sx, sy, k1, k + 1);
            lemma_offset_shift(sx, k);
            lemma_offset_shift(sy, k);
        } else {
            assert forall|k: int| !#[trigger] first_piece_at(b, x, y, sx, sy, k) by {
                if k >= 2 {
                    lemma_first_piece_shift(b, x, y, sx, sy, k - 1);
                }
            }
        }
    }
}

/// A single step stops at the cell it lands on, if that holds a piece.
proof fn lemma_step_near(b: Cells, x: int, y: int, r: Ray)
    requires
        !r.repeat,
    ensures
        ray_hit(b, x, y, r, WIDTH as nat) == piece_near(b, x, y, r.dx as int, r.dy as int),
{
}

/// A piece with sliding rays along the four directions `d` attacks, in
/// that order, the first piece along each of them.
proof fn lemma_slides(b: Cells, x: int, y: int, rays: Seq<Ray>)
    requires
        on_board(x, y),
        forall|i: int| 0 <= i < rays.len() ==> (#[trigger] rays[i]).repeat && -1 <= rays[i].dx <= 1
            && -1 <= rays[i].dy <= 1 && (rays[i].dx != 0 || rays[i].dy != 0),
    ensures
        rays.map_values(|r: Ray| ray_hit(b, x, y, r, WIDTH as nat))
            == rays.map_values(|r: Ray| first_piece(b, x, y, r.dx as int, r.dy as int)),
{
    assert forall|i: int| 0 <= i < rays.len() implies ray_hit(b, x, y, #[trigger] rays[i], WIDTH as nat)
        == first_piece(b, x, y, rays[i].dx as int, rays[i].dy as int) by {
        lemma_slide_first(b, x, y, rays[i], WIDTH as nat);
    }
    assert(rays.map_values(|r: Ray| ray_hit(b, x, y, r, WIDTH as nat))
        =~= rays.map_values(|r: Ray| first_piece(b, x, y, r.dx as int, r.dy as int)));
}

proof fn lemma_steps(b: Cells, x: int, y: int, rays: Seq<Ray>)
    requires
        forall|i: int| 0 <= i < rays.len() ==> !(#[trigger] rays[i]).repeat,
    ensures
        rays.map_values(|r: Ray| ray_hit(b, x, y, r, WIDTH as nat))
            == rays.map_values(|r: Ray| piece_near(b, x, y, r.dx as int, r.dy as int)),
{
    assert(rays.map_values(|r: Ray| ray_hit(b, x, y, r, WIDTH as nat))
        =~= rays.map_values(|r: Ray| piece_near(b, x, y, r.dx as int, r.dy as int)));
}

/// A knight attacks, in this order, whatever piece stands on the cells an
/// L-shaped jump away: (-1, -2), (1, -2), (-2, 1), (-2, -1), (2, 1),
/// (2, -1), (-1, 2), (1, 2), where the cell is on the board.
pub proof fn law_knight_attacks(b: Cells, x: int, y: int, white: bool)
    requires
        on_board(x, y),
        b[y][x] == Piece(if white { WHITE | KNIGHT } else { BLACK | KNIGHT }),
    ensures
        attacked_from(b, x, y) == present(seq![
            piece_near(b, x, y, -1, -2), piece_near(b, x, y, 1, -2), piece_near(b, x, y, -2, 1),
            piece_near(b, x, y, -2, -1), piece_near(b, x, y, 2, 1), piece_near(b, x, y, 2, -1),
            piece_near(b, x, y, -1, 2), piece_near(b, x, y, 1, 2)]),
{
    lemma_flag_bits(b[y][x].0);
    let rays = crate::attack::rays_of(b[y][x].0);
    lemma_hits_present(b, x, y, rays);
    lemma_steps(b, x, y, rays);
    assert(rays.map_values(|r: Ray| piece_near(b, x, y, r.dx as int, r.dy as int)) =~= seq![
        piece_near(b, x, y, -1, -2), piece_near(b, x, y, 1, -2), piece_near(b, x, y, -2, 1),
        piece_near(b, x, y, -2, -1), piece_near(b, x, y, 2, 1), piece_near(b, x, y, 2, -1),
        piece_near(b, x, y, -1, 2), piece_near(b, x, y, 1, 2)]);
}

/// A king attacks, in this order, whatever piece stands on the eight
/// neighbouring cells: (-1, -1), (-1, 0), (-1, 1), (0, -1), (0, 1),
/// (1, -1), (1, 0), (1, 1), where the cell is on the board.
pub proof fn law_king_attacks(b: Cells, x: int, y: int, white: bool)
    requires
        on_board(x, y),
        b[y][x] == Piece(if white { WHITE | KING } else { BLACK | KING }),
    ensures
        attacked_from(b, x, y) == present(seq![
            piece_near(b, x, y, -1, -1), piece_near(b, x, y, -1, 0), piece_near(b, x, y, -1, 1),
            piece_near(b, x, y, 0, -1), piece_near(b, x, y, 0, 1), piece_near(b, x, y, 1, -1),
            piece_near(b, x, y, 1, 0), piece_near(b, x, y, 1, 1)]),
{
    lemma_flag_bits(b[y][x].0);
    let rays = crate::attack::rays_of(b[y][x].0);
    lemma_hits_present(b, x, y, rays);
    lemma_steps(b, x, y, rays);
    assert(rays.map_values(|r: Ray| piece_near(b, x, y, r.dx as int, r.dy as int)) =~= seq![
        piece_near(b, x, y, -1, -1), piece_near(b, x, y, -1, 0), piece_near(b, x, y, -1, 1),
        piece_near(b, x, y, 0, -1), piece_near(b, x, y, 0, 1), piece_near(b, x, y, 1, -1),
        piece_near(b, x, y, 1, 0), piece_near(b, x, y, 1, 1)]);
}

/// A pawn attacks the two cells diagonally ahead of it, left one first:
/// towards the top rank for white, towards the bottom rank for black.
pub proof fn law_pawn_attacks(b: Cells, x: int, y: int, white: bool)
    requires
        on_board(x, y),
        b[y][x] == Piece(if white { WHITE | PAWN } else { BLACK | PAWN }),
    ensures
        attacked_from(b, x, y) == present(if white {
            seq![piece_near(b, x, y, -1, -1), piece_near(b, x, y, 1, -1)]
        } else {
            seq![piece_near(b, x, y, -1, 1), piece_near(b, x, y, 1, 1)]
        }),
{
    lemma_flag_bits(b[y][x].0);
    let rays = crate::attack::rays_of(b[y][x].0);
    lemma_hits_present(b, x, y, rays);
    lemma_steps(b, x, y, rays);
    if white {
        assert(rays.map_values(|r: Ray| piece_near(b, x, y, r.dx as int, r.dy as int)) =~= seq![
            piece_near(b, x, y, -1, -1), piece_near(b, x, y, 1, -1)]);
    } else {
        assert(rays.map_values(|r: Ray| piece_near(b, x, y, r.dx as int, r.dy as int)) =~= seq![
            piece_near(b, x, y, -1, 1), piece_near(b, x, y, 1, 1)]);
    }
}

/// A rook attacks, in this order, the first piece to its left, to its
/// right, towards the top rank and towards the bottom rank.
pub proof fn law_rook_attacks(b: Cells, x: int, y: int, white: bool)
    requires
        on_board(x, y),
        b[y][x] == Piece(if white { WHITE | ROOK } else { BLACK | ROOK }),
    ensures
        attacked_from(b, x, y) == present(seq![
            first_piece(b, x, y, -1, 0), first_piece(b, x, y, 1, 0),
            first_piece(b, x, y, 0, -1), first_piece(b, x, y, 0, 1)]),
{
    lemma_flag_bits(b[y][x].0);
    let rays = crate::attack::rays_of(b[y][x].0);
    lemma_hits_present(b, x, y, rays);
    lemma_slides(b, x, y, rays);
    assert(rays.map_values(|r: Ray| first_piece(b, x, y, r.dx as int, r.dy as int)) =~= seq![
        first_piece(b, x, y, -1, 0), first_piece(b, x, y, 1, 0),
        first_piece(b, x, y, 0, -1), first_piece(b, x, y, 0, 1)]);
}

/// A bishop attacks, in this order, the first piece along the diagonals
/// (1, 1), (-1, 1), (1, -1) and (-1, -1).
pub proof fn law_bishop_attacks(b: Cells, x: int, y: int, white: bool)
    requires
        on_board(x, y),
        b[y][x] == Piece(if white { WHITE | BISHOP } else { BLACK | BISHOP }),
    ensures
        attacked_from(b, x, y) == present(seq![
            first_piece(b, x, y, 1, 1), first_piece(b, x, y, -1, 1),
            first_piece(b, x, y, 1, -1), first_piece(b, x, y, -1, -1)]),
{
    lemma_flag_bits(b[y][x].0);
    let rays = crate::attack::rays_of(b[y][x].0);
    lemma_hits_present(b, x, y, rays);
    lemma_slides(b, x, y, rays);
    assert(rays.map_values(|r: Ray| first_piece(b, x, y, r.dx as int, r.dy as int)) =~= seq![
        first_piece(b, x, y, 1, 1), first_piece(b, x, y, -1, 1),
        first_piece(b, x, y, 1, -1), first_piece(b, x, y, -1, -1)]);
}

/// A queen attacks, in this order, the first piece to its left, to its
/// right, towards the top rank, towards the bottom rank, and along the
/// diagonals (1, 1), (-1, 1), (1, -1) and (-1, -1).
pub proof fn law_queen_attacks(b: Cells, x: int, y: int, white: bool)
    requires
        on_board(x, y),
        b[y][x] == Piece(if white { WHITE | QUEEN } else { BLACK | QUEEN }),
    ensures
        attacked_from(b, x, y) == present(seq![
            first_piece(b, x, y, -1, 0), first_piece(b, x, y, 1, 0),
            first_piece(b, x, y, 0, -1), first_piece(b, x, y, 0, 1),
            first_piece(b, x, y, 1, 1), first_piece(b, x, y, -1, 1),
            first_piece(b, x, y, 1, -1), first_piece(b, x, y, -1, -1)]),
{
    lemma_flag_bits(b[y][x].0);
    let rays = crate::attack::rays_of(b[y][x].0);
    lemma_hits_present(b, x, y, rays);
    assert forall|i: int| 0 <= i < rays.len() implies (#[trigger] rays[i]).repeat && -1 <= rays[i].dx <= 1
        && -1 <= rays[i].dy <= 1 && (rays[i].dx != 0 || rays[i].dy != 0) by {
        if i < 4 {
            assert(rays[i] == crate::attack::rook_rays()[i]);
        } else {
            assert(rays[i] == crate::attack::bishop_rays()[i - 4]);
        }
    }
    lemma_slides(b, x, y, rays);
    assert(rays.map_values(|r: Ray| first_piece(b, x, y, r.dx as int, r.dy as int)) =~= seq![
        first_piece(b, x, y, -1, 0), first_piece(b, x, y, 1, 0),
        first_piece(b, x, y, 0, -1), first_piece(b, x, y, 0, 1),
        first_piece(b, x, y, 1, 1), first_piece(b, x, y, -1, 1),
        first_piece(b, x, y, 1, -1), first_piece(b, x, y, -1, -1)]) by {
        assert(rays[4] == crate::attack::bishop_rays()[0]);
        assert(rays[5] == crate::attack::bishop_rays()[1]);
        assert(rays[6] == crate::attack::bishop_rays()[2]);
        assert(rays[7] == crate::attack::bishop_rays()[3]);
    }
}

} // verus!
