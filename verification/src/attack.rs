use vstd::prelude::*;
use crate::board::{on_board, Board, Cells};
use crate::piece::{lemma_flag_bits, Piece, BISHOP, KING, KNIGHT, PAWN, QUEEN, ROOK, WHITE, WIDTH};

verus! {

/// One direction of attack of a piece: a step `(dx, dy)` in files and
/// ranks, taken once, or again and again (`repeat`) for sliding pieces.
#[derive(Copy, Clone, Debug, PartialEq, Eq, Structural)]
pub struct Ray {
    pub dx: i8,
    pub dy: i8,
    pub repeat: bool,
}

pub open spec fn step(dx: int, dy: int) -> Ray {
    Ray { dx: dx as i8, dy: dy as i8, repeat: false }
}

pub open spec fn slide(dx: int, dy: int) -> Ray {
    Ray { dx: dx as i8, dy: dy as i8, repeat: true }
}

pub open spec fn king_rays() -> Seq<Ray> {
    seq![step(-1, -1), step(-1, 0), step(-1, 1), step(0, -1), step(0, 1), step(1, -1), step(1, 0), step(1, 1)]
}

pub open spec fn rook_rays() -> Seq<Ray> {
    seq![slide(-1, 0), slide(1, 0), slide(0, -1), slide(0, 1)]
}

pub open spec fn bishop_rays() -> Seq<Ray> {
    seq![slide(1, 1), slide(-1, 1), slide(1, -1), slide(-1, -1)]
}

pub open spec fn knight_rays() -> Seq<Ray> {
    seq![step(-1, -2), step(1, -2), step(-2, 1), step(-2, -1), step(2, 1), step(2, -1), step(-1, 2), step(1, 2)]
}

/// The rays along which a cell byte attacks; the first kind flag found, in
/// the order king, queen, rook, bishop, knight, pawn, decides them. A white
/// pawn attacks towards the top rank, a black one towards the bottom.
pub open spec fn rays_of(p: u8) -> Seq<Ray> {
    if p & KING != 0 {
        king_rays()
    } else if p & QUEEN != 0 {
        rook_rays() + bishop_rays()
    } else if p & ROOK != 0 {
        rook_rays()
    } else if p & BISHOP != 0 {
        bishop_rays()
    } else if p & KNIGHT != 0 {
        knight_rays()
    } else if p & PAWN != 0 {
        let dy: int = if p & WHITE != 0 { -1 } else { 1 };
        seq![step(-1, dy), step(1, dy)]
    } else {
        seq![]
    }
}

/// The first occupied cell met along ray `r` from `(x, y)`, looking at most
/// `steps` cells ahead (a ray leaves the board within `WIDTH` steps); `None`
/// when the ray leaves the board, or, for a single step, meets an empty cell.
pub open spec fn ray_hit(b: Cells, x: int, y: int, r: Ray, steps: nat) -> Option<(usize, usize)>
    decreases steps,
{
    let nx = x + r.dx;
    let ny = y + r.dy;
    if steps == 0 || !on_board(nx, ny) {
        None
    } else if !b[ny][nx].empty() {
        Some((nx as usize, ny as usize))
    } else if r.repeat {
        ray_hit(b, nx, ny, r, (steps - 1) as nat)
    } else {
        None
    }
}

/// The cells hit along each ray, in the order of the rays, rays that hit
/// nothing left out.
pub open spec fn hits_of(b: Cells, x: int, y: int, rays: Seq<Ray>) -> Seq<(usize, usize)>
    decreases rays.len(),
{
    if rays.len() == 0 {
        seq![]
    } else {
        let before = hits_of(b, x, y, rays.drop_last());
        match ray_hit(b, x, y, rays.last(), WIDTH as nat) {
            Some(pos) => before.push(pos),
            None => before,
        }
    }
}

/// The positions of the pieces that the piece at `(x, y)` attacks.
pub open spec fn attacked_from(b: Cells, x: int, y: int) -> Seq<(usize, usize)> {
    hits_of(b, x, y, rays_of(b[y][x].0))
}

fn push_step(v: &mut Vec<Ray>, dx: i8, dy: i8)
    ensures
        final(v)@ == old(v)@.push(step(dx as int, dy as int)),
{
    v.push(Ray { dx, dy, repeat: false });
}

fn push_slide(v: &mut Vec<Ray>, dx: i8, dy: i8)
    ensures
        final(v)@ == old(v)@.push(slide(dx as int, dy as int)),
{
    v.push(Ray { dx, dy, repeat: true });
}

impl Piece {
    /// The rays along which the piece attacks.
    pub fn attacked_iters(self) -> (res: Vec<Ray>)
        requires
            self.has_value(),
        ensures
            res@ == rays_of(self.0),
    {
        let mut v: Vec<Ray> = Vec::new();
        if self.0 & KING > 0 {
            push_step(&mut v, -1, -1);
            push_step(&mut v, -1, 0);
            push_step(&mut v, -1, 1);
            push_step(&mut v, 0, -1);
            push_step(&mut v, 0, 1);
            push_step(&mut v, 1, -1);
            push_step(&mut v, 1, 0);
            push_step(&mut v, 1, 1);
        } else if self.0 & QUEEN > 0 {
            push_slide(&mut v, -1, 0);
            push_slide(&mut v, 1, 0);
            push_slide(&mut v, 0, -1);
            push_slide(&mut v, 0, 1);
            push_slide(&mut v, 1, 1);
            push_slide(&mut v, -1, 1);
            push_slide(&mut v, 1, -1);
            push_slide(&mut v, -1, -1);
        } else if self.0 & ROOK > 0 {
            push_slide(&mut v, -1, 0);
            push_slide(&mut v, 1, 0);
            push_slide(&mut v, 0, -1);
            push_slide(&mut v, 0, 1);
        } else if self.0 & BISHOP > 0 {
            push_slide(&mut v, 1, 1);
            push_slide(&mut v, -1, 1);
            push_slide(&mut v, 1, -1);
            push_slide(&mut v, -1, -1);
        } else if self.0 & KNIGHT > 0 {
            push_step(&mut v, -1, -2);
            push_step(&mut v, 1, -2);
            push_step(&mut v, -2, 1);
            push_step(&mut v, -2, -1);
            push_step(&mut v, 2, 1);
            push_step(&mut v, 2, -1);
            push_step(&mut v, -1, 2);
            push_step(&mut v, 1, 2);
        } else if self.0 & PAWN > 0 {
            let dy: i8 = if self.0 & WHITE > 0 { -1 } else { 1 };
            push_step(&mut v, -1, dy);
            push_step(&mut v, 1, dy);
        }
        assert(v@ =~= rays_of(self.0));
        v
    }

    /// Find positions of pieces that are attacked on the board by this piece.
    ///
    /// The board and the position of the current piece must be given.
    pub fn attacked_pieces(self, board: &Board, pos: (usize, usize)) -> (res: Vec<(usize, usize)>)
        requires
            on_board(pos.0 as int, pos.1 as int),
            board.at(pos.0 as int, pos.1 as int) == self,
            self.has_value(),
        ensures
            res@ == attacked_from(board@, pos.0 as int, pos.1 as int),
    {
        let rays = self.attacked_iters();
        let mut res: Vec<(usize, usize)> = Vec::new();
        let mut i: usize = 0;
        assert(board@[pos.1 as int][pos.0 as int] == self);
        assert(rays@.take(0) =~= Seq::<Ray>::empty());
        while i < rays.len()
            invariant
                i <= rays@.len(),
                on_board(pos.0 as int, pos.1 as int),
                rays@ == rays_of(board@[pos.1 as int][pos.0 as int].0),
                res@ == hits_of(board@, pos.0 as int, pos.1 as int, rays@.take(i as int)),
            decreases rays@.len() - i,
        {
            let r = rays[i];
            let hit = first_hit(board, pos.0, pos.1, r);
            assert(rays@.take(i + 1).drop_last() =~= rays@.take(i as int));
            assert(rays@.take(i + 1).last() == r);
            match hit {
                Some(p) => res.push(p),
                None => {},
            }
            i = i + 1;
        }
        assert(rays@.take(i as int) =~= rays@);
        res
    }
}

/// Walks along ray `r` from `(x, y)` to the first occupied cell.
fn first_hit(board: &Board, x: usize, y: usize, r: Ray) -> (res: Option<(usize, usize)>)
    requires
        on_board(x as int, y as int),
    ensures
        res == ray_hit(board@, x as int, y as int, r, WIDTH as nat),
{
    let mut cx: i64 = x as i64;
    let mut cy: i64 = y as i64;
    let mut steps: usize = WIDTH;
    loop
        invariant
            on_board(cx as int, cy as int),
            steps <= WIDTH,
            ray_hit(board@, cx as int, cy as int, r, steps as nat)
                == ray_hit(board@, x as int, y as int, r, WIDTH as nat),
        decreases steps,
    {
        let nx = cx + r.dx as i64;
        let ny = cy + r.dy as i64;
        if steps == 0 || nx < 0 || ny < 0 || nx >= WIDTH as i64 || ny >= 8 {
            return None;
        }
        let p = board.board[ny as usize][nx as usize];
        if !p.is_empty() {
            return Some((nx as usize, ny as usize));
        }
        if !r.repeat {
            return None;
        }
        cx = nx;
        cy = ny;
        steps = steps - 1;
    }
}

} // verus!
