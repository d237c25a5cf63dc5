use vstd::prelude::*;
use crate::piece::{fen_char_of, fen_code, is_fen_piece_char, lemma_flag_bits, value_of, Piece, BLACK, HEIGHT, WHITE, WIDTH};
use crate::text::{char_to_digit, chars_of, decimal, digit_value, is_digit, push_decimal, string_from_chars};

verus! {

/// Target sums per rank, from the top rank down: `(sum white, sum black)`.
pub type RankTable = [(usize, usize); HEIGHT];
/// Target sums per file, from the left file on: `(sum white, sum black)`.
pub type FileTable = [(usize, usize); WIDTH];

/// The double-width board; `board[y][x]` is the cell of rank `y` (0 at the
/// top) and file `x`.
#[derive(Copy, Clone, Hash, Eq, PartialEq)]
pub struct Board {
    pub board: [[Piece; WIDTH]; HEIGHT],
}

/// The cells of a board as rows of pieces.
pub type Cells = Seq<Seq<Piece>>;

impl View for Board {
    type V = Cells;

    open spec fn view(&self) -> Cells {
        Seq::new(HEIGHT as nat, |y: int| self.board@[y]@)
    }
}

/// The board with no piece on it.
pub open spec fn empty_cells() -> Cells {
    Seq::new(HEIGHT as nat, |y: int| Seq::new(WIDTH as nat, |x: int| Piece(0)))
}

/// `cells` with the cell at file `x` and rank `y` set to `p`.
pub open spec fn set_cell(cells: Cells, x: int, y: int, p: Piece) -> Cells {
    cells.update(y, cells[y].update(x, p))
}

/// The position lies on the board.
pub open spec fn on_board(x: int, y: int) -> bool {
    0 <= x < WIDTH && 0 <= y < HEIGHT
}

/// The rows have the board's shape.
pub open spec fn shaped(cells: Cells) -> bool {
    &&& cells.len() == HEIGHT
    &&& forall|y: int| 0 <= y < HEIGHT ==> #[trigger] cells[y].len() == WIDTH
}

/// Reads a board in the double-width FEN of this project, character by
/// character from index `i`, with the cursor at file `x` of rank `y`:
/// `/` starts the next rank, a piece letter fills the cursor's cell and moves
/// it right, and one or two digits move it right by their number. `None`
/// where the text holds another character or puts a piece off the board.
pub open spec fn parse_fen(s: Seq<char>, i: nat, x: int, y: int, cells: Cells) -> Option<Cells>
    decreases s.len() - i,
{
    if i >= s.len() {
        Some(cells)
    } else {
        let c = s[i as int];
        if c == '/' {
            parse_fen(s, i + 1, 0, y + 1, cells)
        } else if is_fen_piece_char(c) {
            if on_board(x, y) {
                parse_fen(s, i + 1, x + 1, y, set_cell(cells, x, y, Piece(fen_code(c))))
            } else {
                None
            }
        } else if is_digit(c) {
            if i + 1 < s.len() && is_digit(s[i + 1 as int]) {
                parse_fen(s, i + 2, x + 10 * digit_value(c) + digit_value(s[i + 1 as int]), y, cells)
            } else {
                parse_fen(s, i + 1, x + digit_value(c), y, cells)
            }
        } else {
            None
        }
    }
}

/// The board that a FEN text describes, if it is one this project reads.
pub open spec fn board_of_fen(s: Seq<char>) -> Option<Cells> {
    parse_fen(s, 0, 0, 0, empty_cells())
}

/// Number of empty cells at the start of `rank`.
pub open spec fn leading_empty(rank: Seq<Piece>) -> nat
    decreases rank.len(),
{
    if rank.len() == 0 || !rank[0].empty() {
        0
    } else {
        1 + leading_empty(rank.drop_first())
    }
}

pub proof fn lemma_leading_empty_bounds(rank: Seq<Piece>)
    ensures
        leading_empty(rank) <= rank.len(),
        rank.len() > 0 && rank[0].empty() ==> leading_empty(rank) >= 1,
    decreases rank.len(),
{
    if rank.len() > 0 && rank[0].empty() {
        lemma_leading_empty_bounds(rank.drop_first());
    }
}

/// A run of exactly `k` empty cells opens `rank`.
pub proof fn lemma_leading_empty_run(rank: Seq<Piece>, k: nat)
    requires
        k <= rank.len(),
        forall|t: int| 0 <= t < k ==> #[trigger] rank[t].empty(),
        k == rank.len() || !rank[k as int].empty(),
    ensures
        leading_empty(rank) == k,
    decreases k,
{
    if k > 0 {
        lemma_leading_empty_run(rank.drop_first(), (k - 1) as nat);
    }
}

/// FEN of one rank: each piece as its letter, each maximal run of empty
/// cells as its length in decimal.
pub open spec fn rank_fen_of(rank: Seq<Piece>) -> Seq<char>
    decreases rank.len(),
{
    if rank.len() == 0 {
        seq![]
    } else if !rank[0].empty() {
        seq![fen_char_of(rank[0].0)] + rank_fen_of(rank.drop_first())
    } else {
        proof { lemma_leading_empty_bounds(rank); }
        decimal(leading_empty(rank)) + rank_fen_of(rank.skip(leading_empty(rank) as int))
    }
}

/// FEN of rows: the FEN of each rank, joined by `/`.
pub open spec fn rows_fen_of(rows: Seq<Seq<Piece>>) -> Seq<char>
    decreases rows.len(),
{
    if rows.len() == 0 {
        seq![]
    } else if rows.len() == 1 {
        rank_fen_of(rows[0])
    } else {
        rows_fen_of(rows.drop_last()) + seq!['/'] + rank_fen_of(rows.last())
    }
}

/// Every piece of the sequence is empty or one of the twelve pieces.
pub open spec fn all_well_formed(rank: Seq<Piece>) -> bool {
    forall|i: int| 0 <= i < rank.len() ==> #[trigger] rank[i].well_formed()
}

/// Appends the FEN of `rank[lo..hi]` to `out`.
fn push_rank_fen(out: &mut Vec<char>, rank: &[Piece], lo: usize, hi: usize)
    requires
        lo <= hi <= rank@.len(),
        all_well_formed(rank@.subrange(lo as int, hi as int)),
    ensures
        final(out)@ == old(out)@ + rank_fen_of(rank@.subrange(lo as int, hi as int)),
{
    let ghost part = rank@.subrange(lo as int, hi as int);
    let ghost start = out@;
    let mut i: usize = lo;
    assert(part.skip(0) =~= part);
    while i < hi
        invariant
            lo <= i <= hi <= rank@.len(),
            part == rank@.subrange(lo as int, hi as int),
            all_well_formed(part),
            out@ + rank_fen_of(part.skip(i - lo)) == start + rank_fen_of(part),
        decreases hi - i,
    {
        let ghost rest = part.skip(i - lo);
        assert(rest.drop_first() =~= part.skip(i + 1 - lo));
        assert(rest[0] == rank@[i as int]);
        let p = rank[i];
        if !p.is_empty() {
            assert(part[i - lo].well_formed());
            let c = match p.to_fen() {
                Some(c) => c,
                None => ' ',
            };
            out.push(c);
            i = i + 1;
            assert(out@ + rank_fen_of(part.skip(i - lo)) =~= start + rank_fen_of(part));
        } else {
            // Find how many empty
            let mut j: usize = i;
            while j < hi && rank[j].is_empty()
                invariant
                    lo <= i <= j <= hi <= rank@.len(),
                    forall|t: int| i <= t < j ==> #[trigger] rank@[t].empty(),
                decreases hi - j,
            {
                j = j + 1;
            }
            let empty = j - i;
            proof {
                assert forall|t: int| 0 <= t < empty implies #[trigger] rest[t].empty() by {
                    assert(rest[t] == rank@[i + t]);
                }
                if j < hi {
                    assert(rest[empty as int] == rank@[j as int]);
                }
                lemma_leading_empty_run(rest, empty as nat);
                assert(rest.skip(empty as int) =~= part.skip(j - lo));
            }
            push_decimal(out, empty);
            i = i + empty;
            assert(out@ + rank_fen_of(part.skip(i - lo)) =~= start + rank_fen_of(part));
        }
    }
    assert(part.skip(hi - lo) =~= Seq::<Piece>::empty());
}

/// Generates the FEN of a single rank.
pub fn rank_fen(rank: &[Piece]) -> (res: String)
    requires
        all_well_formed(rank@),
    ensures
        res@ == rank_fen_of(rank@),
{
    let mut out: Vec<char> = Vec::new();
    assert(rank@.subrange(0, rank@.len() as int) =~= rank@);
    push_rank_fen(&mut out, rank, 0, rank.len());
    assert(out@ =~= rank_fen_of(rank@));
    string_from_chars(&out)
}

/// FEN of the files `lo..hi` of every rank, ranks joined by `/`.
pub open spec fn board_fen_of(cells: Cells, lo: int, hi: int) -> Seq<char> {
    rows_fen_of(Seq::new(cells.len(), |y: int| cells[y].subrange(lo, hi)))
}

/// The piece carries the flag of the side: white when `white`, else black.
pub open spec fn has_colour(p: Piece, white: bool) -> bool {
    if white { p.0 & WHITE != 0 } else { p.0 & BLACK != 0 }
}

/// Sum of the values of the pieces of one side among `cells`.
pub open spec fn side_sum(cells: Seq<Piece>, white: bool) -> nat
    decreases cells.len(),
{
    if cells.len() == 0 {
        0
    } else {
        side_sum(cells.drop_last(), white) + if has_colour(cells.last(), white) {
            value_of(cells.last().0)
        } else {
            0
        }
    }
}

pub proof fn lemma_side_sum_bound(cells: Seq<Piece>, white: bool)
    ensures
        side_sum(cells, white) <= 9 * cells.len(),
    decreases cells.len(),
{
    if cells.len() > 0 {
        lemma_side_sum_bound(cells.drop_last(), white);
    }
}

/// The cells of file `x`, from the top rank down.
pub open spec fn file_cells(cells: Cells, x: int) -> Seq<Piece> {
    Seq::new(cells.len(), |y: int| cells[y][x])
}

/// `(white sum, black sum)` of rank `y`.
pub open spec fn rank_sums(cells: Cells, y: int) -> (nat, nat) {
    (side_sum(cells[y], true), side_sum(cells[y], false))
}

/// `(white sum, black sum)` of file `x`.
pub open spec fn file_sums(cells: Cells, x: int) -> (nat, nat) {
    (side_sum(file_cells(cells, x), true), side_sum(file_cells(cells, x), false))
}

/// Every rank and file sum equals its target.
pub open spec fn targets_met(cells: Cells, ranks: Seq<(usize, usize)>, files: Seq<(usize, usize)>) -> bool {
    &&& forall|y: int| 0 <= y < HEIGHT ==> #[trigger] rank_sums(cells, y) == (ranks[y].0 as nat, ranks[y].1 as nat)
    &&& forall|x: int| 0 <= x < WIDTH ==> #[trigger] file_sums(cells, x) == (files[x].0 as nat, files[x].1 as nat)
}

/// No rank or file sum exceeds its target.
pub open spec fn within_targets(cells: Cells, ranks: Seq<(usize, usize)>, files: Seq<(usize, usize)>) -> bool {
    &&& forall|y: int| 0 <= y < HEIGHT ==> #[trigger] rank_sums(cells, y).0 <= ranks[y].0
        && rank_sums(cells, y).1 <= ranks[y].1
    &&& forall|x: int| 0 <= x < WIDTH ==> #[trigger] file_sums(cells, x).0 <= files[x].0
        && file_sums(cells, x).1 <= files[x].1
}

/// Sums of both sides over `cells`, by a loop.
fn sums_of(cells: &Vec<Piece>) -> (res: (usize, usize))
    requires
        cells@.len() <= 16,
        forall|i: int| 0 <= i < cells@.len() ==> #[trigger] cells@[i].has_value(),
    ensures
        res.0 == side_sum(cells@, true),
        res.1 == side_sum(cells@, false),
{
    let mut white: usize = 0;
    let mut black: usize = 0;
    let mut i: usize = 0;
    while i < cells.len()
        invariant
            i <= cells@.len() <= 16,
            forall|i: int| 0 <= i < cells@.len() ==> #[trigger] cells@[i].has_value(),
            white == side_sum(cells@.take(i as int), true),
            black == side_sum(cells@.take(i as int), false),
        decreases cells@.len() - i,
    {
        let p = cells[i];
        proof {
            assert(cells@.take(i + 1).drop_last() =~= cells@.take(i as int));
            lemma_side_sum_bound(cells@.take(i as int), true);
            lemma_side_sum_bound(cells@.take(i as int), false);
        }
        if p.0 & WHITE > 0 {
            white = white + p.value();
        }
        if p.0 & BLACK > 0 {
            black = black + p.value();
        }
        i = i + 1;
    }
    assert(cells@.take(i as int) =~= cells@);
    (white, black)
}

/// Every cell as `((file, rank), piece)`, rank by rank from the top, each
/// rank from the left file on.
pub open spec fn cell_list(cells: Cells) -> Seq<((usize, usize), Piece)> {
    Seq::new((WIDTH * HEIGHT) as nat, |i: int|
        (((i % (WIDTH as int)) as usize, (i / (WIDTH as int)) as usize), cells[i / (WIDTH as int)][i % (WIDTH as int)]))
}

/// The entries of `cell_list` whose cell holds a piece.
pub open spec fn piece_list(cells: Cells) -> Seq<((usize, usize), Piece)> {
    cell_list(cells).filter(|e: ((usize, usize), Piece)| !e.1.empty())
}

impl Default for Board {
    fn default() -> (res: Board)
        ensures
            res@ == empty_cells(),
    {
        let row: [Piece; WIDTH] = [Piece(0); WIDTH];
        let res = Board { board: [row; HEIGHT] };
        assert(res@ =~= empty_cells()) by {
            assert forall|y: int| 0 <= y < HEIGHT implies #[trigger] res@[y] =~= empty_cells()[y] by {}
        }
        res
    }
}

impl Board {
    /// The piece at file `x`, rank `y`.
    pub open spec fn at(self, x: int, y: int) -> Piece {
        self.board@[y]@[x]
    }

    /// Every cell is empty or holds one of the twelve pieces.
    pub open spec fn well_formed(self) -> bool {
        forall|x: int, y: int| on_board(x, y) ==> #[trigger] self.at(x, y).well_formed()
    }

    pub proof fn lemma_well_formed(self)
        requires
            self.well_formed(),
        ensures
            self.has_values(),
            shaped(self@),
    {
        assert forall|x: int, y: int| on_board(x, y) implies #[trigger] self.at(x, y).has_value() by {
            crate::piece::lemma_well_formed_value(self.at(x, y));
        }
    }

    /// Every cell has a material value.
    pub open spec fn has_values(self) -> bool {
        forall|x: int, y: int| on_board(x, y) ==> #[trigger] self.at(x, y).has_value()
    }

    /// FEN of the files `lo..hi` of the board.
    fn columns_fen(&self, lo: usize, hi: usize) -> (res: String)
        requires
            lo <= hi <= WIDTH,
            self.well_formed(),
        ensures
            res@ == board_fen_of(self@, lo as int, hi as int),
    {
        let ghost rows = Seq::new(self@.len(), |y: int| self@[y].subrange(lo as int, hi as int));
        let mut out: Vec<char> = Vec::new();
        let mut y: usize = 0;
        assert(rows.take(0) =~= Seq::<Seq<Piece>>::empty());
        while y < HEIGHT
            invariant
                y <= HEIGHT,
                lo <= hi <= WIDTH,
                self.well_formed(),
                rows == Seq::new(self@.len(), |y: int| self@[y].subrange(lo as int, hi as int)),
                out@ == rows_fen_of(rows.take(y as int)),
            decreases HEIGHT - y,
        {
            let ghost before = out@;
            if y > 0 {
                out.push('/');
            }
            let row: &[Piece] = self.board[y].as_slice();
            assert(row@ == self@[y as int]);
            assert forall|i: int| 0 <= i < row@.subrange(lo as int, hi as int).len() implies
                #[trigger] row@.subrange(lo as int, hi as int)[i].well_formed() by {
                assert(row@.subrange(lo as int, hi as int)[i] == self.at(lo + i, y as int));
            }
            push_rank_fen(&mut out, row, lo, hi);
            assert(rows.take(y + 1).drop_last() =~= rows.take(y as int));
            assert(rows.take(y + 1).last() == rows[y as int]);
            y = y + 1;
            assert(out@ =~= rows_fen_of(rows.take(y as int)));
        }
        assert(rows.take(HEIGHT as int) =~= rows);
        string_from_chars(&out)
    }

    /// FEN of the whole board.
    pub fn to_fen(self) -> (res: String)
        requires
            self.well_formed(),
        ensures
            res@ == board_fen_of(self@, 0, WIDTH as int),
    {
        self.columns_fen(0, WIDTH)
    }

    /// FEN of the left and of the right 8x8 board.
    pub fn to_fen_left_right(self) -> (res: (String, String))
        requires
            self.well_formed(),
        ensures
            res.0@ == board_fen_of(self@, 0, (WIDTH / 2) as int),
            res.1@ == board_fen_of(self@, (WIDTH / 2) as int, WIDTH as int),
    {
        (self.columns_fen(0, WIDTH / 2), self.columns_fen(WIDTH / 2, WIDTH))
    }

    /// The piece at `pos = (file, rank)`, `None` off the board.
    pub fn get(&self, pos: (usize, usize)) -> (res: Option<&Piece>)
        ensures
            on_board(pos.0 as int, pos.1 as int) ==> res == Some(&self.at(pos.0 as int, pos.1 as int)),
            !on_board(pos.0 as int, pos.1 as int) ==> res is None,
    {
        if pos.1 < HEIGHT && pos.0 < WIDTH {
            Some(&self.board[pos.1][pos.0])
        } else {
            None
        }
    }

    /// The piece at `pos = (file, rank)`, which must lie on the board.
    pub fn index(&self, pos: (usize, usize)) -> (res: &Piece)
        requires
            on_board(pos.0 as int, pos.1 as int),
        ensures
            *res == self.at(pos.0 as int, pos.1 as int),
    {
        match self.get(pos) {
            Some(p) => p,
            None => &self.board[0][0],
        }
    }

    /// The pieces of rank `rank`, from the left file on.
    fn rank_cells(&self, rank: usize) -> (res: Vec<Piece>)
        requires
            rank < HEIGHT,
        ensures
            res@ == self@[rank as int],
    {
        let mut res: Vec<Piece> = Vec::new();
        let mut x: usize = 0;
        while x < WIDTH
            invariant
                rank < HEIGHT,
                x <= WIDTH,
                res@ == self@[rank as int].take(x as int),
            decreases WIDTH - x,
        {
            res.push(self.board[rank][x]);
            x = x + 1;
            assert(res@ =~= self@[rank as int].take(x as int));
        }
        assert(self@[rank as int].take(WIDTH as int) =~= self@[rank as int]);
        res
    }

    /// The pieces of file `file`, from the top rank down.
    fn file_cells(&self, file: usize) -> (res: Vec<Piece>)
        requires
            file < WIDTH,
        ensures
            res@ == file_cells(self@, file as int),
    {
        let mut res: Vec<Piece> = Vec::new();
        let mut y: usize = 0;
        while y < HEIGHT
            invariant
                file < WIDTH,
                y <= HEIGHT,
                res@ == file_cells(self@, file as int).take(y as int),
            decreases HEIGHT - y,
        {
            res.push(self.board[y][file]);
            y = y + 1;
            assert(res@ =~= file_cells(self@, file as int).take(y as int));
        }
        assert(file_cells(self@, file as int).take(HEIGHT as int) =~= file_cells(self@, file as int));
        res
    }

    /// Sum of rank values, `(white, black)`.
    pub fn rank_score(&self, rank: usize) -> (res: (usize, usize))
        requires
            rank < HEIGHT,
            forall|x: int| 0 <= x < WIDTH ==> #[trigger] self.at(x, rank as int).has_value(),
        ensures
            (res.0 as nat, res.1 as nat) == rank_sums(self@, rank as int),
    {
        let cells = self.rank_cells(rank);
        assert forall|i: int| 0 <= i < cells@.len() implies #[trigger] cells@[i].has_value() by {
            assert(cells@[i] == self.at(i, rank as int));
        }
        sums_of(&cells)
    }

    /// Sum of file values, `(white, black)`.
    pub fn file_score(&self, file: usize) -> (res: (usize, usize))
        requires
            file < WIDTH,
            forall|y: int| 0 <= y < HEIGHT ==> #[trigger] self.at(file as int, y).has_value(),
        ensures
            (res.0 as nat, res.1 as nat) == file_sums(self@, file as int),
    {
        let cells = self.file_cells(file);
        assert forall|i: int| 0 <= i < cells@.len() implies #[trigger] cells@[i].has_value() by {
            assert(cells@[i] == self.at(file as int, i));
        }
        sums_of(&cells)
    }

    /// Whether every rank and file sum equals its target.
    pub fn matches_target(&self, ranks: RankTable, files: FileTable) -> (res: bool)
        requires
            self.has_values(),
        ensures
            res == targets_met(self@, ranks@, files@),
    {
        let mut y: usize = 0;
        while y < HEIGHT
            invariant
                y <= HEIGHT,
                self.has_values(),
                forall|r: int| 0 <= r < y ==> #[trigger] rank_sums(self@, r) == (ranks@[r].0 as nat, ranks@[r].1 as nat),
            decreases HEIGHT - y,
        {
            let (white, black) = self.rank_score(y);
            if !(white == ranks[y].0 && black == ranks[y].1) {
                return false;
            }
            y = y + 1;
        }
        let mut x: usize = 0;
        while x < WIDTH
            invariant
                x <= WIDTH,
                self.has_values(),
                forall|r: int| 0 <= r < HEIGHT ==> #[trigger] rank_sums(self@, r) == (ranks@[r].0 as nat, ranks@[r].1 as nat),
                forall|f: int| 0 <= f < x ==> #[trigger] file_sums(self@, f) == (files@[f].0 as nat, files@[f].1 as nat),
            decreases WIDTH - x,
        {
            let (white, black) = self.file_score(x);
            if !(white == files[x].0 && black == files[x].1) {
                return false;
            }
            x = x + 1;
        }
        true
    }

    /// What each rank and file still lacks to reach its target:
    /// target minus sum, `(white, black)`.
    pub fn target_diff(&self, ranks: RankTable, files: FileTable) -> (res: (RankTable, FileTable))
        requires
            self.has_values(),
            within_targets(self@, ranks@, files@),
        ensures
            forall|y: int| 0 <= y < HEIGHT ==> #[trigger] res.0@[y] == (
                (ranks@[y].0 - rank_sums(self@, y).0) as usize,
                (ranks@[y].1 - rank_sums(self@, y).1) as usize),
            forall|x: int| 0 <= x < WIDTH ==> #[trigger] res.1@[x] == (
                (files@[x].0 - file_sums(self@, x).0) as usize,
                (files@[x].1 - file_sums(self@, x).1) as usize),
    {
        let mut ranks_diff = ranks;
        let mut files_diff = files;
        let mut y: usize = 0;
        while y < HEIGHT
            invariant
                y <= HEIGHT,
                self.has_values(),
                within_targets(self@, ranks@, files@),
                forall|r: int| 0 <= r < y ==> #[trigger] ranks_diff@[r] == (
                    (ranks@[r].0 - rank_sums(self@, r).0) as usize,
                    (ranks@[r].1 - rank_sums(self@, r).1) as usize),
            decreases HEIGHT - y,
        {
            let (white, black) = self.rank_score(y);
            let target = ranks[y];
            ranks_diff[y] = (target.0 - white, target.1 - black);
            y = y + 1;
        }
        let mut x: usize = 0;
        while x < WIDTH
            invariant
                x <= WIDTH,
                self.has_values(),
                within_targets(self@, ranks@, files@),
                forall|f: int| 0 <= f < x ==> #[trigger] files_diff@[f] == (
                    (files@[f].0 - file_sums(self@, f).0) as usize,
                    (files@[f].1 - file_sums(self@, f).1) as usize),
            decreases WIDTH - x,
        {
            let (white, black) = self.file_score(x);
            let target = files[x];
            files_diff[x] = (target.0 - white, target.1 - black);
            x = x + 1;
        }
        (ranks_diff, files_diff)
    }

    /// Every cell with its position, rank by rank from the top.
    pub fn iter(&self) -> (res: Vec<((usize, usize), Piece)>)
        ensures
            res@ == cell_list(self@),
    {
        let mut res: Vec<((usize, usize), Piece)> = Vec::new();
        let mut y: usize = 0;
        while y < HEIGHT
            invariant
                y <= HEIGHT,
                res@ == cell_list(self@).take((y * WIDTH) as int),
            decreases HEIGHT - y,
        {
            let mut x: usize = 0;
            while x < WIDTH
                invariant
                    y < HEIGHT,
                    x <= WIDTH,
                    res@ == cell_list(self@).take((y * WIDTH + x) as int),
                decreases WIDTH - x,
            {
                res.push(((x, y), self.board[y][x]));
                proof {
                    let i = (y * WIDTH + x) as int;
                    let (yi, xi) = (y as int, x as int);
                    assert(i / 16 == yi && i % 16 == xi) by (nonlinear_arith)
                        requires i == yi * 16 + xi, 0 <= xi < 16, 0 <= yi;
                }
                x = x + 1;
                assert(res@ =~= cell_list(self@).take((y * WIDTH + x) as int));
            }
            assert(y * WIDTH + WIDTH == (y + 1) * WIDTH) by (nonlinear_arith);
            y = y + 1;
        }
        assert(cell_list(self@).take((HEIGHT * WIDTH) as int) =~= cell_list(self@));
        res
    }

    /// Every cell that holds a piece, with its position, rank by rank from
    /// the top.
    pub fn iter_pieces(&self) -> (res: Vec<((usize, usize), Piece)>)
        ensures
            res@ == piece_list(self@),
    {
        let all = self.iter();
        let ghost pred = |e: ((usize, usize), Piece)| !e.1.empty();
        let mut res: Vec<((usize, usize), Piece)> = Vec::new();
        let mut i: usize = 0;
        assert(all@.take(0).filter(pred) =~= Seq::<((usize, usize), Piece)>::empty()) by {
            reveal_with_fuel(Seq::<_>::filter, 1);
        }
        while i < all.len()
            invariant
                i <= all@.len(),
                all@ == cell_list(self@),
                pred == (|e: ((usize, usize), Piece)| !e.1.empty()),
                res@ == all@.take(i as int).filter(pred),
            decreases all@.len() - i,
        {
            let e = all[i];
            proof {
                reveal_with_fuel(Seq::<_>::filter, 1);
                assert(all@.take(i + 1).drop_last() =~= all@.take(i as int));
            }
            if !e.1.is_empty() {
                res.push(e);
            }
            i = i + 1;
        }
        assert(all@.take(all@.len() as int) =~= all@);
        res
    }

    /// Writes `p` at file `x`, rank `y`.
    pub fn set(&mut self, x: usize, y: usize, p: Piece)
        requires
            on_board(x as int, y as int),
        ensures
            final(self)@ == set_cell(old(self)@, x as int, y as int, p),
    {
        let mut row = self.board[y];
        row[x] = p;
        self.board[y] = row;
        assert(self@ =~= set_cell(old(self)@, x as int, y as int, p)) by {
            assert forall|r: int| 0 <= r < HEIGHT implies #[trigger] self@[r] =~= set_cell(old(self)@, x as int, y as int, p)[r] by {}
        }
    }

    /// Whether every cell is empty or holds one of the twelve pieces.
    pub fn is_well_formed(&self) -> (res: bool)
        ensures
            res == self.well_formed(),
    {
        let mut y: usize = 0;
        while y < HEIGHT
            invariant
                y <= HEIGHT,
                forall|xx: int, yy: int| on_board(xx, yy) && yy < y ==> #[trigger] self.at(xx, yy).well_formed(),
            decreases HEIGHT - y,
        {
            let mut x: usize = 0;
            while x < WIDTH
                invariant
                    y < HEIGHT,
                    x <= WIDTH,
                    forall|xx: int, yy: int| on_board(xx, yy) && (yy < y || (yy == y && xx < x))
                        ==> #[trigger] self.at(xx, yy).well_formed(),
                decreases WIDTH - x,
            {
                let c = self.board[y][x].0;
                if !(c == 0 || c == 5 || c == 9 || c == 17 || c == 33 || c == 65 || c == 129
                    || c == 6 || c == 10 || c == 18 || c == 34 || c == 66 || c == 130) {
                    assert(!self.at(x as int, y as int).well_formed());
                    return false;
                }
                x = x + 1;
            }
            y = y + 1;
        }
        true
    }

    /// Whether no rank or file sum exceeds its target.
    pub fn is_within(&self, ranks: RankTable, files: FileTable) -> (res: bool)
        requires
            self.has_values(),
        ensures
            res == within_targets(self@, ranks@, files@),
    {
        let mut y: usize = 0;
        while y < HEIGHT
            invariant
                y <= HEIGHT,
                self.has_values(),
                forall|r: int| 0 <= r < y ==> #[trigger] rank_sums(self@, r).0 <= ranks@[r].0
                    && rank_sums(self@, r).1 <= ranks@[r].1,
            decreases HEIGHT - y,
        {
            let (white, black) = self.rank_score(y);
            if !(white <= ranks[y].0 && black <= ranks[y].1) {
                return false;
            }
            y = y + 1;
        }
        let mut x: usize = 0;
        while x < WIDTH
            invariant
                x <= WIDTH,
                self.has_values(),
                forall|r: int| 0 <= r < HEIGHT ==> #[trigger] rank_sums(self@, r).0 <= ranks@[r].0
                    && rank_sums(self@, r).1 <= ranks@[r].1,
                forall|f: int| 0 <= f < x ==> #[trigger] file_sums(self@, f).0 <= files@[f].0
                    && file_sums(self@, f).1 <= files@[f].1,
            decreases WIDTH - x,
        {
            let (white, black) = self.file_score(x);
            if !(white <= files[x].0 && black <= files[x].1) {
                return false;
            }
            x = x + 1;
        }
        true
    }

    /// Reads a board in the double-width FEN of this project (ranks from the
    /// top, separated by `/`; piece letters; runs of empty cells as one or
    /// two digits); `None` where the text is not such a FEN.
    pub fn read_fen(fen: &str) -> (res: Option<Board>)
        ensures
            res is Some <==> board_of_fen(fen@) is Some,
            res matches Some(b) ==> b@ == board_of_fen(fen@)->0,
    {
        let s = chars_of(fen);
        let n = s.len();
        let mut board = Board::default();
        let mut i: usize = 0;
        let mut x: usize = 0;
        let mut y: usize = 0;
        while i < n
            invariant
                n == s@.len(),
                s@ == fen@,
                i <= n,
                x <= WIDTH,
                y <= i,
                shaped(board@),
                parse_fen(s@, i as nat, x as int, y as int, board@) == board_of_fen(fen@),
            decreases n - i,
        {
            let c = s[i];
            if c == '/' {
                y = y + 1;
                x = 0;
                i = i + 1;
            } else if c == 'K' || c == 'Q' || c == 'R' || c == 'B' || c == 'N' || c == 'P'
                || c == 'k' || c == 'q' || c == 'r' || c == 'b' || c == 'n' || c == 'p' {
                if x >= WIDTH || y >= HEIGHT {
                    return None;
                }
                board.set(x, y, Piece::from_fen(c));
                x = x + 1;
                i = i + 1;
            } else if '0' <= c && c <= '9' {
                let d = char_to_digit(c);
                let step: usize;
                if i + 1 < n && '0' <= s[i + 1] && s[i + 1] <= '9' {
                    let e = char_to_digit(s[i + 1]);
                    step = 10 * d + e;
                    i = i + 2;
                } else {
                    step = d;
                    i = i + 1;
                }
                if step >= WIDTH - x {
                    proof {
                        lemma_parse_fen_off_rank(s@, i as nat, (x + step) as int, WIDTH as int, y as int, board@);
                    }
                    x = WIDTH;
                } else {
                    x = x + step;
                }
            } else {
                return None;
            }
        }
        Some(board)
    }

    /// Reads a board in the double-width FEN of this project (see
    /// `read_fen`), which must be one.
    pub fn from_fen(fen: &str) -> (res: Board)
        requires
            board_of_fen(fen@) is Some,
        ensures
            res@ == board_of_fen(fen@)->0,
    {
        match Board::read_fen(fen) {
            Some(b) => b,
            None => Board::default(),
        }
    }
}

/// Past the right edge of a rank, how far past makes no difference.
pub proof fn lemma_parse_fen_off_rank(s: Seq<char>, i: nat, x1: int, x2: int, y: int, cells: Cells)
    requires
        x1 >= WIDTH,
        x2 >= WIDTH,
    ensures
        parse_fen(s, i, x1, y, cells) == parse_fen(s, i, x2, y, cells),
    decreases s.len() - i,
{
    if i < s.len() {
        let c = s[i as int];
        if c != '/' && !is_fen_piece_char(c) && is_digit(c) {
            if i + 1 < s.len() && is_digit(s[i + 1 as int]) {
                let step = 10 * digit_value(c) + digit_value(s[i + 1 as int]);
                lemma_parse_fen_off_rank(s, i + 2, x1 + step, x2 + step, y, cells);
            } else {
                lemma_parse_fen_off_rank(s, i + 1, x1 + digit_value(c), x2 + digit_value(c), y, cells);
            }
        }
    }
}

} // verus!
