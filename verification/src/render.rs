use vstd::prelude::*;
use crate::board::{board_fen_of, on_board, Board, Cells};
use crate::piece::{formatted, Piece, HEIGHT, WIDTH};
use crate::piece_set::PieceSet;
use crate::text::{chars_of, digit_char, digit_to_char, string_from_chars};

verus! {

/// Cell texts one after the other, each followed by a space.
pub open spec fn cells_text(texts: Seq<Seq<char>>) -> Seq<char>
    decreases texts.len(),
{
    if texts.len() == 0 {
        seq![]
    } else {
        cells_text(texts.drop_last()) + texts.last() + seq![' ']
    }
}

/// The line of rank `y` (counted from the top): its number, then its cells.
pub open spec fn rank_line(y: int, texts: Seq<Seq<char>>) -> Seq<char> {
    seq![' ', digit_char((HEIGHT - y) as nat), ' '] + cells_text(texts) + seq!['\n']
}

/// The lines of the first `n` ranks.
pub open spec fn ranks_text(texts: Seq<Seq<Seq<char>>>, n: int) -> Seq<char>
    decreases n,
{
    if n <= 0 {
        seq![]
    } else {
        ranks_text(texts, n - 1) + rank_line(n - 1, texts[n - 1])
    }
}

proof fn lemma_ranks_text_prefix(t1: Seq<Seq<Seq<char>>>, t2: Seq<Seq<Seq<char>>>, n: int)
    requires
        forall|r: int| 0 <= r < n ==> t1[r] == t2[r],
    ensures
        ranks_text(t1, n) == ranks_text(t2, n),
    decreases n,
{
    if n > 0 {
        lemma_ranks_text_prefix(t1, t2, n - 1);
    }
}

/// The letters of the first `n` files, each followed by a space.
pub open spec fn file_letters(n: int) -> Seq<char>
    decreases n,
{
    if n <= 0 {
        seq![]
    } else {
        file_letters(n - 1) + seq![(97 + n - 1) as char, ' ']
    }
}

/// `texts[y][x]` is what `Piece::format` may give for the cell of file `x`
/// and rank `y`.
pub open spec fn painted(cells: Cells, texts: Seq<Seq<Seq<char>>>) -> bool {
    &&& texts.len() == HEIGHT
    &&& forall|y: int| 0 <= y < HEIGHT ==> (#[trigger] texts[y]).len() == WIDTH
    &&& forall|x: int, y: int| on_board(x, y) ==> formatted(cells[y][x].0, #[trigger] texts[y][x])
}

/// The board as the program shows it, with the cell texts `texts`: the
/// ranks with their numbers, the file letters, then the FEN of the whole
/// board and of its left and right halves.
pub open spec fn board_text(cells: Cells, texts: Seq<Seq<Seq<char>>>) -> Seq<char> {
    ranks_text(texts, HEIGHT as int) + seq![' ', ' ', ' '] + file_letters(WIDTH as int) + seq!['\n']
        + seq!['\n', 'F', 'E', 'N', ':', ' '] + board_fen_of(cells, 0, WIDTH as int) + seq![' ']
        + seq!['\n', 'F', 'E', 'N', ' ', 'L', ':', ' '] + board_fen_of(cells, 0, (WIDTH / 2) as int) + seq![' ']
        + seq!['\n', 'F', 'E', 'N', ' ', 'R', ':', ' '] + board_fen_of(cells, (WIDTH / 2) as int, WIDTH as int)
        + seq![' ']
}

/// The pieces as the program shows them, with the piece texts `texts`:
/// each followed by a space.
pub open spec fn pieces_painted(pieces: Seq<Piece>, texts: Seq<Seq<char>>) -> bool {
    &&& texts.len() == pieces.len()
    &&& forall|i: int| 0 <= i < pieces.len() ==> formatted(pieces[i].0, #[trigger] texts[i])
}

/// Appends the characters of `s` to `out`.
fn push_str(out: &mut Vec<char>, s: &str)
    ensures
        final(out)@ == old(out)@ + s@,
{
    let mut chars = chars_of(s);
    out.append(&mut chars);
}

impl Board {
    /// The board as the program prints it: each rank with its number and
    /// its painted cells, the file letters, and the three FEN lines.
    pub fn display(&self) -> (res: String)
        requires
            self.well_formed(),
        ensures
            exists|texts: Seq<Seq<Seq<char>>>| #[trigger] painted(self@, texts) && res@ == board_text(self@, texts),
    {
        let mut out: Vec<char> = Vec::new();
        let ghost mut texts: Seq<Seq<Seq<char>>> = seq![];
        let mut y: usize = 0;
        while y < HEIGHT
            invariant
                y <= HEIGHT,
                self.well_formed(),
                texts.len() == y,
                forall|r: int| 0 <= r < y ==> (#[trigger] texts[r]).len() == WIDTH,
                forall|x: int, r: int| on_board(x, r) && r < y ==> formatted(self@[r][x].0, #[trigger] texts[r][x]),
                out@ == ranks_text(texts, y as int),
            decreases HEIGHT - y,
        {
            let ghost before = out@;
            out.push(' ');
            out.push(digit_to_char(HEIGHT - y));
            out.push(' ');
            let ghost head = out@;
            let ghost mut row: Seq<Seq<char>> = seq![];
            let mut x: usize = 0;
            while x < WIDTH
                invariant
                    y < HEIGHT,
                    x <= WIDTH,
                    self.well_formed(),
                    row.len() == x,
                    forall|c: int| 0 <= c < x ==> formatted(self@[y as int][c].0, #[trigger] row[c]),
                    out@ == head + cells_text(row),
                decreases WIDTH - x,
            {
                assert(self.at(x as int, y as int).well_formed());
                let cell = self.board[y][x].format();
                push_str(&mut out, cell.as_str());
                out.push(' ');
                proof {
                    assert(row.push(cell@).drop_last() =~= row);
                    row = row.push(cell@);
                    assert(out@ =~= head + cells_text(row));
                }
                x = x + 1;
            }
            out.push('\n');
            proof {
                let old_texts = texts;
                texts = texts.push(row);
                lemma_ranks_text_prefix(old_texts, texts, y as int);
                assert(out@ =~= ranks_text(texts, y + 1));
            }
            y = y + 1;
        }
        out.push(' ');
        out.push(' ');
        out.push(' ');
        let ghost legend_start = out@;
        let mut i: usize = 0;
        while i < WIDTH
            invariant
                i <= WIDTH,
                out@ == legend_start + file_letters(i as int),
            decreases WIDTH - i,
        {
            let letter = ((97u8 + i as u8) as char);
            assert(letter == (97 + i) as char);
            out.push(letter);
            out.push(' ');
            assert(out@ =~= legend_start + file_letters(i + 1));
            i = i + 1;
        }
        out.push('\n');
        push_str(&mut out, "\nFEN: ");
        push_str(&mut out, self.to_fen().as_str());
        out.push(' ');
        push_str(&mut out, "\nFEN L: ");
        let (left, right) = self.to_fen_left_right();
        push_str(&mut out, left.as_str());
        out.push(' ');
        push_str(&mut out, "\nFEN R: ");
        push_str(&mut out, right.as_str());
        out.push(' ');
        proof {
            reveal_strlit("\nFEN: ");
            reveal_strlit("\nFEN L: ");
            reveal_strlit("\nFEN R: ");
            assert(painted(self@, texts));
            assert(out@ =~= board_text(self@, texts));
        }
        string_from_chars(&out)
    }
}

impl PieceSet {
    /// The pieces as the program prints them: each painted piece followed by
    /// a space.
    pub fn display(&self) -> (res: String)
        requires
            forall|i: int| 0 <= i < self@.len() ==> #[trigger] self@[i].well_formed(),
        ensures
            exists|texts: Seq<Seq<char>>| #[trigger] pieces_painted(self@, texts) && res@ == cells_text(texts),
    {
        let mut out: Vec<char> = Vec::new();
        let ghost mut texts: Seq<Seq<char>> = seq![];
        let mut i: usize = 0;
        while i < self.pieces.len()
            invariant
                i <= self@.len(),
                forall|k: int| 0 <= k < self@.len() ==> #[trigger] self@[k].well_formed(),
                texts.len() == i,
                forall|k: int| 0 <= k < i ==> formatted(self@[k].0, #[trigger] texts[k]),
                out@ == cells_text(texts),
            decreases self@.len() - i,
        {
            let text = self.pieces[i].format();
            push_str(&mut out, text.as_str());
            out.push(' ');
            proof {
                assert(texts.push(text@).drop_last() =~= texts);
                texts = texts.push(text@);
                assert(out@ =~= cells_text(texts));
            }
            i = i + 1;
        }
        assert(pieces_painted(self@, texts));
        string_from_chars(&out)
    }
}

} // verus!
