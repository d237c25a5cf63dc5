use vstd::prelude::*;
use crate::board::{piece_list, Board};
use crate::piece::{fen_code, is_fen_piece_char, value_of, Piece};
use crate::text::chars_of;
use crate::search::all_pieces;

verus! {

/// A sequence of pieces still to place; the last one is placed first.
#[derive(Debug, Eq, PartialEq)]
pub struct PieceSet {
    pub pieces: Vec<Piece>,
}

impl View for PieceSet {
    type V = Seq<Piece>;

    open spec fn view(&self) -> Seq<Piece> {
        self.pieces@
    }
}

/// Index of the first occurrence of `p` in `s` (`s.len()` when absent).
pub open spec fn first_index(s: Seq<Piece>, p: Piece) -> int
    decreases s.len(),
{
    if s.len() == 0 {
        0
    } else if s[0] == p {
        0
    } else {
        1 + first_index(s.drop_first(), p)
    }
}

pub proof fn lemma_first_index(s: Seq<Piece>, p: Piece)
    ensures
        0 <= first_index(s, p) <= s.len(),
        forall|j: int| 0 <= j < first_index(s, p) ==> s[j] != p,
        first_index(s, p) < s.len() ==> s[first_index(s, p)] == p,
        s.contains(p) <==> first_index(s, p) < s.len(),
    decreases s.len(),
{
    if s.len() > 0 && s[0] != p {
        lemma_first_index(s.drop_first(), p);
        assert forall|j: int| 0 <= j < first_index(s, p) implies s[j] != p by {
            if j > 0 {
                assert(s[j] == s.drop_first()[j - 1]);
            }
        }
        if s.contains(p) {
            let k = choose|k: int| 0 <= k < s.len() && s[k] == p;
            assert(s.drop_first()[k - 1] == p);
        }
        if first_index(s, p) < s.len() {
            assert(s.drop_first().contains(p));
        }
    }
}

/// `s` with its first `p` taken out.
pub open spec fn remove_first(s: Seq<Piece>, p: Piece) -> Seq<Piece> {
    s.remove(first_index(s, p))
}

/// Removes, one after the other, the first occurrence of each piece of
/// `rm`; `None` as soon as one is missing.
pub open spec fn remove_each(s: Seq<Piece>, rm: Seq<Piece>) -> Option<Seq<Piece>>
    decreases rm.len(),
{
    if rm.len() == 0 {
        Some(s)
    } else if s.contains(rm[0]) {
        remove_each(remove_first(s, rm[0]), rm.drop_first())
    } else {
        None
    }
}

/// The pieces that stand on a board, rank by rank from the top.
pub open spec fn board_pieces(board: Board) -> Seq<Piece> {
    piece_list(board@).map_values(|e: ((usize, usize), Piece)| e.1)
}

/// The pieces of `s` whose value is `v`, in their order.
pub open spec fn with_value(s: Seq<Piece>, v: nat) -> Seq<Piece> {
    s.filter(|p: Piece| value_of(p.0) == v)
}

/// `s` sorted by value, stably: the values a piece can have are
/// 0, 1, 3, 5 and 9, and the pieces of each value keep their order.
pub open spec fn sorted_by_value(s: Seq<Piece>) -> Seq<Piece> {
    with_value(s, 0) + with_value(s, 1) + with_value(s, 3) + with_value(s, 5) + with_value(s, 9)
}

/// Length of the run of pieces equal to the last one at the end of `s`.
pub open spec fn trailing_run(s: Seq<Piece>) -> nat
    decreases s.len(),
{
    if s.len() == 0 {
        0
    } else if s.len() >= 2 && s[s.len() - 2] == s.last() {
        1 + trailing_run(s.drop_last())
    } else {
        1
    }
}

pub proof fn lemma_trailing_run(s: Seq<Piece>)
    ensures
        trailing_run(s) <= s.len(),
        s.len() > 0 ==> trailing_run(s) >= 1,
        forall|j: int| s.len() - trailing_run(s) <= j < s.len() ==> #[trigger] s[j] == s.last(),
        trailing_run(s) < s.len() ==> s[s.len() - trailing_run(s) - 1] != s.last(),
    decreases s.len(),
{
    if s.len() >= 2 && s[s.len() - 2] == s.last() {
        lemma_trailing_run(s.drop_last());
        assert forall|j: int| s.len() - trailing_run(s) <= j < s.len() implies #[trigger] s[j] == s.last() by {
            if j < s.len() - 1 {
                assert(s[j] == s.drop_last()[j]);
            }
        }
    }
}

impl Clone for PieceSet {
    fn clone(&self) -> (res: Self)
        ensures
            res@ == self@,
    {
        let mut pieces: Vec<Piece> = Vec::new();
        let mut i: usize = 0;
        while i < self.pieces.len()
            invariant
                i <= self@.len(),
                pieces@ == self@.take(i as int),
            decreases self@.len() - i,
        {
            pieces.push(self.pieces[i]);
            i = i + 1;
            assert(pieces@ =~= self@.take(i as int));
        }
        assert(self@.take(i as int) =~= self@);
        PieceSet { pieces }
    }
}

impl Default for PieceSet {
    fn default() -> (res: Self)
        ensures
            res@ == Seq::<Piece>::empty(),
    {
        PieceSet { pieces: Vec::new() }
    }
}

impl PieceSet {
    pub fn from(pieces: Vec<Piece>) -> (res: Self)
        ensures
            res@ == pieces@,
    {
        Self { pieces }
    }

    /// One piece per FEN letter, in order; `None` where a character is no
    /// piece letter.
    pub fn read_fen(fen: &str) -> (res: Option<Self>)
        ensures
            res is Some <==> forall|i: int| 0 <= i < fen@.len() ==> #[trigger] is_fen_piece_char(fen@[i]),
            res matches Some(set) ==> set@ == fen@.map_values(|c: char| Piece(fen_code(c))),
    {
        let chars = chars_of(fen);
        let mut pieces: Vec<Piece> = Vec::new();
        let mut i: usize = 0;
        while i < chars.len()
            invariant
                chars@ == fen@,
                i <= chars@.len(),
                forall|j: int| 0 <= j < i ==> #[trigger] is_fen_piece_char(fen@[j]),
                pieces@ == fen@.take(i as int).map_values(|c: char| Piece(fen_code(c))),
            decreases chars@.len() - i,
        {
            let c = chars[i];
            if !(c == 'K' || c == 'Q' || c == 'R' || c == 'B' || c == 'N' || c == 'P'
                || c == 'k' || c == 'q' || c == 'r' || c == 'b' || c == 'n' || c == 'p') {
                assert(!is_fen_piece_char(fen@[i as int]));
                return None;
            }
            pieces.push(Piece::from_fen(c));
            i = i + 1;
            assert(pieces@ =~= fen@.take(i as int).map_values(|c: char| Piece(fen_code(c))));
        }
        assert(fen@.take(i as int) =~= fen@);
        Some(Self { pieces })
    }

    /// One piece per FEN letter, in order; every character must be a piece
    /// letter.
    pub fn from_fen(fen: &str) -> (res: Self)
        requires
            forall|i: int| 0 <= i < fen@.len() ==> #[trigger] is_fen_piece_char(fen@[i]),
        ensures
            res@ == fen@.map_values(|c: char| Piece(fen_code(c))),
    {
        match PieceSet::read_fen(fen) {
            Some(set) => set,
            None => PieceSet::default(),
        }
    }

    /// Appends the pieces of `self` with value `v`, in order, to `out`.
    fn push_with_value(&self, out: &mut Vec<Piece>, v: usize)
        requires
            forall|i: int| 0 <= i < self@.len() ==> #[trigger] self@[i].has_value(),
        ensures
            final(out)@ == old(out)@ + with_value(self@, v as nat),
    {
        let ghost pred = |p: Piece| value_of(p.0) == v as nat;
        let ghost start = out@;
        let mut i: usize = 0;
        assert(self@.take(0).filter(pred) =~= Seq::<Piece>::empty()) by {
            reveal_with_fuel(Seq::<_>::filter, 1);
        }
        assert(out@ =~= start + self@.take(0).filter(pred));
        while i < self.pieces.len()
            invariant
                i <= self@.len(),
                forall|i: int| 0 <= i < self@.len() ==> #[trigger] self@[i].has_value(),
                pred == (|p: Piece| value_of(p.0) == v as nat),
                out@ == start + self@.take(i as int).filter(pred),
            decreases self@.len() - i,
        {
            let p = self.pieces[i];
            proof {
                reveal_with_fuel(Seq::<_>::filter, 1);
                assert(self@.take(i + 1).drop_last() =~= self@.take(i as int));
            }
            if p.value() == v {
                out.push(p);
            }
            i = i + 1;
            assert(out@ =~= start + self@.take(i as int).filter(pred));
        }
        assert(self@.take(i as int) =~= self@);
    }

    /// Sorts the pieces by value, stably.
    pub fn sort(&mut self)
        requires
            forall|i: int| 0 <= i < old(self)@.len() ==> #[trigger] old(self)@[i].has_value(),
        ensures
            final(self)@ == sorted_by_value(old(self)@),
    {
        let mut out: Vec<Piece> = Vec::new();
        self.push_with_value(&mut out, 0);
        self.push_with_value(&mut out, 1);
        self.push_with_value(&mut out, 3);
        self.push_with_value(&mut out, 5);
        self.push_with_value(&mut out, 9);
        assert(out@ =~= sorted_by_value(self@));
        self.pieces = out;
    }

    /// Takes out the first occurrence of `piece`.
    pub fn remove_piece(&mut self, piece: Piece)
        requires
            old(self)@.contains(piece),
        ensures
            final(self)@ == remove_first(old(self)@, piece),
    {
        proof { lemma_first_index(self@, piece); }
        let mut i: usize = 0;
        while self.pieces[i] != piece
            invariant
                i <= first_index(self@, piece) < self@.len(),
                self@[first_index(self@, piece)] == piece,
                forall|j: int| 0 <= j < first_index(self@, piece) ==> self@[j] != piece,
            decreases self@.len() - i,
        {
            assert(self@[i as int] != piece);
            assert(i < first_index(self@, piece));
            assert(self@.len() == self.pieces.len());
            i = i + 1;
        }
        self.pieces.remove(i);
    }

    /// Takes out, for each piece on the board (rank by rank from the top),
    /// the first occurrence of that piece.
    pub fn remove_board(&mut self, board: &Board)
        requires
            remove_each(old(self)@, board_pieces(*board)) is Some,
        ensures
            final(self)@ == remove_each(old(self)@, board_pieces(*board))->0,
    {
        let cells = board.iter_pieces();
        let ghost all = board_pieces(*board);
        let mut i: usize = 0;
        assert(all.skip(0) =~= all);
        while i < cells.len()
            invariant
                i <= cells@.len(),
                all == board_pieces(*board),
                cells@ == piece_list(board@),
                all.len() == cells@.len(),
                forall|j: int| 0 <= j < all.len() ==> #[trigger] all[j] == cells@[j].1,
                remove_each(self@, all.skip(i as int)) == remove_each(old(self)@, all),
                remove_each(old(self)@, all) is Some,
            decreases cells@.len() - i,
        {
            let p = cells[i].1;
            assert(all.skip(i as int)[0] == p);
            assert(all.skip(i as int).drop_first() =~= all.skip(i + 1));
            self.remove_piece(p);
            i = i + 1;
        }
        assert(all.skip(i as int) =~= Seq::<Piece>::empty());
    }

    pub fn is_empty(&self) -> (res: bool)
        ensures
            res == (self@.len() == 0),
    {
        self.pieces.len() == 0
    }

    /// The piece that is placed next: the last one.
    pub fn next(&self) -> (res: Option<Piece>)
        ensures
            self@.len() == 0 ==> res is None,
            self@.len() > 0 ==> res == Some(self@.last()),
    {
        if self.pieces.len() == 0 {
            None
        } else {
            Some(self.pieces[self.pieces.len() - 1])
        }
    }

    /// Takes out the last piece.
    pub fn pop(&mut self) -> (res: Option<Piece>)
        ensures
            old(self)@.len() == 0 ==> res is None && final(self)@ == old(self)@,
            old(self)@.len() > 0 ==> res == Some(old(self)@.last()) && final(self)@ == old(self)@.drop_last(),
    {
        self.pieces.pop()
    }

    /// Pops off the run of pieces equal to the last one, from the end.
    pub fn pop_off_same(&mut self) -> (res: Option<PieceSet>)
        ensures
            old(self)@.len() == 0 ==> res is None && final(self)@ == old(self)@,
            old(self)@.len() > 0 ==> res is Some
                && res->0@ == old(self)@.skip(old(self)@.len() - trailing_run(old(self)@))
                && final(self)@ == old(self)@.take(old(self)@.len() - trailing_run(old(self)@)),
    {
        if self.pieces.len() == 0 {
            return None;
        }
        proof { lemma_trailing_run(self@); }
        let ghost run = trailing_run(self@);
        let n = self.pieces.len();
        let piece = self.pieces[n - 1];
        // Search from the end for a piece that differs from the last one.
        let mut i: usize = n;
        while i > 0 && self.pieces[i - 1] == piece
            invariant
                n == self@.len() > 0,
                piece == self@.last(),
                run == trailing_run(self@),
                n - run <= i <= n,
                forall|j: int| n - run <= j < n ==> #[trigger] self@[j] == self@.last(),
                run < n ==> self@[n - run - 1] != self@.last(),
            decreases i,
        {
            i = i - 1;
        }
        assert(i == n - run);
        if i > 0 {
            // Pop off pieces until different piece
            Some(PieceSet::from(self.pieces.split_off(i)))
        } else {
            // All pieces the same: hand all of them over
            let mut same_pieces = PieceSet::default();
            std::mem::swap(&mut self.pieces, &mut same_pieces.pieces);
            assert(self@ =~= Seq::<Piece>::empty());
            Some(same_pieces)
        }
    }

    /// Whether `p` is among the pieces.
    fn holds(&self, p: Piece) -> (res: bool)
        ensures
            res == self@.contains(p),
    {
        let mut i: usize = 0;
        while i < self.pieces.len()
            invariant
                i <= self@.len(),
                forall|j: int| 0 <= j < i ==> self@[j] != p,
            decreases self@.len() - i,
        {
            if self.pieces[i] == p {
                return true;
            }
            i = i + 1;
        }
        false
    }

    /// Whether every piece is one of the twelve pieces.
    pub fn all_known(&self) -> (res: bool)
        ensures
            res == all_pieces(self@),
    {
        let mut i: usize = 0;
        while i < self.pieces.len()
            invariant
                i <= self@.len(),
                forall|j: int| 0 <= j < i ==> #[trigger] self@[j].is_piece(),
            decreases self@.len() - i,
        {
            let c = self.pieces[i].0;
            if !(c == 5 || c == 9 || c == 17 || c == 33 || c == 65 || c == 129
                || c == 6 || c == 10 || c == 18 || c == 34 || c == 66 || c == 130) {
                assert(!self@[i as int].is_piece());
                return false;
            }
            i = i + 1;
        }
        true
    }

    /// Whether the pieces hold every piece of the board, copies counted
    /// (so that `remove_board` can take them out).
    pub fn holds_board(&self, board: &Board) -> (res: bool)
        ensures
            res == remove_each(self@, board_pieces(*board)) is Some,
    {
        let cells = board.iter_pieces();
        let ghost all = board_pieces(*board);
        let mut left = self.clone();
        let mut i: usize = 0;
        assert(all.skip(0) =~= all);
        while i < cells.len()
            invariant
                i <= cells@.len(),
                all == board_pieces(*board),
                cells@ == piece_list(board@),
                all.len() == cells@.len(),
                forall|j: int| 0 <= j < all.len() ==> #[trigger] all[j] == cells@[j].1,
                remove_each(left@, all.skip(i as int)) == remove_each(self@, all),
            decreases cells@.len() - i,
        {
            let p = cells[i].1;
            assert(all.skip(i as int)[0] == p);
            assert(all.skip(i as int).drop_first() =~= all.skip(i + 1));
            if !left.holds(p) {
                return false;
            }
            left.remove_piece(p);
            i = i + 1;
        }
        assert(all.skip(i as int) =~= Seq::<Piece>::empty());
        true
    }
}

} // verus!
