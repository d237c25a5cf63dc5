use vstd::prelude::*;
use vstd::multiset::Multiset;
use crate::board::{set_cell, on_board, all_well_formed, board_fen_of, board_of_fen, empty_cells, leading_empty, lemma_leading_empty_bounds, parse_fen, rank_fen_of, rows_fen_of, shaped, Board, Cells};
use crate::text::{decimal, digit_char, digit_value, is_digit};
use crate::piece::{BISHOP, BLACK, KING, KNIGHT, PAWN, QUEEN, ROOK, WHITE, HEIGHT, WIDTH, fen_char_of, fen_code, is_fen_piece_char, is_piece_code, lemma_flag_bits, value_of, Piece};
use crate::attack::{attacked_from, bishop_rays, hits_of, ray_hit, rays_of, rook_rays, Ray};
use crate::piece_set::{lemma_trailing_run, trailing_run, lemma_first_index, remove_each, remove_first, sorted_by_value, with_value};

verus! {

/// A FEN letter read as a piece is written back as the same letter.
pub proof fn law_fen_letter_round_trip(c: char)
    requires
        is_fen_piece_char(c),
    ensures
        is_piece_code(fen_code(c)),
        fen_char_of(fen_code(c)) == c,
{
}

/// A piece written as its FEN letter is read back as the same piece.
pub proof fn law_piece_letter_round_trip(p: u8)
    requires
        is_piece_code(p),
    ensures
        is_fen_piece_char(fen_char_of(p)),
        fen_code(fen_char_of(p)) == p,
{
}

/// Every byte has one of the values 0, 1, 3, 5 and 9.
pub proof fn lemma_value_range(p: u8)
    ensures
        value_of(p) == 0 || value_of(p) == 1 || value_of(p) == 3 || value_of(p) == 5 || value_of(p) == 9,
{
}

/// A piece is worth the same whatever its colour: a king nothing, a queen
/// nine, a rook five, a bishop or a knight three, a pawn one; an empty cell
/// is worth nothing.
pub proof fn law_piece_values(white: bool)
    ensures
        ({
            let c = if white { WHITE } else { BLACK };
            &&& value_of(c | KING) == 0
            &&& value_of(c | QUEEN) == 9
            &&& value_of(c | ROOK) == 5
            &&& value_of(c | BISHOP) == 3
            &&& value_of(c | KNIGHT) == 3
            &&& value_of(c | PAWN) == 1
        }),
        value_of(0) == 0,
{
    lemma_flag_bits(5); lemma_flag_bits(6);
    assert(WHITE | KING == 5u8 && BLACK | KING == 6u8) by (bit_vector);
    assert(WHITE | QUEEN == 9u8 && BLACK | QUEEN == 10u8) by (bit_vector);
    assert(WHITE | ROOK == 17u8 && BLACK | ROOK == 18u8) by (bit_vector);
    assert(WHITE | BISHOP == 33u8 && BLACK | BISHOP == 34u8) by (bit_vector);
    assert(WHITE | KNIGHT == 65u8 && BLACK | KNIGHT == 66u8) by (bit_vector);
    assert(WHITE | PAWN == 129u8 && BLACK | PAWN == 130u8) by (bit_vector);
    lemma_flag_bits(9); lemma_flag_bits(10); lemma_flag_bits(17); lemma_flag_bits(18);
    lemma_flag_bits(33); lemma_flag_bits(34); lemma_flag_bits(65); lemma_flag_bits(66);
    lemma_flag_bits(129); lemma_flag_bits(130); lemma_flag_bits(0);
}

/// The FEN letter of a piece names its kind (K king, Q queen, R rook,
/// B bishop, N knight, P pawn), in upper case for white and in lower case
/// for black.
pub proof fn law_fen_letters(white: bool)
    ensures
        ({
            let c = if white { WHITE } else { BLACK };
            &&& fen_char_of(c | KING) == if white { 'K' } else { 'k' }
            &&& fen_char_of(c | QUEEN) == if white { 'Q' } else { 'q' }
            &&& fen_char_of(c | ROOK) == if white { 'R' } else { 'r' }
            &&& fen_char_of(c | BISHOP) == if white { 'B' } else { 'b' }
            &&& fen_char_of(c | KNIGHT) == if white { 'N' } else { 'n' }
            &&& fen_char_of(c | PAWN) == if white { 'P' } else { 'p' }
        }),
{
    assert(WHITE | KING == 5u8 && BLACK | KING == 6u8) by (bit_vector);
    assert(WHITE | QUEEN == 9u8 && BLACK | QUEEN == 10u8) by (bit_vector);
    assert(WHITE | ROOK == 17u8 && BLACK | ROOK == 18u8) by (bit_vector);
    assert(WHITE | BISHOP == 33u8 && BLACK | BISHOP == 34u8) by (bit_vector);
    assert(WHITE | KNIGHT == 65u8 && BLACK | KNIGHT == 66u8) by (bit_vector);
    assert(WHITE | PAWN == 129u8 && BLACK | PAWN == 130u8) by (bit_vector);
}

proof fn lemma_with_value_push(s: Seq<Piece>, a: Piece, v: nat)
    ensures
        with_value(s.push(a), v) == if value_of(a.0) == v { with_value(s, v).push(a) } else { with_value(s, v) },
{
    s.lemma_filter_push(a, |p: Piece| value_of(p.0) == v);
}

proof fn lemma_with_value_twice(s: Seq<Piece>, w: nat, v: nat)
    ensures
        with_value(with_value(s, w), v) == if w == v { with_value(s, v) } else { Seq::<Piece>::empty() },
    decreases s.len(),
{
    if s.len() == 0 {
        assert(with_value(s, w) =~= s) by { reveal_with_fuel(Seq::<_>::filter, 1); }
        assert(with_value(s, v) =~= s) by { reveal_with_fuel(Seq::<_>::filter, 1); }
    } else {
        let t = s.drop_last();
        let a = s.last();
        assert(t.push(a) =~= s);
        lemma_with_value_twice(t, w, v);
        lemma_with_value_push(t, a, w);
        lemma_with_value_push(t, a, v);
        if value_of(a.0) == w {
            lemma_with_value_push(with_value(t, w), a, v);
        }
    }
}

proof fn lemma_with_value_none(s: Seq<Piece>, v: nat)
    requires
        !(v == 0 || v == 1 || v == 3 || v == 5 || v == 9),
    ensures
        with_value(s, v) == Seq::<Piece>::empty(),
    decreases s.len(),
{
    if s.len() == 0 {
        assert(with_value(s, v) =~= s) by { reveal_with_fuel(Seq::<_>::filter, 1); }
    } else {
        let t = s.drop_last();
        assert(t.push(s.last()) =~= s);
        lemma_with_value_none(t, v);
        lemma_with_value_push(t, s.last(), v);
        lemma_value_range(s.last().0);
    }
}

/// Sorting is stable: the pieces of each value come out in the order in
/// which they stood.
pub proof fn law_sort_stable(s: Seq<Piece>, v: nat)
    ensures
        with_value(sorted_by_value(s), v) == with_value(s, v),
{
    broadcast use Seq::filter_distributes_over_add;
    lemma_with_value_twice(s, 0, v);
    lemma_with_value_twice(s, 1, v);
    lemma_with_value_twice(s, 3, v);
    lemma_with_value_twice(s, 5, v);
    lemma_with_value_twice(s, 9, v);
    if !(v == 0 || v == 1 || v == 3 || v == 5 || v == 9) {
        lemma_with_value_none(s, v);
    }
    assert(with_value(sorted_by_value(s), v) =~= with_value(s, v));
}

/// Every piece of `with_value(s, v)` has value `v`.
proof fn lemma_with_value_values(s: Seq<Piece>, v: nat)
    ensures
        forall|i: int| 0 <= i < with_value(s, v).len() ==> value_of(#[trigger] with_value(s, v)[i].0) == v,
{
    assert forall|i: int| 0 <= i < with_value(s, v).len() implies value_of(#[trigger] with_value(s, v)[i].0) == v by {
        s.lemma_filter_pred(|p: Piece| value_of(p.0) == v, i);
    }
}

/// Sorting puts the pieces in order of value.
pub proof fn law_sort_sorted(s: Seq<Piece>)
    ensures
        forall|i: int, j: int| 0 <= i <= j < sorted_by_value(s).len()
            ==> value_of(#[trigger] sorted_by_value(s)[i].0) <= value_of(#[trigger] sorted_by_value(s)[j].0),
{
    let a = with_value(s, 0);
    let b = with_value(s, 1);
    let c = with_value(s, 3);
    let d = with_value(s, 5);
    let e = with_value(s, 9);
    lemma_with_value_values(s, 0);
    lemma_with_value_values(s, 1);
    lemma_with_value_values(s, 3);
    lemma_with_value_values(s, 5);
    lemma_with_value_values(s, 9);
    let r = sorted_by_value(s);
    assert forall|i: int| 0 <= i < r.len() implies value_of(#[trigger] r[i].0) == (
        if i < a.len() { 0nat }
        else if i < a.len() + b.len() { 1nat }
        else if i < a.len() + b.len() + c.len() { 3nat }
        else if i < a.len() + b.len() + c.len() + d.len() { 5nat }
        else { 9nat }) by {
        if i < a.len() {
            assert(r[i] == a[i]);
        } else if i < a.len() + b.len() {
            assert(r[i] == b[i - a.len()]);
        } else if i < a.len() + b.len() + c.len() {
            assert(r[i] == c[i - a.len() - b.len()]);
        } else if i < a.len() + b.len() + c.len() + d.len() {
            assert(r[i] == d[i - a.len() - b.len() - c.len()]);
        } else {
            assert(r[i] == e[i - a.len() - b.len() - c.len() - d.len()]);
        }
    }
}

/// Sorting keeps every piece: the result is a permutation of the input.
pub proof fn law_sort_permutes(s: Seq<Piece>)
    ensures
        sorted_by_value(s).to_multiset() == s.to_multiset(),
    decreases s.len(),
{
    broadcast use vstd::seq_lib::group_to_multiset_ensures;
    broadcast use vstd::multiset::group_multiset_axioms;
    broadcast use vstd::seq_lib::lemma_multiset_commutative;
    if s.len() == 0 {
        assert(sorted_by_value(s) =~= s) by {
            reveal_with_fuel(Seq::<_>::filter, 1);
        }
    } else {
        let t = s.drop_last();
        let a = s.last();
        assert(t.push(a) =~= s);
        law_sort_permutes(t);
        lemma_with_value_push(t, a, 0);
        lemma_with_value_push(t, a, 1);
        lemma_with_value_push(t, a, 3);
        lemma_with_value_push(t, a, 5);
        lemma_with_value_push(t, a, 9);
        lemma_value_range(a.0);
        assert(sorted_by_value(s).to_multiset() =~= with_value(s, 0).to_multiset().add(with_value(s, 1).to_multiset())
            .add(with_value(s, 3).to_multiset()).add(with_value(s, 5).to_multiset()).add(with_value(s, 9).to_multiset()));
        assert(sorted_by_value(t).to_multiset() =~= with_value(t, 0).to_multiset().add(with_value(t, 1).to_multiset())
            .add(with_value(t, 3).to_multiset()).add(with_value(t, 5).to_multiset()).add(with_value(t, 9).to_multiset()));
        assert(sorted_by_value(s).to_multiset() =~= sorted_by_value(t).to_multiset().insert(a));
    }
}

/// Taking out, one by one, the pieces of `rm` succeeds exactly when `s`
/// holds every piece of `rm` at least as often, and leaves the pieces of `s`
/// less those of `rm`.
pub proof fn law_remove_each(s: Seq<Piece>, rm: Seq<Piece>)
    ensures
        remove_each(s, rm) is Some <==> rm.to_multiset().subset_of(s.to_multiset()),
        remove_each(s, rm) is Some ==> remove_each(s, rm)->0.to_multiset() == s.to_multiset().sub(rm.to_multiset()),
    decreases rm.len(),
{
    broadcast use vstd::seq_lib::group_to_multiset_ensures;
    broadcast use vstd::multiset::group_multiset_axioms;
    if rm.len() == 0 {
        assert(rm.to_multiset() =~= Multiset::<Piece>::empty());
        assert(s.to_multiset().sub(rm.to_multiset()) =~= s.to_multiset());
    } else {
        let p = rm[0];
        let rest = rm.drop_first();
        assert(rest.insert(0, p) =~= rm);
        assert(rm.to_multiset() =~= rest.to_multiset().insert(p)) by {
            vstd::seq_lib::to_multiset_insert(rest, 0, p);
        }
        if s.contains(p) {
            lemma_first_index(s, p);
            let s2 = remove_first(s, p);
            assert(s2.to_multiset() =~= s.to_multiset().remove(p));
            law_remove_each(s2, rest);
            assert(rm.to_multiset().subset_of(s.to_multiset()) <==> rest.to_multiset().subset_of(s2.to_multiset())) by {
                if rm.to_multiset().subset_of(s.to_multiset()) {
                    assert forall|q: Piece| rest.to_multiset().count(q) <= s2.to_multiset().count(q) by {
                        assert(rm.to_multiset().count(q) <= s.to_multiset().count(q));
                    }
                }
                if rest.to_multiset().subset_of(s2.to_multiset()) {
                    assert forall|q: Piece| rm.to_multiset().count(q) <= s.to_multiset().count(q) by {
                        assert(rest.to_multiset().count(q) <= s2.to_multiset().count(q));
                        assert(s.to_multiset().count(p) > 0);
                    }
                }
            }
            if remove_each(s, rm) is Some {
                assert(remove_each(s, rm)->0.to_multiset() =~= s.to_multiset().sub(rm.to_multiset()));
            }
        } else {
            assert(s.to_multiset().count(p) == 0);
            assert(rm.to_multiset().count(p) > 0);
            assert(!rm.to_multiset().subset_of(s.to_multiset()));
        }
    }
}

proof fn lemma_leading_empty_props(q: Seq<Piece>)
    ensures
        forall|t: int| 0 <= t < leading_empty(q) ==> #[trigger] q[t].empty(),
        leading_empty(q) < q.len() ==> !q[leading_empty(q) as int].empty(),
    decreases q.len(),
{
    lemma_leading_empty_bounds(q);
    if q.len() > 0 && q[0].empty() {
        lemma_leading_empty_props(q.drop_first());
        assert forall|t: int| 0 <= t < leading_empty(q) implies #[trigger] q[t].empty() by {
            if t > 0 {
                assert(q[t] == q.drop_first()[t - 1]);
            }
        }
        if leading_empty(q) < q.len() {
            assert(q[leading_empty(q) as int] == q.drop_first()[leading_empty(q) - 1]);
        }
    }
}

/// The digits of a run of 1 to 16 empty cells.
proof fn lemma_run_digits(n: nat)
    requires
        1 <= n <= 16,
    ensures
        n < 10 ==> decimal(n) == seq![digit_char(n)] && is_digit(digit_char(n)) && digit_value(digit_char(n)) == n,
        n >= 10 ==> decimal(n) == seq!['1', digit_char((n - 10) as nat)] && is_digit(digit_char((n - 10) as nat))
            && digit_value(digit_char((n - 10) as nat)) == n - 10,
{
    if n >= 10 {
        assert(n / 10 == 1 && n % 10 == n - 10);
        assert(decimal(1) == seq![digit_char(1)]);
        assert(decimal(n) =~= seq!['1', digit_char((n - 10) as nat)]);
    }
}

/// Reading back the FEN of the cells `k..` of a rank fills in those cells.
proof fn lemma_parse_rank(s: Seq<char>, i: int, r: Seq<Piece>, k: int, y: int, cells: Cells)
    requires
        0 <= i,
        r.len() <= 16,
        all_well_formed(r),
        0 <= k <= r.len(),
        0 <= y < 8,
        shaped(cells),
        forall|j: int| k <= j < 16 ==> #[trigger] cells[y][j].empty(),
        i + rank_fen_of(r.skip(k)).len() <= s.len(),
        s.subrange(i, i + rank_fen_of(r.skip(k)).len()) == rank_fen_of(r.skip(k)),
        i + rank_fen_of(r.skip(k)).len() == s.len() || s[i + rank_fen_of(r.skip(k)).len()] == '/',
    ensures
        parse_fen(s, i as nat, k, y, cells) == parse_fen(s, (i + rank_fen_of(r.skip(k)).len()) as nat, r.len() as int, y,
            cells.update(y, cells[y].take(k) + r.skip(k) + cells[y].skip(r.len() as int))),
    decreases r.len() - k,
{
    let q = r.skip(k);
    let f = rank_fen_of(q);
    let len = f.len() as int;
    let w = r.len() as int;
    if k == w {
        assert(q =~= Seq::<Piece>::empty());
        assert(cells.update(y, cells[y].take(w) + q + cells[y].skip(w)) =~= cells) by {
            assert(cells[y].take(w) + q + cells[y].skip(w) =~= cells[y]);
        }
    } else if !q[0].empty() {
        let p = q[0];
        assert(p == r[k]);
        assert(p.well_formed());
        let c = fen_char_of(p.0);
        let g = rank_fen_of(r.skip(k + 1));
        assert(q.drop_first() =~= r.skip(k + 1));
        assert(f == seq![c] + g);
        assert(s[i] == f[0]) by {
            assert(s.subrange(i, i + len)[0] == s[i]);
        }
        assert(is_fen_piece_char(c) && fen_code(c) == p.0);
        assert(c != '/');
        assert(Piece(fen_code(c)) == p);
        let cells2 = crate::board::set_cell(cells, k, y, p);
        assert(s.subrange(i + 1, i + 1 + g.len()) =~= g) by {
            assert forall|t: int| 0 <= t < g.len() implies s.subrange(i + 1, i + 1 + g.len())[t] == g[t] by {
                assert(s[i + 1 + t] == s.subrange(i, i + len)[1 + t]);
            }
        }
        lemma_parse_rank(s, i + 1, r, k + 1, y, cells2);
        assert(cells2.update(y, cells2[y].take(k + 1) + r.skip(k + 1) + cells2[y].skip(w))
            =~= cells.update(y, cells[y].take(k) + q + cells[y].skip(w))) by {
            assert(cells2[y].take(k + 1) + r.skip(k + 1) + cells2[y].skip(w) =~= cells[y].take(k) + q + cells[y].skip(w));
        }
    } else {
        lemma_leading_empty_bounds(q);
        lemma_leading_empty_props(q);
        let n = leading_empty(q);
        let k2 = k + n;
        assert(q.skip(n as int) =~= r.skip(k2));
        let g = rank_fen_of(r.skip(k2));
        assert(f == decimal(n) + g);
        lemma_run_digits(n);
        assert forall|t: int| 0 <= t < f.len() implies s[i + t] == #[trigger] f[t] by {
            assert(s[i + t] == s.subrange(i, i + len)[t]);
        }
        let dl = decimal(n).len() as int;
        // the character after the digits is not a digit
        if i + dl < s.len() {
            if k2 < w {
                let p2 = r[k2];
                assert(p2 == q[n as int]);
                assert(p2.well_formed());
                assert(g[0] == fen_char_of(p2.0)) by {
                    assert(r.skip(k2)[0] == p2);
                }
                assert(s[i + dl] == f[dl]);
                assert(!is_digit(s[i + dl]));
            } else {
                assert(r.skip(k2) =~= Seq::<Piece>::empty());
                assert(g.len() == 0);
                assert(s[i + dl] == '/');
            }
        }
        assert(s.subrange(i + dl, i + dl + g.len()) =~= g) by {
            assert forall|t: int| 0 <= t < g.len() implies s.subrange(i + dl, i + dl + g.len())[t] == g[t] by {
                assert(f[dl + t] == g[t]);
            }
        }
        lemma_parse_rank(s, i + dl, r, k2, y, cells);
        assert(cells.update(y, cells[y].take(k2) + r.skip(k2) + cells[y].skip(w))
            =~= cells.update(y, cells[y].take(k) + q + cells[y].skip(w))) by {
            assert forall|j: int| 0 <= j < 16 implies (cells[y].take(k2) + r.skip(k2) + cells[y].skip(w))[j]
                == (cells[y].take(k) + q + cells[y].skip(w))[j] by {
                if k <= j < k2 {
                    assert(q[j - k].empty());
                    assert(cells[y][j].empty());
                }
            }
            assert(cells[y].take(k2) + r.skip(k2) + cells[y].skip(w) =~= cells[y].take(k) + q + cells[y].skip(w));
        }
        assert(f[0] == decimal(n)[0]);
        assert(s[i + 0] == f[0]);
        if n >= 10 {
            assert(f[1] == decimal(n)[1]);
            assert(s[i + 1] == f[1]);
            assert(s[i] == '1');
            assert(is_digit(s[i + 1]));
        } else {
            assert(is_digit(s[i]));
        }
    }
}

/// FEN of the first `k + 1` ranks.
spec fn fen_prefix(rows: Seq<Seq<Piece>>, k: int) -> Seq<char> {
    rows_fen_of(rows.take(k + 1))
}

proof fn lemma_fen_prefix_step(rows: Seq<Seq<Piece>>, k: int)
    requires
        1 <= k < rows.len(),
    ensures
        fen_prefix(rows, k) == fen_prefix(rows, k - 1) + seq!['/'] + rank_fen_of(rows[k]),
{
    assert(rows.take(k + 1).drop_last() =~= rows.take(k));
    assert(rows.take(k + 1).last() == rows[k]);
}

proof fn lemma_fen_prefix_of(rows: Seq<Seq<Piece>>, j: int, k: int)
    requires
        0 <= j <= k < rows.len(),
    ensures
        fen_prefix(rows, j).len() <= fen_prefix(rows, k).len(),
        fen_prefix(rows, k).take(fen_prefix(rows, j).len() as int) == fen_prefix(rows, j),
    decreases k - j,
{
    if j < k {
        lemma_fen_prefix_of(rows, j, k - 1);
        lemma_fen_prefix_step(rows, k);
        assert(fen_prefix(rows, k).take(fen_prefix(rows, j).len() as int)
            =~= fen_prefix(rows, k - 1).take(fen_prefix(rows, j).len() as int));
    } else {
        assert(fen_prefix(rows, k).take(fen_prefix(rows, k).len() as int) =~= fen_prefix(rows, k));
    }
}

/// The board with the first `m` ranks of `rows` and the others empty.
spec fn filled_ranks(rows: Seq<Seq<Piece>>, m: int) -> Cells {
    Seq::new(8, |y: int| if y < m { rows[y] + empty_cells()[y].skip(rows[y].len() as int) } else { empty_cells()[y] })
}

proof fn lemma_parse_ranks(rows: Seq<Seq<Piece>>, k: int)
    requires
        rows.len() == 8,
        forall|y: int| 0 <= y < 8 ==> (#[trigger] rows[y]).len() <= 16 && all_well_formed(rows[y]),
        0 <= k < 8,
    ensures
        parse_fen(rows_fen_of(rows), 0, 0, 0, empty_cells())
            == parse_fen(rows_fen_of(rows), fen_prefix(rows, k).len(), rows[k].len() as int, k, filled_ranks(rows, k + 1)),
    decreases k,
{
    let s = rows_fen_of(rows);
    assert(rows.take(8) =~= rows);
    assert(s == fen_prefix(rows, 7));
    let e = empty_cells();
    if k == 0 {
        lemma_fen_prefix_of(rows, 0, 7);
        let p0 = fen_prefix(rows, 0);
        assert(rows.take(1).len() == 1);
        assert(p0 == rank_fen_of(rows[0]));
        assert(rows[0].skip(0) =~= rows[0]);
        assert(s.subrange(0, p0.len() as int) =~= p0);
        lemma_fen_prefix_of(rows, 1, 7);
        lemma_fen_prefix_step(rows, 1);
        assert(s[p0.len() as int] == fen_prefix(rows, 1)[p0.len() as int]);
        lemma_parse_rank(s, 0, rows[0], 0, 0, e);
        assert(e.update(0, e[0].take(0) + rows[0].skip(0) + e[0].skip(rows[0].len() as int)) =~= filled_ranks(rows, 1));
    } else {
        lemma_parse_ranks(rows, k - 1);
        let before = fen_prefix(rows, k - 1);
        let cur = fen_prefix(rows, k);
        lemma_fen_prefix_step(rows, k);
        lemma_fen_prefix_of(rows, k, 7);
        let i: int = before.len() as int + 1;
        assert(s[before.len() as int] == cur[before.len() as int]);
        assert(s[before.len() as int] == '/');
        assert(rows[k].skip(0) =~= rows[k]);
        assert(s.subrange(i, i + rank_fen_of(rows[k]).len()) =~= rank_fen_of(rows[k])) by {
            assert forall|t: int| 0 <= t < rank_fen_of(rows[k]).len() implies
                s.subrange(i, i + rank_fen_of(rows[k]).len())[t] == rank_fen_of(rows[k])[t] by {
                assert(s[i + t] == cur[i + t]);
            }
        }
        if k < 7 {
            lemma_fen_prefix_of(rows, k + 1, 7);
            lemma_fen_prefix_step(rows, k + 1);
            assert(s[cur.len() as int] == fen_prefix(rows, k + 1)[cur.len() as int]);
        }
        let c = filled_ranks(rows, k);
        assert forall|j: int| 0 <= j < 16 implies #[trigger] c[k][j].empty() by {}
        lemma_parse_rank(s, i, rows[k], 0, k, c);
        assert(c.update(k, c[k].take(0) + rows[k].skip(0) + c[k].skip(rows[k].len() as int)) =~= filled_ranks(rows, k + 1));
    }
}

/// Reading back the FEN of the files `lo..hi` of a board gives those files,
/// moved to the left edge, with the files after them empty (so each half
/// of `to_fen_left_right` reads back as that half).
pub proof fn law_fen_columns_round_trip(b: Board, lo: int, hi: int)
    requires
        b.well_formed(),
        0 <= lo <= hi <= 16,
    ensures
        board_of_fen(board_fen_of(b@, lo, hi))
            == Some(Seq::new(8, |y: int| b@[y].subrange(lo, hi) + empty_cells()[y].skip(hi - lo))),
{
    let rows = Seq::new(b@.len(), |y: int| b@[y].subrange(lo, hi));
    assert forall|y: int| 0 <= y < 8 implies (#[trigger] rows[y]).len() <= 16 && all_well_formed(rows[y]) by {
        assert forall|x: int| 0 <= x < rows[y].len() implies #[trigger] rows[y][x].well_formed() by {
            assert(rows[y][x] == b.at(lo + x, y));
        }
    }
    lemma_parse_ranks(rows, 7);
    assert(rows.take(8) =~= rows);
    assert(filled_ranks(rows, 8) =~= Seq::new(8, |y: int| b@[y].subrange(lo, hi) + empty_cells()[y].skip(hi - lo)));
}

/// Reading back the FEN of a board gives the board again.
pub proof fn law_fen_round_trip(b: Board)
    requires
        b.well_formed(),
    ensures
        board_of_fen(board_fen_of(b@, 0, 16)) == Some(b@),
{
    let rows = Seq::new(b@.len(), |y: int| b@[y].subrange(0, 16));
    assert(rows =~= b@) by {
        assert forall|y: int| 0 <= y < 8 implies #[trigger] rows[y] =~= b@[y] by {}
    }
    assert forall|y: int| 0 <= y < 8 implies (#[trigger] rows[y]).len() == 16 && all_well_formed(rows[y]) by {
        assert forall|x: int| 0 <= x < rows[y].len() implies #[trigger] rows[y][x].well_formed() by {
            assert(b.at(x, y).well_formed());
        }
    }
    lemma_parse_ranks(rows, 7);
    assert(rows.take(8) =~= rows);
    assert(filled_ranks(rows, 8) =~= b@);
}


/// The run that `pop_off_same` takes off and the pieces it leaves make up
/// the list again; the run is made of copies of the last piece, and the
/// piece before it, if any, differs.
pub proof fn law_pop_off_same_splits(s: Seq<Piece>)
    requires
        s.len() > 0,
    ensures
        ({
            let n = s.len() - trailing_run(s);
            &&& 0 <= n < s.len()
            &&& s.take(n) + s.skip(n) == s
            &&& forall|i: int| 0 <= i < s.skip(n).len() ==> #[trigger] s.skip(n)[i] == s.last()
            &&& n > 0 ==> s.take(n).last() != s.last()
        }),
{
    lemma_trailing_run(s);
    let n = s.len() - trailing_run(s);
    assert(s.take(n) + s.skip(n) =~= s);
    assert forall|i: int| 0 <= i < s.skip(n).len() implies #[trigger] s.skip(n)[i] == s.last() by {
        assert(s.skip(n)[i] == s[n + i]);
    }
}

/// Each ray stops at an occupied cell of the board, if it stops at all.
proof fn lemma_ray_hit_occupied(b: Cells, x: int, y: int, r: Ray, steps: nat)
    ensures
        ray_hit(b, x, y, r, steps) matches Some(p) ==> on_board(p.0 as int, p.1 as int)
            && !b[p.1 as int][p.0 as int].empty(),
    decreases steps,
{
    let nx = x + r.dx;
    let ny = y + r.dy;
    if steps > 0 && on_board(nx, ny) && b[ny][nx].empty() && r.repeat {
        lemma_ray_hit_occupied(b, nx, ny, r, (steps - 1) as nat);
    }
}

proof fn lemma_hits_occupied(b: Cells, x: int, y: int, rays: Seq<Ray>)
    ensures
        forall|t: int| 0 <= t < hits_of(b, x, y, rays).len() ==> on_board(
            (#[trigger] hits_of(b, x, y, rays)[t]).0 as int, hits_of(b, x, y, rays)[t].1 as int)
            && !b[hits_of(b, x, y, rays)[t].1 as int][hits_of(b, x, y, rays)[t].0 as int].empty(),
    decreases rays.len(),
{
    if rays.len() > 0 {
        let before = hits_of(b, x, y, rays.drop_last());
        lemma_hits_occupied(b, x, y, rays.drop_last());
        lemma_ray_hit_occupied(b, x, y, rays.last(), WIDTH as nat);
        let hits = hits_of(b, x, y, rays);
        assert forall|t: int| 0 <= t < hits.len() implies on_board((#[trigger] hits[t]).0 as int, hits[t].1 as int)
            && !b[hits[t].1 as int][hits[t].0 as int].empty() by {
            if t < before.len() {
                assert(hits[t] == before[t]);
            }
        }
    }
}

/// Every position that a piece attacks lies on the board and holds a piece.
pub proof fn law_attacked_occupied(b: Cells, x: int, y: int)
    ensures
        forall|t: int| 0 <= t < attacked_from(b, x, y).len() ==> on_board(
            (#[trigger] attacked_from(b, x, y)[t]).0 as int, attacked_from(b, x, y)[t].1 as int)
            && !b[attacked_from(b, x, y)[t].1 as int][attacked_from(b, x, y)[t].0 as int].empty(),
{
    lemma_hits_occupied(b, x, y, rays_of(b[y][x].0));
}

/// A sliding ray moves one cell at a time, along a line or a diagonal.
pub open spec fn unit_slide(r: Ray) -> bool {
    r.repeat ==> -1 <= r.dx <= 1 && -1 <= r.dy <= 1 && (r.dx != 0 || r.dy != 0)
}

/// Steps after which a sliding ray from `(x, y)` has surely left the board.
pub open spec fn exit_bound(x: int, y: int, r: Ray) -> int {
    if r.dx > 0 {
        WIDTH - x
    } else if r.dx < 0 {
        x + 1
    } else if r.dy > 0 {
        HEIGHT - y
    } else {
        y + 1
    }
}

proof fn lemma_ray_hit_steps(b: Cells, x: int, y: int, r: Ray, s1: nat, s2: nat)
    requires
        on_board(x, y),
        unit_slide(r),
        s1 >= 1,
        s2 >= 1,
        r.repeat ==> s1 >= exit_bound(x, y, r) && s2 >= exit_bound(x, y, r),
    ensures
        ray_hit(b, x, y, r, s1) == ray_hit(b, x, y, r, s2),
    decreases s1,
{
    let nx = x + r.dx;
    let ny = y + r.dy;
    if on_board(nx, ny) && b[ny][nx].empty() && r.repeat {
        assert(exit_bound(nx, ny, r) == exit_bound(x, y, r) - 1);
        lemma_ray_hit_steps(b, nx, ny, r, (s1 - 1) as nat, (s2 - 1) as nat);
    }
}

/// Every ray of a piece is a single step or a sliding ray of unit steps.
proof fn lemma_rays_unit(p: u8)
    ensures
        forall|i: int| 0 <= i < rays_of(p).len() ==> unit_slide(#[trigger] rays_of(p)[i]),
{
    assert forall|i: int| 0 <= i < rook_rays().len() implies unit_slide(#[trigger] rook_rays()[i]) by {}
    assert forall|i: int| 0 <= i < bishop_rays().len() implies unit_slide(#[trigger] bishop_rays()[i]) by {}
    assert forall|i: int| 0 <= i < (rook_rays() + bishop_rays()).len()
        implies unit_slide(#[trigger] (rook_rays() + bishop_rays())[i]) by {
        if i < 4 {
            assert((rook_rays() + bishop_rays())[i] == rook_rays()[i]);
        } else {
            assert((rook_rays() + bishop_rays())[i] == bishop_rays()[i - 4]);
        }
    }
}

/// Looking further than `WIDTH` cells along a ray of a piece finds nothing
/// more: within that many steps every ray has met a piece or left the
/// board, so the bounded walk finds what an unbounded one would.
pub proof fn law_rays_leave_the_board(b: Cells, x: int, y: int, p: u8, n: nat)
    requires
        on_board(x, y),
        n >= WIDTH,
    ensures
        forall|i: int| 0 <= i < rays_of(p).len()
            ==> ray_hit(b, x, y, #[trigger] rays_of(p)[i], n) == ray_hit(b, x, y, rays_of(p)[i], WIDTH as nat),
{
    lemma_rays_unit(p);
    assert forall|i: int| 0 <= i < rays_of(p).len()
        implies ray_hit(b, x, y, #[trigger] rays_of(p)[i], n) == ray_hit(b, x, y, rays_of(p)[i], WIDTH as nat) by {
        lemma_ray_hit_steps(b, x, y, rays_of(p)[i], n, WIDTH as nat);
    }
}

/// `(x, y)` lies strictly beyond `(x0, y0)` in the direction of the ray.
pub open spec fn beyond(x: int, y: int, x0: int, y0: int, r: Ray) -> bool {
    ||| r.dx > 0 && x > x0
    ||| r.dx < 0 && x < x0
    ||| r.dx == 0 && r.dy > 0 && y > y0
    ||| r.dx == 0 && r.dy < 0 && y < y0
}

/// A ray never comes back to the cell it starts from, so what stands there
/// does not change where it stops.
proof fn lemma_ray_hit_elsewhere(b1: Cells, b2: Cells, x0: int, y0: int, x: int, y: int, r: Ray, s: nat)
    requires
        forall|xx: int, yy: int| on_board(xx, yy) && (xx, yy) != (x0, y0) ==> #[trigger] b1[yy][xx] == b2[yy][xx],
        r.dx != 0 || r.dy != 0,
        (x == x0 && y == y0) || beyond(x, y, x0, y0, r),
    ensures
        ray_hit(b1, x, y, r, s) == ray_hit(b2, x, y, r, s),
    decreases s,
{
    let nx = x + r.dx;
    let ny = y + r.dy;
    assert(beyond(nx, ny, x0, y0, r));
    if s > 0 && on_board(nx, ny) {
        assert(b1[ny][nx] == b2[ny][nx]);
        lemma_ray_hit_elsewhere(b1, b2, x0, y0, nx, ny, r, (s - 1) as nat);
    }
}

proof fn lemma_hits_elsewhere(b1: Cells, b2: Cells, x: int, y: int, rays: Seq<Ray>)
    requires
        forall|xx: int, yy: int| on_board(xx, yy) && (xx, yy) != (x, y) ==> #[trigger] b1[yy][xx] == b2[yy][xx],
        forall|i: int| 0 <= i < rays.len() ==> (#[trigger] rays[i]).dx != 0 || rays[i].dy != 0,
    ensures
        hits_of(b1, x, y, rays) == hits_of(b2, x, y, rays),
    decreases rays.len(),
{
    if rays.len() > 0 {
        lemma_hits_elsewhere(b1, b2, x, y, rays.drop_last());
        assert(rays.last() == rays[rays.len() - 1]);
        lemma_ray_hit_elsewhere(b1, b2, x, y, x, y, rays.last(), WIDTH as nat);
    }
}

proof fn lemma_hits_concat(b: Cells, x: int, y: int, a: Seq<Ray>, c: Seq<Ray>)
    ensures
        hits_of(b, x, y, a + c) == hits_of(b, x, y, a) + hits_of(b, x, y, c),
    decreases c.len(),
{
    if c.len() == 0 {
        assert(a + c =~= a);
        assert(hits_of(b, x, y, a) + hits_of(b, x, y, c) =~= hits_of(b, x, y, a));
    } else {
        lemma_hits_concat(b, x, y, a, c.drop_last());
        assert((a + c).drop_last() =~= a + c.drop_last());
        assert((a + c).last() == c.last());
        let before = hits_of(b, x, y, a) + hits_of(b, x, y, c.drop_last());
        match ray_hit(b, x, y, c.last(), WIDTH as nat) {
            Some(pos) => {
                assert(before.push(pos) =~= hits_of(b, x, y, a) + hits_of(b, x, y, c.drop_last()).push(pos));
            },
            None => {},
        }
    }
}

/// A queen attacks what a rook and then a bishop would attack from its
/// cell, the rest of the board being the same.
pub proof fn law_queen_is_rook_and_bishop(b: Cells, x: int, y: int, white: bool)
    requires
        shaped(b),
        on_board(x, y),
    ensures
        ({
            let c = if white { WHITE } else { BLACK };
            attacked_from(set_cell(b, x, y, Piece(c | QUEEN)), x, y)
                == attacked_from(set_cell(b, x, y, Piece(c | ROOK)), x, y)
                    + attacked_from(set_cell(b, x, y, Piece(c | BISHOP)), x, y)
        }),
{
    let c = if white { WHITE } else { BLACK };
    lemma_flag_bits(0);
    let q = set_cell(b, x, y, Piece(c | QUEEN));
    let r = set_cell(b, x, y, Piece(c | ROOK));
    let bb = set_cell(b, x, y, Piece(c | BISHOP));
    lemma_flag_bits(c | QUEEN);
    lemma_flag_bits(c | ROOK);
    lemma_flag_bits(c | BISHOP);
    assert(q[y][x] == Piece(c | QUEEN));
    assert(r[y][x] == Piece(c | ROOK));
    assert(bb[y][x] == Piece(c | BISHOP));
    assert(rays_of((c | QUEEN) as u8) == rook_rays() + bishop_rays());
    assert(rays_of((c | ROOK) as u8) == rook_rays());
    assert(rays_of((c | BISHOP) as u8) == bishop_rays());
    assert forall|i: int| 0 <= i < rook_rays().len() implies (#[trigger] rook_rays()[i]).dx != 0 || rook_rays()[i].dy != 0 by {}
    assert forall|i: int| 0 <= i < bishop_rays().len() implies (#[trigger] bishop_rays()[i]).dx != 0 || bishop_rays()[i].dy != 0 by {}
    assert forall|xx: int, yy: int| on_board(xx, yy) && (xx, yy) != (x, y) implies #[trigger] q[yy][xx] == r[yy][xx] by {}
    assert forall|xx: int, yy: int| on_board(xx, yy) && (xx, yy) != (x, y) implies #[trigger] q[yy][xx] == bb[yy][xx] by {}
    lemma_hits_concat(q, x, y, rook_rays(), bishop_rays());
    lemma_hits_elsewhere(q, r, x, y, rook_rays());
    lemma_hits_elsewhere(q, bb, x, y, bishop_rays());
}
} // verus!
