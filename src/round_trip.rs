//! Laws of the FEN encoding: the text `to_fen` writes is accepted by
//! `verify_fen` and read back by `initialize_from_fen` as the position it
//! came from, and a position read from valid text is well formed.

use vstd::prelude::*;
use crate::fen::{
    is_ws, split_ws, split_on, count_char, digits_ok, number, is_piece_char, is_gap_digit,
    rank_width, rank_ok, fen_ok, fen_readable, placement_ok, side_ok, castling_ok, en_passant_ok, is_castle_char,
};
use crate::moves::lemma_attack_map_placement;
use crate::board::{
    castling_text, castling_value, fen_text, board_of_fen, place_rank, place_ranks, put_piece, blank,
    digit_char, decimal, gap_text, rank_text_from, placement_from, piece_char_at, piece_letter,
    ChessBoard, PieceKind,
};
use crate::utils::{
    sq_in, sq_of, bit, is_square_bb, lemma_has_ops, lemma_bit_facts, square_name, square_of_name,
    file_char, rank_char, valid_square_name,
};
use crate::laws::{occupancy_at, lemma_occupancy_bits, lemma_bits_ext, legal_move, applied_all};
use crate::apply::{applied, captured_kind, move_from, move_to, move_flag, capture_square, castle_rook};

verus! {

/// A non-empty run without separators is one field.
pub proof fn lemma_split_ws_single(x: Seq<char>)
    requires
        x.len() > 0,
        forall|k: int| 0 <= k < x.len() ==> !is_ws(#[trigger] x[k]),
    ensures
        split_ws(x) == seq![x],
    decreases x.len(),
{
    let y = x.drop_last();
    assert(!is_ws(x[x.len() - 1]));
    if y.len() > 0 {
        lemma_split_ws_single(y);
        assert(!is_ws(x[x.len() - 2]));
        assert(y.push(x.last()) =~= x);
        let rest = split_ws(x.drop_last());
        assert(rest == seq![y]);
        assert(rest.len() > 0);
        assert(x.len() >= 2);
        assert(split_ws(x) == rest.update(rest.len() - 1, rest.last().push(x.last())));
        assert(seq![y].update(0, y.push(x.last())) =~= seq![x]);
    } else {
        assert(y =~= Seq::<char>::empty());
        assert(seq![x.last()] =~= x);
        assert(split_ws(y) == Seq::<Seq<char>>::empty());
        assert(Seq::<Seq<char>>::empty().push(x) =~= seq![x]);
    }
}

/// A separator and a non-empty run without separators add one field.
pub proof fn lemma_split_ws_append(p: Seq<char>, x: Seq<char>)
    requires
        x.len() > 0,
        forall|k: int| 0 <= k < x.len() ==> !is_ws(#[trigger] x[k]),
    ensures
        split_ws(p + seq![' '] + x) == split_ws(p).push(x),
    decreases x.len(),
{
    let s = p + seq![' '] + x;
    let y = x.drop_last();
    assert(s.drop_last() =~= p + seq![' '] + y);
    assert(s.last() == x.last());
    assert(!is_ws(x[x.len() - 1]));
    if y.len() > 0 {
        lemma_split_ws_append(p, y);
        assert(s[s.len() - 2] == y.last());
        assert(!is_ws(x[x.len() - 2]));
        assert(y.push(x.last()) =~= x);
        assert(split_ws(p).push(y).update(split_ws(p).len() as int, y.push(x.last())) =~= split_ws(p).push(x));
    } else {
        let q = p + seq![' '];
        assert(q.drop_last() =~= p);
        assert(y =~= Seq::<char>::empty());
        assert(s.drop_last() =~= q);
        assert(s[s.len() - 2] == ' ');
        assert(seq![x.last()] =~= x);
        assert(split_ws(q) == split_ws(p));
    }
}

/// Occurrences add up over a concatenation.
pub proof fn lemma_count_concat(a: Seq<char>, b: Seq<char>, c: char)
    ensures
        count_char(a + b, c) == count_char(a, c) + count_char(b, c),
    decreases b.len(),
{
    if b.len() > 0 {
        lemma_count_concat(a, b.drop_last(), c);
        assert((a + b).drop_last() =~= a + b.drop_last());
    } else {
        assert(a + b =~= a);
    }
}

/// Splitting always yields at least one piece.
pub proof fn lemma_split_on_nonempty(s: Seq<char>, d: char)
    ensures
        split_on(s, d).len() > 0,
    decreases s.len(),
{
    if s.len() > 0 {
        lemma_split_on_nonempty(s.drop_last(), d);
    }
}

/// Text without the separator is one piece.
pub proof fn lemma_split_on_single(a: Seq<char>, d: char)
    requires
        forall|k: int| 0 <= k < a.len() ==> #[trigger] a[k] != d,
    ensures
        split_on(a, d) == seq![a],
    decreases a.len(),
{
    if a.len() > 0 {
        let y = a.drop_last();
        lemma_split_on_single(y, d);
        assert(y.push(a.last()) =~= a);
        assert(seq![y].update(0, y.push(a.last())) =~= seq![a]);
    } else {
        assert(a =~= Seq::<char>::empty());
    }
}

/// Splitting at a separator splits the two sides apart.
pub proof fn lemma_split_on_join(a: Seq<char>, c: Seq<char>, d: char)
    ensures
        split_on(a + seq![d] + c, d) == split_on(a, d) + split_on(c, d),
    decreases c.len(),
{
    let s = a + seq![d] + c;
    if c.len() == 0 {
        assert(s =~= a.push(d));
        assert(s.drop_last() =~= a);
        assert(split_on(a, d).push(Seq::empty()) =~= split_on(a, d) + seq![Seq::<char>::empty()]);
    } else {
        let c1 = c.drop_last();
        lemma_split_on_join(a, c1, d);
        assert(s.drop_last() =~= a + seq![d] + c1);
        lemma_split_on_nonempty(c1, d);
        lemma_split_on_nonempty(a, d);
        let left = split_on(a, d);
        let right = split_on(c1, d);
        if c.last() == d {
            assert((left + right).push(Seq::empty()) =~= left + right.push(Seq::empty()));
        } else {
            let r2 = right.update(right.len() - 1, right.last().push(c.last()));
            let lr = left + right;
            assert(lr.update(lr.len() - 1, lr.last().push(c.last())) =~= left + r2);
        }
    }
}

/// The value of a decimal digit.
pub proof fn lemma_digit_char(d: int)
    requires
        0 <= d < 10,
    ensures
        digit_char(d) as int == '0' as int + d,
        '0' <= digit_char(d) <= '9',
{
    if d == 0 {
        assert(digit_char(d) == '0');
    } else if d == 1 {
        assert(digit_char(d) == '1');
    } else if d == 2 {
        assert(digit_char(d) == '2');
    } else if d == 3 {
        assert(digit_char(d) == '3');
    } else if d == 4 {
        assert(digit_char(d) == '4');
    } else if d == 5 {
        assert(digit_char(d) == '5');
    } else if d == 6 {
        assert(digit_char(d) == '6');
    } else if d == 7 {
        assert(digit_char(d) == '7');
    } else if d == 8 {
        assert(digit_char(d) == '8');
    } else if d == 9 {
        assert(digit_char(d) == '9');
    }
}

/// Decimal text is digits and reads back as its number.
pub proof fn lemma_decimal(n: nat)
    ensures
        digits_ok(decimal(n)),
        number(decimal(n)) == n,
    decreases n,
{
    lemma_digit_char((n % 10) as int);
    if n >= 10 {
        lemma_decimal(n / 10);
        let x = decimal(n / 10);
        assert(x.push(digit_char((n % 10) as int)).drop_last() =~= x);
        assert(n == (n / 10) * 10 + n % 10);
    } else {
        assert(seq![digit_char(n as int)].drop_last() =~= Seq::<char>::empty());
        assert(number(Seq::<char>::empty()) == 0);
    }
}

/// Piece letters and gap digits only.
pub open spec fn rank_chars(t: Seq<char>) -> bool {
    forall|k: int| 0 <= k < t.len() ==> is_piece_char(#[trigger] t[k]) || is_gap_digit(t[k])
}

/// Widths add up over a concatenation.
pub proof fn lemma_width_concat(a: Seq<char>, b: Seq<char>)
    ensures
        rank_width(a + b) == rank_width(a) + rank_width(b),
    decreases b.len(),
{
    if b.len() > 0 {
        lemma_width_concat(a, b.drop_last());
        assert((a + b).drop_last() =~= a + b.drop_last());
    } else {
        assert(a + b =~= a);
    }
}

proof fn lemma_letter_is_piece_char(k: PieceKind, white: bool)
    ensures
        is_piece_char(piece_letter(k, white)),
        rank_width(seq![piece_letter(k, white)]) == 1,
{
    assert(seq![piece_letter(k, white)].drop_last() =~= Seq::<char>::empty());
    assert(rank_width(Seq::<char>::empty()) == 0);
}

proof fn lemma_gap_text(run: int)
    requires
        0 <= run <= 8,
    ensures
        rank_chars(gap_text(run)),
        rank_width(gap_text(run)) == run,
        gap_text(run).len() == if run > 0 {
            1int
        } else {
            0int
        },
{
    if run > 0 {
        lemma_digit_char(run);
        assert(seq![digit_char(run)].drop_last() =~= Seq::<char>::empty());
        assert(rank_width(Seq::<char>::empty()) == 0);
        assert(!is_piece_char(digit_char(run)));
        assert(is_gap_digit(digit_char(run)));
    } else {
        assert(rank_width(Seq::<char>::empty()) == 0);
    }
}

/// The text of a rank from file `f`, after `run` empty squares, covers the
/// remaining squares with piece letters and gap digits.
pub proof fn lemma_rank_text(b: ChessBoard, r: int, f: int, run: int)
    requires
        0 <= f <= 8,
        0 <= run <= f,
    ensures
        rank_chars(rank_text_from(b, r, f, run)),
        rank_width(rank_text_from(b, r, f, run)) == 8 - f + run,
    decreases 8 - f,
{
    if f >= 8 {
        lemma_gap_text(run);
    } else {
        match piece_char_at(b, r * 8 + f) {
            Some(c) => {
                lemma_rank_text(b, r, f + 1, 0);
                lemma_gap_text(run);
                let k = b.kind_at(r * 8 + f).unwrap();
                lemma_letter_is_piece_char(k, sq_in(b.white_pieces, r * 8 + f));
                let g = gap_text(run);
                let rest = rank_text_from(b, r, f + 1, 0);
                lemma_width_concat(g, seq![c]);
                lemma_width_concat(g + seq![c], rest);
                let t = g + seq![c] + rest;
                assert forall|k: int| 0 <= k < t.len() implies is_piece_char(#[trigger] t[k])
                    || is_gap_digit(t[k]) by {
                    if k < g.len() {
                        assert(t[k] == g[k]);
                    } else if k == g.len() {
                        assert(t[k] == c);
                    } else {
                        assert(t[k] == rest[k - g.len() - 1]);
                    }
                }
            },
            None => {
                lemma_rank_text(b, r, f + 1, run + 1);
            },
        }
    }
}

/// The texts of ranks `r` down to 1.
pub open spec fn ranks_list(b: ChessBoard, r: int) -> Seq<Seq<char>>
    decreases r,
{
    if r <= 0 {
        seq![rank_text_from(b, 0, 0, 0)]
    } else {
        seq![rank_text_from(b, r, 0, 0)] + ranks_list(b, r - 1)
    }
}

proof fn lemma_rank_no_slash(b: ChessBoard, r: int)
    ensures
        rank_chars(rank_text_from(b, r, 0, 0)),
        rank_width(rank_text_from(b, r, 0, 0)) == 8,
        forall|k: int|
            0 <= k < rank_text_from(b, r, 0, 0).len() ==> #[trigger] rank_text_from(b, r, 0, 0)[k]
                != '/',
{
    lemma_rank_text(b, r, 0, 0);
    let t = rank_text_from(b, r, 0, 0);
    assert forall|k: int| 0 <= k < t.len() implies #[trigger] t[k] != '/' by {
        assert(is_piece_char(t[k]) || is_gap_digit(t[k]));
    }
}

/// The placement text splits at `/` into the rank texts.
pub proof fn lemma_split_placement(b: ChessBoard, r: int)
    requires
        0 <= r <= 7,
    ensures
        split_on(placement_from(b, r), '/') == ranks_list(b, r),
        ranks_list(b, r).len() == r + 1,
        forall|k: int| 0 <= k <= r ==> #[trigger] ranks_list(b, r)[k] == rank_text_from(b, r - k, 0, 0),
    decreases r,
{
    lemma_rank_no_slash(b, r);
    lemma_split_on_single(rank_text_from(b, r, 0, 0), '/');
    if r > 0 {
        lemma_split_placement(b, r - 1);
        lemma_split_on_join(rank_text_from(b, r, 0, 0), placement_from(b, r - 1), '/');
        let rest = ranks_list(b, r - 1);
        assert forall|k: int| 0 <= k <= r implies #[trigger] ranks_list(b, r)[k] == rank_text_from(
            b,
            r - k,
            0,
            0,
        ) by {
            if k > 0 {
                assert(ranks_list(b, r)[k] == rest[k - 1]);
            }
        }
    }
}

/// How many squares of rank `r`, from file `f` on, hold a piece written `c`.
pub open spec fn letter_count(b: ChessBoard, r: int, f: int, c: char) -> int
    decreases 8 - f,
{
    if f >= 8 {
        0
    } else {
        (if piece_char_at(b, r * 8 + f) == Some(c) {
            1int
        } else {
            0int
        }) + letter_count(b, r, f + 1, c)
    }
}

/// The same count over ranks `r` down to 1.
pub open spec fn placement_count(b: ChessBoard, r: int, c: char) -> int
    decreases r,
{
    if r <= 0 {
        letter_count(b, 0, 0, c)
    } else {
        letter_count(b, r, 0, c) + placement_count(b, r - 1, c)
    }
}

proof fn lemma_rank_count(b: ChessBoard, r: int, f: int, run: int, c: char)
    requires
        is_piece_char(c),
        0 <= f <= 8,
        0 <= run <= f,
    ensures
        count_char(rank_text_from(b, r, f, run), c) == letter_count(b, r, f, c),
    decreases 8 - f,
{
    let g = gap_text(run);
    lemma_gap_text(run);
    assert(count_char(Seq::<char>::empty(), c) == 0);
    if run > 0 {
        lemma_digit_char(run);
        assert(g.drop_last() =~= Seq::<char>::empty());
        assert(count_char(g, c) == 0);
    } else {
        assert(count_char(g, c) == 0);
    }
    if f < 8 {
        match piece_char_at(b, r * 8 + f) {
            Some(x) => {
                lemma_rank_count(b, r, f + 1, 0, c);
                let rest = rank_text_from(b, r, f + 1, 0);
                lemma_count_concat(g, seq![x], c);
                lemma_count_concat(g + seq![x], rest, c);
                assert(seq![x].drop_last() =~= Seq::<char>::empty());
            },
            None => {
                lemma_rank_count(b, r, f + 1, run + 1, c);
            },
        }
    }
}

proof fn lemma_placement_count(b: ChessBoard, r: int, c: char)
    requires
        is_piece_char(c),
        0 <= r <= 7,
    ensures
        count_char(placement_from(b, r), c) == placement_count(b, r, c),
    decreases r,
{
    lemma_rank_count(b, r, 0, 0, c);
    if r > 0 {
        lemma_placement_count(b, r - 1, c);
        let t = rank_text_from(b, r, 0, 0);
        lemma_count_concat(t, seq!['/'], c);
        lemma_count_concat(t + seq!['/'], placement_from(b, r - 1), c);
        assert(seq!['/'].drop_last() =~= Seq::<char>::empty());
        assert(count_char(Seq::<char>::empty(), c) == 0);
    }
}

proof fn lemma_unique_letter_rank(b: ChessBoard, r: int, f: int, c: char, k0: int)
    requires
        0 <= r < 8,
        0 <= f <= 8,
        forall|j: int| 0 <= j < 64 ==> (#[trigger] piece_char_at(b, j) == Some(c)) == (j == k0),
    ensures
        letter_count(b, r, f, c) == if k0 / 8 == r && k0 % 8 >= f && 0 <= k0 < 64 {
            1int
        } else {
            0int
        },
    decreases 8 - f,
{
    if f < 8 {
        lemma_unique_letter_rank(b, r, f + 1, c, k0);
        assert(piece_char_at(b, r * 8 + f) == Some(c) <==> r * 8 + f == k0);
    }
}

proof fn lemma_unique_letter(b: ChessBoard, r: int, c: char, k0: int)
    requires
        0 <= r < 8,
        0 <= k0 < 64,
        forall|j: int| 0 <= j < 64 ==> (#[trigger] piece_char_at(b, j) == Some(c)) == (j == k0),
    ensures
        placement_count(b, r, c) == if k0 / 8 <= r {
            1int
        } else {
            0int
        },
    decreases r,
{
    lemma_unique_letter_rank(b, r, 0, c, k0);
    if r > 0 {
        lemma_unique_letter(b, r - 1, c, k0);
    }
}

/// One king of each color, each on its own single square.
pub open spec fn one_king_each(b: ChessBoard) -> bool {
    is_square_bb(b.kings & b.white_pieces) && is_square_bb(b.kings & b.black_pieces)
}

proof fn lemma_king_letters(b: ChessBoard)
    requires
        b.occupancy_ok(),
        one_king_each(b),
    ensures
        forall|j: int|
            0 <= j < 64 ==> (#[trigger] piece_char_at(b, j) == Some('K')) == (j == sq_of(
                b.kings & b.white_pieces,
            )),
        forall|j: int|
            0 <= j < 64 ==> (#[trigger] piece_char_at(b, j) == Some('k')) == (j == sq_of(
                b.kings & b.black_pieces,
            )),
{
    let wk = sq_of(b.kings & b.white_pieces);
    let bk = sq_of(b.kings & b.black_pieces);
    assert forall|j: int| 0 <= j < 64 implies (#[trigger] piece_char_at(b, j) == Some('K')) == (j
        == wk) && (piece_char_at(b, j) == Some('k')) == (j == bk) by {
        lemma_occupancy_bits(b, j);
        lemma_has_ops(b.kings, b.white_pieces, j as u64);
        lemma_has_ops(b.kings, b.black_pieces, j as u64);
        lemma_bit_facts(wk as u64, j as u64);
        lemma_bit_facts(bk as u64, j as u64);
        match b.kind_at(j) {
            Some(k) => {
                assert(piece_letter(k, sq_in(b.white_pieces, j)) == 'K' <==> (k == PieceKind::King
                    && sq_in(b.white_pieces, j)));
                assert(piece_letter(k, sq_in(b.white_pieces, j)) == 'k' <==> (k == PieceKind::King
                    && !sq_in(b.white_pieces, j)));
            },
            None => {},
        }
    }
}

proof fn lemma_place_rank_suffix(acc: ChessBoard, t: Seq<char>, r: int, k: int, f: int)
    requires
        0 <= k <= t.len(),
    ensures
        place_rank(acc, t, r, k, f) == place_rank(acc, t.subrange(k, t.len() as int), r, 0, f),
    decreases t.len() - k,
{
    let u = t.subrange(k, t.len() as int);
    if k < t.len() {
        let c = t[k];
        assert(u[0] == c);
        assert(u.subrange(1, u.len() as int) =~= t.subrange(k + 1, t.len() as int));
        if is_gap_digit(c) {
            let f1 = f + (c as int - '0' as int);
            lemma_place_rank_suffix(acc, t, r, k + 1, f1);
            lemma_place_rank_suffix(acc, u, r, 1, f1);
        } else {
            let a1 = put_piece(acc, c, r * 8 + f);
            lemma_place_rank_suffix(a1, t, r, k + 1, f + 1);
            lemma_place_rank_suffix(a1, u, r, 1, f + 1);
        }
    }
}

/// `acc` with the pieces of `b` on rank `r`, from file `f` on, placed.
pub open spec fn add_rank(acc: ChessBoard, b: ChessBoard, r: int, f: int) -> ChessBoard
    decreases 8 - f,
{
    if f >= 8 {
        acc
    } else {
        match piece_char_at(b, r * 8 + f) {
            Some(c) => add_rank(put_piece(acc, c, r * 8 + f), b, r, f + 1),
            None => add_rank(acc, b, r, f + 1),
        }
    }
}

proof fn lemma_place_rank_text(acc: ChessBoard, b: ChessBoard, r: int, f: int, run: int)
    requires
        0 <= f <= 8,
        0 <= run <= f,
    ensures
        place_rank(acc, rank_text_from(b, r, f, run), r, 0, f - run) == add_rank(acc, b, r, f),
    decreases 8 - f,
{
    let g = gap_text(run);
    lemma_gap_text(run);
    if run > 0 {
        lemma_digit_char(run);
    }
    if f >= 8 {
        if run > 0 {
            assert(place_rank(acc, g, r, 1, 8) == acc);
        }
    } else {
        match piece_char_at(b, r * 8 + f) {
            Some(c) => {
                let k = b.kind_at(r * 8 + f).unwrap();
                lemma_letter_is_piece_char(k, sq_in(b.white_pieces, r * 8 + f));
                assert(!is_gap_digit(c));
                let rest = rank_text_from(b, r, f + 1, 0);
                let t = g + seq![c] + rest;
                let a1 = put_piece(acc, c, r * 8 + f);
                lemma_place_rank_text(a1, b, r, f + 1, 0);
                lemma_place_rank_suffix(a1, t, r, g.len() as int + 1, f + 1);
                assert(t.subrange(g.len() as int + 1, t.len() as int) =~= rest);
                assert(t[g.len() as int] == c);
                if run > 0 {
                    assert(t[0] == digit_char(run));
                    assert(place_rank(acc, t, r, 0, f - run) == place_rank(acc, t, r, 1, f));
                }
            },
            None => {
                lemma_place_rank_text(acc, b, r, f + 1, run + 1);
            },
        }
    }
}

/// `acc` with the pieces of `b` on the top `n` ranks placed, rank 8 first.
pub open spec fn add_ranks(acc: ChessBoard, b: ChessBoard, n: int) -> ChessBoard
    decreases n,
{
    if n <= 0 {
        acc
    } else {
        add_rank(add_ranks(acc, b, n - 1), b, 8 - n, 0)
    }
}

proof fn lemma_place_ranks(b: ChessBoard, n: int)
    requires
        0 <= n <= 8,
    ensures
        place_ranks(blank(), ranks_list(b, 7), n) == add_ranks(blank(), b, n),
    decreases n,
{
    if n > 0 {
        lemma_place_ranks(b, n - 1);
        lemma_split_placement(b, 7);
        assert(ranks_list(b, 7)[n - 1] == rank_text_from(b, 8 - n, 0, 0));
        lemma_place_rank_text(add_ranks(blank(), b, n - 1), b, 8 - n, 0, 0);
    }
}

/// The eight bitboards of `b` on square `j`.
pub open spec fn bits_at(b: ChessBoard, j: int) -> Seq<bool> {
    seq![
        sq_in(b.pawns, j),
        sq_in(b.knights, j),
        sq_in(b.bishops, j),
        sq_in(b.rooks, j),
        sq_in(b.queens, j),
        sq_in(b.kings, j),
        sq_in(b.white_pieces, j),
        sq_in(b.black_pieces, j),
    ]
}

/// The bitboards that piece letter `c` marks.
pub open spec fn letter_bits(c: char) -> Seq<bool> {
    seq![
        c == 'P' || c == 'p',
        c == 'N' || c == 'n',
        c == 'B' || c == 'b',
        c == 'R' || c == 'r',
        c == 'Q' || c == 'q',
        !(c == 'P' || c == 'p' || c == 'N' || c == 'n' || c == 'B' || c == 'b' || c == 'R' || c
            == 'r' || c == 'Q' || c == 'q'),
        'A' <= c <= 'Z',
        !('A' <= c <= 'Z'),
    ]
}

/// Pointwise or of two rows of eight flags.
pub open spec fn or_bits(a: Seq<bool>, b: Seq<bool>) -> Seq<bool> {
    Seq::new(8, |k: int| a[k] || b[k])
}

proof fn lemma_put_piece_bits(acc: ChessBoard, c: char, i: int, j: int)
    requires
        0 <= i < 64,
        0 <= j < 64,
    ensures
        bits_at(put_piece(acc, c, i), j) == if i == j {
            or_bits(bits_at(acc, j), letter_bits(c))
        } else {
            bits_at(acc, j)
        },
{
    let m = bit(i);
    lemma_bit_facts(i as u64, j as u64);
    lemma_has_ops(acc.pawns, m, j as u64);
    lemma_has_ops(acc.knights, m, j as u64);
    lemma_has_ops(acc.bishops, m, j as u64);
    lemma_has_ops(acc.rooks, m, j as u64);
    lemma_has_ops(acc.queens, m, j as u64);
    lemma_has_ops(acc.kings, m, j as u64);
    lemma_has_ops(acc.white_pieces, m, j as u64);
    lemma_has_ops(acc.black_pieces, m, j as u64);
    if i == j {
        assert(bits_at(put_piece(acc, c, i), j) =~= or_bits(bits_at(acc, j), letter_bits(c)));
    } else {
        assert(bits_at(put_piece(acc, c, i), j) =~= bits_at(acc, j));
    }
}

/// What the text of `b` places on square `j`: the bitboards its letter marks,
/// or nothing on an empty square.
pub open spec fn placed_bits(b: ChessBoard, j: int) -> Seq<bool> {
    match piece_char_at(b, j) {
        Some(c) => letter_bits(c),
        None => seq![false, false, false, false, false, false, false, false],
    }
}

proof fn lemma_add_rank_bits(acc: ChessBoard, b: ChessBoard, r: int, f: int, j: int)
    requires
        0 <= r < 8,
        0 <= f <= 8,
        0 <= j < 64,
    ensures
        bits_at(add_rank(acc, b, r, f), j) == if j / 8 == r && j % 8 >= f {
            or_bits(bits_at(acc, j), placed_bits(b, j))
        } else {
            bits_at(acc, j)
        },
    decreases 8 - f,
{
    if f < 8 {
        let i = r * 8 + f;
        match piece_char_at(b, i) {
            Some(c) => {
                let a1 = put_piece(acc, c, i);
                lemma_add_rank_bits(a1, b, r, f + 1, j);
                lemma_put_piece_bits(acc, c, i, j);
                if i == j {
                    assert(or_bits(bits_at(acc, j), placed_bits(b, j)) =~= bits_at(a1, j));
                }
            },
            None => {
                lemma_add_rank_bits(acc, b, r, f + 1, j);
                if i == j {
                    assert(or_bits(bits_at(acc, j), placed_bits(b, j)) =~= bits_at(acc, j));
                }
            },
        }
    }
}

proof fn lemma_add_ranks_bits(b: ChessBoard, n: int, j: int)
    requires
        0 <= n <= 8,
        0 <= j < 64,
    ensures
        bits_at(add_ranks(blank(), b, n), j) == if j / 8 >= 8 - n {
            placed_bits(b, j)
        } else {
            seq![false, false, false, false, false, false, false, false]
        },
    decreases n,
{
    if n == 0 {
        lemma_has_ops(0, 0, j as u64);
        assert(bits_at(blank(), j) =~= seq![false, false, false, false, false, false, false, false]);
    } else {
        lemma_add_ranks_bits(b, n - 1, j);
        lemma_add_rank_bits(add_ranks(blank(), b, n - 1), b, 8 - n, 0, j);
        if j / 8 == 8 - n {
            assert(or_bits(seq![false, false, false, false, false, false, false, false], placed_bits(b, j))
                =~= placed_bits(b, j));
        }
    }
}

proof fn lemma_placed_bits(b: ChessBoard, j: int)
    requires
        0 <= j < 64,
        occupancy_at(b, j),
    ensures
        placed_bits(b, j) == bits_at(b, j),
{
    assert(placed_bits(b, j) =~= bits_at(b, j));
}

proof fn lemma_count_single(x: char, c: char)
    ensures
        count_char(seq![x], c) == if x == c {
            1int
        } else {
            0int
        },
{
    assert(seq![x].drop_last() =~= Seq::<char>::empty());
    assert(count_char(Seq::<char>::empty(), c) == 0);
}

/// The optional one-letter piece of the castling field.
pub open spec fn opt_letter(on: bool, x: char) -> Seq<char> {
    if on {
        seq![x]
    } else {
        Seq::empty()
    }
}

proof fn lemma_count_opt(on: bool, x: char, c: char)
    ensures
        count_char(opt_letter(on, x), c) == if on && x == c {
            1int
        } else {
            0int
        },
{
    lemma_count_single(x, c);
}

proof fn lemma_castle_bits(c: u8)
    by (bit_vector)
    requires
        c < 16,
        c % 16 != 0,
    ensures
        c == 8 * (c / 8 % 2) + 4 * (c / 4 % 2) + 2 * (c / 2 % 2) + c % 2,
        c / 8 % 2 == 1 || c / 4 % 2 == 1 || c / 2 % 2 == 1 || c % 2 == 1,
{
}

/// The castling text of four right bits is valid and reads back as them.
pub proof fn lemma_castling_text(c: u8)
    requires
        c < 16,
    ensures
        castling_ok(castling_text(c)),
        castling_value(castling_text(c)) == c,
        castling_text(c).len() > 0,
        forall|k: int| 0 <= k < castling_text(c).len() ==> !is_ws(#[trigger] castling_text(c)[k]),
{
    let t = castling_text(c);
    if c % 16 == 0 {
        lemma_count_single('-', 'K');
        lemma_count_single('-', 'Q');
        lemma_count_single('-', 'k');
        lemma_count_single('-', 'q');
    } else {
        lemma_castle_bits(c);
        let a = opt_letter(c / 8 % 2 == 1, 'K');
        let b = opt_letter(c / 4 % 2 == 1, 'Q');
        let d = opt_letter(c / 2 % 2 == 1, 'k');
        let e = opt_letter(c % 2 == 1, 'q');
        assert(t =~= a + b + d + e);
        let letters = seq!['K', 'Q', 'k', 'q'];
        assert forall|i: int| 0 <= i < 4 implies count_char(t, #[trigger] letters[i]) == if (i == 0
            && c / 8 % 2 == 1) || (i == 1 && c / 4 % 2 == 1) || (i == 2 && c / 2 % 2 == 1) || (i
            == 3 && c % 2 == 1) {
            1int
        } else {
            0int
        } by {
            let x = letters[i];
            lemma_count_concat(a, b, x);
            lemma_count_concat(a + b, d, x);
            lemma_count_concat(a + b + d, e, x);
            lemma_count_opt(c / 8 % 2 == 1, 'K', x);
            lemma_count_opt(c / 4 % 2 == 1, 'Q', x);
            lemma_count_opt(c / 2 % 2 == 1, 'k', x);
            lemma_count_opt(c % 2 == 1, 'q', x);
        }
        assert(count_char(t, letters[0]) == count_char(t, 'K'));
        assert(count_char(t, letters[1]) == count_char(t, 'Q'));
        assert(count_char(t, letters[2]) == count_char(t, 'k'));
        assert(count_char(t, letters[3]) == count_char(t, 'q'));
        assert(t != seq!['-'] ==> (1 <= t.len() <= 4 && forall|k: int|
            0 <= k < t.len() ==> is_castle_char(#[trigger] t[k])));
    }
}

proof fn lemma_file_char(f: int)
    requires
        0 <= f < 8,
    ensures
        file_char(f) as int == 'a' as int + f,
{
    if f == 0 {
        assert(file_char(f) == 'a');
    } else if f == 1 {
        assert(file_char(f) == 'b');
    } else if f == 2 {
        assert(file_char(f) == 'c');
    } else if f == 3 {
        assert(file_char(f) == 'd');
    } else if f == 4 {
        assert(file_char(f) == 'e');
    } else if f == 5 {
        assert(file_char(f) == 'f');
    } else if f == 6 {
        assert(file_char(f) == 'g');
    } else if f == 7 {
        assert(file_char(f) == 'h');
    }
}

proof fn lemma_rank_char(r: int)
    requires
        0 <= r < 8,
    ensures
        rank_char(r) as int == '1' as int + r,
{
    if r == 0 {
        assert(rank_char(r) == '1');
    } else if r == 1 {
        assert(rank_char(r) == '2');
    } else if r == 2 {
        assert(rank_char(r) == '3');
    } else if r == 3 {
        assert(rank_char(r) == '4');
    } else if r == 4 {
        assert(rank_char(r) == '5');
    } else if r == 5 {
        assert(rank_char(r) == '6');
    } else if r == 6 {
        assert(rank_char(r) == '7');
    } else if r == 7 {
        assert(rank_char(r) == '8');
    }
}

/// The name of a square is a valid name of that square.
pub proof fn lemma_square_name(i: int)
    requires
        0 <= i < 64,
    ensures
        valid_square_name(square_name(i)),
        square_of_name(square_name(i)) == i,
        square_name(i)[1] as int == '1' as int + i / 8,
{
    lemma_file_char(i % 8);
    lemma_rank_char(i / 8);
}

proof fn lemma_placement_chars(b: ChessBoard, r: int)
    requires
        0 <= r <= 7,
    ensures
        placement_from(b, r).len() > 0,
        forall|k: int|
            0 <= k < placement_from(b, r).len() ==> !is_ws(#[trigger] placement_from(b, r)[k]),
    decreases r,
{
    let t = rank_text_from(b, r, 0, 0);
    lemma_rank_no_slash(b, r);
    if t.len() == 0 {
        assert(t =~= Seq::<char>::empty());
        assert(rank_width(t) == 0);
    }
    assert forall|k: int| 0 <= k < t.len() implies !is_ws(#[trigger] t[k]) by {
        assert(is_piece_char(t[k]) || is_gap_digit(t[k]));
    }
    if r > 0 {
        lemma_placement_chars(b, r - 1);
        let p = placement_from(b, r);
        let rest = placement_from(b, r - 1);
        assert forall|k: int| 0 <= k < p.len() implies !is_ws(#[trigger] p[k]) by {
            if k < t.len() {
                assert(p[k] == t[k]);
            } else if k == t.len() {
                assert(p[k] == '/');
            } else {
                assert(p[k] == rest[k - t.len() - 1]);
            }
        }
    }
}

proof fn lemma_decimal_field(n: nat)
    ensures
        decimal(n).len() > 0,
        forall|k: int| 0 <= k < decimal(n).len() ==> !is_ws(#[trigger] decimal(n)[k]),
{
    lemma_decimal(n);
    assert forall|k: int| 0 <= k < decimal(n).len() implies !is_ws(#[trigger] decimal(n)[k]) by {
        assert('0' <= decimal(n)[k] <= '9');
    }
}

/// A position that FEN text can describe: well formed, one king of each
/// color, an en passant square (if any) on rank 3 or 6, and a positive
/// fullmove number.
pub open spec fn fen_expressible(b: ChessBoard) -> bool {
    &&& b.wf()
    &&& one_king_each(b)
    &&& (b.en_passant == 0 || sq_of(b.en_passant) / 8 == 2 || sq_of(b.en_passant) / 8 == 5)
    &&& b.fullmove_number >= 1
}

/// Writing a position as FEN text and reading the text back gives the same
/// position; the text passes validation.
#[verifier::rlimit(100)]
pub proof fn lemma_fen_round_trip(b: ChessBoard)
    requires
        fen_expressible(b),
    ensures
        fen_readable(fen_text(b)),
        board_of_fen(fen_text(b)) == b,
{
    let p = placement_from(b, 7);
    let side = if b.side_to_move {
        seq!['w']
    } else {
        seq!['b']
    };
    let c = castling_text(b.castling_rights);
    let e = if b.en_passant == 0 {
        seq!['-']
    } else {
        square_name(sq_of(b.en_passant))
    };
    let h = decimal(b.halfmove_clock as nat);
    let f = decimal(b.fullmove_number as nat);
    let sp = seq![' '];
    lemma_placement_chars(b, 7);
    lemma_castling_text(b.castling_rights);
    lemma_decimal_field(b.halfmove_clock as nat);
    lemma_decimal_field(b.fullmove_number as nat);
    lemma_decimal(b.halfmove_clock as nat);
    lemma_decimal(b.fullmove_number as nat);
    if b.en_passant != 0 {
        lemma_square_name(sq_of(b.en_passant));
    }
    assert forall|k: int| 0 <= k < side.len() implies !is_ws(#[trigger] side[k]) by {}
    assert forall|k: int| 0 <= k < e.len() implies !is_ws(#[trigger] e[k]) by {
        if b.en_passant != 0 {
            if k == 0 {
                assert('a' <= e[0] <= 'h');
            } else {
                assert('1' <= e[1] <= '8');
            }
        }
    }
    lemma_split_ws_single(p);
    lemma_split_ws_append(p, side);
    lemma_split_ws_append(p + sp + side, c);
    lemma_split_ws_append(p + sp + side + sp + c, e);
    lemma_split_ws_append(p + sp + side + sp + c + sp + e, h);
    lemma_split_ws_append(p + sp + side + sp + c + sp + e + sp + h, f);
    let fs = split_ws(fen_text(b));
    assert(fs =~= seq![p, side, c, e, h, f]);
    // The placement field.
    lemma_split_placement(b, 7);
    assert forall|k: int| 0 <= k < 8 implies rank_ok(#[trigger] split_on(p, '/')[k]) by {
        lemma_rank_no_slash(b, 7 - k);
    }
    lemma_king_letters(b);
    lemma_placement_count(b, 7, 'K');
    lemma_placement_count(b, 7, 'k');
    crate::utils::lemma_bit_facts(0, 0);
    lemma_unique_letter(b, 7, 'K', sq_of(b.kings & b.white_pieces));
    lemma_unique_letter(b, 7, 'k', sq_of(b.kings & b.black_pieces));
    assert(placement_ok(p));
    assert(side_ok(side));
    if b.en_passant != 0 {
        assert(e[0] != '-');
        assert(e != seq!['-']);
        if sq_of(b.en_passant) / 8 == 2 {
            assert(e[1] == '3');
        } else {
            assert(e[1] == '6');
        }
    }
    assert(en_passant_ok(e));
    assert(fen_ok(fen_text(b)));
    assert(fen_readable(fen_text(b)));
    // Reading it back.
    lemma_place_ranks(b, 8);
    let pl = place_ranks(blank(), split_on(p, '/'), 8);
    assert forall|j: int| 0 <= j < 64 implies bits_at(pl, j) == bits_at(b, j) by {
        lemma_add_ranks_bits(b, 8, j);
        lemma_occupancy_bits(b, j);
        lemma_placed_bits(b, j);
    }
    assert forall|j: int| 0 <= j < 64 implies sq_in(pl.pawns, j) == sq_in(b.pawns, j) && sq_in(
        pl.knights,
        j,
    ) == sq_in(b.knights, j) && sq_in(pl.bishops, j) == sq_in(b.bishops, j) && sq_in(pl.rooks, j)
        == sq_in(b.rooks, j) && sq_in(pl.queens, j) == sq_in(b.queens, j) && sq_in(pl.kings, j)
        == sq_in(b.kings, j) && sq_in(pl.white_pieces, j) == sq_in(b.white_pieces, j) && sq_in(
        pl.black_pieces,
        j,
    ) == sq_in(b.black_pieces, j) by {
        assert(bits_at(pl, j)[0] == bits_at(b, j)[0]);
        assert(bits_at(pl, j)[1] == bits_at(b, j)[1]);
        assert(bits_at(pl, j)[2] == bits_at(b, j)[2]);
        assert(bits_at(pl, j)[3] == bits_at(b, j)[3]);
        assert(bits_at(pl, j)[4] == bits_at(b, j)[4]);
        assert(bits_at(pl, j)[5] == bits_at(b, j)[5]);
        assert(bits_at(pl, j)[6] == bits_at(b, j)[6]);
        assert(bits_at(pl, j)[7] == bits_at(b, j)[7]);
    }
    lemma_bits_ext(pl.pawns, b.pawns);
    lemma_bits_ext(pl.knights, b.knights);
    lemma_bits_ext(pl.bishops, b.bishops);
    lemma_bits_ext(pl.rooks, b.rooks);
    lemma_bits_ext(pl.queens, b.queens);
    lemma_bits_ext(pl.kings, b.kings);
    lemma_bits_ext(pl.white_pieces, b.white_pieces);
    lemma_bits_ext(pl.black_pieces, b.black_pieces);
    if !b.side_to_move {
        assert(side[0] != 'w');
    }
    let lit = ChessBoard {
        pawns: pl.pawns,
        knights: pl.knights,
        bishops: pl.bishops,
        rooks: pl.rooks,
        queens: pl.queens,
        kings: pl.kings,
        white_pieces: pl.white_pieces,
        black_pieces: pl.black_pieces,
        side_to_move: fs[1] == seq!['w'],
        en_passant: if fs[3] == seq!['-'] {
            0u64
        } else {
            bit(square_of_name(fs[3]))
        },
        castling_rights: castling_value(fs[2]),
        halfmove_clock: number(fs[4]) as u8,
        fullmove_number: number(fs[5]) as u16,
        white_attacks: 0,
        black_attacks: 0,
    };
    lemma_attack_map_placement(lit, b);
    assert(lit.refreshed() == b);
}

/// The letter that a rank description places on file `g`, reading from
/// character `k` on, which stands at file `f`.
pub open spec fn letter_on_file(t: Seq<char>, k: int, f: int, g: int) -> Option<char>
    decreases t.len() - k,
{
    if k >= t.len() || k < 0 {
        None
    } else {
        let c = t[k];
        if is_gap_digit(c) {
            letter_on_file(t, k + 1, f + (c as int - '0' as int), g)
        } else if f == g {
            Some(c)
        } else {
            letter_on_file(t, k + 1, f + 1, g)
        }
    }
}

proof fn lemma_width_step(t: Seq<char>, k: int)
    requires
        0 <= k < t.len(),
    ensures
        rank_width(t.subrange(k, t.len() as int)) == rank_width(seq![t[k]]) + rank_width(
            t.subrange(k + 1, t.len() as int),
        ),
        rank_width(seq![t[k]]) == if is_piece_char(t[k]) {
            1int
        } else if is_gap_digit(t[k]) {
            t[k] as int - '0' as int
        } else {
            0int
        },
{
    assert(t.subrange(k, t.len() as int) =~= seq![t[k]] + t.subrange(k + 1, t.len() as int));
    lemma_width_concat(seq![t[k]], t.subrange(k + 1, t.len() as int));
    assert(seq![t[k]].drop_last() =~= Seq::<char>::empty());
    assert(rank_width(Seq::<char>::empty()) == 0);
}

proof fn lemma_width_nonneg(t: Seq<char>)
    ensures
        rank_width(t) >= 0,
    decreases t.len(),
{
    if t.len() > 0 {
        lemma_width_nonneg(t.drop_last());
    }
}

proof fn lemma_letter_before(t: Seq<char>, k: int, f: int, g: int)
    requires
        rank_chars(t),
        0 <= k,
        g < f,
    ensures
        letter_on_file(t, k, f, g).is_none(),
    decreases t.len() - k,
{
    if k < t.len() {
        let c = t[k];
        assert(is_piece_char(c) || is_gap_digit(c));
        if is_gap_digit(c) {
            lemma_letter_before(t, k + 1, f + (c as int - '0' as int), g);
        } else {
            lemma_letter_before(t, k + 1, f + 1, g);
        }
    }
}

/// Placing a rank description changes only the squares of its rank that it
/// names, each by the bitboards of its letter.
proof fn lemma_place_rank_bits(acc: ChessBoard, t: Seq<char>, r: int, k: int, f: int, j: int)
    requires
        0 <= r < 8,
        0 <= k <= t.len(),
        0 <= f,
        0 <= j < 64,
        rank_chars(t),
        f + rank_width(t.subrange(k, t.len() as int)) == 8,
    ensures
        bits_at(place_rank(acc, t, r, k, f), j) == if j / 8 == r && letter_on_file(
            t,
            k,
            f,
            j % 8,
        ).is_some() {
            or_bits(bits_at(acc, j), letter_bits(letter_on_file(t, k, f, j % 8).unwrap()))
        } else {
            bits_at(acc, j)
        },
    decreases t.len() - k,
{
    if k < t.len() {
        let c = t[k];
        lemma_width_step(t, k);
        lemma_width_nonneg(t.subrange(k + 1, t.len() as int));
        assert(is_piece_char(c) || is_gap_digit(c));
        if is_gap_digit(c) {
            lemma_place_rank_bits(acc, t, r, k + 1, f + (c as int - '0' as int), j);
        } else {
            let i = r * 8 + f;
            let a1 = put_piece(acc, c, i);
            lemma_place_rank_bits(a1, t, r, k + 1, f + 1, j);
            lemma_put_piece_bits(acc, c, i, j);
            lemma_letter_before(t, k + 1, f + 1, f);
        }
    } else {
        assert(t.subrange(k, t.len() as int) =~= Seq::<char>::empty());
        assert(rank_width(Seq::<char>::empty()) == 0);
    }
}

/// What a placement field puts on square `j`, for the top `n` ranks.
pub open spec fn parsed_bits(ranks: Seq<Seq<char>>, n: int, j: int) -> Seq<bool> {
    if j / 8 >= 8 - n && letter_on_file(ranks[7 - j / 8], 0, 0, j % 8).is_some() {
        letter_bits(letter_on_file(ranks[7 - j / 8], 0, 0, j % 8).unwrap())
    } else {
        seq![false, false, false, false, false, false, false, false]
    }
}

proof fn lemma_place_ranks_bits(ranks: Seq<Seq<char>>, n: int, j: int)
    requires
        0 <= n <= 8,
        0 <= j < 64,
        ranks.len() == 8,
        forall|k: int| 0 <= k < 8 ==> rank_ok(#[trigger] ranks[k]),
    ensures
        bits_at(place_ranks(blank(), ranks, n), j) == parsed_bits(ranks, n, j),
    decreases n,
{
    if n == 0 {
        lemma_has_ops(0, 0, j as u64);
        assert(bits_at(blank(), j) =~= parsed_bits(ranks, n, j));
    } else {
        lemma_place_ranks_bits(ranks, n - 1, j);
        let t = ranks[n - 1];
        assert(rank_ok(t));
        assert(t.subrange(0, t.len() as int) =~= t);
        lemma_place_rank_bits(place_ranks(blank(), ranks, n - 1), t, 8 - n, 0, 0, j);
        if j / 8 == 8 - n && letter_on_file(t, 0, 0, j % 8).is_some() {
            assert(or_bits(parsed_bits(ranks, n - 1, j), letter_bits(
                letter_on_file(t, 0, 0, j % 8).unwrap(),
            )) =~= parsed_bits(ranks, n, j));
        } else {
            assert(parsed_bits(ranks, n - 1, j) =~= parsed_bits(ranks, n, j));
        }
    }
}

proof fn lemma_letter_on_file_piece(t: Seq<char>, k: int, f: int, g: int)
    requires
        rank_chars(t),
        0 <= k,
    ensures
        letter_on_file(t, k, f, g).is_some() ==> is_piece_char(letter_on_file(t, k, f, g).unwrap()),
    decreases t.len() - k,
{
    if k < t.len() {
        let c = t[k];
        if is_gap_digit(c) {
            lemma_letter_on_file_piece(t, k + 1, f + (c as int - '0' as int), g);
        } else if f != g {
            lemma_letter_on_file_piece(t, k + 1, f + 1, g);
        }
    }
}

/// A valid placement field places at most one piece of one color on each
/// square, so the parsed bitboards keep the occupancy bookkeeping.
pub proof fn lemma_parsed_occupancy(p: Seq<char>)
    requires
        placement_ok(p),
    ensures
        place_ranks(blank(), split_on(p, '/'), 8).occupancy_ok(),
{
    let ranks = split_on(p, '/');
    let b = place_ranks(blank(), ranks, 8);
    assert forall|j: int| 0 <= j < 64 implies #[trigger] occupancy_at(b, j) by {
        lemma_place_ranks_bits(ranks, 8, j);
        let t = ranks[7 - j / 8];
        assert(rank_ok(t));
        lemma_letter_on_file_piece(t, 0, 0, j % 8);
        let bits = bits_at(b, j);
        assert(bits[0] == sq_in(b.pawns, j));
        assert(bits[6] == sq_in(b.white_pieces, j));
        assert(bits[7] == sq_in(b.black_pieces, j));
    }
    crate::laws::lemma_occupancy_from_bits(b);
}

/// A position read from valid FEN text is well formed.
pub proof fn lemma_parsed_wf(s: Seq<char>)
    requires
        fen_readable(s),
    ensures
        board_of_fen(s).wf(),
{
    let fs = split_ws(s);
    lemma_parsed_occupancy(fs[0]);
    let b = board_of_fen(s);
    let pl = place_ranks(blank(), split_on(fs[0], '/'), 8);
    assert(b.occupancy_ok() == pl.occupancy_ok());
    if fs[3] != seq!['-'] {
        crate::utils::lemma_sq_of_bit(square_of_name(fs[3]));
    }
    crate::laws::lemma_refreshed_fresh(ChessBoard { white_attacks: 0, black_attacks: 0, ..b });
}

/// How many files from `g` on a rank description (read from character `k`,
/// standing at file `f`) writes letter `c` on.
pub open spec fn text_files(t: Seq<char>, k: int, f: int, c: char, g: int) -> int
    decreases 8 - g,
{
    if g >= 8 || g < 0 {
        0
    } else {
        (if letter_on_file(t, k, f, g) == Some(c) {
            1int
        } else {
            0int
        }) + text_files(t, k, f, c, g + 1)
    }
}

proof fn lemma_text_files_end(t: Seq<char>, k: int, f: int, c: char, g: int)
    requires
        k >= t.len(),
    ensures
        text_files(t, k, f, c, g) == 0,
    decreases 8 - g,
{
    if 0 <= g < 8 {
        lemma_text_files_end(t, k, f, c, g + 1);
    }
}

proof fn lemma_text_files_gap(t: Seq<char>, k: int, f: int, c: char, g: int)
    requires
        0 <= k < t.len(),
        is_gap_digit(t[k]),
    ensures
        text_files(t, k, f, c, g) == text_files(t, k + 1, f + (t[k] as int - '0' as int), c, g),
    decreases 8 - g,
{
    if 0 <= g < 8 {
        lemma_text_files_gap(t, k, f, c, g + 1);
    }
}

proof fn lemma_text_files_piece(t: Seq<char>, k: int, f: int, c: char, g: int)
    requires
        0 <= k < t.len(),
        rank_chars(t),
        is_piece_char(t[k]),
        0 <= f < 8,
        0 <= g <= f,
    ensures
        text_files(t, k, f, c, g) == (if t[k] == c {
            1int
        } else {
            0int
        }) + text_files(t, k + 1, f + 1, c, g),
    decreases 8 - g,
{
    if g < f {
        lemma_text_files_piece(t, k, f, c, g + 1);
    } else {
        lemma_letter_before(t, k + 1, f + 1, f);
        lemma_text_files_same(t, k, f, c, g + 1);
    }
}

proof fn lemma_text_files_same(t: Seq<char>, k: int, f: int, c: char, g: int)
    requires
        0 <= k < t.len(),
        is_piece_char(t[k]),
        g > f,
    ensures
        text_files(t, k, f, c, g) == text_files(t, k + 1, f + 1, c, g),
    decreases 8 - g,
{
    if 0 <= g < 8 {
        lemma_text_files_same(t, k, f, c, g + 1);
    }
}

/// Letter `c` occurs in a rank description once for each file it is written
/// on.
proof fn lemma_text_count(t: Seq<char>, k: int, f: int, c: char)
    requires
        rank_chars(t),
        is_piece_char(c),
        0 <= k <= t.len(),
        0 <= f,
        f + rank_width(t.subrange(k, t.len() as int)) == 8,
    ensures
        count_char(t.subrange(k, t.len() as int), c) == text_files(t, k, f, c, 0),
    decreases t.len() - k,
{
    let u = t.subrange(k, t.len() as int);
    if k == t.len() {
        assert(u =~= Seq::<char>::empty());
        lemma_text_files_end(t, k, f, c, 0);
    } else {
        let x = t[k];
        let rest = t.subrange(k + 1, t.len() as int);
        assert(u =~= seq![x] + rest);
        lemma_count_concat(seq![x], rest, c);
        lemma_count_single(x, c);
        lemma_width_step(t, k);
        lemma_width_nonneg(rest);
        assert(is_piece_char(x) || is_gap_digit(x));
        if is_gap_digit(x) {
            lemma_text_count(t, k + 1, f + (x as int - '0' as int), c);
            lemma_text_files_gap(t, k, f, c, 0);
        } else {
            lemma_text_count(t, k + 1, f + 1, c);
            lemma_text_files_piece(t, k, f, c, 0);
        }
    }
}

/// The sum of the occurrences of `c` in the first `n` pieces.
pub open spec fn pieces_count(rs: Seq<Seq<char>>, c: char, n: int) -> int
    decreases n,
{
    if n <= 0 {
        0
    } else {
        pieces_count(rs, c, n - 1) + count_char(rs[n - 1], c)
    }
}

proof fn lemma_pieces_count_prefix(rs: Seq<Seq<char>>, qs: Seq<Seq<char>>, c: char, n: int)
    requires
        0 <= n <= rs.len(),
        n <= qs.len(),
        forall|i: int| 0 <= i < n ==> rs[i] == qs[i],
    ensures
        pieces_count(rs, c, n) == pieces_count(qs, c, n),
    decreases n,
{
    if n > 0 {
        lemma_pieces_count_prefix(rs, qs, c, n - 1);
    }
}

/// A letter other than the separator occurs as often in a text as in the
/// pieces it splits into.
proof fn lemma_split_count(p: Seq<char>, d: char, c: char)
    requires
        c != d,
    ensures
        count_char(p, c) == pieces_count(split_on(p, d), c, split_on(p, d).len() as int),
    decreases p.len(),
{
    assert(count_char(Seq::<char>::empty(), c) == 0);
    if p.len() > 0 {
        let q = p.drop_last();
        let x = p.last();
        lemma_split_count(q, d, c);
        lemma_split_on_nonempty(q, d);
        let rs = split_on(q, d);
        let n = rs.len() as int;
        assert(count_char(p, c) == count_char(q, c) + if x == c {
            1int
        } else {
            0int
        });
        if x == d {
            let qs = rs.push(Seq::empty());
            assert(split_on(p, d) == qs);
            lemma_pieces_count_prefix(rs, qs, c, n);
            assert(pieces_count(qs, c, n + 1) == pieces_count(qs, c, n) + count_char(qs[n], c));
            assert(qs[n] == Seq::<char>::empty());
            assert(qs.len() == n + 1);
        } else {
            let y = rs[n - 1];
            let qs = rs.update(n - 1, y.push(x));
            assert(split_on(p, d) == qs);
            lemma_pieces_count_prefix(rs, qs, c, n - 1);
            assert(y.push(x).drop_last() =~= y);
            assert(count_char(y.push(x), c) == count_char(y, c) + if x == c {
                1int
            } else {
                0int
            });
            assert(pieces_count(qs, c, n) == pieces_count(qs, c, n - 1) + count_char(qs[n - 1], c));
            assert(pieces_count(rs, c, n) == pieces_count(rs, c, n - 1) + count_char(rs[n - 1], c));
        }
    } else {
        assert(split_on(p, d) == seq![Seq::<char>::empty()]);
        assert(pieces_count(seq![Seq::<char>::empty()], c, 0) == 0);
        assert(pieces_count(seq![Seq::<char>::empty()], c, 1) == 0);
    }
}

/// How many of the squares from `lo` below `hi` hold a piece written `c`.
pub open spec fn squares_count(b: ChessBoard, c: char, lo: int, hi: int) -> int
    decreases hi - lo,
{
    if hi <= lo {
        0
    } else {
        squares_count(b, c, lo, hi - 1) + if piece_char_at(b, hi - 1) == Some(c) {
            1int
        } else {
            0int
        }
    }
}

proof fn lemma_squares_count_front(b: ChessBoard, c: char, lo: int, hi: int)
    requires
        lo < hi,
    ensures
        squares_count(b, c, lo, hi) == (if piece_char_at(b, lo) == Some(c) {
            1int
        } else {
            0int
        }) + squares_count(b, c, lo + 1, hi),
    decreases hi - lo,
{
    if lo + 1 < hi {
        lemma_squares_count_front(b, c, lo, hi - 1);
        assert(squares_count(b, c, lo + 1, hi) == squares_count(b, c, lo + 1, hi - 1) + if piece_char_at(b, hi - 1) == Some(c) {
            1int
        } else {
            0int
        });
    } else {
        assert(squares_count(b, c, lo, lo) == 0);
        assert(squares_count(b, c, lo + 1, hi) == 0);
    }
}

proof fn lemma_letter_count_squares(b: ChessBoard, r: int, f: int, c: char)
    requires
        0 <= f <= 8,
    ensures
        letter_count(b, r, f, c) == squares_count(b, c, r * 8 + f, r * 8 + 8),
    decreases 8 - f,
{
    if f < 8 {
        lemma_letter_count_squares(b, r, f + 1, c);
        lemma_squares_count_front(b, c, r * 8 + f, r * 8 + 8);
    }
}

proof fn lemma_squares_count_split(b: ChessBoard, c: char, lo: int, mid: int, hi: int)
    requires
        lo <= mid <= hi,
    ensures
        squares_count(b, c, lo, hi) == squares_count(b, c, lo, mid) + squares_count(b, c, mid, hi),
    decreases hi - mid,
{
    if mid < hi {
        lemma_squares_count_split(b, c, lo, mid, hi - 1);
    }
}

proof fn lemma_placement_count_squares(b: ChessBoard, r: int, c: char)
    requires
        0 <= r <= 7,
    ensures
        placement_count(b, r, c) == squares_count(b, c, 0, r * 8 + 8),
    decreases r,
{
    lemma_letter_count_squares(b, r, 0, c);
    if r > 0 {
        lemma_placement_count_squares(b, r - 1, c);
        lemma_squares_count_split(b, c, 0, r * 8, r * 8 + 8);
    }
}

proof fn lemma_count_zero(b: ChessBoard, c: char, hi: int)
    requires
        squares_count(b, c, 0, hi) == 0,
    ensures
        forall|j: int| 0 <= j < hi ==> piece_char_at(b, j) != Some(c),
    decreases hi,
{
    if hi > 0 {
        lemma_count_nonneg(b, c, hi - 1);
        lemma_count_zero(b, c, hi - 1);
    }
}

proof fn lemma_count_nonneg(b: ChessBoard, c: char, hi: int)
    ensures
        squares_count(b, c, 0, hi) >= 0,
    decreases hi,
{
    if hi > 0 {
        lemma_count_nonneg(b, c, hi - 1);
    }
}

/// A count of one names a single square.
proof fn lemma_count_one(b: ChessBoard, c: char, hi: int) -> (j0: int)
    requires
        squares_count(b, c, 0, hi) == 1,
    ensures
        0 <= j0 < hi,
        forall|j: int| 0 <= j < hi ==> (piece_char_at(b, j) == Some(c)) == (j == j0),
    decreases hi,
{
    lemma_count_nonneg(b, c, hi - 1);
    if piece_char_at(b, hi - 1) == Some(c) {
        lemma_count_zero(b, c, hi - 1);
        hi - 1
    } else {
        lemma_count_one(b, c, hi - 1)
    }
}

proof fn lemma_piece_char_from_bits(b: ChessBoard, j: int, t: Seq<char>, g: int)
    requires
        rank_chars(t),
        bits_at(b, j) == (if letter_on_file(t, 0, 0, g).is_some() {
            letter_bits(letter_on_file(t, 0, 0, g).unwrap())
        } else {
            seq![false, false, false, false, false, false, false, false]
        }),
    ensures
        piece_char_at(b, j) == letter_on_file(t, 0, 0, g),
{
    lemma_letter_on_file_piece(t, 0, 0, g);
    let bits = bits_at(b, j);
    assert(bits[0] == sq_in(b.pawns, j));
    assert(bits[1] == sq_in(b.knights, j));
    assert(bits[2] == sq_in(b.bishops, j));
    assert(bits[3] == sq_in(b.rooks, j));
    assert(bits[4] == sq_in(b.queens, j));
    assert(bits[5] == sq_in(b.kings, j));
    assert(bits[6] == sq_in(b.white_pieces, j));
}

proof fn lemma_rank_letters(b: ChessBoard, t: Seq<char>, r: int, c: char, g: int)
    requires
        0 <= g <= 8,
        forall|h: int| 0 <= h < 8 ==> #[trigger] piece_char_at(b, r * 8 + h) == letter_on_file(t, 0, 0, h),
    ensures
        letter_count(b, r, g, c) == text_files(t, 0, 0, c, g),
    decreases 8 - g,
{
    if g < 8 {
        lemma_rank_letters(b, t, r, c, g + 1);
        assert(piece_char_at(b, r * 8 + g) == letter_on_file(t, 0, 0, g));
    }
}

proof fn lemma_pieces_placement(b: ChessBoard, ranks: Seq<Seq<char>>, c: char, n: int)
    requires
        1 <= n <= 8,
        forall|i: int| 0 <= i < 8 ==> count_char(#[trigger] ranks[i], c) == letter_count(b, 7 - i, 0, c),
    ensures
        pieces_count(ranks, c, n) + (if n < 8 {
            placement_count(b, 7 - n, c)
        } else {
            0int
        }) == placement_count(b, 7, c),
    decreases n,
{
    assert(count_char(ranks[n - 1], c) == letter_count(b, 7 - (n - 1), 0, c));
    assert(pieces_count(ranks, c, n) == pieces_count(ranks, c, n - 1) + count_char(ranks[n - 1], c));
    if 8 - n > 0 {
        assert(placement_count(b, 8 - n, c) == letter_count(b, 8 - n, 0, c) + placement_count(
            b,
            7 - n,
            c,
        ));
    } else {
        assert(placement_count(b, 0, c) == letter_count(b, 0, 0, c));
    }
    if n > 1 {
        lemma_pieces_placement(b, ranks, c, n - 1);
    } else {
        assert(pieces_count(ranks, c, 0) == 0);
    }
}

proof fn lemma_king_letter_at(b: ChessBoard, j: int)
    requires
        0 <= j < 64,
        occupancy_at(b, j),
    ensures
        (piece_char_at(b, j) == Some('K')) == sq_in(b.kings & b.white_pieces, j),
        (piece_char_at(b, j) == Some('k')) == sq_in(b.kings & b.black_pieces, j),
{
    lemma_has_ops(b.kings, b.white_pieces, j as u64);
    lemma_has_ops(b.kings, b.black_pieces, j as u64);
    match b.kind_at(j) {
        Some(k) => {
            assert(piece_letter(k, sq_in(b.white_pieces, j)) == 'K' <==> (k == PieceKind::King
                && sq_in(b.white_pieces, j)));
            assert(piece_letter(k, sq_in(b.white_pieces, j)) == 'k' <==> (k == PieceKind::King
                && !sq_in(b.white_pieces, j)));
        },
        None => {},
    }
}

proof fn lemma_single_king(b: ChessBoard, x: u64, c: char)
    requires
        squares_count(b, c, 0, 64) == 1,
        forall|j: int| 0 <= j < 64 ==> (#[trigger] piece_char_at(b, j) == Some(c)) == sq_in(x, j),
    ensures
        is_square_bb(x),
{
    let j0 = lemma_count_one(b, c, 64);
    assert forall|j: int| 0 <= j < 64 implies sq_in(x, j) == sq_in(bit(j0), j) by {
        lemma_bit_facts(j0 as u64, j as u64);
        assert(piece_char_at(b, j) == Some(c) <==> sq_in(x, j));
    }
    lemma_bits_ext(x, bit(j0));
    crate::utils::lemma_sq_of_bit(j0);
}

/// A position read from valid FEN text can be written back: it is well
/// formed, has one king of each color, an en passant square on rank 3 or 6
/// if any, and a positive fullmove number.
pub proof fn lemma_parsed_expressible(s: Seq<char>)
    requires
        fen_readable(s),
    ensures
        fen_expressible(board_of_fen(s)),
{
    lemma_parsed_wf(s);
    let fs = split_ws(s);
    let p = fs[0];
    let ranks = split_on(p, '/');
    let b = board_of_fen(s);
    let pl = place_ranks(blank(), ranks, 8);
    assert forall|j: int| 0 <= j < 64 implies #[trigger] piece_char_at(b, j) == letter_on_file(
        ranks[7 - j / 8],
        0,
        0,
        j % 8,
    ) by {
        lemma_place_ranks_bits(ranks, 8, j);
        assert(rank_ok(ranks[7 - j / 8]));
        assert(bits_at(b, j) == bits_at(pl, j));
        lemma_piece_char_from_bits(b, j, ranks[7 - j / 8], j % 8);
    }
    let letters = seq!['K', 'k'];
    assert forall|i: int, m: int| 0 <= i < 8 && 0 <= m < 2 implies count_char(
        #[trigger] ranks[i],
        #[trigger] letters[m],
    ) == letter_count(b, 7 - i, 0, letters[m]) by {
        let t = ranks[i];
        let c = letters[m];
        assert(rank_ok(t));
        assert(t.subrange(0, t.len() as int) =~= t);
        lemma_text_count(t, 0, 0, c);
        assert forall|h: int| 0 <= h < 8 implies #[trigger] piece_char_at(b, (7 - i) * 8 + h)
            == letter_on_file(t, 0, 0, h) by {
            let j = (7 - i) * 8 + h;
            assert(piece_char_at(b, j) == letter_on_file(ranks[7 - j / 8], 0, 0, j % 8));
        }
        lemma_rank_letters(b, t, 7 - i, c, 0);
    }
    assert forall|i: int| 0 <= i < 8 implies count_char(#[trigger] ranks[i], 'K') == letter_count(
        b,
        7 - i,
        0,
        'K',
    ) by {
        assert(letters[0] == 'K');
    }
    assert forall|i: int| 0 <= i < 8 implies count_char(#[trigger] ranks[i], 'k') == letter_count(
        b,
        7 - i,
        0,
        'k',
    ) by {
        assert(letters[1] == 'k');
    }
    lemma_split_count(p, '/', 'K');
    lemma_split_count(p, '/', 'k');
    lemma_pieces_placement(b, ranks, 'K', 8);
    lemma_pieces_placement(b, ranks, 'k', 8);
    lemma_placement_count_squares(b, 7, 'K');
    lemma_placement_count_squares(b, 7, 'k');
    assert forall|j: int| 0 <= j < 64 implies (#[trigger] piece_char_at(b, j) == Some('K'))
        == sq_in(b.kings & b.white_pieces, j) && (piece_char_at(b, j) == Some('k')) == sq_in(
        b.kings & b.black_pieces,
        j,
    ) by {
        lemma_occupancy_bits(b, j);
        lemma_king_letter_at(b, j);
    }
    lemma_single_king(b, b.kings & b.white_pieces, 'K');
    lemma_single_king(b, b.kings & b.black_pieces, 'k');
    if fs[3] != seq!['-'] {
        crate::utils::lemma_sq_of_bit(square_of_name(fs[3]));
    }
}

/// For a position read from valid FEN text, writing it out and reading the
/// text back gives the same position.
pub proof fn lemma_fen_round_trip_parsed(s: Seq<char>)
    requires
        fen_readable(s),
    ensures
        fen_readable(fen_text(board_of_fen(s))),
        board_of_fen(fen_text(board_of_fen(s))) == board_of_fen(s),
{
    lemma_parsed_expressible(s);
    lemma_fen_round_trip(board_of_fen(s));
}

proof fn lemma_single_bits(x: u64)
    requires
        is_square_bb(x),
    ensures
        forall|j: int| 0 <= j < 64 ==> #[trigger] sq_in(x, j) == (j == sq_of(x)),
{
    assert forall|j: int| 0 <= j < 64 implies #[trigger] sq_in(x, j) == (j == sq_of(x)) by {
        lemma_bit_facts(sq_of(x) as u64, j as u64);
    }
}

proof fn lemma_single_from_bits(x: u64, j0: int)
    requires
        0 <= j0 < 64,
        forall|j: int| 0 <= j < 64 ==> #[trigger] sq_in(x, j) == (j == j0),
    ensures
        is_square_bb(x),
        sq_of(x) == j0,
{
    assert forall|j: int| 0 <= j < 64 implies sq_in(x, j) == sq_in(bit(j0), j) by {
        lemma_bit_facts(j0 as u64, j as u64);
        assert(sq_in(x, j) == (j == j0));
    }
    lemma_bits_ext(x, bit(j0));
    crate::utils::lemma_sq_of_bit(j0);
}

/// A move of actual play: legal, taking no king, advancing a pawn two ranks
/// only from its starting rank, and leaving the fullmove number within 16
/// bits.
pub open spec fn playable_move(s: ChessBoard, mv: u16) -> bool {
    let from = move_from(mv);
    let to = move_to(mv);
    &&& legal_move(s, mv)
    &&& captured_kind(s, mv) != Some(PieceKind::King)
    &&& (s.kind_at(from) == Some(PieceKind::Pawn) && (to - from == 16 || from - to == 16) ==> if s.side_to_move {
        from / 8 == 1 && to == from + 16
    } else {
        from / 8 == 6 && from == to + 16
    })
    &&& (!s.side_to_move ==> s.fullmove_number < 65535)
}

/// A playable move keeps a position writable as FEN text.
#[verifier::rlimit(100)]
pub proof fn lemma_play_keeps_expressible(s: ChessBoard, mv: u16)
    requires
        fen_expressible(s),
        playable_move(s, mv),
    ensures
        fen_expressible(applied(s, mv)),
{
    broadcast use crate::laws::lemma_set_sq, crate::laws::lemma_clr_sq, crate::laws::lemma_refreshed_fresh;

    crate::laws::lemma_apply_keeps_wf(s, mv);
    crate::laws::lemma_square_facts(s, mv);
    let s2 = applied(s, mv);
    let from = move_from(mv);
    let to = move_to(mv);
    let white = s.side_to_move;
    let k = s.kind_at(from).unwrap();
    let wk = sq_of(s.kings & s.white_pieces);
    let bk = sq_of(s.kings & s.black_pieces);
    lemma_single_bits(s.kings & s.white_pieces);
    lemma_single_bits(s.kings & s.black_pieces);
    let nwk = if white && k == PieceKind::King {
        to
    } else {
        wk
    };
    let nbk = if !white && k == PieceKind::King {
        to
    } else {
        bk
    };
    assert(k == PieceKind::King ==> sq_in(s.kings, from));
    assert(k != PieceKind::King ==> !sq_in(s.kings, from));
    assert(!sq_in(s.kings, capture_square(white, move_flag(mv), to)));
    assert forall|j: int| 0 <= j < 64 implies #[trigger] sq_in(s2.kings, j) == ((k == PieceKind::King
        && j == to) || (sq_in(s.kings, j) && !(k == PieceKind::King && j == from))) by {
        lemma_occupancy_bits(s, j);
    }
    let cap = capture_square(white, move_flag(mv), to);
    let castle = move_flag(mv) == 2;
    assert forall|j: int| 0 <= j < 64 implies (#[trigger] sq_in(s2.own(white), j) ==> (sq_in(
        s.own(white),
        j,
    ) || j == to || (castle && j == castle_rook(to).1))) && (sq_in(s.own(white), j) && j != from
        && !(castle && j == castle_rook(to).0) ==> sq_in(s2.own(white), j)) && (j == to ==> sq_in(
        s2.own(white),
        j,
    )) by {
        lemma_occupancy_bits(s, j);
    }
    let opp = !white;
    assert forall|j: int| 0 <= j < 64 implies (#[trigger] sq_in(s2.own(opp), j) ==> sq_in(
        s.own(opp),
        j,
    )) && (sq_in(s2.own(opp), j) ==> j != to) && (sq_in(s.own(opp), j) && j != cap ==> sq_in(
        s2.own(opp),
        j,
    )) by {
        lemma_occupancy_bits(s, j);
    }
    assert(!sq_in(s.kings, to));
    assert forall|j: int| 0 <= j < 64 implies #[trigger] sq_in(s2.kings & s2.white_pieces, j) == (j
        == nwk) by {
        lemma_occupancy_bits(s, j);
        lemma_has_ops(s.kings, s.white_pieces, j as u64);
        lemma_has_ops(s.kings, s.black_pieces, j as u64);
        lemma_has_ops(s2.kings, s2.white_pieces, j as u64);
        lemma_has_ops(s2.kings, s2.black_pieces, j as u64);
        lemma_has_ops(s.kings, s.white_pieces, from as u64);
        lemma_has_ops(s.kings, s.black_pieces, from as u64);
        lemma_has_ops(s.kings, s.white_pieces, to as u64);
        lemma_has_ops(s.kings, s.black_pieces, to as u64);
        assert(sq_in(s.kings & s.white_pieces, j) == (j == wk));
        assert(sq_in(s.kings & s.black_pieces, j) == (j == bk));
        assert(sq_in(s.kings & s.white_pieces, from) == (from == wk));
        assert(sq_in(s.kings & s.black_pieces, from) == (from == bk));
        assert(sq_in(s2.kings, j) == ((k == PieceKind::King && j == to) || (sq_in(s.kings, j) && !(k
            == PieceKind::King && j == from))));
        assert(sq_in(s2.own(white), j) ==> (sq_in(s.own(white), j) || j == to || (castle && j
            == castle_rook(to).1)));
        assert(sq_in(s2.own(opp), j) ==> sq_in(s.own(opp), j) && j != to);
        assert(sq_in(s.own(white), j) && j != from && !(castle && j == castle_rook(to).0) ==> sq_in(
            s2.own(white),
            j,
        ));
        assert(sq_in(s.own(opp), j) && j != cap ==> sq_in(s2.own(opp), j));
        assert(j == to ==> sq_in(s2.own(white), j));
        assert(!sq_in(s.kings, to));
        if castle {
            lemma_occupancy_bits(s, castle_rook(to).0);
            lemma_occupancy_bits(s, castle_rook(to).1);
        }
    }
    assert forall|j: int| 0 <= j < 64 implies #[trigger] sq_in(s2.kings & s2.black_pieces, j) == (j
        == nbk) by {
        lemma_occupancy_bits(s, j);
        lemma_has_ops(s.kings, s.white_pieces, j as u64);
        lemma_has_ops(s.kings, s.black_pieces, j as u64);
        lemma_has_ops(s2.kings, s2.white_pieces, j as u64);
        lemma_has_ops(s2.kings, s2.black_pieces, j as u64);
        lemma_has_ops(s.kings, s.white_pieces, from as u64);
        lemma_has_ops(s.kings, s.black_pieces, from as u64);
        lemma_has_ops(s.kings, s.white_pieces, to as u64);
        lemma_has_ops(s.kings, s.black_pieces, to as u64);
        assert(sq_in(s.kings & s.white_pieces, j) == (j == wk));
        assert(sq_in(s.kings & s.black_pieces, j) == (j == bk));
        assert(sq_in(s.kings & s.white_pieces, from) == (from == wk));
        assert(sq_in(s.kings & s.black_pieces, from) == (from == bk));
        assert(sq_in(s2.kings, j) == ((k == PieceKind::King && j == to) || (sq_in(s.kings, j) && !(k
            == PieceKind::King && j == from))));
        assert(sq_in(s2.own(white), j) ==> (sq_in(s.own(white), j) || j == to || (castle && j
            == castle_rook(to).1)));
        assert(sq_in(s2.own(opp), j) ==> sq_in(s.own(opp), j) && j != to);
        assert(sq_in(s.own(white), j) && j != from && !(castle && j == castle_rook(to).0) ==> sq_in(
            s2.own(white),
            j,
        ));
        assert(sq_in(s.own(opp), j) && j != cap ==> sq_in(s2.own(opp), j));
        assert(j == to ==> sq_in(s2.own(white), j));
        assert(!sq_in(s.kings, to));
        if castle {
            lemma_occupancy_bits(s, castle_rook(to).0);
            lemma_occupancy_bits(s, castle_rook(to).1);
        }
    }
    lemma_single_from_bits(s2.kings & s2.white_pieces, nwk);
    lemma_single_from_bits(s2.kings & s2.black_pieces, nbk);
    if s2.en_passant != 0 {
        crate::utils::lemma_sq_of_bit((from + to) / 2);
    }
}

/// The position after `moves`, each one playable where it is made.
pub open spec fn playable_sequence(s: ChessBoard, moves: Seq<u16>) -> bool
    decreases moves.len(),
{
    if moves.len() == 0 {
        true
    } else {
        playable_move(s, moves[0]) && playable_sequence(applied(s, moves[0]), moves.drop_first())
    }
}

/// Every position reached by play from a position read from valid FEN text
/// can be written as FEN text, and reading that text back gives the same
/// position.
pub proof fn lemma_fen_round_trip_reachable(s: Seq<char>, moves: Seq<u16>)
    requires
        fen_readable(s),
        playable_sequence(board_of_fen(s), moves),
    ensures
        fen_readable(fen_text(applied_all(board_of_fen(s), moves))),
        board_of_fen(fen_text(applied_all(board_of_fen(s), moves))) == applied_all(
            board_of_fen(s),
            moves,
        ),
{
    lemma_parsed_expressible(s);
    lemma_play_keeps_expressible_all(board_of_fen(s), moves);
    lemma_fen_round_trip(applied_all(board_of_fen(s), moves));
}

proof fn lemma_play_keeps_expressible_all(b: ChessBoard, moves: Seq<u16>)
    requires
        fen_expressible(b),
        playable_sequence(b, moves),
    ensures
        fen_expressible(applied_all(b, moves)),
    decreases moves.len(),
{
    if moves.len() > 0 {
        lemma_play_keeps_expressible(b, moves[0]);
        lemma_play_keeps_expressible_all(applied(b, moves[0]), moves.drop_first());
    }
}

} // verus!
