//! Squares and bitboards: bit indices, files, ranks and algebraic names.
//!
//! Square index 0 is a1; the index grows along the rank (a..h) and then up
//! the ranks (1..8). A bitboard holds one bit per square.

use vstd::prelude::*;
use vstd::string::*;
use vstd::std_specs::bits::u64_trailing_zeros;

verus! {

/// The singleton bitboard of square `i`.
pub open spec fn bit(i: int) -> u64 {
    1u64 << (i as u64)
}

/// Whether bitboard `bb` holds square `i`.
pub open spec fn sq_in(bb: u64, i: int) -> bool {
    (bb >> (i as u64)) & 1u64 == 1u64
}

/// The index of the lowest square held by `bb` (64 for the empty board).
pub open spec fn sq_of(bb: u64) -> int {
    u64_trailing_zeros(bb) as int
}

/// Whether `bb` holds exactly one square.
pub open spec fn is_square_bb(bb: u64) -> bool {
    sq_of(bb) < 64 && bb == bit(sq_of(bb))
}

/// The square at file `f` and rank `r` (both counted from 0) as a bitboard,
/// or the empty bitboard when that square is off the board.
pub open spec fn sq_bb(f: int, r: int) -> u64 {
    if 0 <= f < 8 && 0 <= r < 8 {
        bit(r * 8 + f)
    } else {
        0u64
    }
}

pub proof fn lemma_bit_facts(i: u64, j: u64)
    requires
        i < 64,
        j < 64,
    ensures
        (1u64 << i) != 0u64,
        ((1u64 << i) >> j) & 1u64 == 1u64 <==> i == j,
{
    assert((1u64 << i) != 0u64) by (bit_vector)
        requires
            i < 64,
    ;
    assert(((1u64 << i) >> j) & 1u64 == 1u64 <==> i == j) by (bit_vector)
        requires
            i < 64,
            j < 64,
    ;
}

/// The lowest square of a singleton bitboard is its square.
pub proof fn lemma_sq_of_bit(i: int)
    requires
        0 <= i < 64,
    ensures
        sq_of(bit(i)) == i,
        is_square_bb(bit(i)),
{
    let x = bit(i);
    vstd::std_specs::bits::axiom_u64_trailing_zeros(x);
    lemma_bit_facts(i as u64, i as u64);
    let t = u64_trailing_zeros(x);
    lemma_bit_facts(i as u64, t as u64);
}

/// Bitwise facts on single-square membership.
pub proof fn lemma_has_ops(a: u64, b: u64, j: u64)
    by (bit_vector)
    requires
        j < 64,
    ensures
        ((a | b) >> j) & 1u64 == 1u64 <==> ((a >> j) & 1u64 == 1u64 || (b >> j) & 1u64 == 1u64),
        ((a & b) >> j) & 1u64 == 1u64 <==> ((a >> j) & 1u64 == 1u64 && (b >> j) & 1u64 == 1u64),
        ((a & !b) >> j) & 1u64 == 1u64 <==> ((a >> j) & 1u64 == 1u64 && (b >> j) & 1u64 != 1u64),
        ((a ^ b) >> j) & 1u64 == 1u64 <==> ((a >> j) & 1u64 == 1u64) != ((b >> j) & 1u64 == 1u64),
        (0u64 >> j) & 1u64 != 1u64,
{
}

/// Membership in the masks that hold every square from, or below, a cutoff.
pub proof fn lemma_has_cut(c: u64, j: u64)
    by (bit_vector)
    requires
        c < 64,
        j < 64,
    ensures
        ((0xFFFF_FFFF_FFFF_FFFFu64 << c) >> j) & 1u64 == 1u64 <==> j >= c,
        ((0xFFFF_FFFF_FFFF_FFFFu64 >> c) >> j) & 1u64 == 1u64 <==> j < 64 - c,
{
}

/// Membership in a shifted a-file mask.
pub proof fn lemma_has_file(k: u64, j: u64)
    by (bit_vector)
    requires
        k < 8,
        j < 64,
    ensures
        ((A_FILE_MASK << k) >> j) & 1u64 == 1u64 <==> j % 8 == k,
{
}

/// Every square of the a-file.
pub const A_FILE_MASK: u64 = 0x0101_0101_0101_0101;

pub const FILES: [char; 8] = ['a', 'b', 'c', 'd', 'e', 'f', 'g', 'h'];

pub const RANKS: [char; 8] = ['1', '2', '3', '4', '5', '6', '7', '8'];

/// The file letter of file `f` (0 is `a`).
pub open spec fn file_char(f: int) -> char {
    seq!['a', 'b', 'c', 'd', 'e', 'f', 'g', 'h'][f]
}

/// The rank digit of rank `r` (0 is `1`).
pub open spec fn rank_char(r: int) -> char {
    seq!['1', '2', '3', '4', '5', '6', '7', '8'][r]
}

/// The two-character algebraic name of square `i`.
pub open spec fn square_name(i: int) -> Seq<char> {
    seq![file_char(i % 8), rank_char(i / 8)]
}

/// Whether `s` is a two-character square name, file `a`..`h` then rank `1`..`8`.
pub open spec fn valid_square_name(s: Seq<char>) -> bool {
    s.len() == 2 && 'a' <= s[0] <= 'h' && '1' <= s[1] <= '8'
}

/// The square index that a valid name denotes.
pub open spec fn square_of_name(s: Seq<char>) -> int {
    (s[1] as int - '1' as int) * 8 + (s[0] as int - 'a' as int)
}

/// Whether the lowest square of the bitboard lies on the a-file.
pub fn on_a_file(piece_location: &u64) -> (r: bool)
    ensures
        r == (sq_of(*piece_location) % 8 == 0),
{
    piece_location.trailing_zeros() % 8 == 0
}

/// Whether the lowest square of the bitboard lies on the b-file.
pub fn on_b_file(piece_location: &u64) -> (r: bool)
    ensures
        r == (sq_of(*piece_location) % 8 == 1),
{
    piece_location.trailing_zeros() % 8 == 1
}

/// Whether the lowest square of the bitboard lies on the c-file.
pub fn on_c_file(piece_location: &u64) -> (r: bool)
    ensures
        r == (sq_of(*piece_location) % 8 == 2),
{
    piece_location.trailing_zeros() % 8 == 2
}

/// Whether the lowest square of the bitboard lies on the d-file.
pub fn on_d_file(piece_location: &u64) -> (r: bool)
    ensures
        r == (sq_of(*piece_location) % 8 == 3),
{
    piece_location.trailing_zeros() % 8 == 3
}

/// Whether the lowest square of the bitboard lies on the e-file.
pub fn on_e_file(piece_location: &u64) -> (r: bool)
    ensures
        r == (sq_of(*piece_location) % 8 == 4),
{
    piece_location.trailing_zeros() % 8 == 4
}

/// Whether the lowest square of the bitboard lies on the f-file.
pub fn on_f_file(piece_location: &u64) -> (r: bool)
    ensures
        r == (sq_of(*piece_location) % 8 == 5),
{
    piece_location.trailing_zeros() % 8 == 5
}

/// Whether the lowest square of the bitboard lies on the g-file.
pub fn on_g_file(piece_location: &u64) -> (r: bool)
    ensures
        r == (sq_of(*piece_location) % 8 == 6),
{
    piece_location.trailing_zeros() % 8 == 6
}

/// Whether the lowest square of the bitboard lies on the h-file.
pub fn on_h_file(piece_location: &u64) -> (r: bool)
    ensures
        r == (sq_of(*piece_location) % 8 == 7),
{
    piece_location.trailing_zeros() % 8 == 7
}

/// Whether the lowest square of the bitboard lies on rank 1.
pub fn on_rank_1(piece_location: &u64) -> (r: bool)
    ensures
        r == (sq_of(*piece_location) / 8 == 0),
{
    piece_location.trailing_zeros() / 8 == 0
}

/// Whether the lowest square of the bitboard lies on rank 2.
pub fn on_rank_2(piece_location: &u64) -> (r: bool)
    ensures
        r == (sq_of(*piece_location) / 8 == 1),
{
    piece_location.trailing_zeros() / 8 == 1
}

/// Whether the lowest square of the bitboard lies on rank 3.
pub fn on_rank_3(piece_location: &u64) -> (r: bool)
    ensures
        r == (sq_of(*piece_location) / 8 == 2),
{
    piece_location.trailing_zeros() / 8 == 2
}

/// Whether the lowest square of the bitboard lies on rank 4.
pub fn on_rank_4(piece_location: &u64) -> (r: bool)
    ensures
        r == (sq_of(*piece_location) / 8 == 3),
{
    piece_location.trailing_zeros() / 8 == 3
}

/// Whether the lowest square of the bitboard lies on rank 5.
pub fn on_rank_5(piece_location: &u64) -> (r: bool)
    ensures
        r == (sq_of(*piece_location) / 8 == 4),
{
    piece_location.trailing_zeros() / 8 == 4
}

/// Whether the lowest square of the bitboard lies on rank 6.
pub fn on_rank_6(piece_location: &u64) -> (r: bool)
    ensures
        r == (sq_of(*piece_location) / 8 == 5),
{
    piece_location.trailing_zeros() / 8 == 5
}

/// Whether the lowest square of the bitboard lies on rank 7.
pub fn on_rank_7(piece_location: &u64) -> (r: bool)
    ensures
        r == (sq_of(*piece_location) / 8 == 6),
{
    piece_location.trailing_zeros() / 8 == 6
}

/// Whether the lowest square of the bitboard lies on rank 8.
pub fn on_rank_8(piece_location: &u64) -> (r: bool)
    ensures
        r == (sq_of(*piece_location) / 8 == 7),
{
    piece_location.trailing_zeros() / 8 == 7
}


/// The one-letter string that names file `f`.
fn file_str(f: u32) -> (r: &'static str)
    requires
        f < 8,
    ensures
        r@ == seq![file_char(f as int)],
{
    proof {
        reveal_strlit("a");
        reveal_strlit("b");
        reveal_strlit("c");
        reveal_strlit("d");
        reveal_strlit("e");
        reveal_strlit("f");
        reveal_strlit("g");
        reveal_strlit("h");
    }
    if f == 0 {
        "a"
    } else if f == 1 {
        "b"
    } else if f == 2 {
        "c"
    } else if f == 3 {
        "d"
    } else if f == 4 {
        "e"
    } else if f == 5 {
        "f"
    } else if f == 6 {
        "g"
    } else {
        "h"
    }
}

/// The one-digit string that names rank `r`.
fn rank_str(r: u32) -> (s: &'static str)
    requires
        r < 8,
    ensures
        s@ == seq![rank_char(r as int)],
{
    proof {
        reveal_strlit("1");
        reveal_strlit("2");
        reveal_strlit("3");
        reveal_strlit("4");
        reveal_strlit("5");
        reveal_strlit("6");
        reveal_strlit("7");
        reveal_strlit("8");
    }
    if r == 0 {
        "1"
    } else if r == 1 {
        "2"
    } else if r == 2 {
        "3"
    } else if r == 3 {
        "4"
    } else if r == 4 {
        "5"
    } else if r == 5 {
        "6"
    } else if r == 6 {
        "7"
    } else {
        "8"
    }
}

/// The algebraic name of square `i`.
pub fn square_name_of(i: u32) -> (r: String)
    requires
        i < 64,
    ensures
        r@ == square_name(i as int),
{
    let mut s = String::from_str(file_str(i % 8));
    s.append(rank_str(i / 8));
    assert(s@ =~= square_name(i as int));
    s
}

/// The algebraic name of the one square that the bitboard holds. The empty
/// bitboard and one with several squares are refused.
pub fn bb_to_square(bitboard: &u64) -> (r: Result<String, String>)
    ensures
        *bitboard == 0 ==> r.is_err() && r->Err_0@ == "Invalid bitboard: no piece on the board."@,
        *bitboard != 0 && !is_square_bb(*bitboard) ==> r.is_err() && r->Err_0@
            == "Invalid bitboard: more than one piece on the board."@,
        is_square_bb(*bitboard) ==> r.is_ok() && r->Ok_0@ == square_name(sq_of(*bitboard)),
{
    proof {
        vstd::std_specs::bits::axiom_u64_trailing_zeros(*bitboard);
    }
    let t = bitboard.trailing_zeros();
    if t == 64 {
        Err("Invalid bitboard: no piece on the board.".to_string())
    } else if *bitboard != 1u64 << t {
        Err("Invalid bitboard: more than one piece on the board.".to_string())
    } else {
        Ok(square_name_of(t))
    }
}

/// The singleton bitboard of a two-character algebraic square name.
pub fn square_to_bb(square: &str) -> (r: Result<u64, String>)
    ensures
        square@.len() != 2 ==> r.is_err() && r->Err_0@ == "Invalid square: too many characters."@,
        square@.len() == 2 && !valid_square_name(square@) ==> r.is_err() && r->Err_0@
            == "Invalid square: invalid file or rank."@,
        valid_square_name(square@) ==> r == Ok::<u64, String>(bit(square_of_name(square@))),
{
    if square.unicode_len() != 2 {
        return Err("Invalid square: too many characters.".to_string());
    }
    let file = square.get_char(0);
    let rank = square.get_char(1);
    if !('a' <= file && file <= 'h' && '1' <= rank && rank <= '8') {
        return Err("Invalid square: invalid file or rank.".to_string());
    }
    let index: u64 = (rank as u64 - '1' as u64) * 8 + (file as u64 - 'a' as u64);
    Ok(1u64 << index)
}

/// Every square on a rank above the rank of the lowest square of `square`.
pub fn squares_above(square: &u64) -> (r: u64)
    ensures
        forall|j: int| 0 <= j < 64 ==> (sq_in(r, j) <==> j / 8 > sq_of(*square) / 8),
{
    proof {
        vstd::std_specs::bits::axiom_u64_trailing_zeros(*square);
    }
    let cutoff: u32 = (square.trailing_zeros() / 8 + 1) * 8;
    if cutoff < 64 {
        let mask = 0xFFFF_FFFF_FFFF_FFFFu64 << cutoff;
        proof {
            assert forall|j: int| 0 <= j < 64 implies (sq_in(mask, j) <==> j / 8 > sq_of(*square) / 8) by {
                lemma_has_cut(cutoff as u64, j as u64);
            }
        }
        mask
    } else {
        proof {
            assert forall|j: int| 0 <= j < 64 implies (!sq_in(0u64, j)) by {
                lemma_has_ops(0, 0, j as u64);
            }
        }
        0
    }
}

/// Every square on a rank below the rank of the lowest square of `square`.
pub fn squares_below(square: &u64) -> (r: u64)
    ensures
        forall|j: int| 0 <= j < 64 ==> (sq_in(r, j) <==> j / 8 < sq_of(*square) / 8),
{
    proof {
        vstd::std_specs::bits::axiom_u64_trailing_zeros(*square);
    }
    let rank: u32 = square.trailing_zeros() / 8;
    if rank == 0 {
        proof {
            assert forall|j: int| 0 <= j < 64 implies (!sq_in(0u64, j)) by {
                lemma_has_ops(0, 0, j as u64);
            }
        }
        0
    } else {
        let cutoff: u32 = 64 - rank * 8;
        let mask = 0xFFFF_FFFF_FFFF_FFFFu64 >> cutoff;
        proof {
            assert forall|j: int| 0 <= j < 64 implies (sq_in(mask, j) <==> j / 8 < sq_of(*square) / 8) by {
                lemma_has_cut(cutoff as u64, j as u64);
            }
        }
        mask
    }
}

/// For a lowest square on file `f` (counted from 0) other than the a-file,
/// every square on the files from `8 - f` up to the h-file; on the a-file,
/// no square.
pub fn squares_left(square: &u64) -> (r: u64)
    ensures
        forall|j: int|
            0 <= j < 64 ==> (sq_in(r, j) <==> (sq_of(*square) % 8 != 0 && j % 8 >= 8 - sq_of(*square) % 8)),
{
    let file: u64 = (square.trailing_zeros() % 8) as u64;
    let mut mask: u64 = 0;
    if file == 0 {
        proof {
            assert forall|j: int| 0 <= j < 64 implies (!sq_in(0u64, j)) by {
                lemma_has_ops(0, 0, j as u64);
            }
        }
        return mask;
    }
    let mut k: u64 = 8 - file;
    proof {
        assert forall|j: int| 0 <= j < 64 implies (!sq_in(mask, j)) by {
            lemma_has_ops(0, 0, j as u64);
        }
    }
    while k < 8
        invariant
            file == sq_of(*square) % 8,
            1 <= file < 8,
            8 - file <= k <= 8,
            forall|j: int| 0 <= j < 64 ==> (sq_in(mask, j) <==> (8 - file <= j % 8 < k)),
        decreases 8 - k,
    {
        let next = mask | (A_FILE_MASK << k);
        proof {
            assert forall|j: int| 0 <= j < 64 implies (sq_in(next, j) <==> (8 - file <= j % 8 < k + 1)) by {
                lemma_has_ops(mask, A_FILE_MASK << k, j as u64);
                lemma_has_file(k, j as u64);
                assert(sq_in(A_FILE_MASK << k, j) <==> j % 8 == k);
                assert(sq_in(next, j) <==> (sq_in(mask, j) || sq_in(A_FILE_MASK << k, j)));
            }
        }
        mask = next;
        k = k + 1;
    }
    mask
}

/// Every square on a file to the right of the file of the lowest square of
/// `square`.
pub fn squares_right(square: &u64) -> (r: u64)
    ensures
        forall|j: int| 0 <= j < 64 ==> (sq_in(r, j) <==> j % 8 > sq_of(*square) % 8),
{
    let file: u64 = (square.trailing_zeros() % 8) as u64;
    let mut mask: u64 = 0;
    let mut k: u64 = file + 1;
    proof {
        assert forall|j: int| 0 <= j < 64 implies (!sq_in(mask, j)) by {
            lemma_has_ops(0, 0, j as u64);
        }
    }
    while k < 8
        invariant
            file == sq_of(*square) % 8,
            file < 8,
            file + 1 <= k <= 8,
            forall|j: int| 0 <= j < 64 ==> (sq_in(mask, j) <==> (file < j % 8 < k)),
        decreases 8 - k,
    {
        let next = mask | (A_FILE_MASK << k);
        proof {
            assert forall|j: int| 0 <= j < 64 implies (sq_in(next, j) <==> (file < j % 8 < k + 1)) by {
                lemma_has_ops(mask, A_FILE_MASK << k, j as u64);
                lemma_has_file(k, j as u64);
                assert(sq_in(A_FILE_MASK << k, j) <==> j % 8 == k);
                assert(sq_in(next, j) <==> (sq_in(mask, j) || sq_in(A_FILE_MASK << k, j)));
            }
        }
        mask = next;
        k = k + 1;
    }
    mask
}

/// One row of the binary picture of `bb`: rank `r`, a-file first, `1` for
/// a held square.
pub open spec fn binary_row(bb: u64, r: int) -> Seq<char> {
    Seq::new(8, |f: int| if sq_in(bb, r * 8 + f) { '1' } else { '0' })
}

/// The binary picture of `bb` from rank 8 down to rank `r`, one line each.
pub open spec fn binary_rows_from(bb: u64, r: int) -> Seq<char>
    decreases r + 1,
{
    if r < 0 || r > 7 {
        Seq::empty()
    } else {
        binary_row(bb, r) + seq!['\n'] + binary_rows_from(bb, r - 1)
    }
}

/// The binary picture of a bitboard: eight lines, rank 8 first, each line
/// from the a-file to the h-file, `1` for a held square and `0` otherwise.
pub fn board_binary_text(bitboard: &u64) -> (r: String)
    ensures
        r@ == binary_rows_from(*bitboard, 7),
{
    let mut s = String::new();
    let mut r: u64 = 8;
    while r > 0
        invariant
            r <= 8,
            s@ + binary_rows_from(*bitboard, r - 1) == binary_rows_from(*bitboard, 7),
        decreases r,
    {
        let ghost before = s@;
        let mut f: u64 = 0;
        while f < 8
            invariant
                1 <= r <= 8,
                f <= 8,
                s@ == before + binary_row(*bitboard, r - 1).take(f as int),
            decreases 8 - f,
        {
            let ghost prev = s@;
            let one = (*bitboard >> ((r - 1) * 8 + f)) & 1 == 1;
            if one {
                s.append("1");
            } else {
                s.append("0");
            }
            proof {
                reveal_strlit("0");
                reveal_strlit("1");
                let row = binary_row(*bitboard, r - 1);
                assert(one == sq_in(*bitboard, (r - 1) * 8 + f));
                assert(s@ =~= prev.push(row[f as int]));
                assert(row.take(f + 1) =~= row.take(f as int).push(row[f as int]));
            }
            f = f + 1;
        }
        let ghost row_done = s@;
        s.append("\n");
        proof {
            reveal_strlit("\n");
            assert(s@ =~= row_done.push('\n'));
            assert(binary_row(*bitboard, r - 1).take(8) =~= binary_row(*bitboard, r - 1));
            assert(s@ + binary_rows_from(*bitboard, r - 2) =~= before + binary_rows_from(
                *bitboard,
                r - 1,
            ));
        }
        r = r - 1;
    }
    proof {
        assert(s@ =~= s@ + binary_rows_from(*bitboard, -1));
    }
    s
}

} // verus!
