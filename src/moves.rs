//! Attack generation: per-square patterns for pawns, knights and kings,
//! the eight rays of each square, ray truncation at the first blocker, and
//! the attack sets of a whole side.

use vstd::prelude::*;
use crate::board::ChessBoard;
use crate::utils::{
    bit, sq_in, sq_of, sq_bb, is_square_bb, lemma_sq_of_bit, on_a_file, on_b_file,
    on_g_file, on_h_file, on_rank_1, on_rank_2, on_rank_7, on_rank_8,
};

verus! {

/// Every square of the a-file.
pub const A_FILE: u64 = 0x0101010101010101;

/// Every square of the h-file.
pub const H_FILE: u64 = 0x8080808080808080;

/// The squares that a pawn of the given color on square `i` captures on,
/// on an empty board.
pub open spec fn pawn_mask(white: bool, i: int) -> u64 {
    let f = i % 8;
    let r = i / 8;
    if white {
        sq_bb(f - 1, r + 1) | sq_bb(f + 1, r + 1)
    } else {
        sq_bb(f - 1, r - 1) | sq_bb(f + 1, r - 1)
    }
}

/// The squares a knight on square `i` leaps to.
pub open spec fn knight_mask(i: int) -> u64 {
    let f = i % 8;
    let r = i / 8;
    sq_bb(f - 1, r + 2) | sq_bb(f + 1, r + 2) | sq_bb(f - 2, r + 1) | sq_bb(f + 2, r + 1)
        | sq_bb(f - 1, r - 2) | sq_bb(f + 1, r - 2) | sq_bb(f - 2, r - 1) | sq_bb(f + 2, r - 1)
}

/// The squares adjacent to square `i`.
pub open spec fn king_mask(i: int) -> u64 {
    let f = i % 8;
    let r = i / 8;
    sq_bb(f - 1, r - 1) | sq_bb(f - 1, r) | sq_bb(f - 1, r + 1) | sq_bb(f, r - 1)
        | sq_bb(f, r + 1) | sq_bb(f + 1, r - 1) | sq_bb(f + 1, r) | sq_bb(f + 1, r + 1)
}

/// The first `n` squares from file `f`, rank `r` in the direction
/// (`df`, `dr`), leaving out those off the board.
pub open spec fn ray_steps(f: int, r: int, df: int, dr: int, n: nat) -> u64
    decreases n,
{
    if n == 0 {
        0u64
    } else {
        ray_steps(f, r, df, dr, (n - 1) as nat) | sq_bb(f + df * n, r + dr * n)
    }
}

/// The full ray from square `i` (exclusive) to the edge of the board in the
/// direction (`df`, `dr`).
pub open spec fn ray(i: int, df: int, dr: int) -> u64 {
    ray_steps(i % 8, i / 8, df, dr, 7)
}

/// Both diagonals through square `i`, without the square itself.
pub open spec fn bishop_mask(i: int) -> u64 {
    ray(i, 1, 1) | ray(i, -1, 1) | ray(i, 1, -1) | ray(i, -1, -1)
}

/// The file and the rank through square `i`, without the square itself.
pub open spec fn rook_mask(i: int) -> u64 {
    ray(i, 0, 1) | ray(i, 1, 0) | ray(i, 0, -1) | ray(i, -1, 0)
}

/// The lines of a rook and of a bishop on square `i`.
pub open spec fn queen_mask(i: int) -> u64 {
    rook_mask(i) | bishop_mask(i)
}

proof fn lemma_pawn_shifts(i: u64)
    by (bit_vector)
    requires
        i < 64,
    ensures
        ((1u64 << i) & !A_FILE) << 7u64 == (if i % 8 != 0 && i < 56 { 1u64 << ((i + 7) as u64) } else { 0u64 }),
        ((1u64 << i) & !H_FILE) << 9u64 == (if i % 8 != 7 && i < 56 { 1u64 << ((i + 9) as u64) } else { 0u64 }),
        ((1u64 << i) & !A_FILE) >> 9u64 == (if i % 8 != 0 && i >= 8 { 1u64 << ((i - 9) as u64) } else { 0u64 }),
        ((1u64 << i) & !H_FILE) >> 7u64 == (if i % 8 != 7 && i >= 8 { 1u64 << ((i - 7) as u64) } else { 0u64 }),
{
}

proof fn lemma_shift_bit(i: u64, k: u64)
    by (bit_vector)
    requires
        i < 64,
        k < 64,
    ensures
        i + k < 64 ==> (1u64 << i) << k == 1u64 << ((i + k) as u64),
        k <= i ==> (1u64 << i) >> k == 1u64 << ((i - k) as u64),
{
}

/// The capture squares of a pawn of the given color (`true` for white) on
/// the square of `square`, on an empty board.
pub fn generate_one_pawn_attacks(color: &bool, square: u64) -> (r: u64)
    requires
        is_square_bb(square),
    ensures
        r == pawn_mask(*color, sq_of(square)),
{
    proof {
        lemma_pawn_shifts(sq_of(square) as u64);
    }
    if *color {
        ((square & !A_FILE) << 7) | ((square & !H_FILE) << 9)
    } else {
        ((square & !A_FILE) >> 9) | ((square & !H_FILE) >> 7)
    }
}


/// The squares a knight on the square of `square` leaps to.
pub fn generate_one_knight_attacks(square: u64) -> (r: u64)
    requires
        is_square_bb(square),
    ensures
        r == knight_mask(sq_of(square)),
{
    let ghost i = sq_of(square);
    proof {
        lemma_shift_bit(i as u64, 15);
        lemma_shift_bit(i as u64, 17);
        lemma_shift_bit(i as u64, 6);
        lemma_shift_bit(i as u64, 10);
    }
    let up_left = if !((on_rank_7(&square) || on_rank_8(&square)) || on_a_file(&square)) {
        square << 15
    } else {
        0
    };
    let up_right = if !((on_rank_7(&square) || on_rank_8(&square)) || on_h_file(&square)) {
        square << 17
    } else {
        0
    };
    let left_up = if !(on_rank_8(&square) || (on_a_file(&square) || on_b_file(&square))) {
        square << 6
    } else {
        0
    };
    let right_up = if !(on_rank_8(&square) || (on_g_file(&square) || on_h_file(&square))) {
        square << 10
    } else {
        0
    };
    let down_left = if !((on_rank_1(&square) || on_rank_2(&square)) || on_a_file(&square)) {
        square >> 17
    } else {
        0
    };
    let down_right = if !((on_rank_1(&square) || on_rank_2(&square)) || on_h_file(&square)) {
        square >> 15
    } else {
        0
    };
    let left_down = if !(on_rank_1(&square) || (on_a_file(&square) || on_b_file(&square))) {
        square >> 10
    } else {
        0
    };
    let right_down = if !(on_rank_1(&square) || (on_g_file(&square) || on_h_file(&square))) {
        square >> 6
    } else {
        0
    };
    up_left | up_right | left_up | right_up | down_left | down_right | left_down | right_down
}

/// The bitboard of the square at file `f`, rank `r`, or the empty bitboard
/// off the board.
pub fn square_bb(f: i64, r: i64) -> (b: u64)
    requires
        -16 <= f <= 16,
        -16 <= r <= 16,
    ensures
        b == sq_bb(f as int, r as int),
{
    if 0 <= f && f < 8 && 0 <= r && r < 8 {
        1u64 << ((r * 8 + f) as u64)
    } else {
        0
    }
}

/// The squares adjacent to the square of `square`.
pub fn king_attacks(square: &u64) -> (r: u64)
    requires
        is_square_bb(*square),
    ensures
        r == king_mask(sq_of(*square)),
{
    let i = square.trailing_zeros();
    let f = (i % 8) as i64;
    let r = (i / 8) as i64;
    square_bb(f - 1, r - 1) | square_bb(f - 1, r) | square_bb(f - 1, r + 1) | square_bb(f, r - 1)
        | square_bb(f, r + 1) | square_bb(f + 1, r - 1) | square_bb(f + 1, r) | square_bb(
        f + 1,
        r + 1,
    )
}

/// The full ray from square `i` in the direction (`df`, `dr`), each of them
/// -1, 0 or 1.
pub fn ray_mask(i: u32, df: i64, dr: i64) -> (m: u64)
    requires
        i < 64,
        -1 <= df <= 1,
        -1 <= dr <= 1,
    ensures
        m == ray(i as int, df as int, dr as int),
{
    let f = (i % 8) as i64;
    let r = (i / 8) as i64;
    let mut acc: u64 = 0;
    let mut n: i64 = 1;
    while n <= 7
        invariant
            1 <= n <= 8,
            i < 64,
            f == i % 8,
            r == i / 8,
            0 <= f < 8,
            0 <= r < 8,
            -1 <= df <= 1,
            -1 <= dr <= 1,
            acc == ray_steps(f as int, r as int, df as int, dr as int, (n - 1) as nat),
        decreases 8 - n,
    {
        proof {
            assert(-8 <= df * n <= 8) by (nonlinear_arith)
                requires
                    -1 <= df <= 1,
                    1 <= n <= 7,
            ;
            assert(-8 <= dr * n <= 8) by (nonlinear_arith)
                requires
                    -1 <= dr <= 1,
                    1 <= n <= 7,
            ;
        }
        acc = acc | square_bb(f + df * n, r + dr * n);
        n = n + 1;
    }
    acc
}

/// Both diagonals through the square of `square`, on an empty board.
pub fn bishop_attacks(square: &u64) -> (r: u64)
    requires
        is_square_bb(*square),
    ensures
        r == bishop_mask(sq_of(*square)),
{
    let i = square.trailing_zeros();
    ray_mask(i, 1, 1) | ray_mask(i, -1, 1) | ray_mask(i, 1, -1) | ray_mask(i, -1, -1)
}

/// The file and the rank through the square of `square`, on an empty board.
pub fn rook_attacks(square: &u64) -> (r: u64)
    requires
        is_square_bb(*square),
    ensures
        r == rook_mask(sq_of(*square)),
{
    let i = square.trailing_zeros();
    ray_mask(i, 0, 1) | ray_mask(i, 1, 0) | ray_mask(i, 0, -1) | ray_mask(i, -1, 0)
}

/// The lines of a queen on the square of `square`, on an empty board.
pub fn queen_attacks(square: &u64) -> (r: u64)
    requires
        is_square_bb(*square),
    ensures
        r == queen_mask(sq_of(*square)),
{
    rook_attacks(square) | bishop_attacks(square)
}

/// The capture squares of a white pawn, one entry per square.
pub fn generate_white_pawn_attacks() -> (t: Vec<u64>)
    ensures
        t@.len() == 64,
        forall|i: int| 0 <= i < 64 ==> t@[i] == #[trigger] pawn_mask(true, i),
{
    let mut t: Vec<u64> = Vec::new();
    let mut i: u64 = 0;
    while i < 64
        invariant
            i <= 64,
            t@.len() == i,
            forall|j: int| 0 <= j < i ==> t@[j] == #[trigger] pawn_mask(true, j),
        decreases 64 - i,
    {
        proof {
            lemma_sq_of_bit(i as int);
        }
        t.push(generate_one_pawn_attacks(&true, 1u64 << i));
        i = i + 1;
    }
    t
}

/// The capture squares of a black pawn, one entry per square.
pub fn generate_black_pawn_attacks() -> (t: Vec<u64>)
    ensures
        t@.len() == 64,
        forall|i: int| 0 <= i < 64 ==> t@[i] == #[trigger] pawn_mask(false, i),
{
    let mut t: Vec<u64> = Vec::new();
    let mut i: u64 = 0;
    while i < 64
        invariant
            i <= 64,
            t@.len() == i,
            forall|j: int| 0 <= j < i ==> t@[j] == #[trigger] pawn_mask(false, j),
        decreases 64 - i,
    {
        proof {
            lemma_sq_of_bit(i as int);
        }
        t.push(generate_one_pawn_attacks(&false, 1u64 << i));
        i = i + 1;
    }
    t
}

/// The knight leaps, one entry per square.
pub fn generate_knight_attacks() -> (t: Vec<u64>)
    ensures
        t@.len() == 64,
        forall|i: int| 0 <= i < 64 ==> t@[i] == #[trigger] knight_mask(i),
{
    let mut t: Vec<u64> = Vec::new();
    let mut i: u64 = 0;
    while i < 64
        invariant
            i <= 64,
            t@.len() == i,
            forall|j: int| 0 <= j < i ==> t@[j] == #[trigger] knight_mask(j),
        decreases 64 - i,
    {
        proof {
            lemma_sq_of_bit(i as int);
        }
        t.push(generate_one_knight_attacks(1u64 << i));
        i = i + 1;
    }
    t
}


/// The squares of `ray` reached walking upward from index `j`, stopping
/// before a friendly piece and on an enemy piece; `acc` holds those already
/// reached.
pub open spec fn walk_up(ray: u64, friendly: u64, enemy: u64, j: int, acc: u64) -> u64
    decreases 64 - j,
{
    if j >= 64 || j < 0 {
        acc
    } else if !sq_in(ray, j) {
        walk_up(ray, friendly, enemy, j + 1, acc)
    } else if sq_in(friendly, j) {
        acc
    } else if sq_in(enemy, j) {
        acc | bit(j)
    } else {
        walk_up(ray, friendly, enemy, j + 1, acc | bit(j))
    }
}

/// As [`walk_up`], walking downward from index `j`.
pub open spec fn walk_down(ray: u64, friendly: u64, enemy: u64, j: int, acc: u64) -> u64
    decreases j + 1,
{
    if j < 0 || j >= 64 {
        acc
    } else if !sq_in(ray, j) {
        walk_down(ray, friendly, enemy, j - 1, acc)
    } else if sq_in(friendly, j) {
        acc
    } else if sq_in(enemy, j) {
        acc | bit(j)
    } else {
        walk_down(ray, friendly, enemy, j - 1, acc | bit(j))
    }
}

/// The part of `ray` that a slider on square `i` reaches: the squares from
/// the nearest one outward, up to and including the first enemy piece and
/// excluding the first friendly piece. A ray numerically above the source
/// runs upward from it, any other downward.
pub open spec fn resolved(i: int, ray: u64, friendly: u64, enemy: u64) -> u64 {
    if ray > bit(i) {
        walk_up(ray, friendly, enemy, i + 1, 0)
    } else {
        walk_down(ray, friendly, enemy, i - 1, 0)
    }
}

/// The squares a bishop on square `i` attacks under the given occupancy.
pub open spec fn bishop_reach(i: int, friendly: u64, enemy: u64) -> u64 {
    resolved(i, ray(i, 1, 1), friendly, enemy) | resolved(i, ray(i, -1, 1), friendly, enemy)
        | resolved(i, ray(i, 1, -1), friendly, enemy) | resolved(i, ray(i, -1, -1), friendly, enemy)
}

/// The squares a rook on square `i` attacks under the given occupancy.
pub open spec fn rook_reach(i: int, friendly: u64, enemy: u64) -> u64 {
    resolved(i, ray(i, 0, 1), friendly, enemy) | resolved(i, ray(i, 1, 0), friendly, enemy)
        | resolved(i, ray(i, 0, -1), friendly, enemy) | resolved(i, ray(i, -1, 0), friendly, enemy)
}

/// The squares that the piece of color `white` on square `i` attacks, under
/// the occupancy of `b`; 0 when no piece stands there.
pub open spec fn piece_reach(b: ChessBoard, white: bool, i: int) -> u64 {
    let own = b.own(white);
    let other = b.own(!white);
    if sq_in(b.pawns, i) {
        pawn_mask(white, i) & !own
    } else if sq_in(b.knights, i) {
        knight_mask(i) & !own
    } else if sq_in(b.bishops, i) {
        bishop_reach(i, own, other)
    } else if sq_in(b.rooks, i) {
        rook_reach(i, own, other)
    } else if sq_in(b.queens, i) {
        rook_reach(i, own, other) | bishop_reach(i, own, other)
    } else if sq_in(b.kings, i) {
        king_mask(i) & !own
    } else {
        0u64
    }
}

/// The union of the attacks of the pieces of color `white` on squares `i`
/// and above, added to `acc`.
pub open spec fn attack_map_from(b: ChessBoard, white: bool, i: int, acc: u64) -> u64
    decreases 64 - i,
{
    if i >= 64 || i < 0 {
        acc
    } else {
        let next = if sq_in(b.own(white), i) {
            acc | piece_reach(b, white, i)
        } else {
            acc
        };
        attack_map_from(b, white, i + 1, next)
    }
}

/// Every square attacked by the pieces of color `white` in `b`.
pub open spec fn attack_map(b: ChessBoard, white: bool) -> u64 {
    attack_map_from(b, white, 0, 0)
}

/// The part of `full_ray`, a ray from the square of `source`, that a slider
/// there reaches: walking from the nearest square outward, each empty square
/// is taken, an enemy piece is taken and ends the walk, a friendly piece ends
/// it untaken.
pub fn resolve_ray(source: u64, full_ray: u64, friendly: u64, enemy: u64) -> (r: u64)
    requires
        is_square_bb(source),
    ensures
        r == resolved(sq_of(source), full_ray, friendly, enemy),
{
    let i = source.trailing_zeros() as u64;
    assert(sq_of(source) == i as int);
    let mut acc: u64 = 0;
    if full_ray > source {
        let mut j: u64 = i + 1;
        while j < 64
            invariant
                i < 64,
                sq_of(source) == i as int,
                i + 1 <= j <= 64,
                walk_up(full_ray, friendly, enemy, j as int, acc) == resolved(
                    i as int,
                    full_ray,
                    friendly,
                    enemy,
                ),
            decreases 64 - j,
        {
            if (full_ray >> j) & 1 == 1 {
                if (friendly >> j) & 1 == 1 {
                    return acc;
                }
                acc = acc | (1u64 << j);
                if (enemy >> j) & 1 == 1 {
                    return acc;
                }
            }
            j = j + 1;
        }
        acc
    } else {
        let mut j: u64 = i;
        while j > 0
            invariant
                i < 64,
                sq_of(source) == i as int,
                j <= i,
                walk_down(full_ray, friendly, enemy, j - 1, acc) == resolved(
                    i as int,
                    full_ray,
                    friendly,
                    enemy,
                ),
            decreases j,
        {
            let k = j - 1;
            if (full_ray >> k) & 1 == 1 {
                if (friendly >> k) & 1 == 1 {
                    return acc;
                }
                acc = acc | (1u64 << k);
                if (enemy >> k) & 1 == 1 {
                    return acc;
                }
            }
            j = k;
        }
        acc
    }
}

/// The capture squares of a pawn of the given color on the lowest square of
/// `square`, leaving out those that hold a piece of its own color.
pub fn pawn_attacks(color: &bool, square: &u64, board: &ChessBoard) -> (r: u64)
    requires
        *square != 0,
    ensures
        r == pawn_mask(*color, sq_of(*square)) & !board.own(*color),
{
    proof {
        vstd::std_specs::bits::axiom_u64_trailing_zeros(*square);
        lemma_sq_of_bit(sq_of(*square));
    }
    let from = 1u64 << square.trailing_zeros();
    let attacks = generate_one_pawn_attacks(color, from);
    if *color {
        attacks & !board.white_pieces
    } else {
        attacks & !board.black_pieces
    }
}

/// The squares a knight of the given color on the lowest square of `square`
/// leaps to, leaving out those that hold a piece of its own color.
pub fn knight_attacks(color: &bool, square: &u64, board: &ChessBoard) -> (r: u64)
    requires
        *square != 0,
    ensures
        r == knight_mask(sq_of(*square)) & !board.own(*color),
{
    proof {
        vstd::std_specs::bits::axiom_u64_trailing_zeros(*square);
        lemma_sq_of_bit(sq_of(*square));
    }
    let from = 1u64 << square.trailing_zeros();
    let attacks = generate_one_knight_attacks(from);
    if *color {
        attacks & !board.white_pieces
    } else {
        attacks & !board.black_pieces
    }
}

/// The squares a bishop on square `i` attacks, its diagonals cut at the first
/// piece in each direction.
pub fn bishop_reach_at(i: u32, friendly: u64, enemy: u64) -> (r: u64)
    requires
        i < 64,
    ensures
        r == bishop_reach(i as int, friendly, enemy),
{
    proof {
        lemma_sq_of_bit(i as int);
    }
    let from = 1u64 << i;
    resolve_ray(from, ray_mask(i, 1, 1), friendly, enemy) | resolve_ray(
        from,
        ray_mask(i, -1, 1),
        friendly,
        enemy,
    ) | resolve_ray(from, ray_mask(i, 1, -1), friendly, enemy) | resolve_ray(
        from,
        ray_mask(i, -1, -1),
        friendly,
        enemy,
    )
}

/// The squares a rook on square `i` attacks, its file and rank cut at the
/// first piece in each direction.
pub fn rook_reach_at(i: u32, friendly: u64, enemy: u64) -> (r: u64)
    requires
        i < 64,
    ensures
        r == rook_reach(i as int, friendly, enemy),
{
    proof {
        lemma_sq_of_bit(i as int);
    }
    let from = 1u64 << i;
    resolve_ray(from, ray_mask(i, 0, 1), friendly, enemy) | resolve_ray(
        from,
        ray_mask(i, 1, 0),
        friendly,
        enemy,
    ) | resolve_ray(from, ray_mask(i, 0, -1), friendly, enemy) | resolve_ray(
        from,
        ray_mask(i, -1, 0),
        friendly,
        enemy,
    )
}

/// The squares that the piece of color `white` on square `i` attacks under
/// the board's occupancy; 0 on an empty square.
pub fn piece_attacks_at(board: &ChessBoard, white: bool, i: u32) -> (r: u64)
    requires
        i < 64,
    ensures
        r == piece_reach(*board, white, i as int),
{
    proof {
        lemma_sq_of_bit(i as int);
    }
    let from = 1u64 << i;
    let (own, other) = if white {
        (board.white_pieces, board.black_pieces)
    } else {
        (board.black_pieces, board.white_pieces)
    };
    if (board.pawns >> i) & 1 == 1 {
        pawn_attacks(&white, &from, board)
    } else if (board.knights >> i) & 1 == 1 {
        knight_attacks(&white, &from, board)
    } else if (board.bishops >> i) & 1 == 1 {
        bishop_reach_at(i, own, other)
    } else if (board.rooks >> i) & 1 == 1 {
        rook_reach_at(i, own, other)
    } else if (board.queens >> i) & 1 == 1 {
        rook_reach_at(i, own, other) | bishop_reach_at(i, own, other)
    } else if (board.kings >> i) & 1 == 1 {
        king_attacks(&from) & !own
    } else {
        0
    }
}

/// Every square that the pieces of color `white` attack under the board's
/// occupancy, sliding pieces stopped by the first piece on each ray.
pub fn color_attacks(board: &ChessBoard, white: bool) -> (r: u64)
    ensures
        r == attack_map(*board, white),
{
    let own = if white {
        board.white_pieces
    } else {
        board.black_pieces
    };
    let mut acc: u64 = 0;
    let mut i: u32 = 0;
    while i < 64
        invariant
            i <= 64,
            own == board.own(white),
            attack_map_from(*board, white, i as int, acc) == attack_map(*board, white),
        decreases 64 - i,
    {
        if (own >> i) & 1 == 1 {
            acc = acc | piece_attacks_at(board, white, i);
        }
        i = i + 1;
    }
    acc
}

/// Whether two boards hold the same pieces of the same colors.
pub open spec fn same_placement(a: ChessBoard, b: ChessBoard) -> bool {
    &&& a.pawns == b.pawns
    &&& a.knights == b.knights
    &&& a.bishops == b.bishops
    &&& a.rooks == b.rooks
    &&& a.queens == b.queens
    &&& a.kings == b.kings
    &&& a.white_pieces == b.white_pieces
    &&& a.black_pieces == b.black_pieces
}

proof fn lemma_attack_map_from_placement(a: ChessBoard, b: ChessBoard, white: bool, i: int, acc: u64)
    requires
        same_placement(a, b),
    ensures
        attack_map_from(a, white, i, acc) == attack_map_from(b, white, i, acc),
    decreases 64 - i,
{
    if 0 <= i < 64 {
        let next = if sq_in(a.own(white), i) {
            acc | piece_reach(a, white, i)
        } else {
            acc
        };
        lemma_attack_map_from_placement(a, b, white, i + 1, next);
    }
}

/// The attack sets depend on the placement of the pieces alone.
pub proof fn lemma_attack_map_placement(a: ChessBoard, b: ChessBoard)
    requires
        same_placement(a, b),
    ensures
        attack_map(a, true) == attack_map(b, true),
        attack_map(a, false) == attack_map(b, false),
{
    lemma_attack_map_from_placement(a, b, true, 0, 0);
    lemma_attack_map_from_placement(a, b, false, 0, 0);
}

/// The bitboard of piece kind `kind`: 0 pawns, 1 knights, 2 bishops,
/// 3 rooks, 4 queens, 5 kings.
pub open spec fn kind_bb(b: ChessBoard, kind: int) -> u64 {
    if kind == 0 {
        b.pawns
    } else if kind == 1 {
        b.knights
    } else if kind == 2 {
        b.bishops
    } else if kind == 3 {
        b.rooks
    } else if kind == 4 {
        b.queens
    } else {
        b.kings
    }
}

/// The pattern listed for a piece of kind `kind` of the side to move on
/// square `i`: pawn and knight patterns without the squares of that side;
/// bishop, rook and queen lines cut at the first piece on each ray (an enemy
/// piece kept, a friendly one left out); the king's neighbours.
pub open spec fn kind_pattern(b: ChessBoard, kind: int, i: int) -> u64 {
    let own = b.own(b.side_to_move);
    let other = b.own(!b.side_to_move);
    if kind == 0 {
        pawn_mask(b.side_to_move, i) & !own
    } else if kind == 1 {
        knight_mask(i) & !own
    } else if kind == 2 {
        bishop_reach(i, own, other)
    } else if kind == 3 {
        rook_reach(i, own, other)
    } else if kind == 4 {
        rook_reach(i, own, other) | bishop_reach(i, own, other)
    } else {
        king_mask(i)
    }
}

/// The entries for the pieces of kind `kind` of the side to move on squares
/// `i` and above, in increasing square order.
pub open spec fn listing_from(b: ChessBoard, kind: int, i: int) -> Seq<(u64, u64)>
    decreases 64 - i,
{
    if i >= 64 || i < 0 {
        Seq::empty()
    } else {
        let rest = listing_from(b, kind, i + 1);
        if sq_in(kind_bb(b, kind) & b.own(b.side_to_move), i) {
            seq![(bit(i), kind_pattern(b, kind, i))] + rest
        } else {
            rest
        }
    }
}

/// The entries of the kinds below `k`, kind by kind.
pub open spec fn listing_upto(b: ChessBoard, k: int) -> Seq<(u64, u64)>
    decreases k,
{
    if k <= 0 {
        Seq::empty()
    } else {
        listing_upto(b, k - 1) + listing_from(b, k - 1, 0)
    }
}

/// For every piece of the side to move, its square and its attack pattern:
/// pawns, knights, bishops, rooks, queens, kings, each kind by increasing
/// square. Pawns and knights leave out squares of their own side; bishops,
/// rooks and queens reach along each ray up to the first piece, taking it
/// when it is an enemy; kings get their neighbouring squares.
pub fn board_attacks(board: &ChessBoard) -> (r: Vec<(u64, u64)>)
    ensures
        r@ == listing_upto(*board, 6),
{
    let mut attack_list: Vec<(u64, u64)> = Vec::new();
    let color_mask = if board.side_to_move {
        board.white_pieces
    } else {
        board.black_pieces
    };
    let other_mask = if board.side_to_move {
        board.black_pieces
    } else {
        board.white_pieces
    };
    let mut kind: u32 = 0;
    while kind < 6
        invariant
            kind <= 6,
            color_mask == board.own(board.side_to_move),
            other_mask == board.own(!board.side_to_move),
            attack_list@ == listing_upto(*board, kind as int),
        decreases 6 - kind,
    {
        let piece_bb = if kind == 0 {
            board.pawns
        } else if kind == 1 {
            board.knights
        } else if kind == 2 {
            board.bishops
        } else if kind == 3 {
            board.rooks
        } else if kind == 4 {
            board.queens
        } else {
            board.kings
        };
        let colored_bb = piece_bb & color_mask;
        let mut i: u32 = 0;
        while i < 64
            invariant
                kind < 6,
                i <= 64,
                color_mask == board.own(board.side_to_move),
                other_mask == board.own(!board.side_to_move),
                colored_bb == kind_bb(*board, kind as int) & board.own(board.side_to_move),
                attack_list@ + listing_from(*board, kind as int, i as int) == listing_upto(
                    *board,
                    kind as int + 1,
                ),
            decreases 64 - i,
        {
            if (colored_bb >> i) & 1 == 1 {
                let from_square: u64 = 1u64 << i;
                proof {
                    lemma_sq_of_bit(i as int);
                }
                let attack_squares = if kind == 0 {
                    pawn_attacks(&board.side_to_move, &from_square, board)
                } else if kind == 1 {
                    knight_attacks(&board.side_to_move, &from_square, board)
                } else if kind == 2 {
                    bishop_reach_at(i, color_mask, other_mask)
                } else if kind == 3 {
                    rook_reach_at(i, color_mask, other_mask)
                } else if kind == 4 {
                    rook_reach_at(i, color_mask, other_mask) | bishop_reach_at(i, color_mask, other_mask)
                } else {
                    king_attacks(&from_square)
                };
                let ghost before = attack_list@;
                attack_list.push((from_square, attack_squares));
                proof {
                    assert(attack_list@ + listing_from(*board, kind as int, i + 1) =~= before
                        + listing_from(*board, kind as int, i as int));
                }
            }
            i = i + 1;
        }
        proof {
            assert(attack_list@ =~= attack_list@ + listing_from(*board, kind as int, 64));
        }
        kind = kind + 1;
    }
    attack_list
}

/// The file step of compass direction `d`: N, NE, E, SE, S, SW, W, NW.
pub open spec fn dir_df(d: int) -> int {
    if d == 1 || d == 2 || d == 3 {
        1
    } else if d == 5 || d == 6 || d == 7 {
        -1
    } else {
        0
    }
}

/// The rank step of compass direction `d`: N, NE, E, SE, S, SW, W, NW.
pub open spec fn dir_dr(d: int) -> int {
    if d == 0 || d == 1 || d == 7 {
        1
    } else if d == 3 || d == 4 || d == 5 {
        -1
    } else {
        0
    }
}

fn dir_steps(d: u32) -> (r: (i64, i64))
    requires
        d < 8,
    ensures
        r.0 == dir_df(d as int),
        r.1 == dir_dr(d as int),
{
    let df: i64 = if d == 1 || d == 2 || d == 3 {
        1
    } else if d == 5 || d == 6 || d == 7 {
        -1
    } else {
        0
    };
    let dr: i64 = if d == 0 || d == 1 || d == 7 {
        1
    } else if d == 3 || d == 4 || d == 5 {
        -1
    } else {
        0
    };
    (df, dr)
}

/// The per-square attack patterns, computed once and then only read: pawn
/// captures of each color, knight leaps, king steps, and the eight rays of
/// each square (entry `8 * i + d` for square `i` and direction `d`).
pub struct AttackTables {
    pub white_pawn: Vec<u64>,
    pub black_pawn: Vec<u64>,
    pub knight: Vec<u64>,
    pub king: Vec<u64>,
    pub rays: Vec<u64>,
}

impl AttackTables {
    /// Every entry holds the pattern of its square.
    pub open spec fn wf(&self) -> bool {
        &&& self.white_pawn@.len() == 64
        &&& self.black_pawn@.len() == 64
        &&& self.knight@.len() == 64
        &&& self.king@.len() == 64
        &&& self.rays@.len() == 512
        &&& forall|i: int| 0 <= i < 64 ==> #[trigger] self.white_pawn@[i] == pawn_mask(true, i)
        &&& forall|i: int| 0 <= i < 64 ==> #[trigger] self.black_pawn@[i] == pawn_mask(false, i)
        &&& forall|i: int| 0 <= i < 64 ==> #[trigger] self.knight@[i] == knight_mask(i)
        &&& forall|i: int| 0 <= i < 64 ==> #[trigger] self.king@[i] == king_mask(i)
        &&& forall|i: int, d: int|
            0 <= i < 64 && 0 <= d < 8 ==> #[trigger] self.rays@[8 * i + d] == ray(
                i,
                dir_df(d),
                dir_dr(d),
            )
    }

    /// Computes all the tables.
    pub fn new() -> (t: Self)
        ensures
            t.wf(),
    {
        let mut king: Vec<u64> = Vec::new();
        let mut rays: Vec<u64> = Vec::new();
        let mut i: u32 = 0;
        while i < 64
            invariant
                i <= 64,
                king@.len() == i,
                rays@.len() == 8 * i,
                forall|j: int| 0 <= j < i ==> #[trigger] king@[j] == king_mask(j),
                forall|j: int, d: int|
                    0 <= j < i && 0 <= d < 8 ==> #[trigger] rays@[8 * j + d] == ray(
                        j,
                        dir_df(d),
                        dir_dr(d),
                    ),
            decreases 64 - i,
        {
            proof {
                lemma_sq_of_bit(i as int);
            }
            king.push(king_attacks(&(1u64 << i)));
            let mut d: u32 = 0;
            while d < 8
                invariant
                    i < 64,
                    d <= 8,
                    rays@.len() == 8 * i + d,
                    forall|j: int, e: int|
                        0 <= j < i && 0 <= e < 8 ==> #[trigger] rays@[8 * j + e] == ray(
                            j,
                            dir_df(e),
                            dir_dr(e),
                        ),
                    forall|e: int|
                        0 <= e < d ==> #[trigger] rays@[8 * i + e] == ray(
                            i as int,
                            dir_df(e),
                            dir_dr(e),
                        ),
                decreases 8 - d,
            {
                let (df, dr) = dir_steps(d);
                let ghost before = rays@;
                rays.push(ray_mask(i, df, dr));
                proof {
                    assert forall|j: int, e: int|
                        0 <= j < i && 0 <= e < 8 implies #[trigger] rays@[8 * j + e] == ray(
                        j,
                        dir_df(e),
                        dir_dr(e),
                    ) by {
                        assert(rays@[8 * j + e] == before[8 * j + e]);
                    }
                    assert forall|e: int| 0 <= e < d + 1 implies #[trigger] rays@[8 * i + e] == ray(
                        i as int,
                        dir_df(e),
                        dir_dr(e),
                    ) by {
                        if e < d {
                            assert(rays@[8 * i + e] == before[8 * i + e]);
                        }
                    }
                }
                d = d + 1;
            }
            proof {
                assert forall|j: int, e: int|
                    0 <= j < i + 1 && 0 <= e < 8 implies #[trigger] rays@[8 * j + e] == ray(
                    j,
                    dir_df(e),
                    dir_dr(e),
                ) by {
                    if j == i {
                        assert(rays@[8 * i + e] == ray(i as int, dir_df(e), dir_dr(e)));
                    }
                }
            }
            i = i + 1;
        }
        AttackTables {
            white_pawn: generate_white_pawn_attacks(),
            black_pawn: generate_black_pawn_attacks(),
            knight: generate_knight_attacks(),
            king,
            rays,
        }
    }

    /// The ray of square `i` in direction `d` (N, NE, E, SE, S, SW, W, NW).
    pub fn ray_of(&self, i: u32, d: u32) -> (r: u64)
        requires
            self.wf(),
            i < 64,
            d < 8,
        ensures
            r == ray(i as int, dir_df(d as int), dir_dr(d as int)),
    {
        self.rays[(8 * i + d) as usize]
    }
}

impl AttackTables {
    /// As [`bishop_reach_at`], reading the rays from the tables.
    pub fn bishop_reach(&self, i: u32, friendly: u64, enemy: u64) -> (r: u64)
        requires
            self.wf(),
            i < 64,
        ensures
            r == bishop_reach(i as int, friendly, enemy),
    {
        proof {
            lemma_sq_of_bit(i as int);
        }
        let from = 1u64 << i;
        resolve_ray(from, self.ray_of(i, 1), friendly, enemy) | resolve_ray(
            from,
            self.ray_of(i, 7),
            friendly,
            enemy,
        ) | resolve_ray(from, self.ray_of(i, 3), friendly, enemy) | resolve_ray(
            from,
            self.ray_of(i, 5),
            friendly,
            enemy,
        )
    }

    /// As [`rook_reach_at`], reading the rays from the tables.
    pub fn rook_reach(&self, i: u32, friendly: u64, enemy: u64) -> (r: u64)
        requires
            self.wf(),
            i < 64,
        ensures
            r == rook_reach(i as int, friendly, enemy),
    {
        proof {
            lemma_sq_of_bit(i as int);
        }
        let from = 1u64 << i;
        resolve_ray(from, self.ray_of(i, 0), friendly, enemy) | resolve_ray(
            from,
            self.ray_of(i, 2),
            friendly,
            enemy,
        ) | resolve_ray(from, self.ray_of(i, 4), friendly, enemy) | resolve_ray(
            from,
            self.ray_of(i, 6),
            friendly,
            enemy,
        )
    }

    /// As [`piece_attacks_at`], reading every pattern from the tables.
    pub fn piece_attacks(&self, board: &ChessBoard, white: bool, i: u32) -> (r: u64)
        requires
            self.wf(),
            i < 64,
        ensures
            r == piece_reach(*board, white, i as int),
    {
        let (own, other) = if white {
            (board.white_pieces, board.black_pieces)
        } else {
            (board.black_pieces, board.white_pieces)
        };
        let k = i as usize;
        if (board.pawns >> i) & 1 == 1 {
            if white {
                self.white_pawn[k] & !own
            } else {
                self.black_pawn[k] & !own
            }
        } else if (board.knights >> i) & 1 == 1 {
            self.knight[k] & !own
        } else if (board.bishops >> i) & 1 == 1 {
            self.bishop_reach(i, own, other)
        } else if (board.rooks >> i) & 1 == 1 {
            self.rook_reach(i, own, other)
        } else if (board.queens >> i) & 1 == 1 {
            self.rook_reach(i, own, other) | self.bishop_reach(i, own, other)
        } else if (board.kings >> i) & 1 == 1 {
            self.king[k] & !own
        } else {
            0
        }
    }

    /// As [`color_attacks`], reading every pattern from the tables.
    pub fn color_attacks(&self, board: &ChessBoard, white: bool) -> (r: u64)
        requires
            self.wf(),
        ensures
            r == attack_map(*board, white),
    {
        let own = if white {
            board.white_pieces
        } else {
            board.black_pieces
        };
        let mut acc: u64 = 0;
        let mut i: u32 = 0;
        while i < 64
            invariant
                self.wf(),
                i <= 64,
                own == board.own(white),
                attack_map_from(*board, white, i as int, acc) == attack_map(*board, white),
            decreases 64 - i,
        {
            if (own >> i) & 1 == 1 {
                acc = acc | self.piece_attacks(board, white, i);
            }
            i = i + 1;
        }
        acc
    }
}

} // verus!
