//! Laws of the board state and the move applier, proved over the
//! specifications of `apply_move`, `unapply_move` and the attack caches.

use vstd::prelude::*;
use crate::utils::{bit, sq_in, lemma_has_ops, lemma_bit_facts};
use crate::board::{ChessBoard, PieceKind};
use crate::apply::{
    applied, apply_error, capture_square, captures_on_target, castle_rook, clr_sq, is_promotion,
    move_flag, move_from, move_to, set_sq, unapplied, unapply_refused, undo_of, corner_keep,
    UndoInfo,
};
use crate::moves::lemma_attack_map_placement;

verus! {

/// Two bitboards that agree on every square are equal.
pub proof fn lemma_bits_ext(x: u64, y: u64)
    requires
        forall|j: int| 0 <= j < 64 ==> sq_in(x, j) == sq_in(y, j),
    ensures
        x == y,
{
    assert forall|j: u64| 0 <= j < 64 implies ((x >> j) & 1u64 == 1u64) == ((y >> j) & 1u64
        == 1u64) by {
        assert(sq_in(x, j as int) == sq_in(y, j as int));
    }
    lemma_bits_ext_raw(x, y);
}

proof fn lemma_bits_ext_raw(x: u64, y: u64)
    requires
        forall|j: u64| 0 <= j < 64 ==> ((x >> j) & 1u64 == 1u64) == ((y >> j) & 1u64 == 1u64),
    ensures
        x == y,
{
    assert forall|j: u64| 0 <= j < 64 implies (x >> j) & 1u64 == (y >> j) & 1u64 by {
        assert((x >> j) & 1u64 == 1u64 || (x >> j) & 1u64 == 0u64) by (bit_vector);
        assert((y >> j) & 1u64 == 1u64 || (y >> j) & 1u64 == 0u64) by (bit_vector);
    }
    assert(x == y) by (bit_vector)
        requires
            (x >> 0u64) & 1u64 == (y >> 0u64) & 1u64,
            (x >> 1u64) & 1u64 == (y >> 1u64) & 1u64,
            (x >> 2u64) & 1u64 == (y >> 2u64) & 1u64,
            (x >> 3u64) & 1u64 == (y >> 3u64) & 1u64,
            (x >> 4u64) & 1u64 == (y >> 4u64) & 1u64,
            (x >> 5u64) & 1u64 == (y >> 5u64) & 1u64,
            (x >> 6u64) & 1u64 == (y >> 6u64) & 1u64,
            (x >> 7u64) & 1u64 == (y >> 7u64) & 1u64,
            (x >> 8u64) & 1u64 == (y >> 8u64) & 1u64,
            (x >> 9u64) & 1u64 == (y >> 9u64) & 1u64,
            (x >> 10u64) & 1u64 == (y >> 10u64) & 1u64,
            (x >> 11u64) & 1u64 == (y >> 11u64) & 1u64,
            (x >> 12u64) & 1u64 == (y >> 12u64) & 1u64,
            (x >> 13u64) & 1u64 == (y >> 13u64) & 1u64,
            (x >> 14u64) & 1u64 == (y >> 14u64) & 1u64,
            (x >> 15u64) & 1u64 == (y >> 15u64) & 1u64,
            (x >> 16u64) & 1u64 == (y >> 16u64) & 1u64,
            (x >> 17u64) & 1u64 == (y >> 17u64) & 1u64,
            (x >> 18u64) & 1u64 == (y >> 18u64) & 1u64,
            (x >> 19u64) & 1u64 == (y >> 19u64) & 1u64,
            (x >> 20u64) & 1u64 == (y >> 20u64) & 1u64,
            (x >> 21u64) & 1u64 == (y >> 21u64) & 1u64,
            (x >> 22u64) & 1u64 == (y >> 22u64) & 1u64,
            (x >> 23u64) & 1u64 == (y >> 23u64) & 1u64,
            (x >> 24u64) & 1u64 == (y >> 24u64) & 1u64,
            (x >> 25u64) & 1u64 == (y >> 25u64) & 1u64,
            (x >> 26u64) & 1u64 == (y >> 26u64) & 1u64,
            (x >> 27u64) & 1u64 == (y >> 27u64) & 1u64,
            (x >> 28u64) & 1u64 == (y >> 28u64) & 1u64,
            (x >> 29u64) & 1u64 == (y >> 29u64) & 1u64,
            (x >> 30u64) & 1u64 == (y >> 30u64) & 1u64,
            (x >> 31u64) & 1u64 == (y >> 31u64) & 1u64,
            (x >> 32u64) & 1u64 == (y >> 32u64) & 1u64,
            (x >> 33u64) & 1u64 == (y >> 33u64) & 1u64,
            (x >> 34u64) & 1u64 == (y >> 34u64) & 1u64,
            (x >> 35u64) & 1u64 == (y >> 35u64) & 1u64,
            (x >> 36u64) & 1u64 == (y >> 36u64) & 1u64,
            (x >> 37u64) & 1u64 == (y >> 37u64) & 1u64,
            (x >> 38u64) & 1u64 == (y >> 38u64) & 1u64,
            (x >> 39u64) & 1u64 == (y >> 39u64) & 1u64,
            (x >> 40u64) & 1u64 == (y >> 40u64) & 1u64,
            (x >> 41u64) & 1u64 == (y >> 41u64) & 1u64,
            (x >> 42u64) & 1u64 == (y >> 42u64) & 1u64,
            (x >> 43u64) & 1u64 == (y >> 43u64) & 1u64,
            (x >> 44u64) & 1u64 == (y >> 44u64) & 1u64,
            (x >> 45u64) & 1u64 == (y >> 45u64) & 1u64,
            (x >> 46u64) & 1u64 == (y >> 46u64) & 1u64,
            (x >> 47u64) & 1u64 == (y >> 47u64) & 1u64,
            (x >> 48u64) & 1u64 == (y >> 48u64) & 1u64,
            (x >> 49u64) & 1u64 == (y >> 49u64) & 1u64,
            (x >> 50u64) & 1u64 == (y >> 50u64) & 1u64,
            (x >> 51u64) & 1u64 == (y >> 51u64) & 1u64,
            (x >> 52u64) & 1u64 == (y >> 52u64) & 1u64,
            (x >> 53u64) & 1u64 == (y >> 53u64) & 1u64,
            (x >> 54u64) & 1u64 == (y >> 54u64) & 1u64,
            (x >> 55u64) & 1u64 == (y >> 55u64) & 1u64,
            (x >> 56u64) & 1u64 == (y >> 56u64) & 1u64,
            (x >> 57u64) & 1u64 == (y >> 57u64) & 1u64,
            (x >> 58u64) & 1u64 == (y >> 58u64) & 1u64,
            (x >> 59u64) & 1u64 == (y >> 59u64) & 1u64,
            (x >> 60u64) & 1u64 == (y >> 60u64) & 1u64,
            (x >> 61u64) & 1u64 == (y >> 61u64) & 1u64,
            (x >> 62u64) & 1u64 == (y >> 62u64) & 1u64,
            (x >> 63u64) & 1u64 == (y >> 63u64) & 1u64,
    ;
}

/// Recomputed attack caches are fresh.
pub broadcast proof fn lemma_refreshed_fresh(b: ChessBoard)
    ensures
        #[trigger] b.refreshed().attacks_fresh(),
{
    lemma_attack_map_placement(b, b.refreshed());
}

/// Membership after adding square `i`.
pub broadcast proof fn lemma_set_sq(x: u64, i: int, j: int)
    requires
        0 <= i < 64,
        0 <= j < 64,
    ensures
        #[trigger] sq_in(set_sq(x, i), j) == (i == j || sq_in(x, j)),
{
    lemma_has_ops(x, bit(i), j as u64);
    lemma_bit_facts(i as u64, j as u64);
}

/// Membership after removing square `i`.
pub broadcast proof fn lemma_clr_sq(x: u64, i: int, j: int)
    requires
        0 <= i < 64,
        0 <= j < 64,
    ensures
        #[trigger] sq_in(clr_sq(x, i), j) == (i != j && sq_in(x, j)),
{
    lemma_has_ops(x, bit(i), j as u64);
    lemma_bit_facts(i as u64, j as u64);
}

/// Two bitboards with no common square have an empty intersection.
proof fn lemma_disjoint_from_bits(x: u64, y: u64)
    requires
        forall|j: int| 0 <= j < 64 ==> !(#[trigger] sq_in(x, j) && sq_in(y, j)),
    ensures
        x & y == 0,
{
    assert forall|j: int| 0 <= j < 64 implies sq_in(x & y, j) == sq_in(0u64, j) by {
        assert(!(sq_in(x, j) && sq_in(y, j)));
        lemma_has_ops(x, y, j as u64);
        lemma_has_ops(0, 0, j as u64);
    }
    lemma_bits_ext(x & y, 0);
}

proof fn lemma_disjoint_bit(x: u64, y: u64, j: int)
    requires
        x & y == 0,
        0 <= j < 64,
    ensures
        !(sq_in(x, j) && sq_in(y, j)),
{
    lemma_has_ops(x, y, j as u64);
    lemma_has_ops(0, 0, j as u64);
}

proof fn lemma_union_bits(b: ChessBoard, j: int)
    requires
        0 <= j < 64,
    ensures
        sq_in(b.all_types(), j) == (sq_in(b.pawns, j) || sq_in(b.knights, j) || sq_in(b.bishops, j)
            || sq_in(b.rooks, j) || sq_in(b.queens, j) || sq_in(b.kings, j)),
        sq_in(b.white_pieces | b.black_pieces, j) == (sq_in(b.white_pieces, j) || sq_in(
            b.black_pieces,
            j,
        )),
{
    let u = j as u64;
    lemma_has_ops(b.pawns, b.knights, u);
    lemma_has_ops(b.pawns | b.knights, b.bishops, u);
    lemma_has_ops(b.pawns | b.knights | b.bishops, b.rooks, u);
    lemma_has_ops(b.pawns | b.knights | b.bishops | b.rooks, b.queens, u);
    lemma_has_ops(b.pawns | b.knights | b.bishops | b.rooks | b.queens, b.kings, u);
    lemma_has_ops(b.white_pieces, b.black_pieces, u);
}

/// The occupancy bookkeeping on one square: at most one color, at most one
/// kind, and a color exactly when a kind.
pub open spec fn occupancy_at(b: ChessBoard, j: int) -> bool {
    &&& !(sq_in(b.white_pieces, j) && sq_in(b.black_pieces, j))
    &&& (sq_in(b.white_pieces, j) || sq_in(b.black_pieces, j)) == (sq_in(b.pawns, j) || sq_in(
        b.knights,
        j,
    ) || sq_in(b.bishops, j) || sq_in(b.rooks, j) || sq_in(b.queens, j) || sq_in(b.kings, j))
    &&& !(sq_in(b.pawns, j) && sq_in(b.knights, j))
    &&& !(sq_in(b.pawns, j) && sq_in(b.bishops, j))
    &&& !(sq_in(b.pawns, j) && sq_in(b.rooks, j))
    &&& !(sq_in(b.pawns, j) && sq_in(b.queens, j))
    &&& !(sq_in(b.pawns, j) && sq_in(b.kings, j))
    &&& !(sq_in(b.knights, j) && sq_in(b.bishops, j))
    &&& !(sq_in(b.knights, j) && sq_in(b.rooks, j))
    &&& !(sq_in(b.knights, j) && sq_in(b.queens, j))
    &&& !(sq_in(b.knights, j) && sq_in(b.kings, j))
    &&& !(sq_in(b.bishops, j) && sq_in(b.rooks, j))
    &&& !(sq_in(b.bishops, j) && sq_in(b.queens, j))
    &&& !(sq_in(b.bishops, j) && sq_in(b.kings, j))
    &&& !(sq_in(b.rooks, j) && sq_in(b.queens, j))
    &&& !(sq_in(b.rooks, j) && sq_in(b.kings, j))
    &&& !(sq_in(b.queens, j) && sq_in(b.kings, j))
}

pub(crate) proof fn lemma_occupancy_bits(b: ChessBoard, j: int)
    requires
        b.occupancy_ok(),
        0 <= j < 64,
    ensures
        occupancy_at(b, j),
{
    lemma_disjoint_bit(b.white_pieces, b.black_pieces, j);
    lemma_disjoint_bit(b.pawns, b.knights, j);
    lemma_disjoint_bit(b.pawns, b.bishops, j);
    lemma_disjoint_bit(b.pawns, b.rooks, j);
    lemma_disjoint_bit(b.pawns, b.queens, j);
    lemma_disjoint_bit(b.pawns, b.kings, j);
    lemma_disjoint_bit(b.knights, b.bishops, j);
    lemma_disjoint_bit(b.knights, b.rooks, j);
    lemma_disjoint_bit(b.knights, b.queens, j);
    lemma_disjoint_bit(b.knights, b.kings, j);
    lemma_disjoint_bit(b.bishops, b.rooks, j);
    lemma_disjoint_bit(b.bishops, b.queens, j);
    lemma_disjoint_bit(b.bishops, b.kings, j);
    lemma_disjoint_bit(b.rooks, b.queens, j);
    lemma_disjoint_bit(b.rooks, b.kings, j);
    lemma_disjoint_bit(b.queens, b.kings, j);
    lemma_union_bits(b, j);
}

pub(crate) proof fn lemma_occupancy_from_bits(b: ChessBoard)
    requires
        forall|j: int| 0 <= j < 64 ==> #[trigger] occupancy_at(b, j),
    ensures
        b.occupancy_ok(),
{
    assert forall|j: int| 0 <= j < 64 implies sq_in(b.all_types(), j) == sq_in(
        b.white_pieces | b.black_pieces,
        j,
    ) by {
        assert(occupancy_at(b, j));
        lemma_union_bits(b, j);
    }
    lemma_bits_ext(b.all_types(), b.white_pieces | b.black_pieces);
    assert forall|j: int| 0 <= j < 64 implies !(#[trigger] sq_in(b.white_pieces, j) && sq_in(
        b.black_pieces,
        j,
    )) by {
        assert(occupancy_at(b, j));
    }
    lemma_disjoint_from_bits(b.white_pieces, b.black_pieces);
    assert forall|j: int| 0 <= j < 64 implies !(#[trigger] sq_in(b.pawns, j) && sq_in(b.knights, j)) by {
        assert(occupancy_at(b, j));
    }
    lemma_disjoint_from_bits(b.pawns, b.knights);
    assert forall|j: int| 0 <= j < 64 implies !(#[trigger] sq_in(b.pawns, j) && sq_in(b.bishops, j)) by {
        assert(occupancy_at(b, j));
    }
    lemma_disjoint_from_bits(b.pawns, b.bishops);
    assert forall|j: int| 0 <= j < 64 implies !(#[trigger] sq_in(b.pawns, j) && sq_in(b.rooks, j)) by {
        assert(occupancy_at(b, j));
    }
    lemma_disjoint_from_bits(b.pawns, b.rooks);
    assert forall|j: int| 0 <= j < 64 implies !(#[trigger] sq_in(b.pawns, j) && sq_in(b.queens, j)) by {
        assert(occupancy_at(b, j));
    }
    lemma_disjoint_from_bits(b.pawns, b.queens);
    assert forall|j: int| 0 <= j < 64 implies !(#[trigger] sq_in(b.pawns, j) && sq_in(b.kings, j)) by {
        assert(occupancy_at(b, j));
    }
    lemma_disjoint_from_bits(b.pawns, b.kings);
    assert forall|j: int| 0 <= j < 64 implies !(#[trigger] sq_in(b.knights, j) && sq_in(b.bishops, j)) by {
        assert(occupancy_at(b, j));
    }
    lemma_disjoint_from_bits(b.knights, b.bishops);
    assert forall|j: int| 0 <= j < 64 implies !(#[trigger] sq_in(b.knights, j) && sq_in(b.rooks, j)) by {
        assert(occupancy_at(b, j));
    }
    lemma_disjoint_from_bits(b.knights, b.rooks);
    assert forall|j: int| 0 <= j < 64 implies !(#[trigger] sq_in(b.knights, j) && sq_in(b.queens, j)) by {
        assert(occupancy_at(b, j));
    }
    lemma_disjoint_from_bits(b.knights, b.queens);
    assert forall|j: int| 0 <= j < 64 implies !(#[trigger] sq_in(b.knights, j) && sq_in(b.kings, j)) by {
        assert(occupancy_at(b, j));
    }
    lemma_disjoint_from_bits(b.knights, b.kings);
    assert forall|j: int| 0 <= j < 64 implies !(#[trigger] sq_in(b.bishops, j) && sq_in(b.rooks, j)) by {
        assert(occupancy_at(b, j));
    }
    lemma_disjoint_from_bits(b.bishops, b.rooks);
    assert forall|j: int| 0 <= j < 64 implies !(#[trigger] sq_in(b.bishops, j) && sq_in(b.queens, j)) by {
        assert(occupancy_at(b, j));
    }
    lemma_disjoint_from_bits(b.bishops, b.queens);
    assert forall|j: int| 0 <= j < 64 implies !(#[trigger] sq_in(b.bishops, j) && sq_in(b.kings, j)) by {
        assert(occupancy_at(b, j));
    }
    lemma_disjoint_from_bits(b.bishops, b.kings);
    assert forall|j: int| 0 <= j < 64 implies !(#[trigger] sq_in(b.rooks, j) && sq_in(b.queens, j)) by {
        assert(occupancy_at(b, j));
    }
    lemma_disjoint_from_bits(b.rooks, b.queens);
    assert forall|j: int| 0 <= j < 64 implies !(#[trigger] sq_in(b.rooks, j) && sq_in(b.kings, j)) by {
        assert(occupancy_at(b, j));
    }
    lemma_disjoint_from_bits(b.rooks, b.kings);
    assert forall|j: int| 0 <= j < 64 implies !(#[trigger] sq_in(b.queens, j) && sq_in(b.kings, j)) by {
        assert(occupancy_at(b, j));
    }
    lemma_disjoint_from_bits(b.queens, b.kings);
}

/// A move that `apply_move` accepts on a well-formed position and that fits
/// the position: a quiet move, castle or promotion lands on an empty square,
/// a capture on a piece of the other side; an en passant capture is made by
/// a pawn and takes a pawn of the other side; a castle is made by the king,
/// with its rook in the corner and the rook's landing square empty; a
/// promotion is made by a pawn.
pub open spec fn legal_move(s: ChessBoard, mv: u16) -> bool {
    let from = move_from(mv);
    let to = move_to(mv);
    let flag = move_flag(mv);
    let white = s.side_to_move;
    let k = s.kind_at(from);
    let cap = capture_square(white, flag, to);
    let (rf, rt) = castle_rook(to);
    &&& s.wf()
    &&& apply_error(s, mv).is_none()
    &&& from != to
    &&& (captures_on_target(flag) ==> sq_in(s.own(!white), to))
    &&& (!captures_on_target(flag) ==> !sq_in(s.white_pieces, to) && !sq_in(s.black_pieces, to))
    &&& (flag == 3 ==> k == Some(PieceKind::Pawn) && sq_in(s.own(!white), cap) && sq_in(
        s.pawns,
        cap,
    ))
    &&& (flag == 2 ==> k == Some(PieceKind::King) && sq_in(s.own(white), rf) && sq_in(s.rooks, rf)
        && !sq_in(s.white_pieces, rt) && !sq_in(s.black_pieces, rt))
    &&& (is_promotion(flag) ==> k == Some(PieceKind::Pawn))
}

pub(crate) proof fn lemma_square_facts(s: ChessBoard, mv: u16)
    requires
        legal_move(s, mv),
    ensures
        occupancy_at(s, move_from(mv)),
        occupancy_at(s, move_to(mv)),
        0 <= capture_square(s.side_to_move, move_flag(mv), move_to(mv)) < 64,
        occupancy_at(s, capture_square(s.side_to_move, move_flag(mv), move_to(mv))),
        move_flag(mv) == 2 ==> 0 <= castle_rook(move_to(mv)).0 < 64 && 0 <= castle_rook(
            move_to(mv),
        ).1 < 64 && occupancy_at(s, castle_rook(move_to(mv)).0) && occupancy_at(
            s,
            castle_rook(move_to(mv)).1,
        ),
{
    lemma_occupancy_bits(s, move_from(mv));
    lemma_occupancy_bits(s, move_to(mv));
    lemma_occupancy_bits(s, capture_square(s.side_to_move, move_flag(mv), move_to(mv)));
    if move_flag(mv) == 2 {
        lemma_occupancy_bits(s, castle_rook(move_to(mv)).0);
        lemma_occupancy_bits(s, castle_rook(move_to(mv)).1);
    }
}

/// Undoing a legal move with the record that applying it returned gives back
/// the position before the move, bit for bit.
#[verifier::rlimit(100)]
pub proof fn lemma_unapply_inverts_apply(s: ChessBoard, mv: u16)
    requires
        legal_move(s, mv),
    ensures
        !unapply_refused(applied(s, mv), mv),
        unapplied(applied(s, mv), mv, undo_of(s, mv)) == s,
{
    broadcast use lemma_set_sq, lemma_clr_sq, lemma_refreshed_fresh;

    lemma_square_facts(s, mv);
    let s2 = applied(s, mv);
    let t = unapplied(s2, mv, undo_of(s, mv));
    assert forall|j: int| 0 <= j < 64 implies sq_in(t.pawns, j) == sq_in(s.pawns, j) by {
        lemma_occupancy_bits(s, j);
    }
    lemma_bits_ext(t.pawns, s.pawns);
    assert forall|j: int| 0 <= j < 64 implies sq_in(t.knights, j) == sq_in(s.knights, j) by {
        lemma_occupancy_bits(s, j);
    }
    lemma_bits_ext(t.knights, s.knights);
    assert forall|j: int| 0 <= j < 64 implies sq_in(t.bishops, j) == sq_in(s.bishops, j) by {
        lemma_occupancy_bits(s, j);
    }
    lemma_bits_ext(t.bishops, s.bishops);
    assert forall|j: int| 0 <= j < 64 implies sq_in(t.rooks, j) == sq_in(s.rooks, j) by {
        lemma_occupancy_bits(s, j);
    }
    lemma_bits_ext(t.rooks, s.rooks);
    assert forall|j: int| 0 <= j < 64 implies sq_in(t.queens, j) == sq_in(s.queens, j) by {
        lemma_occupancy_bits(s, j);
    }
    lemma_bits_ext(t.queens, s.queens);
    assert forall|j: int| 0 <= j < 64 implies sq_in(t.kings, j) == sq_in(s.kings, j) by {
        lemma_occupancy_bits(s, j);
    }
    lemma_bits_ext(t.kings, s.kings);
    assert forall|j: int| 0 <= j < 64 implies sq_in(t.white_pieces, j) == sq_in(s.white_pieces, j) by {
        lemma_occupancy_bits(s, j);
    }
    lemma_bits_ext(t.white_pieces, s.white_pieces);
    assert forall|j: int| 0 <= j < 64 implies sq_in(t.black_pieces, j) == sq_in(s.black_pieces, j) by {
        lemma_occupancy_bits(s, j);
    }
    lemma_bits_ext(t.black_pieces, s.black_pieces);
    lemma_attack_map_placement(t, s);
    assert(t.attacks_fresh());
}

proof fn lemma_and_le(a: u8, b: u8, c: u8)
    by (bit_vector)
    requires
        a < 16,
    ensures
        a & b < 16,
        a & b & c < 16,
{
}

/// Applying a legal move keeps the position well formed: the colors stay
/// disjoint and cover exactly the squares of the six disjoint piece kinds,
/// the en passant bitboard holds at most one square, the castling rights
/// stay four bits, and the attack caches are fresh.
#[verifier::rlimit(100)]
pub proof fn lemma_apply_keeps_wf(s: ChessBoard, mv: u16)
    requires
        legal_move(s, mv),
    ensures
        applied(s, mv).wf(),
{
    broadcast use lemma_set_sq, lemma_clr_sq, lemma_refreshed_fresh;

    lemma_square_facts(s, mv);
    let s2 = applied(s, mv);
    assert forall|j: int| 0 <= j < 64 implies #[trigger] occupancy_at(s2, j) by {
        lemma_occupancy_bits(s, j);
    }
    lemma_occupancy_from_bits(s2);
    let from = move_from(mv);
    let to = move_to(mv);
    if s2.en_passant != 0 {
        crate::utils::lemma_sq_of_bit((from + to) / 2);
    }
    let k = s.kind_at(from).unwrap();
    let r1 = if k == PieceKind::King {
        if s.side_to_move {
            s.castling_rights & 0b0011u8
        } else {
            s.castling_rights & 0b1100u8
        }
    } else {
        s.castling_rights
    };
    lemma_and_le(s.castling_rights, 0b0011u8, 0b1111u8);
    lemma_and_le(s.castling_rights, 0b1100u8, 0b1111u8);
    lemma_and_le(r1, corner_keep(from), corner_keep(to));
    assert(s2.attacks_fresh());
}

/// The position after applying `moves` one after another.
pub open spec fn applied_all(s: ChessBoard, moves: Seq<u16>) -> ChessBoard
    decreases moves.len(),
{
    if moves.len() == 0 {
        s
    } else {
        applied_all(applied(s, moves[0]), moves.drop_first())
    }
}

/// Whether each of `moves` is legal in the position its predecessors leave.
pub open spec fn legal_sequence(s: ChessBoard, moves: Seq<u16>) -> bool
    decreases moves.len(),
{
    if moves.len() == 0 {
        true
    } else {
        legal_move(s, moves[0]) && legal_sequence(applied(s, moves[0]), moves.drop_first())
    }
}

/// After any sequence of legal moves from a well-formed position, the two
/// colors are disjoint and together cover exactly the squares of the six
/// piece kinds.
pub proof fn lemma_sequence_keeps_occupancy(s: ChessBoard, moves: Seq<u16>)
    requires
        s.wf(),
        legal_sequence(s, moves),
    ensures
        applied_all(s, moves).wf(),
        applied_all(s, moves).white_pieces & applied_all(s, moves).black_pieces == 0,
        applied_all(s, moves).all_types() == applied_all(s, moves).white_pieces | applied_all(
            s,
            moves,
        ).black_pieces,
    decreases moves.len(),
{
    if moves.len() > 0 {
        lemma_apply_keeps_wf(s, moves[0]);
        lemma_sequence_keeps_occupancy(applied(s, moves[0]), moves.drop_first());
    }
}

/// After a move is applied or undone, the cached attack sets equal a
/// recomputation from the new placement, so check detection from the caches
/// agrees with a from-scratch computation.
pub proof fn lemma_caches_fresh_after_moves(s: ChessBoard, mv: u16, u: UndoInfo)
    ensures
        applied(s, mv).attacks_fresh(),
        unapplied(s, mv, u).attacks_fresh(),
{
    broadcast use lemma_refreshed_fresh;

    assert(applied(s, mv).attacks_fresh());
    assert(unapplied(s, mv, u).attacks_fresh());
}

/// The en passant square is set exactly after a pawn advances two ranks,
/// and then it is the square the pawn passed over.
pub proof fn lemma_en_passant_window(s: ChessBoard, mv: u16)
    requires
        apply_error(s, mv).is_none(),
    ensures
        (applied(s, mv).en_passant != 0) == (s.kind_at(move_from(mv)) == Some(PieceKind::Pawn) && (
        move_to(mv) - move_from(mv) == 16 || move_from(mv) - move_to(mv) == 16)),
        applied(s, mv).en_passant != 0 ==> applied(s, mv).en_passant == bit(
            (move_from(mv) + move_to(mv)) / 2,
        ),
{
    let from = move_from(mv);
    let to = move_to(mv);
    if s.kind_at(from) == Some(PieceKind::Pawn) && (to - from == 16 || from - to == 16) {
        crate::utils::lemma_bit_facts(((from + to) / 2) as u64, ((from + to) / 2) as u64);
    }
}

} // verus!
