//! Check detection.

use vstd::prelude::*;
use crate::board::ChessBoard;
use crate::moves::attack_map;

verus! {

/// Whether the king of the side to move stands on a square that the other
/// side attacks, judged from the cached attack sets.
pub fn is_check(board: &ChessBoard) -> (r: bool)
    requires
        board.attacks_fresh(),
    ensures
        r == (board.kings & board.own(board.side_to_move) & attack_map(*board, !board.side_to_move)
            != 0),
{
    let (own, opposing_attacks) = if board.side_to_move {
        (board.white_pieces, board.black_attacks)
    } else {
        (board.black_pieces, board.white_attacks)
    };
    board.kings & own & opposing_attacks != 0
}

} // verus!
