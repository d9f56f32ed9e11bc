//! Applying a packed move to a board, and undoing it from its undo record.
//!
//! A move is a 16-bit value: bits 0-5 hold the source square, bits 6-11 the
//! destination square and bits 12-15 the kind: 0 normal, 1 capture, 2 castle,
//! 3 en passant capture, 4-7 promotion to knight, bishop, rook, queen, and
//! 8-11 promotion with capture to the same four.

use vstd::prelude::*;
use crate::utils::{bit, sq_in};
use crate::board::{ChessBoard, PieceKind};
use crate::moves::AttackTables;

verus! {

/// What undoing a move needs beyond the move itself.
#[derive(Clone, Copy, Debug, PartialEq, Eq, Structural)]
pub struct UndoInfo {
    pub halfmove_clock: u8,
    pub castling_rights: u8,
    pub en_passant: u64,
    pub captured: Option<PieceKind>,
}

/// Why a move was refused; the board is left unchanged.
#[derive(Clone, Copy, Debug, PartialEq, Eq, Structural)]
pub enum MoveError {
    /// The source square is empty.
    NoPieceAtSource,
    /// The piece on the source square belongs to the side not to move.
    WrongColorPiece,
    /// The move kind is not one of the twelve, an en passant capture would
    /// take a pawn off the board, or a castle does not end on the c- or
    /// g-file.
    InvalidMove,
}

/// The source square of a packed move.
pub open spec fn move_from(mv: u16) -> int {
    mv as int % 64
}

/// The destination square of a packed move.
pub open spec fn move_to(mv: u16) -> int {
    (mv as int / 64) % 64
}

/// The kind of a packed move.
pub open spec fn move_flag(mv: u16) -> int {
    mv as int / 4096
}

/// Packs a move from its source, destination and kind.
pub fn encode_move(from: u16, to: u16, flag: u16) -> (mv: u16)
    requires
        from < 64,
        to < 64,
        flag < 16,
    ensures
        move_from(mv) == from,
        move_to(mv) == to,
        move_flag(mv) == flag,
{
    flag * 4096 + to * 64 + from
}

/// Whether a move kind captures on its destination square.
pub open spec fn captures_on_target(flag: int) -> bool {
    flag == 1 || 8 <= flag < 12
}

/// Whether a move kind promotes.
pub open spec fn is_promotion(flag: int) -> bool {
    4 <= flag < 12
}

/// The piece a promotion turns into.
pub open spec fn promotion_kind(flag: int) -> PieceKind {
    let k = flag % 4;
    if k == 0 {
        PieceKind::Knight
    } else if k == 1 {
        PieceKind::Bishop
    } else if k == 2 {
        PieceKind::Rook
    } else {
        PieceKind::Queen
    }
}

/// The square of the piece a move captures: for en passant one rank behind
/// the destination, toward the mover's side.
pub open spec fn capture_square(white: bool, flag: int, to: int) -> int {
    if flag == 3 {
        if white {
            to - 8
        } else {
            to + 8
        }
    } else {
        to
    }
}

/// The source and destination of the rook in a castle that brings the king
/// to `to`: from the h-file to the f-file, or from the a-file to the d-file.
pub open spec fn castle_rook(to: int) -> (int, int) {
    if to % 8 == 6 {
        (to + 1, to - 1)
    } else {
        (to - 2, to + 1)
    }
}

/// The castling right bits that stay when a piece leaves or reaches square
/// `i`: a corner takes the right of the rook that starts there.
pub open spec fn corner_keep(i: int) -> u8 {
    if i == 0 {
        0b1011u8
    } else if i == 7 {
        0b0111u8
    } else if i == 56 {
        0b1110u8
    } else if i == 63 {
        0b1101u8
    } else {
        0b1111u8
    }
}

/// The castling rights after a move of a `kind` piece of color `white` from
/// `from` to `to`: a king move takes both rights of its side; touching a
/// corner takes the right of that corner's rook.
pub open spec fn rights_after(rights: u8, white: bool, kind: PieceKind, from: int, to: int) -> u8 {
    let r1 = if kind == PieceKind::King {
        if white {
            rights & 0b0011u8
        } else {
            rights & 0b1100u8
        }
    } else {
        rights
    };
    r1 & corner_keep(from) & corner_keep(to)
}

/// `x` with square `i` added.
pub open spec fn set_sq(x: u64, i: int) -> u64 {
    x | bit(i)
}

/// `x` with square `i` removed.
pub open spec fn clr_sq(x: u64, i: int) -> u64 {
    x & !bit(i)
}

/// `b` with square `i` added to the bitboard of kind `k`.
pub open spec fn kind_set(b: ChessBoard, k: PieceKind, i: int) -> ChessBoard {
    match k {
        PieceKind::Pawn => ChessBoard { pawns: set_sq(b.pawns, i), ..b },
        PieceKind::Knight => ChessBoard { knights: set_sq(b.knights, i), ..b },
        PieceKind::Bishop => ChessBoard { bishops: set_sq(b.bishops, i), ..b },
        PieceKind::Rook => ChessBoard { rooks: set_sq(b.rooks, i), ..b },
        PieceKind::Queen => ChessBoard { queens: set_sq(b.queens, i), ..b },
        PieceKind::King => ChessBoard { kings: set_sq(b.kings, i), ..b },
    }
}

/// `b` with square `i` removed from the bitboard of kind `k`.
pub open spec fn kind_clr(b: ChessBoard, k: PieceKind, i: int) -> ChessBoard {
    match k {
        PieceKind::Pawn => ChessBoard { pawns: clr_sq(b.pawns, i), ..b },
        PieceKind::Knight => ChessBoard { knights: clr_sq(b.knights, i), ..b },
        PieceKind::Bishop => ChessBoard { bishops: clr_sq(b.bishops, i), ..b },
        PieceKind::Rook => ChessBoard { rooks: clr_sq(b.rooks, i), ..b },
        PieceKind::Queen => ChessBoard { queens: clr_sq(b.queens, i), ..b },
        PieceKind::King => ChessBoard { kings: clr_sq(b.kings, i), ..b },
    }
}

/// `b` with square `i` added to the pieces of color `white`.
pub open spec fn color_set(b: ChessBoard, white: bool, i: int) -> ChessBoard {
    if white {
        ChessBoard { white_pieces: set_sq(b.white_pieces, i), ..b }
    } else {
        ChessBoard { black_pieces: set_sq(b.black_pieces, i), ..b }
    }
}

/// `b` with square `i` removed from the pieces of color `white`.
pub open spec fn color_clr(b: ChessBoard, white: bool, i: int) -> ChessBoard {
    if white {
        ChessBoard { white_pieces: clr_sq(b.white_pieces, i), ..b }
    } else {
        ChessBoard { black_pieces: clr_sq(b.black_pieces, i), ..b }
    }
}

/// `b` with a `k` piece of color `white` moved from `from` to `to`, where it
/// becomes a `placed` piece.
pub open spec fn relocate(
    b: ChessBoard,
    white: bool,
    k: PieceKind,
    placed: PieceKind,
    from: int,
    to: int,
) -> ChessBoard {
    color_set(color_clr(kind_set(kind_clr(b, k, from), placed, to), white, from), white, to)
}

/// Whether `apply_move` refuses the move, and with which error.
pub open spec fn apply_error(s: ChessBoard, mv: u16) -> Option<MoveError> {
    let from = move_from(mv);
    let to = move_to(mv);
    let flag = move_flag(mv);
    let white = s.side_to_move;
    if s.kind_at(from).is_none() {
        Some(MoveError::NoPieceAtSource)
    } else if !sq_in(s.own(white), from) {
        Some(MoveError::WrongColorPiece)
    } else if flag >= 12 {
        Some(MoveError::InvalidMove)
    } else if flag == 3 && !(0 <= capture_square(white, flag, to) < 64) {
        Some(MoveError::InvalidMove)
    } else if flag == 2 && to % 8 != 6 && to % 8 != 2 {
        Some(MoveError::InvalidMove)
    } else {
        None
    }
}

/// The piece a move takes, if any.
pub open spec fn captured_kind(s: ChessBoard, mv: u16) -> Option<PieceKind> {
    let flag = move_flag(mv);
    if captures_on_target(flag) {
        s.kind_at(move_to(mv))
    } else if flag == 3 {
        Some(PieceKind::Pawn)
    } else {
        None
    }
}

/// The undo record of a move applied to `s`.
pub open spec fn undo_of(s: ChessBoard, mv: u16) -> UndoInfo {
    UndoInfo {
        halfmove_clock: s.halfmove_clock,
        castling_rights: s.castling_rights,
        en_passant: s.en_passant,
        captured: captured_kind(s, mv),
    }
}

/// The position after a move that `apply_move` accepts.
pub open spec fn applied(s: ChessBoard, mv: u16) -> ChessBoard {
    let from = move_from(mv);
    let to = move_to(mv);
    let flag = move_flag(mv);
    let white = s.side_to_move;
    let k = s.kind_at(from).unwrap();
    let captured = captured_kind(s, mv);
    let cap = capture_square(white, flag, to);
    let b1 = match captured {
        Some(ck) => color_clr(kind_clr(s, ck, cap), !white, cap),
        None => s,
    };
    let placed = if is_promotion(flag) {
        promotion_kind(flag)
    } else {
        k
    };
    let b2 = relocate(b1, white, k, placed, from, to);
    let b3 = if flag == 2 {
        relocate(b2, white, PieceKind::Rook, PieceKind::Rook, castle_rook(to).0, castle_rook(to).1)
    } else {
        b2
    };
    let ep = if k == PieceKind::Pawn && (to - from == 16 || from - to == 16) {
        bit((from + to) / 2)
    } else {
        0u64
    };
    let half = if k == PieceKind::Pawn || captured.is_some() {
        0u8
    } else if s.halfmove_clock < 255 {
        (s.halfmove_clock + 1) as u8
    } else {
        255u8
    };
    let full = if white {
        s.fullmove_number
    } else if s.fullmove_number < 65535 {
        (s.fullmove_number + 1) as u16
    } else {
        0u16
    };
    ChessBoard {
        side_to_move: !white,
        en_passant: ep,
        halfmove_clock: half,
        castling_rights: rights_after(s.castling_rights, white, k, from, to),
        fullmove_number: full,
        ..b3
    }.refreshed()
}

/// Whether `unapply_move` refuses to undo the move: no piece stands on its
/// destination, or the move kind is not one of the twelve.
pub open spec fn unapply_refused(s: ChessBoard, mv: u16) -> bool {
    move_flag(mv) >= 12 || s.kind_at(move_to(mv)).is_none() || (move_flag(mv) == 2 && move_to(mv)
        % 8 != 6 && move_to(mv) % 8 != 2) || (move_flag(mv) == 3 && !(0 <= capture_square(
        !s.side_to_move,
        3,
        move_to(mv),
    ) < 64))
}

/// The position before a move, rebuilt from the position after it and its
/// undo record.
pub open spec fn unapplied(s: ChessBoard, mv: u16, u: UndoInfo) -> ChessBoard {
    let from = move_from(mv);
    let to = move_to(mv);
    let flag = move_flag(mv);
    let white = !s.side_to_move;
    let placed = s.kind_at(to).unwrap();
    let k = if is_promotion(flag) {
        PieceKind::Pawn
    } else {
        placed
    };
    let cap = capture_square(white, flag, to);
    let b1 = if flag == 2 {
        relocate(s, white, PieceKind::Rook, PieceKind::Rook, castle_rook(to).1, castle_rook(to).0)
    } else {
        s
    };
    let b2 = relocate(b1, white, placed, k, to, from);
    let b3 = match u.captured {
        Some(ck) => color_set(kind_set(b2, ck, cap), !white, cap),
        None => b2,
    };
    let full = if white {
        s.fullmove_number
    } else if s.fullmove_number > 0 {
        (s.fullmove_number - 1) as u16
    } else {
        65535u16
    };
    ChessBoard {
        side_to_move: white,
        en_passant: u.en_passant,
        halfmove_clock: u.halfmove_clock,
        castling_rights: u.castling_rights,
        fullmove_number: full,
        ..b3
    }.refreshed()
}


fn kind_set_at(b: &mut ChessBoard, k: PieceKind, i: u64)
    requires
        i < 64,
    ensures
        *final(b) == kind_set(*old(b), k, i as int),
{
    let m = 1u64 << i;
    match k {
        PieceKind::Pawn => b.pawns = b.pawns | m,
        PieceKind::Knight => b.knights = b.knights | m,
        PieceKind::Bishop => b.bishops = b.bishops | m,
        PieceKind::Rook => b.rooks = b.rooks | m,
        PieceKind::Queen => b.queens = b.queens | m,
        PieceKind::King => b.kings = b.kings | m,
    }
}

fn kind_clr_at(b: &mut ChessBoard, k: PieceKind, i: u64)
    requires
        i < 64,
    ensures
        *final(b) == kind_clr(*old(b), k, i as int),
{
    let m = !(1u64 << i);
    match k {
        PieceKind::Pawn => b.pawns = b.pawns & m,
        PieceKind::Knight => b.knights = b.knights & m,
        PieceKind::Bishop => b.bishops = b.bishops & m,
        PieceKind::Rook => b.rooks = b.rooks & m,
        PieceKind::Queen => b.queens = b.queens & m,
        PieceKind::King => b.kings = b.kings & m,
    }
}

fn color_set_at(b: &mut ChessBoard, white: bool, i: u64)
    requires
        i < 64,
    ensures
        *final(b) == color_set(*old(b), white, i as int),
{
    if white {
        b.white_pieces = b.white_pieces | (1u64 << i);
    } else {
        b.black_pieces = b.black_pieces | (1u64 << i);
    }
}

fn color_clr_at(b: &mut ChessBoard, white: bool, i: u64)
    requires
        i < 64,
    ensures
        *final(b) == color_clr(*old(b), white, i as int),
{
    if white {
        b.white_pieces = b.white_pieces & !(1u64 << i);
    } else {
        b.black_pieces = b.black_pieces & !(1u64 << i);
    }
}

fn relocate_at(b: &mut ChessBoard, white: bool, k: PieceKind, placed: PieceKind, from: u64, to: u64)
    requires
        from < 64,
        to < 64,
    ensures
        *final(b) == relocate(*old(b), white, k, placed, from as int, to as int),
{
    kind_clr_at(b, k, from);
    kind_set_at(b, placed, to);
    color_clr_at(b, white, from);
    color_set_at(b, white, to);
}

fn promotion_of(flag: u16) -> (k: PieceKind)
    ensures
        k == promotion_kind(flag as int),
{
    let k = flag % 4;
    if k == 0 {
        PieceKind::Knight
    } else if k == 1 {
        PieceKind::Bishop
    } else if k == 2 {
        PieceKind::Rook
    } else {
        PieceKind::Queen
    }
}

fn corner_keep_of(i: u64) -> (r: u8)
    ensures
        r == corner_keep(i as int),
{
    if i == 0 {
        0b1011u8
    } else if i == 7 {
        0b0111u8
    } else if i == 56 {
        0b1110u8
    } else if i == 63 {
        0b1101u8
    } else {
        0b1111u8
    }
}

impl ChessBoard {
    /// The position after `mv` before its attack caches are recomputed, and
    /// the undo record; or why `apply_move` refuses the move.
    fn moved(&self, mv: u16) -> (r: Result<(ChessBoard, UndoInfo), MoveError>)
        ensures
            apply_error(*self, mv).is_none() ==> r.is_ok() && r->Ok_0.1 == undo_of(*self, mv)
                && r->Ok_0.0.refreshed() == applied(*self, mv),
            apply_error(*self, mv).is_some() ==> r == Err::<(ChessBoard, UndoInfo), MoveError>(
                apply_error(*self, mv).unwrap(),
            ),
    {
        let from: u64 = (mv % 64) as u64;
        let to: u64 = ((mv / 64) % 64) as u64;
        let flag: u16 = mv / 4096;
        let white = self.side_to_move;
        proof {
            crate::utils::lemma_sq_of_bit(from as int);
            crate::utils::lemma_sq_of_bit(to as int);
            crate::utils::lemma_bit_facts(from, from);
            crate::utils::lemma_bit_facts(to, to);
        }
        let k = match self.piece_type_at(1u64 << from) {
            Some(k) => k,
            None => {
                return Err(MoveError::NoPieceAtSource);
            },
        };
        let own = if white {
            self.white_pieces
        } else {
            self.black_pieces
        };
        if (own >> from) & 1 != 1 {
            return Err(MoveError::WrongColorPiece);
        }
        if flag >= 12 {
            return Err(MoveError::InvalidMove);
        }
        if flag == 3 && ((white && to < 8) || (!white && to >= 56)) {
            return Err(MoveError::InvalidMove);
        }
        if flag == 2 && to % 8 != 6 && to % 8 != 2 {
            return Err(MoveError::InvalidMove);
        }
        let captured = if flag == 1 || (8 <= flag && flag < 12) {
            self.piece_type_at(1u64 << to)
        } else if flag == 3 {
            Some(PieceKind::Pawn)
        } else {
            None
        };
        let cap: u64 = if flag == 3 {
            if white {
                to - 8
            } else {
                to + 8
            }
        } else {
            to
        };
        let undo = UndoInfo {
            halfmove_clock: self.halfmove_clock,
            castling_rights: self.castling_rights,
            en_passant: self.en_passant,
            captured,
        };
        let mut b = *self;
        match captured {
            Some(ck) => {
                kind_clr_at(&mut b, ck, cap);
                color_clr_at(&mut b, !white, cap);
            },
            None => {},
        }
        let placed = if 4 <= flag && flag < 12 {
            promotion_of(flag)
        } else {
            k
        };
        relocate_at(&mut b, white, k, placed, from, to);
        if flag == 2 {
            if to % 8 == 6 {
                relocate_at(&mut b, white, PieceKind::Rook, PieceKind::Rook, to + 1, to - 1);
            } else {
                relocate_at(&mut b, white, PieceKind::Rook, PieceKind::Rook, to - 2, to + 1);
            }
        }
        b.en_passant = if k == PieceKind::Pawn && (to == from + 16 || from == to + 16) {
            1u64 << ((from + to) / 2)
        } else {
            0
        };
        b.halfmove_clock = if k == PieceKind::Pawn || captured.is_some() {
            0
        } else if self.halfmove_clock < 255 {
            self.halfmove_clock + 1
        } else {
            255
        };
        let kept = if k == PieceKind::King {
            if white {
                self.castling_rights & 0b0011u8
            } else {
                self.castling_rights & 0b1100u8
            }
        } else {
            self.castling_rights
        };
        b.castling_rights = kept & corner_keep_of(from) & corner_keep_of(to);
        b.side_to_move = !white;
        b.fullmove_number = if white {
            self.fullmove_number
        } else if self.fullmove_number < 65535 {
            self.fullmove_number + 1
        } else {
            0
        };
        Ok((b, undo))
    }

    /// Applies the packed move `mv` for the side to move and returns what
    /// undoing it needs. The captured piece (on the destination, or for en
    /// passant one rank behind it) is removed; the moving piece goes from the
    /// source to the destination, a promoting pawn becoming the promoted
    /// piece; a castle also brings the rook from its corner next to the king.
    /// The en passant square is set behind a pawn that advanced two ranks and
    /// cleared otherwise; the halfmove clock restarts on a pawn move or a
    /// capture and counts up otherwise; a king move takes both castling
    /// rights of its side, and a move from or to a corner takes that rook's
    /// right; the side to move changes, the fullmove number counts up after
    /// Black's move, and both attack caches are recomputed. A refused move
    /// leaves the board unchanged.
    pub fn apply_move(&mut self, mv: u16) -> (r: Result<UndoInfo, MoveError>)
        ensures
            apply_error(*old(self), mv).is_none() ==> r == Ok::<UndoInfo, MoveError>(
                undo_of(*old(self), mv),
            ) && *final(self) == applied(*old(self), mv),
            apply_error(*old(self), mv).is_some() ==> r == Err::<UndoInfo, MoveError>(
                apply_error(*old(self), mv).unwrap(),
            ) && *final(self) == *old(self),
    {
        match self.moved(mv) {
            Ok((b, undo)) => {
                let mut b = b;
                b.refresh_attacks();
                *self = b;
                Ok(undo)
            },
            Err(e) => Err(e),
        }
    }

    /// As [`ChessBoard::apply_move`], recomputing the attack caches from
    /// precomputed tables.
    pub fn apply_move_with(&mut self, tables: &AttackTables, mv: u16) -> (r: Result<
        UndoInfo,
        MoveError,
    >)
        requires
            tables.wf(),
        ensures
            apply_error(*old(self), mv).is_none() ==> r == Ok::<UndoInfo, MoveError>(
                undo_of(*old(self), mv),
            ) && *final(self) == applied(*old(self), mv),
            apply_error(*old(self), mv).is_some() ==> r == Err::<UndoInfo, MoveError>(
                apply_error(*old(self), mv).unwrap(),
            ) && *final(self) == *old(self),
    {
        match self.moved(mv) {
            Ok((b, undo)) => {
                let mut b = b;
                b.refresh_attacks_with(tables);
                *self = b;
                Ok(undo)
            },
            Err(e) => Err(e),
        }
    }

    /// The position before `mv` without recomputed attack caches, or why
    /// `unapply_move` refuses to undo it.
    fn restored(&self, mv: u16, undo: &UndoInfo) -> (r: Result<ChessBoard, MoveError>)
        ensures
            !unapply_refused(*self, mv) ==> r.is_ok() && r->Ok_0.refreshed() == unapplied(
                *self,
                mv,
                *undo,
            ),
            unapply_refused(*self, mv) ==> r == Err::<ChessBoard, MoveError>(MoveError::InvalidMove),
    {
        let from: u64 = (mv % 64) as u64;
        let to: u64 = ((mv / 64) % 64) as u64;
        let flag: u16 = mv / 4096;
        let white = !self.side_to_move;
        proof {
            crate::utils::lemma_sq_of_bit(to as int);
            crate::utils::lemma_bit_facts(to, to);
        }
        if flag >= 12 {
            return Err(MoveError::InvalidMove);
        }
        let placed = match self.piece_type_at(1u64 << to) {
            Some(p) => p,
            None => {
                return Err(MoveError::InvalidMove);
            },
        };
        if flag == 2 && to % 8 != 6 && to % 8 != 2 {
            return Err(MoveError::InvalidMove);
        }
        if flag == 3 && ((white && to < 8) || (!white && to >= 56)) {
            return Err(MoveError::InvalidMove);
        }
        let k = if 4 <= flag && flag < 12 {
            PieceKind::Pawn
        } else {
            placed
        };
        let cap: u64 = if flag == 3 {
            if white {
                to - 8
            } else {
                to + 8
            }
        } else {
            to
        };
        let mut b = *self;
        if flag == 2 {
            if to % 8 == 6 {
                relocate_at(&mut b, white, PieceKind::Rook, PieceKind::Rook, to - 1, to + 1);
            } else {
                relocate_at(&mut b, white, PieceKind::Rook, PieceKind::Rook, to + 1, to - 2);
            }
        }
        relocate_at(&mut b, white, placed, k, to, from);
        match undo.captured {
            Some(ck) => {
                kind_set_at(&mut b, ck, cap);
                color_set_at(&mut b, !white, cap);
            },
            None => {},
        }
        b.side_to_move = white;
        b.en_passant = undo.en_passant;
        b.halfmove_clock = undo.halfmove_clock;
        b.castling_rights = undo.castling_rights;
        b.fullmove_number = if white {
            self.fullmove_number
        } else if self.fullmove_number > 0 {
            self.fullmove_number - 1
        } else {
            65535
        };
        Ok(b)
    }

    /// Undoes the packed move `mv` with the record that applying it returned:
    /// the piece goes back from the destination to the source (a promoted
    /// piece back to a pawn), a castling rook back to its corner, a captured
    /// piece back to its square; the side to move, the fullmove number, the
    /// halfmove clock, the castling rights and the en passant square are
    /// restored, and both attack caches recomputed. With no piece on the
    /// destination, or a move kind that cannot have been applied, the board is
    /// left unchanged.
    pub fn unapply_move(&mut self, mv: u16, undo: &UndoInfo) -> (r: Result<(), MoveError>)
        ensures
            !unapply_refused(*old(self), mv) ==> r.is_ok() && *final(self) == unapplied(
                *old(self),
                mv,
                *undo,
            ),
            unapply_refused(*old(self), mv) ==> r == Err::<(), MoveError>(MoveError::InvalidMove)
                && *final(self) == *old(self),
    {
        match self.restored(mv, undo) {
            Ok(b) => {
                let mut b = b;
                b.refresh_attacks();
                *self = b;
                Ok(())
            },
            Err(e) => Err(e),
        }
    }

    /// As [`ChessBoard::unapply_move`], recomputing the attack caches from
    /// precomputed tables.
    pub fn unapply_move_with(&mut self, tables: &AttackTables, mv: u16, undo: &UndoInfo) -> (r:
        Result<(), MoveError>)
        requires
            tables.wf(),
        ensures
            !unapply_refused(*old(self), mv) ==> r.is_ok() && *final(self) == unapplied(
                *old(self),
                mv,
                *undo,
            ),
            unapply_refused(*old(self), mv) ==> r == Err::<(), MoveError>(MoveError::InvalidMove)
                && *final(self) == *old(self),
    {
        match self.restored(mv, undo) {
            Ok(b) => {
                let mut b = b;
                b.refresh_attacks_with(tables);
                *self = b;
                Ok(())
            },
            Err(e) => Err(e),
        }
    }
}

} // verus!
