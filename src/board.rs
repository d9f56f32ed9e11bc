//! The board state: piece-type and color bitboards, side to move, en passant
//! target, castling rights, move counters and the cached attack sets of both
//! sides; its standard and empty constructors and its FEN encoding.

use vstd::prelude::*;
use vstd::string::*;
use crate::utils::{
    bit, sq_in, sq_of, is_square_bb, square_of_name, square_name, square_name_of,
};
use crate::fen::{
    fen_ok, split_ws, split_on, number, is_gap_digit, is_piece_char, rank_ok, rank_width, chars_of,
    split_fields, split_at_char, check_placement, check_castling, check_en_passant, parse_counter,
    placement_ok, count_char, fen_readable,
};
use crate::moves::{attack_map, color_attacks, lemma_attack_map_placement, AttackTables};

verus! {

/// A chess position. The least significant bit of every bitboard is a1.
#[derive(Clone, Copy, Debug, PartialEq, Eq, Structural)]
pub struct ChessBoard {
    pub pawns: u64,
    pub knights: u64,
    pub bishops: u64,
    pub rooks: u64,
    pub queens: u64,
    pub kings: u64,
    pub white_pieces: u64,
    pub black_pieces: u64,
    /// `true` when White is to move.
    pub side_to_move: bool,
    /// The square a pawn capturing en passant would land on, or 0.
    pub en_passant: u64,
    /// Bit 3: white kingside, bit 2: white queenside, bit 1: black kingside,
    /// bit 0: black queenside.
    pub castling_rights: u8,
    /// Plies since the last capture or pawn move.
    pub halfmove_clock: u8,
    /// Full moves since the start of the game, counted from 1.
    pub fullmove_number: u16,
    /// Every square that White attacks under the current occupancy.
    pub white_attacks: u64,
    /// Every square that Black attacks under the current occupancy.
    pub black_attacks: u64,
}

impl ChessBoard {
    /// The pieces of the given color.
    pub open spec fn own(&self, white: bool) -> u64 {
        if white {
            self.white_pieces
        } else {
            self.black_pieces
        }
    }

    /// The union of the six piece-type bitboards.
    pub open spec fn all_types(&self) -> u64 {
        self.pawns | self.knights | self.bishops | self.rooks | self.queens | self.kings
    }

    /// The occupancy bookkeeping: the two colors are disjoint, the six piece
    /// types are pairwise disjoint, and both cover the same squares.
    pub open spec fn occupancy_ok(&self) -> bool {
        &&& self.white_pieces & self.black_pieces == 0
        &&& self.all_types() == self.white_pieces | self.black_pieces
        &&& self.pawns & self.knights == 0
        &&& self.pawns & self.bishops == 0
        &&& self.pawns & self.rooks == 0
        &&& self.pawns & self.queens == 0
        &&& self.pawns & self.kings == 0
        &&& self.knights & self.bishops == 0
        &&& self.knights & self.rooks == 0
        &&& self.knights & self.queens == 0
        &&& self.knights & self.kings == 0
        &&& self.bishops & self.rooks == 0
        &&& self.bishops & self.queens == 0
        &&& self.bishops & self.kings == 0
        &&& self.rooks & self.queens == 0
        &&& self.rooks & self.kings == 0
        &&& self.queens & self.kings == 0
    }

    /// Both cached attack sets agree with the current occupancy.
    pub open spec fn attacks_fresh(&self) -> bool {
        &&& self.white_attacks == attack_map(*self, true)
        &&& self.black_attacks == attack_map(*self, false)
    }

    /// A well-formed position: occupancy bookkeeping, at most one en passant
    /// square, four castling bits, and fresh attack caches.
    pub open spec fn wf(&self) -> bool {
        &&& self.occupancy_ok()
        &&& (self.en_passant == 0 || is_square_bb(self.en_passant))
        &&& self.castling_rights < 16
        &&& self.attacks_fresh()
    }
}

impl ChessBoard {
    /// This board with both attack caches recomputed.
    pub open spec fn refreshed(self) -> ChessBoard {
        ChessBoard { white_attacks: attack_map(self, true), black_attacks: attack_map(self, false), ..self }
    }

    /// Recomputes both cached attack sets from the current occupancy.
    pub fn refresh_attacks(&mut self)
        ensures
            *final(self) == old(self).refreshed(),
            final(self).attacks_fresh(),
    {
        let w = color_attacks(self, true);
        let b = color_attacks(self, false);
        self.white_attacks = w;
        self.black_attacks = b;
        proof {
            lemma_attack_map_placement(*self, *old(self));
        }
    }

    /// As [`ChessBoard::refresh_attacks`], reading the attack patterns from
    /// precomputed tables.
    pub fn refresh_attacks_with(&mut self, tables: &AttackTables)
        requires
            tables.wf(),
        ensures
            *final(self) == old(self).refreshed(),
            final(self).attacks_fresh(),
    {
        let w = tables.color_attacks(self, true);
        let b = tables.color_attacks(self, false);
        self.white_attacks = w;
        self.black_attacks = b;
        proof {
            lemma_attack_map_placement(*self, *old(self));
        }
    }

    /// The standard starting position, White to move.
    pub fn initialize() -> (r: Self)
        ensures
            r.pawns == 0x00FF00000000FF00,
            r.knights == 0x4200000000000042,
            r.bishops == 0x2400000000000024,
            r.rooks == 0x8100000000000081,
            r.queens == 0x0800000000000008,
            r.kings == 0x1000000000000010,
            r.white_pieces == 0x000000000000FFFF,
            r.black_pieces == 0xFFFF000000000000,
            r.side_to_move,
            r.en_passant == 0,
            r.castling_rights == 0b1111,
            r.halfmove_clock == 0,
            r.fullmove_number == 1,
            r.wf(),
    {
        let mut board = Self {
            pawns: 0x00FF00000000FF00,
            knights: 0x4200000000000042,
            bishops: 0x2400000000000024,
            rooks: 0x8100000000000081,
            queens: 0x0800000000000008,
            kings: 0x1000000000000010,
            white_pieces: 0x000000000000FFFF,
            black_pieces: 0xFFFF000000000000,
            side_to_move: true,
            en_passant: 0,
            castling_rights: 0b1111,
            halfmove_clock: 0,
            fullmove_number: 1,
            white_attacks: 0,
            black_attacks: 0,
        };
        board.refresh_attacks();
        proof {
            let p: u64 = 0x00FF00000000FF00;
            let n: u64 = 0x4200000000000042;
            let b: u64 = 0x2400000000000024;
            let r: u64 = 0x8100000000000081;
            let q: u64 = 0x0800000000000008;
            let k: u64 = 0x1000000000000010;
            let w: u64 = 0x000000000000FFFF;
            let bl: u64 = 0xFFFF000000000000;
            assert(w & bl == 0 && p | n | b | r | q | k == w | bl && p & n == 0 && p & b == 0 && p & r
                == 0 && p & q == 0 && p & k == 0 && n & b == 0 && n & r == 0 && n & q == 0 && n & k
                == 0 && b & r == 0 && b & q == 0 && b & k == 0 && r & q == 0 && r & k == 0 && q & k
                == 0) by (bit_vector)
                requires
                    p == 0x00FF00000000FF00u64,
                    n == 0x4200000000000042u64,
                    b == 0x2400000000000024u64,
                    r == 0x8100000000000081u64,
                    q == 0x0800000000000008u64,
                    k == 0x1000000000000010u64,
                    w == 0x000000000000FFFFu64,
                    bl == 0xFFFF000000000000u64,
            ;
        }
        board
    }

    /// The board with no pieces, White to move, no castling rights.
    pub fn empty() -> (r: Self)
        ensures
            r.pawns == 0,
            r.knights == 0,
            r.bishops == 0,
            r.rooks == 0,
            r.queens == 0,
            r.kings == 0,
            r.white_pieces == 0,
            r.black_pieces == 0,
            r.side_to_move,
            r.en_passant == 0,
            r.castling_rights == 0,
            r.halfmove_clock == 0,
            r.fullmove_number == 1,
            r.wf(),
    {
        let mut board = Self {
            pawns: 0,
            knights: 0,
            bishops: 0,
            rooks: 0,
            queens: 0,
            kings: 0,
            white_pieces: 0,
            black_pieces: 0,
            side_to_move: true,
            en_passant: 0,
            castling_rights: 0,
            halfmove_clock: 0,
            fullmove_number: 1,
            white_attacks: 0,
            black_attacks: 0,
        };
        board.refresh_attacks();
        proof {
            let z: u64 = 0;
            assert(z & z == 0 && z | z | z | z | z | z == z | z) by (bit_vector)
                requires
                    z == 0u64,
            ;
        }
        board
    }
}

/// A board with no pieces, no rights and zeroed counters and caches.
pub open spec fn blank() -> ChessBoard {
    ChessBoard {
        pawns: 0,
        knights: 0,
        bishops: 0,
        rooks: 0,
        queens: 0,
        kings: 0,
        white_pieces: 0,
        black_pieces: 0,
        side_to_move: true,
        en_passant: 0,
        castling_rights: 0,
        halfmove_clock: 0,
        fullmove_number: 0,
        white_attacks: 0,
        black_attacks: 0,
    }
}

/// `b` with the piece that letter `c` names added on square `i`: upper case
/// is White, lower case Black.
pub open spec fn put_piece(b: ChessBoard, c: char, i: int) -> ChessBoard {
    let m = bit(i);
    let b1 = if c == 'P' || c == 'p' {
        ChessBoard { pawns: b.pawns | m, ..b }
    } else if c == 'N' || c == 'n' {
        ChessBoard { knights: b.knights | m, ..b }
    } else if c == 'B' || c == 'b' {
        ChessBoard { bishops: b.bishops | m, ..b }
    } else if c == 'R' || c == 'r' {
        ChessBoard { rooks: b.rooks | m, ..b }
    } else if c == 'Q' || c == 'q' {
        ChessBoard { queens: b.queens | m, ..b }
    } else {
        ChessBoard { kings: b.kings | m, ..b }
    };
    if 'A' <= c <= 'Z' {
        ChessBoard { white_pieces: b1.white_pieces | m, ..b1 }
    } else {
        ChessBoard { black_pieces: b1.black_pieces | m, ..b1 }
    }
}

/// `b` with the pieces of the rank description `rank` for rank `r` placed,
/// from character `k` on, which stands at file `f`.
pub open spec fn place_rank(b: ChessBoard, rank: Seq<char>, r: int, k: int, f: int) -> ChessBoard
    decreases rank.len() - k,
{
    if k >= rank.len() || k < 0 {
        b
    } else {
        let c = rank[k];
        if is_gap_digit(c) {
            place_rank(b, rank, r, k + 1, f + (c as int - '0' as int))
        } else {
            place_rank(put_piece(b, c, r * 8 + f), rank, r, k + 1, f + 1)
        }
    }
}

/// `b` with the first `n` rank descriptions of `ranks` placed; the first is
/// rank 8, the last rank 1.
pub open spec fn place_ranks(b: ChessBoard, ranks: Seq<Seq<char>>, n: int) -> ChessBoard
    decreases n,
{
    if n <= 0 {
        b
    } else {
        place_rank(place_ranks(b, ranks, n - 1), ranks[n - 1], 8 - n, 0, 0)
    }
}

/// The castling rights that a valid castling field grants.
pub open spec fn castling_value(f: Seq<char>) -> u8 {
    ((if count_char(f, 'K') > 0 { 8int } else { 0int }) + (if count_char(f, 'Q') > 0 {
        4int
    } else {
        0int
    }) + (if count_char(f, 'k') > 0 { 2int } else { 0int }) + (if count_char(f, 'q') > 0 {
        1int
    } else {
        0int
    })) as u8
}

/// The position that a valid FEN string describes.
pub open spec fn board_of_fen(s: Seq<char>) -> ChessBoard {
    let fs = split_ws(s);
    let p = place_ranks(blank(), split_on(fs[0], '/'), 8);
    ChessBoard {
        pawns: p.pawns,
        knights: p.knights,
        bishops: p.bishops,
        rooks: p.rooks,
        queens: p.queens,
        kings: p.kings,
        white_pieces: p.white_pieces,
        black_pieces: p.black_pieces,
        side_to_move: fs[1] == seq!['w'],
        en_passant: if fs[3] == seq!['-'] {
            0u64
        } else {
            bit(square_of_name(fs[3]))
        },
        castling_rights: castling_value(fs[2]),
        halfmove_clock: number(fs[4]) as u8,
        fullmove_number: number(fs[5]) as u16,
        white_attacks: 0,
        black_attacks: 0,
    }.refreshed()
}

/// Whether `fen` is a well-formed FEN string: six whitespace-separated
/// fields; eight ranks of piece letters and gap digits covering eight squares
/// each, with one king of each color; `w` or `b`; `-` or up to four letters
/// of `KQkq`; `-` or a file letter with rank 3 or 6; a non-negative halfmove
/// clock of at most 65535; a positive fullmove number of at most 65535.
pub fn verify_fen(fen: &str) -> (r: bool)
    ensures
        r == fen_ok(fen@),
{
    let chars = chars_of(fen);
    let fen_components = split_fields(&chars);
    if fen_components.len() != 6 {
        return false;
    }
    proof {
        let dv = fen_components.deep_view();
        assert(fen_components@[0]@ =~= dv[0]);
        assert(fen_components@[1]@ =~= dv[1]);
        assert(fen_components@[2]@ =~= dv[2]);
        assert(fen_components@[3]@ =~= dv[3]);
        assert(fen_components@[4]@ =~= dv[4]);
        assert(fen_components@[5]@ =~= dv[5]);
    }
    let side = &fen_components[1];
    let side_ok = side.len() == 1 && (side[0] == 'w' || side[0] == 'b');
    proof {
        if side_ok {
            assert(side@ =~= seq!['w'] || side@ =~= seq!['b']);
        } else if side@ == seq!['w'] || side@ == seq!['b'] {
            assert(side@.len() == 1);
        }
    }
    check_placement(&fen_components[0]) && side_ok && check_castling(&fen_components[2])
        && check_en_passant(&fen_components[3]) && parse_counter(&fen_components[4], 65535).is_some()
        && match parse_counter(&fen_components[5], 65535) {
        Some(v) => v >= 1,
        None => false,
    }
}

proof fn lemma_rank_width_prefix(r: Seq<char>, k: int)
    requires
        0 <= k <= r.len(),
    ensures
        0 <= rank_width(r.take(k)) <= rank_width(r),
    decreases r.len(),
{
    if k == r.len() {
        assert(r.take(k) =~= r);
        lemma_rank_width_nonneg(r);
    } else {
        lemma_rank_width_prefix(r.drop_last(), k);
        assert(r.drop_last().take(k) =~= r.take(k));
    }
}

proof fn lemma_rank_width_nonneg(r: Seq<char>)
    ensures
        rank_width(r) >= 0,
    decreases r.len(),
{
    if r.len() > 0 {
        lemma_rank_width_nonneg(r.drop_last());
    }
}

/// Adds the piece that letter `c` names on square `i`.
fn put_piece_at(b: &mut ChessBoard, c: char, i: u64)
    requires
        i < 64,
    ensures
        *final(b) == put_piece(*old(b), c, i as int),
{
    let m: u64 = 1u64 << i;
    if c == 'P' || c == 'p' {
        b.pawns = b.pawns | m;
    } else if c == 'N' || c == 'n' {
        b.knights = b.knights | m;
    } else if c == 'B' || c == 'b' {
        b.bishops = b.bishops | m;
    } else if c == 'R' || c == 'r' {
        b.rooks = b.rooks | m;
    } else if c == 'Q' || c == 'q' {
        b.queens = b.queens | m;
    } else {
        b.kings = b.kings | m;
    }
    if 'A' <= c && c <= 'Z' {
        b.white_pieces = b.white_pieces | m;
    } else {
        b.black_pieces = b.black_pieces | m;
    }
}

/// Places the pieces of one rank description on rank `r`.
fn place_rank_at(b: &mut ChessBoard, rank: &Vec<char>, r: u64)
    requires
        rank_ok(rank@),
        r < 8,
    ensures
        *final(b) == place_rank(*old(b), rank@, r as int, 0, 0),
{
    let mut f: u64 = 0;
    let mut k: usize = 0;
    proof {
        assert(rank@.take(0) =~= Seq::<char>::empty());
    }
    while k < rank.len()
        invariant
            rank_ok(rank@),
            r < 8,
            k <= rank@.len(),
            f as int == rank_width(rank@.take(k as int)),
            place_rank(*b, rank@, r as int, k as int, f as int) == place_rank(
                *old(b),
                rank@,
                r as int,
                0,
                0,
            ),
        decreases rank@.len() - k,
    {
        let c = rank[k];
        proof {
            assert(rank@.take(k + 1).drop_last() =~= rank@.take(k as int));
            lemma_rank_width_prefix(rank@, k + 1);
            assert(is_piece_char(rank@[k as int]) || is_gap_digit(rank@[k as int]));
        }
        if '1' <= c && c <= '8' {
            f = f + ((c as u64) - ('0' as u64));
        } else {
            put_piece_at(b, c, r * 8 + f);
            f = f + 1;
        }
        k = k + 1;
    }
}

/// The castling rights that a valid castling field grants.
fn castling_of(f: &Vec<char>) -> (r: u8)
    ensures
        r == castling_value(f@),
{
    let mut wk = false;
    let mut wq = false;
    let mut bk = false;
    let mut bq = false;
    let mut i: usize = 0;
    while i < f.len()
        invariant
            i <= f@.len(),
            wk == (count_char(f@.take(i as int), 'K') > 0),
            wq == (count_char(f@.take(i as int), 'Q') > 0),
            bk == (count_char(f@.take(i as int), 'k') > 0),
            bq == (count_char(f@.take(i as int), 'q') > 0),
            count_char(f@.take(i as int), 'K') >= 0,
            count_char(f@.take(i as int), 'Q') >= 0,
            count_char(f@.take(i as int), 'k') >= 0,
            count_char(f@.take(i as int), 'q') >= 0,
        decreases f@.len() - i,
    {
        let c = f[i];
        proof {
            assert(f@.take(i + 1).drop_last() =~= f@.take(i as int));
        }
        if c == 'K' {
            wk = true;
        } else if c == 'Q' {
            wq = true;
        } else if c == 'k' {
            bk = true;
        } else if c == 'q' {
            bq = true;
        }
        i = i + 1;
    }
    proof {
        assert(f@.take(i as int) =~= f@);
    }
    (if wk {
        8u8
    } else {
        0u8
    }) + (if wq {
        4u8
    } else {
        0u8
    }) + (if bk {
        2u8
    } else {
        0u8
    }) + (if bq {
        1u8
    } else {
        0u8
    })
}

impl ChessBoard {
    /// The position that a FEN string describes. An ill-formed string (see
    /// [`verify_fen`]) is refused, and so is a halfmove clock above 255,
    /// which the board's 8-bit clock cannot hold. A position read this way is
    /// well formed, has one king of each color, and has fresh attack caches.
    pub fn initialize_from_fen(fen: &str) -> (r: Result<Self, String>)
        ensures
            r.is_ok() == fen_readable(fen@),
            r.is_ok() ==> r->Ok_0 == board_of_fen(fen@),
            r.is_ok() ==> crate::round_trip::fen_expressible(r->Ok_0),
            r.is_err() ==> r->Err_0@ == "Invalid FEN string."@,
    {
        if !verify_fen(fen) {
            return Err("Invalid FEN string.".to_string());
        }
        let chars = chars_of(fen);
        let fen_components = split_fields(&chars);
        proof {
            let dv = fen_components.deep_view();
            assert(fen_components@[0]@ =~= dv[0]);
            assert(fen_components@[1]@ =~= dv[1]);
            assert(fen_components@[2]@ =~= dv[2]);
            assert(fen_components@[3]@ =~= dv[3]);
            assert(fen_components@[4]@ =~= dv[4]);
            assert(fen_components@[5]@ =~= dv[5]);
        }
        let ranks = split_at_char(&fen_components[0], '/');
        let mut board = ChessBoard {
            pawns: 0,
            knights: 0,
            bishops: 0,
            rooks: 0,
            queens: 0,
            kings: 0,
            white_pieces: 0,
            black_pieces: 0,
            side_to_move: true,
            en_passant: 0,
            castling_rights: 0,
            halfmove_clock: 0,
            fullmove_number: 0,
            white_attacks: 0,
            black_attacks: 0,
        };
        let mut n: usize = 0;
        while n < 8
            invariant
                n <= 8,
                fen_components@.len() == 6,
                ranks.deep_view() == split_on(fen_components@[0]@, '/'),
                placement_ok(fen_components@[0]@),
                board == place_ranks(blank(), ranks.deep_view(), n as int),
            decreases 8 - n,
        {
            assert(ranks@[n as int]@ =~= ranks.deep_view()[n as int]);
            place_rank_at(&mut board, &ranks[n], (7 - n) as u64);
            n = n + 1;
        }
        let side = &fen_components[1];
        board.side_to_move = side.len() == 1 && side[0] == 'w';
        proof {
            if board.side_to_move {
                assert(side@ =~= seq!['w']);
            } else if side@ == seq!['w'] {
                assert(side@.len() == 1 && side@[0] == 'w');
            }
        }
        board.castling_rights = castling_of(&fen_components[2]);
        let ep = &fen_components[3];
        if ep.len() == 2 {
            let index: u64 = (ep[1] as u64 - '1' as u64) * 8 + (ep[0] as u64 - 'a' as u64);
            board.en_passant = 1u64 << index;
            proof {
                assert(ep@ == split_ws(fen@)[3]);
                assert('1' <= ep@[1] <= '8' && 'a' <= ep@[0] <= 'h');
                assert(index as int == square_of_name(ep@));
                if ep@ == seq!['-'] {
                    assert(ep@.len() == 1);
                }
            }
        } else {
            board.en_passant = 0;
            proof {
                assert(ep@ =~= seq!['-']);
            }
        }
        match parse_counter(&fen_components[4], 255) {
            Some(v) => {
                board.halfmove_clock = v as u8;
            },
            None => {
                return Err("Invalid FEN string.".to_string());
            },
        }
        match parse_counter(&fen_components[5], 65535) {
            Some(v) => {
                board.fullmove_number = v as u16;
            },
            None => {},
        }
        let ghost before = board;
        board.refresh_attacks();
        proof {
            let fs = split_ws(fen@);
            let pl = place_ranks(blank(), split_on(fs[0], '/'), 8);
            let lit = ChessBoard {
                pawns: pl.pawns,
                knights: pl.knights,
                bishops: pl.bishops,
                rooks: pl.rooks,
                queens: pl.queens,
                kings: pl.kings,
                white_pieces: pl.white_pieces,
                black_pieces: pl.black_pieces,
                side_to_move: fs[1] == seq!['w'],
                en_passant: if fs[3] == seq!['-'] {
                    0u64
                } else {
                    bit(square_of_name(fs[3]))
                },
                castling_rights: castling_value(fs[2]),
                halfmove_clock: number(fs[4]) as u8,
                fullmove_number: number(fs[5]) as u16,
                white_attacks: 0,
                black_attacks: 0,
            };
            lemma_attack_map_placement(before, lit);
            assert(board == lit.refreshed());
            crate::round_trip::lemma_parsed_expressible(fen@);
        }
        Ok(board)
    }
}

/// The six piece kinds.
#[derive(Clone, Copy, Debug, PartialEq, Eq, Structural)]
pub enum PieceKind {
    Pawn,
    Knight,
    Bishop,
    Rook,
    Queen,
    King,
}

impl ChessBoard {
    /// The kind of piece on square `i`, looked up pawn, knight, bishop, rook,
    /// queen, king in turn.
    pub open spec fn kind_at(&self, i: int) -> Option<PieceKind> {
        if sq_in(self.pawns, i) {
            Some(PieceKind::Pawn)
        } else if sq_in(self.knights, i) {
            Some(PieceKind::Knight)
        } else if sq_in(self.bishops, i) {
            Some(PieceKind::Bishop)
        } else if sq_in(self.rooks, i) {
            Some(PieceKind::Rook)
        } else if sq_in(self.queens, i) {
            Some(PieceKind::Queen)
        } else if sq_in(self.kings, i) {
            Some(PieceKind::King)
        } else {
            None
        }
    }

    /// The kind of piece on the lowest square of `square`, or `None` when
    /// that square is empty.
    pub fn piece_type_at(&self, square: u64) -> (r: Option<PieceKind>)
        requires
            square != 0,
        ensures
            r == self.kind_at(crate::utils::sq_of(square)),
    {
        proof {
            vstd::std_specs::bits::axiom_u64_trailing_zeros(square);
        }
        let i = square.trailing_zeros() as u64;
        if (self.pawns >> i) & 1 == 1 {
            Some(PieceKind::Pawn)
        } else if (self.knights >> i) & 1 == 1 {
            Some(PieceKind::Knight)
        } else if (self.bishops >> i) & 1 == 1 {
            Some(PieceKind::Bishop)
        } else if (self.rooks >> i) & 1 == 1 {
            Some(PieceKind::Rook)
        } else if (self.queens >> i) & 1 == 1 {
            Some(PieceKind::Queen)
        } else if (self.kings >> i) & 1 == 1 {
            Some(PieceKind::King)
        } else {
            None
        }
    }
}


/// A character that FEN text uses.
pub open spec fn is_fen_char(c: char) -> bool {
    c == 'P' || c == 'N' || c == 'B' || c == 'R' || c == 'Q' || c == 'K' || c == 'p' || c == 'n' || c == 'b' || c == 'r' || c == 'q' || c == 'k' || c == '0' || c == '1' || c == '2' || c == '3' || c == '4' || c == '5' || c == '6' || c == '7' || c == '8' || c == '9' || c == '/' || c == ' ' || c == '-' || c == 'w' || c == 'a' || c == 'c' || c == 'd' || c == 'e' || c == 'f' || c == 'g' || c == 'h'
}

/// The one-character string holding `c`.
fn char_text(c: char) -> (r: &'static str)
    requires
        is_fen_char(c),
    ensures
        r@ == seq![c],
{
    proof {
        reveal_strlit("P");
        reveal_strlit("N");
        reveal_strlit("B");
        reveal_strlit("R");
        reveal_strlit("Q");
        reveal_strlit("K");
        reveal_strlit("p");
        reveal_strlit("n");
        reveal_strlit("b");
        reveal_strlit("r");
        reveal_strlit("q");
        reveal_strlit("k");
        reveal_strlit("0");
        reveal_strlit("1");
        reveal_strlit("2");
        reveal_strlit("3");
        reveal_strlit("4");
        reveal_strlit("5");
        reveal_strlit("6");
        reveal_strlit("7");
        reveal_strlit("8");
        reveal_strlit("9");
        reveal_strlit("/");
        reveal_strlit(" ");
        reveal_strlit("-");
        reveal_strlit("w");
        reveal_strlit("a");
        reveal_strlit("c");
        reveal_strlit("d");
        reveal_strlit("e");
        reveal_strlit("f");
        reveal_strlit("g");
        reveal_strlit("h");
    }
    if c == 'P' {
        "P"
    } else if c == 'N' {
        "N"
    } else if c == 'B' {
        "B"
    } else if c == 'R' {
        "R"
    } else if c == 'Q' {
        "Q"
    } else if c == 'K' {
        "K"
    } else if c == 'p' {
        "p"
    } else if c == 'n' {
        "n"
    } else if c == 'b' {
        "b"
    } else if c == 'r' {
        "r"
    } else if c == 'q' {
        "q"
    } else if c == 'k' {
        "k"
    } else if c == '0' {
        "0"
    } else if c == '1' {
        "1"
    } else if c == '2' {
        "2"
    } else if c == '3' {
        "3"
    } else if c == '4' {
        "4"
    } else if c == '5' {
        "5"
    } else if c == '6' {
        "6"
    } else if c == '7' {
        "7"
    } else if c == '8' {
        "8"
    } else if c == '9' {
        "9"
    } else if c == '/' {
        "/"
    } else if c == ' ' {
        " "
    } else if c == '-' {
        "-"
    } else if c == 'w' {
        "w"
    } else if c == 'a' {
        "a"
    } else if c == 'c' {
        "c"
    } else if c == 'd' {
        "d"
    } else if c == 'e' {
        "e"
    } else if c == 'f' {
        "f"
    } else if c == 'g' {
        "g"
    } else if c == 'h' {
        "h"
    } else {
        "?"
    }
}

/// The letter of piece kind `k`, upper case for White.
pub open spec fn piece_letter(k: PieceKind, white: bool) -> char {
    match k {
        PieceKind::Pawn => if white { 'P' } else { 'p' },
        PieceKind::Knight => if white { 'N' } else { 'n' },
        PieceKind::Bishop => if white { 'B' } else { 'b' },
        PieceKind::Rook => if white { 'R' } else { 'r' },
        PieceKind::Queen => if white { 'Q' } else { 'q' },
        PieceKind::King => if white { 'K' } else { 'k' },
    }
}

/// The letter of the piece on square `i`, if any.
pub open spec fn piece_char_at(b: ChessBoard, i: int) -> Option<char> {
    match b.kind_at(i) {
        Some(k) => Some(piece_letter(k, sq_in(b.white_pieces, i))),
        None => None,
    }
}

/// The decimal digit of `n`, for `n` below ten.
pub open spec fn digit_char(n: int) -> char {
    seq!['0', '1', '2', '3', '4', '5', '6', '7', '8', '9'][n]
}

/// The gap digit for `run` empty squares, or nothing when `run` is 0.
pub open spec fn gap_text(run: int) -> Seq<char> {
    if run > 0 {
        seq![digit_char(run)]
    } else {
        Seq::empty()
    }
}

/// The FEN text of rank `r` from file `f` on, after `run` empty squares.
pub open spec fn rank_text_from(b: ChessBoard, r: int, f: int, run: int) -> Seq<char>
    decreases 8 - f,
{
    if f >= 8 {
        gap_text(run)
    } else {
        match piece_char_at(b, r * 8 + f) {
            Some(c) => gap_text(run) + seq![c] + rank_text_from(b, r, f + 1, 0),
            None => rank_text_from(b, r, f + 1, run + 1),
        }
    }
}

/// The FEN text of ranks `r` down to 1, separated by `/`.
pub open spec fn placement_from(b: ChessBoard, r: int) -> Seq<char>
    decreases r,
{
    if r <= 0 {
        rank_text_from(b, 0, 0, 0)
    } else {
        rank_text_from(b, r, 0, 0) + seq!['/'] + placement_from(b, r - 1)
    }
}

/// The FEN castling field for the rights `c`.
pub open spec fn castling_text(c: u8) -> Seq<char> {
    if c % 16 == 0 {
        seq!['-']
    } else {
        (if c / 8 % 2 == 1 { seq!['K'] } else { Seq::empty() }) + (if c / 4 % 2 == 1 {
            seq!['Q']
        } else {
            Seq::empty()
        }) + (if c / 2 % 2 == 1 { seq!['k'] } else { Seq::empty() }) + (if c % 2 == 1 {
            seq!['q']
        } else {
            Seq::empty()
        })
    }
}

/// The decimal text of `n`.
pub open spec fn decimal(n: nat) -> Seq<char>
    decreases n,
{
    if n < 10 {
        seq![digit_char(n as int)]
    } else {
        decimal(n / 10).push(digit_char((n % 10) as int))
    }
}

/// The FEN text of a position.
pub open spec fn fen_text(b: ChessBoard) -> Seq<char> {
    placement_from(b, 7) + seq![' '] + (if b.side_to_move {
        seq!['w']
    } else {
        seq!['b']
    }) + seq![' '] + castling_text(b.castling_rights) + seq![' '] + (if b.en_passant == 0 {
        seq!['-']
    } else {
        square_name(sq_of(b.en_passant))
    }) + seq![' '] + decimal(b.halfmove_clock as nat) + seq![' '] + decimal(
        b.fullmove_number as nat,
    )
}

fn push_char(s: &mut String, c: char)
    requires
        is_fen_char(c),
    ensures
        final(s)@ == old(s)@.push(c),
{
    s.append(char_text(c));
}

fn digit_of(n: u32) -> (c: char)
    requires
        n < 10,
    ensures
        c == digit_char(n as int),
        is_fen_char(c),
{
    if n == 0 {
        '0'
    } else if n == 1 {
        '1'
    } else if n == 2 {
        '2'
    } else if n == 3 {
        '3'
    } else if n == 4 {
        '4'
    } else if n == 5 {
        '5'
    } else if n == 6 {
        '6'
    } else if n == 7 {
        '7'
    } else if n == 8 {
        '8'
    } else {
        '9'
    }
}

fn push_decimal(s: &mut String, n: u32)
    ensures
        final(s)@ == old(s)@ + decimal(n as nat),
    decreases n,
{
    if n >= 10 {
        push_decimal(s, n / 10);
    }
    push_char(s, digit_of(n % 10));
    proof {
        assert(s@ =~= old(s)@ + decimal(n as nat));
    }
}

fn piece_letter_of(k: PieceKind, white: bool) -> (c: char)
    ensures
        c == piece_letter(k, white),
        is_fen_char(c),
{
    match k {
        PieceKind::Pawn => if white { 'P' } else { 'p' },
        PieceKind::Knight => if white { 'N' } else { 'n' },
        PieceKind::Bishop => if white { 'B' } else { 'b' },
        PieceKind::Rook => if white { 'R' } else { 'r' },
        PieceKind::Queen => if white { 'Q' } else { 'q' },
        PieceKind::King => if white { 'K' } else { 'k' },
    }
}

impl ChessBoard {
    /// Appends the FEN text of rank `r`.
    fn push_rank(&self, s: &mut String, r: u64)
        requires
            r < 8,
        ensures
            final(s)@ == old(s)@ + rank_text_from(*self, r as int, 0, 0),
    {
        let mut f: u64 = 0;
        let mut run: u32 = 0;
        while f < 8
            invariant
                r < 8,
                f <= 8,
                run <= f,
                s@ + rank_text_from(*self, r as int, f as int, run as int) == old(s)@
                    + rank_text_from(*self, r as int, 0, 0),
            decreases 8 - f,
        {
            let i = r * 8 + f;
            proof {
                crate::utils::lemma_sq_of_bit(i as int);
                crate::utils::lemma_bit_facts(i, i);
            }
            match self.piece_type_at(1u64 << i) {
                Some(k) => {
                    let ghost before = s@;
                    if run > 0 {
                        push_char(s, digit_of(run));
                    }
                    let white = (self.white_pieces >> i) & 1 == 1;
                    push_char(s, piece_letter_of(k, white));
                    proof {
                        assert(s@ + rank_text_from(*self, r as int, f + 1, 0) =~= before
                            + rank_text_from(*self, r as int, f as int, run as int));
                    }
                    run = 0;
                },
                None => {
                    run = run + 1;
                },
            }
            f = f + 1;
        }
        let ghost before = s@;
        if run > 0 {
            push_char(s, digit_of(run));
        }
        proof {
            assert(s@ =~= before + rank_text_from(*self, r as int, 8, run as int));
        }
    }

    /// The FEN placement field: ranks 8 down to 1, separated by `/`.
    pub fn placement_text(&self) -> (r: String)
        ensures
            r@ == placement_from(*self, 7),
    {
        let mut s = String::new();
        let mut r: u64 = 8;
        while r > 0
            invariant
                r <= 8,
                0 < r < 8 ==> s@ + seq!['/'] + placement_from(*self, r - 1) == placement_from(
                    *self,
                    7,
                ),
                r == 0 ==> s@ == placement_from(*self, 7),
                r == 8 ==> s@ == Seq::<char>::empty(),
            decreases r,
        {
            let ghost before = s@;
            if r < 8 {
                push_char(&mut s, '/');
            }
            self.push_rank(&mut s, r - 1);
            proof {
                if r - 1 > 0 {
                    assert(s@ + seq!['/'] + placement_from(*self, r - 2) =~= before + (if r < 8 {
                        seq!['/']
                    } else {
                        Seq::empty()
                    }) + placement_from(*self, r - 1));
                } else {
                    assert(s@ =~= before + (if r < 8 {
                        seq!['/']
                    } else {
                        Seq::empty()
                    }) + placement_from(*self, 0));
                }
            }
            r = r - 1;
        }
        s
    }

    /// The FEN text of this position: the placement from rank 8 down to
    /// rank 1, the side to move, the castling rights (`-` for none), the en
    /// passant square (`-` for none), the halfmove clock and the fullmove
    /// number.
    pub fn to_fen(&self) -> (r: String)
        ensures
            r@ == fen_text(*self),
    {
        let mut s = self.placement_text();
        let ghost p0 = s@;
        push_char(&mut s, ' ');
        push_char(&mut s, if self.side_to_move { 'w' } else { 'b' });
        push_char(&mut s, ' ');
        let ghost p1 = s@;
        let castling = castling_string(self.castling_rights);
        s.append(castling.as_str());
        push_char(&mut s, ' ');
        let ghost p2 = s@;
        let ep = en_passant_string(self.en_passant);
        s.append(ep.as_str());
        push_char(&mut s, ' ');
        let ghost p3 = s@;
        push_decimal(&mut s, self.halfmove_clock as u32);
        push_char(&mut s, ' ');
        push_decimal(&mut s, self.fullmove_number as u32);
        proof {
            let side = if self.side_to_move {
                seq!['w']
            } else {
                seq!['b']
            };
            assert(p1 =~= p0 + seq![' '] + side + seq![' ']);
            assert(p2 =~= p1 + castling_text(self.castling_rights) + seq![' ']);
            assert(s@ =~= p3 + decimal(self.halfmove_clock as nat) + seq![' '] + decimal(
                self.fullmove_number as nat,
            ));
            assert(s@ =~= fen_text(*self));
        }
        s
    }
}

/// The FEN castling field for the rights `c`.
fn castling_string(c: u8) -> (r: String)
    ensures
        r@ == castling_text(c),
{
    let mut s = String::new();
    if c % 16 == 0 {
        push_char(&mut s, '-');
    } else {
        if c / 8 % 2 == 1 {
            push_char(&mut s, 'K');
        }
        if c / 4 % 2 == 1 {
            push_char(&mut s, 'Q');
        }
        if c / 2 % 2 == 1 {
            push_char(&mut s, 'k');
        }
        if c % 2 == 1 {
            push_char(&mut s, 'q');
        }
    }
    proof {
        assert(s@ =~= castling_text(c));
    }
    s
}

/// The FEN en passant field for the en passant bitboard `ep`.
fn en_passant_string(ep: u64) -> (r: String)
    ensures
        r@ == (if ep == 0 {
            seq!['-']
        } else {
            square_name(sq_of(ep))
        }),
{
    if ep == 0 {
        let mut s = String::new();
        push_char(&mut s, '-');
        proof {
            assert(s@ =~= seq!['-']);
        }
        s
    } else {
        proof {
            vstd::std_specs::bits::axiom_u64_trailing_zeros(ep);
        }
        square_name_of(ep.trailing_zeros())
    }
}

} // verus!
