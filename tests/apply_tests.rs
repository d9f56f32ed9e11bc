use bitboard_chess::apply::{encode_move, MoveError, UndoInfo};
use bitboard_chess::board::{ChessBoard, PieceKind};
use bitboard_chess::moves::{color_attacks, AttackTables};
use bitboard_chess::rules::is_check;
use bitboard_chess::utils::square_to_bb;

const START: &str = "rnbqkbnr/pppppppp/8/8/8/8/PPPPPPPP/RNBQKBNR w KQkq - 0 1";

fn sq(name: &str) -> u16 {
    square_to_bb(name).unwrap().trailing_zeros() as u16
}

#[test]
fn double_pawn_step_sets_en_passant() {
    let mut board = ChessBoard::initialize();
    let undo = board.apply_move(encode_move(sq("e2"), sq("e4"), 0)).unwrap();
    assert_eq!(board.en_passant, square_to_bb("e3").unwrap());
    assert_eq!(board.castling_rights, 0b1111);
    assert_eq!(board.halfmove_clock, 0);
    assert_eq!(board.fullmove_number, 1);
    assert_eq!(board.side_to_move, false);
    assert_eq!(
        board.to_fen(),
        "rnbqkbnr/pppppppp/8/8/4P3/8/PPPP1PPP/RNBQKBNR b KQkq e3 0 1"
    );
    assert_eq!(
        undo,
        UndoInfo { halfmove_clock: 0, castling_rights: 0b1111, en_passant: 0, captured: None }
    );
}

#[test]
fn single_step_clears_en_passant() {
    let mut board = ChessBoard::initialize();
    board.apply_move(encode_move(sq("e2"), sq("e4"), 0)).unwrap();
    board.apply_move(encode_move(sq("g8"), sq("f6"), 0)).unwrap();
    assert_eq!(board.en_passant, 0);
    assert_eq!(board.halfmove_clock, 1);
    assert_eq!(board.fullmove_number, 2);
    board.apply_move(encode_move(sq("d2"), sq("d3"), 0)).unwrap();
    assert_eq!(board.en_passant, 0);
    assert_eq!(board.halfmove_clock, 0);
}

#[test]
fn apply_then_unapply_restores_position() {
    let mut board = ChessBoard::initialize();
    let before = board;
    let mv = encode_move(sq("g1"), sq("f3"), 0);
    let undo = board.apply_move(mv).unwrap();
    assert_ne!(board, before);
    board.unapply_move(mv, &undo).unwrap();
    assert_eq!(board, before);
}

#[test]
fn capture_and_undo() {
    let mut board =
        ChessBoard::initialize_from_fen("rnbqkbnr/ppp1pppp/8/3p4/4P3/8/PPPP1PPP/RNBQKBNR w KQkq - 0 2")
            .unwrap();
    let before = board;
    let mv = encode_move(sq("e4"), sq("d5"), 1);
    let undo = board.apply_move(mv).unwrap();
    assert_eq!(undo.captured, Some(PieceKind::Pawn));
    assert_eq!(
        board.to_fen(),
        "rnbqkbnr/ppp1pppp/8/3P4/8/8/PPPP1PPP/RNBQKBNR b KQkq - 0 2"
    );
    board.unapply_move(mv, &undo).unwrap();
    assert_eq!(board, before);
}

#[test]
fn en_passant_capture_removes_pawn_behind() {
    let mut board =
        ChessBoard::initialize_from_fen("4k3/8/8/3Pp3/8/8/8/4K3 w - e6 0 3").unwrap();
    let before = board;
    let mv = encode_move(sq("d5"), sq("e6"), 3);
    let undo = board.apply_move(mv).unwrap();
    assert_eq!(board.to_fen(), "4k3/8/4P3/8/8/8/8/4K3 b - - 0 3");
    board.unapply_move(mv, &undo).unwrap();
    assert_eq!(board, before);
}

#[test]
fn castling_moves_rook_and_clears_rights() {
    let mut board = ChessBoard::initialize_from_fen("r3k2r/8/8/8/8/8/8/R3K2R w KQkq - 4 10").unwrap();
    let before = board;
    let mv = encode_move(sq("e1"), sq("g1"), 2);
    let undo = board.apply_move(mv).unwrap();
    assert_eq!(board.to_fen(), "r3k2r/8/8/8/8/8/8/R4RK1 b kq - 5 10");
    board.unapply_move(mv, &undo).unwrap();
    assert_eq!(board, before);
    let mv2 = encode_move(sq("e1"), sq("c1"), 2);
    board.apply_move(mv2).unwrap();
    assert_eq!(board.to_fen(), "r3k2r/8/8/8/8/8/8/2KR3R b kq - 5 10");
}

#[test]
fn rook_move_and_rook_capture_clear_rights() {
    let mut board = ChessBoard::initialize_from_fen("r3k2r/8/8/8/8/8/8/R3K2R w KQkq - 0 1").unwrap();
    board.apply_move(encode_move(sq("a1"), sq("a8"), 1)).unwrap();
    assert_eq!(board.castling_rights, 0b1010);
    assert_eq!(board.to_fen(), "R3k2r/8/8/8/8/8/8/4K2R b Kk - 0 1");
}

#[test]
fn promotion_with_capture_and_undo() {
    let mut board = ChessBoard::initialize_from_fen("1n2k3/P7/8/8/8/8/8/4K3 w - - 0 1").unwrap();
    let before = board;
    let mv = encode_move(sq("a7"), sq("b8"), 11);
    let undo = board.apply_move(mv).unwrap();
    assert_eq!(undo.captured, Some(PieceKind::Knight));
    assert_eq!(board.to_fen(), "1Q2k3/8/8/8/8/8/8/4K3 b - - 0 1");
    assert!(is_check(&board));
    board.unapply_move(mv, &undo).unwrap();
    assert_eq!(board, before);
}

#[test]
fn refused_moves_leave_board_unchanged() {
    let mut board = ChessBoard::initialize();
    let before = board;
    assert_eq!(board.apply_move(encode_move(sq("e4"), sq("e5"), 0)), Err(MoveError::NoPieceAtSource));
    assert_eq!(board.apply_move(encode_move(sq("e7"), sq("e5"), 0)), Err(MoveError::WrongColorPiece));
    assert_eq!(board.apply_move(encode_move(sq("e2"), sq("e4"), 12)), Err(MoveError::InvalidMove));
    assert_eq!(board, before);
}

#[test]
fn caches_follow_the_moves() {
    let mut board = ChessBoard::initialize();
    for (from, to) in [("f2", "f3"), ("e7", "e5"), ("g2", "g4"), ("d8", "h4")] {
        board.apply_move(encode_move(sq(from), sq(to), 0)).unwrap();
    }
    assert!(is_check(&board));
    assert_eq!(board.black_attacks & board.kings & board.white_pieces, square_to_bb("e1").unwrap());
}

#[test]
fn fen_round_trip() {
    for fen in [
        START,
        "r2qkbnr/1p2pppp/p1n5/3p4/3P1B2/3Q1N2/PPP2PPP/RN2K1R1 b Qkq - 2 8",
        "rnbqkbnr/pppppppp/8/8/4P3/8/PPPP1PPP/RNBQKBNR b KQkq e3 0 1",
        "1rbq1rk1/5pbp/2pNn1p1/p1Pn4/Pp1P4/1B3N1P/1P3PP1/R1BQR1K1 w - - 1 18",
    ] {
        let board = ChessBoard::initialize_from_fen(fen).unwrap();
        assert_eq!(board.to_fen(), fen);
        assert_eq!(ChessBoard::initialize_from_fen(&board.to_fen()).unwrap(), board);
    }
}

#[test]
fn invalid_fen_is_refused() {
    assert_eq!(
        ChessBoard::initialize_from_fen("8/8/8/8/8/8/8/8 w - - 0 1"),
        Err("Invalid FEN string.".to_string())
    );
    assert!(ChessBoard::initialize_from_fen("4k3/8/8/8/8/8/8/4K3 w - - 256 1").is_err());
    assert!(ChessBoard::initialize_from_fen("4k3/8/8/8/8/8/8/4K3 w - - 0 1 extra").is_err());
}

#[test]
fn piece_type_lookup() {
    let board = ChessBoard::initialize();
    assert_eq!(board.piece_type_at(square_to_bb("d1").unwrap()), Some(PieceKind::Queen));
    assert_eq!(board.piece_type_at(square_to_bb("g8").unwrap()), Some(PieceKind::Knight));
    assert_eq!(board.piece_type_at(square_to_bb("e4").unwrap()), None);
}

#[test]
fn occupancy_stays_consistent_over_moves() {
    let mut board = ChessBoard::initialize();
    let moves = [
        encode_move(sq("e2"), sq("e4"), 0),
        encode_move(sq("d7"), sq("d5"), 0),
        encode_move(sq("e4"), sq("d5"), 1),
        encode_move(sq("d8"), sq("d5"), 1),
        encode_move(sq("b1"), sq("c3"), 0),
    ];
    for mv in moves {
        board.apply_move(mv).unwrap();
        let types = board.pawns | board.knights | board.bishops | board.rooks | board.queens | board.kings;
        assert_eq!(board.white_pieces & board.black_pieces, 0);
        assert_eq!(types, board.white_pieces | board.black_pieces);
    }
    assert_eq!(board.to_fen(), "rnb1kbnr/ppp1pppp/8/3q4/8/2N5/PPPP1PPP/R1BQKBNR b KQkq - 1 3");
}

#[test]
fn caches_equal_recomputation_after_apply_and_undo() {
    let mut board = ChessBoard::initialize();
    let mv = encode_move(sq("e2"), sq("e4"), 0);
    let undo = board.apply_move(mv).unwrap();
    assert_eq!(board.white_attacks, color_attacks(&board, true));
    assert_eq!(board.black_attacks, color_attacks(&board, false));
    board.unapply_move(mv, &undo).unwrap();
    assert_eq!(board.white_attacks, color_attacks(&board, true));
    assert_eq!(board.black_attacks, color_attacks(&board, false));
    // From the start White attacks every square of its third rank.
    assert_eq!(board.white_attacks & 0x0000000000FF0000, 0x0000000000FF0000);
}

#[test]
fn table_driven_apply_and_undo_agree_with_plain_ones() {
    let tables = AttackTables::new();
    let mut plain = ChessBoard::initialize();
    let mut tabled = ChessBoard::initialize();
    let moves = [
        encode_move(sq("e2"), sq("e4"), 0),
        encode_move(sq("d7"), sq("d5"), 0),
        encode_move(sq("e4"), sq("d5"), 1),
    ];
    let mut undos = Vec::new();
    for mv in moves {
        let u1 = plain.apply_move(mv).unwrap();
        let u2 = tabled.apply_move_with(&tables, mv).unwrap();
        assert_eq!(u1, u2);
        assert_eq!(plain, tabled);
        undos.push(u2);
    }
    assert_eq!(tables.color_attacks(&tabled, true), tabled.white_attacks);
    for (mv, undo) in moves.iter().zip(undos.iter()).rev() {
        tabled.unapply_move_with(&tables, *mv, undo).unwrap();
    }
    assert_eq!(tabled, ChessBoard::initialize());
}

#[test]
fn positions_reached_by_play_round_trip_through_fen() {
    let mut board = ChessBoard::initialize_from_fen(START).unwrap();
    let moves = [
        encode_move(sq("e2"), sq("e4"), 0),
        encode_move(sq("c7"), sq("c5"), 0),
        encode_move(sq("g1"), sq("f3"), 0),
        encode_move(sq("b8"), sq("c6"), 0),
        encode_move(sq("f1"), sq("b5"), 0),
        encode_move(sq("g8"), sq("f6"), 0),
        encode_move(sq("e1"), sq("g1"), 2),
    ];
    for mv in moves {
        board.apply_move(mv).unwrap();
        let text = board.to_fen();
        assert_eq!(ChessBoard::initialize_from_fen(&text).unwrap(), board);
    }
    assert_eq!(board.to_fen(), "r1bqkb1r/pp1ppppp/2n2n2/1Bp5/4P3/5N2/PPPP1PPP/RNBQ1RK1 b kq - 5 4");
}
