use bitboard_chess::board::ChessBoard;
use bitboard_chess::moves::{
    AttackTables,
    bishop_attacks, board_attacks, king_attacks, knight_attacks, pawn_attacks, queen_attacks,
    rook_attacks,
};
use bitboard_chess::utils::square_to_bb;

#[test]
fn test_pawn_attacks() {
    let empty_board = ChessBoard::empty();

    // white pawn on b5
    let square1: u64 = square_to_bb("b5").unwrap(); // b5 bit = 1.
    let square1_pawn_attacks = pawn_attacks(&true, &square1, &empty_board);
    assert_eq!(square1_pawn_attacks, 0x0000050000000000); // a6 and c6 bit = 1.

    // black pawn on b5
    let square2: u64 = square_to_bb("b5").unwrap(); // b5 bit = 1.
    let square2_pawn_attacks = pawn_attacks(&false, &square2, &empty_board);
    assert_eq!(square2_pawn_attacks, 0x0000000005000000); // a4 and c4 bit = 1.

    // white pawn on a1
    let square3: u64 = square_to_bb("a1").unwrap(); // a1 bit = 1.
    let square3_pawn_attacks = pawn_attacks(&true, &square3, &empty_board);
    assert_eq!(square3_pawn_attacks, 0x0000000000000200); // b2 bit = 1.

    // black pawn on a8
    let square4: u64 = square_to_bb("a8").unwrap(); // a8 bit = 1.
    let square4_pawn_attacks = pawn_attacks(&false, &square4, &empty_board);
    assert_eq!(square4_pawn_attacks, 0x0002000000000000); // b7 bit = 1.

    // white pawn on h1
    let square5: u64 = square_to_bb("h1").unwrap(); // h1 bit = 1.
    let square5_pawn_attacks = pawn_attacks(&true, &square5, &empty_board);
    assert_eq!(square5_pawn_attacks, 0x0000000000004000); // g2 bit = 1.

    // black pawn on h8
    let square6: u64 = square_to_bb("h8").unwrap(); // h8 bit = 1.
    let square6_pawn_attacks = pawn_attacks(&false, &square6, &empty_board);
    assert_eq!(square6_pawn_attacks, 0x0040000000000000); // g7 bit = 1.

    let non_empty_board =
        ChessBoard::initialize_from_fen("k7/1p6/b7/8/8/B7/1P6/K7 b KQkq - 0 1").unwrap();

    // white pawn blocked by its own piece.
    let square7: u64 = square_to_bb("b2").unwrap();
    let square7_pawn_attacks = pawn_attacks(&true, &square7, &non_empty_board);
    assert_eq!(square7_pawn_attacks, 0x0000000000040000);
    // black pawn blocked by its own piece.
    let square8: u64 = square_to_bb("b7").unwrap();
    let square8_pawn_attacks = pawn_attacks(&false, &square8, &non_empty_board);
    assert_eq!(square8_pawn_attacks, 0x0000040000000000);
}

#[test]
fn test_knight_attacks() {
    // test squares: a1, a2, b1, b2, g1, g2, h1, h2, a7, a8, b7, b8, g7, g8, h7, h8, d4
    let empty_board = ChessBoard::empty();

    // a1:
    let square1 = square_to_bb("a1").unwrap();
    let sq1_knight_attacks = knight_attacks(&true, &square1, &empty_board);
    assert_eq!(sq1_knight_attacks, 0x0000000000020400);

    // a2:
    let square2 = square_to_bb("a2").unwrap();
    let sq2_knight_attacks = knight_attacks(&true, &square2, &empty_board);
    assert_eq!(sq2_knight_attacks, 0x0000000002040004);

    // b1:
    let square3 = square_to_bb("b1").unwrap();
    let sq3_knight_attacks = knight_attacks(&true, &square3, &empty_board);
    assert_eq!(sq3_knight_attacks, 0x0000000000050800);

    // b2:
    let square4 = square_to_bb("b2").unwrap();
    let sq4_knight_attacks = knight_attacks(&true, &square4, &empty_board);
    assert_eq!(sq4_knight_attacks, 0x0000000005080008);

    // g1:
    let square5 = square_to_bb("g1").unwrap();
    let sq5_knight_attacks = knight_attacks(&true, &square5, &empty_board);
    assert_eq!(sq5_knight_attacks, 0x0000000000A01000);

    // g2:
    let square6 = square_to_bb("g2").unwrap();
    let sq6_knight_attacks = knight_attacks(&true, &square6, &empty_board);
    assert_eq!(sq6_knight_attacks, 0x00000000A0100010);

    // h1:
    let square7 = square_to_bb("h1").unwrap();
    let sq7_knight_attacks = knight_attacks(&true, &square7, &empty_board);
    assert_eq!(sq7_knight_attacks, 0x0000000000402000);

    // h2:
    let square8 = square_to_bb("h2").unwrap();
    let sq8_knight_attacks = knight_attacks(&true, &square8, &empty_board);
    assert_eq!(sq8_knight_attacks, 0x0000000040200020);

    // a7:
    let square9 = square_to_bb("a7").unwrap();
    let sq9_knight_attacks = knight_attacks(&true, &square9, &empty_board);
    assert_eq!(sq9_knight_attacks, 0x0400040200000000);

    // a8:
    let square10 = square_to_bb("a8").unwrap();
    let sq10_knight_attacks = knight_attacks(&true, &square10, &empty_board);
    assert_eq!(sq10_knight_attacks, 0x0004020000000000);

    // b7:
    let square11 = square_to_bb("b7").unwrap();
    let sq11_knight_attacks = knight_attacks(&true, &square11, &empty_board);
    assert_eq!(sq11_knight_attacks, 0x0800080500000000);

    let starting_board = ChessBoard::initialize();

    // b1 from starting position (exclude d2)
    let square12 = square_to_bb("b1").unwrap();
    let sq12_knight_attacks = knight_attacks(&true, &square12, &starting_board);
    assert_eq!(sq12_knight_attacks, 0x0000000000050000);

    // b8 from starting position (exclude d7)
    let square13 = square_to_bb("b8").unwrap();
    let sq13_knight_attacks = knight_attacks(&false, &square13, &starting_board);
    assert_eq!(sq13_knight_attacks, 0x0000050000000000);
}

#[test]
fn test_bishop_attacks() {
    // a1
    let square1 = square_to_bb("a1").unwrap();
    let sq1_bishop_attacks = bishop_attacks(&square1);
    assert_eq!(sq1_bishop_attacks, 0x8040201008040200);
    // // a8
    let square2 = square_to_bb("a8").unwrap();
    let sq2_bishop_attacks = bishop_attacks(&square2);
    assert_eq!(sq2_bishop_attacks, 0x0002040810204080);
    // // h1
    let square3 = square_to_bb("h1").unwrap();
    let sq3_bishop_attacks = bishop_attacks(&square3);
    assert_eq!(sq3_bishop_attacks, 0x0102040810204000);
    // // h8
    let square4 = square_to_bb("h8").unwrap();
    let sq4_bishop_attacks = bishop_attacks(&square4);
    assert_eq!(sq4_bishop_attacks, 0x0040201008040201);
    // // d4
    let square5 = square_to_bb("d4").unwrap();
    let sq5_bishop_attacks = bishop_attacks(&square5);
    assert_eq!(sq5_bishop_attacks, 0x8041221400142241);
}

#[test]
fn test_rook_attacks() {
    // a1
    let square1 = square_to_bb("a1").unwrap();
    let sq1_rook_attacks = rook_attacks(&square1);
    assert_eq!(sq1_rook_attacks, 0x01010101010101FE);
    // a8
    let square2 = square_to_bb("a8").unwrap();
    let sq2_rook_attacks = rook_attacks(&square2);
    assert_eq!(sq2_rook_attacks, 0xFE01010101010101);
    // h1
    let square3 = square_to_bb("h1").unwrap();
    let sq3_rook_attacks = rook_attacks(&square3);
    assert_eq!(sq3_rook_attacks, 0x808080808080807F);
    // h8
    let square4 = square_to_bb("h8").unwrap();
    let sq4_rook_attacks = rook_attacks(&square4);
    assert_eq!(sq4_rook_attacks, 0x7F80808080808080);
    // d4
    let square5 = square_to_bb("d4").unwrap();
    let sq5_rook_attacks = rook_attacks(&square5);
    assert_eq!(sq5_rook_attacks, 0x08080808F7080808);
}

#[test]
fn test_queen_attacks() {
    // a1
    let square1 = square_to_bb("a1").unwrap();
    let sq1_queen_attacks = queen_attacks(&square1);
    assert_eq!(sq1_queen_attacks, (0x01010101010101FE | 0x8040201008040200));
    // a8
    let square2 = square_to_bb("a8").unwrap();
    let sq2_queen_attacks = queen_attacks(&square2);
    assert_eq!(sq2_queen_attacks, (0xFE01010101010101 | 0x0002040810204080));
    // h1
    let square3 = square_to_bb("h1").unwrap();
    let sq3_queen_attacks = queen_attacks(&square3);
    assert_eq!(sq3_queen_attacks, (0x808080808080807F | 0x0102040810204000));
    // h8
    let square4 = square_to_bb("h8").unwrap();
    let sq4_queen_attacks = queen_attacks(&square4);
    assert_eq!(sq4_queen_attacks, (0x7F80808080808080 | 0x0040201008040201));
    // d4
    let square5 = square_to_bb("d4").unwrap();
    let sq5_queen_attacks = queen_attacks(&square5);
    assert_eq!(sq5_queen_attacks, (0x08080808F7080808 | 0x8041221400142241));
}

#[test]
fn test_king_attacks() {
    // a1
    let square1 = square_to_bb("a1").unwrap();
    let sq1_king_attacks = king_attacks(&square1);
    assert_eq!(sq1_king_attacks, (0x0000000000000302));
    // a8
    let square2 = square_to_bb("a8").unwrap();
    let sq2_king_attacks = king_attacks(&square2);
    assert_eq!(sq2_king_attacks, (0x0203000000000000));
    // h1
    let square3 = square_to_bb("h1").unwrap();
    let sq3_king_attacks = king_attacks(&square3);
    assert_eq!(sq3_king_attacks, (0x000000000000C040));
    // h8
    let square4 = square_to_bb("h8").unwrap();
    let sq4_king_attacks = king_attacks(&square4);
    assert_eq!(sq4_king_attacks, (0x40C0000000000000));
    // d4
    let square5 = square_to_bb("d4").unwrap();
    let sq5_king_attacks = king_attacks(&square5);
    assert_eq!(sq5_king_attacks, (0x0000001C141C0000));
}

#[test]
fn test_board_attacks() {
    // 2 pieces of each type (except king), black to move
    let board1 =
        ChessBoard::initialize_from_fen("rnbq1p2/rnbq1pk1/8/8/8/8/8/K7 b KQkq - 0 1")
            .unwrap();
    let psl_moves = board_attacks(&board1);

    let mut psl_moves_manual: Vec<(u64, u64)> = Vec::new();

    let p_bb1 = square_to_bb("f7").unwrap();
    psl_moves_manual.push((p_bb1, pawn_attacks(&false, &p_bb1, &board1)));
    let p_bb2 = square_to_bb("f8").unwrap();
    psl_moves_manual.push((p_bb2, pawn_attacks(&false, &p_bb2, &board1)));

    let n_bb1 = square_to_bb("b7").unwrap();
    psl_moves_manual.push((n_bb1, knight_attacks(&false, &n_bb1, &board1)));
    let n_bb2 = square_to_bb("b8").unwrap();
    psl_moves_manual.push((n_bb2, knight_attacks(&false, &n_bb2, &board1)));

    let b_bb1 = square_to_bb("c7").unwrap();
    psl_moves_manual.push((b_bb1, 0x00000A1120408000));
    let b_bb2 = square_to_bb("c8").unwrap();
    psl_moves_manual.push((b_bb2, 0));

    let r_bb1 = square_to_bb("a7").unwrap();
    psl_moves_manual.push((r_bb1, 0x0000010101010101));
    let r_bb2 = square_to_bb("a8").unwrap();
    psl_moves_manual.push((r_bb2, 0));

    let q_bb1 = square_to_bb("d7").unwrap();
    psl_moves_manual.push((q_bb1, 0x10101C2A49880808));
    let q_bb2 = square_to_bb("d8").unwrap();
    psl_moves_manual.push((q_bb2, 0x1010204080000000));

    let k_bb1 = square_to_bb("g7").unwrap();
    psl_moves_manual.push((k_bb1, king_attacks(&k_bb1)));

    assert_eq!(psl_moves, psl_moves_manual);

    // 2 pieces of each type (except king), white to move
    let board2 =
        ChessBoard::initialize_from_fen("k7/8/8/8/8/8/RNBQ1PK1/RNBQ1P2 w KQkq - 0 1")
            .unwrap();
    let psl_moves = board_attacks(&board2);

    let mut psl_moves_manual: Vec<(u64, u64)> = Vec::new();

    let p_bb3 = square_to_bb("f1").unwrap();
    psl_moves_manual.push((p_bb3, pawn_attacks(&true, &p_bb3, &board2)));
    let p_bb4 = square_to_bb("f2").unwrap();
    psl_moves_manual.push((p_bb4, pawn_attacks(&true, &p_bb4, &board2)));

    let n_bb3 = square_to_bb("b1").unwrap();
    psl_moves_manual.push((n_bb3, knight_attacks(&true, &n_bb3, &board2)));
    let n_bb4 = square_to_bb("b2").unwrap();
    psl_moves_manual.push((n_bb4, knight_attacks(&true, &n_bb4, &board2)));

    let b_bb3 = square_to_bb("c1").unwrap();
    psl_moves_manual.push((b_bb3, 0));
    let b_bb4 = square_to_bb("c2").unwrap();
    psl_moves_manual.push((b_bb4, 0x00804020110A0000));

    let r_bb3 = square_to_bb("a1").unwrap();
    psl_moves_manual.push((r_bb3, 0));
    let r_bb4 = square_to_bb("a2").unwrap();
    psl_moves_manual.push((r_bb4, 0x0101010101010000));

    let q_bb3 = square_to_bb("d1").unwrap();
    psl_moves_manual.push((q_bb3, 0x0000008040201010));
    let q_bb4 = square_to_bb("d2").unwrap();
    psl_moves_manual.push((q_bb4, 0x080888492A1C1010));

    let k_bb2 = square_to_bb("g2").unwrap();
    psl_moves_manual.push((k_bb2, king_attacks(&k_bb2)));

    assert_eq!(psl_moves, psl_moves_manual);
}

#[test]
fn attack_tables_hold_each_pattern() {
    let tables = AttackTables::new();
    let a1 = 0u32;
    let d4 = square_to_bb("d4").unwrap().trailing_zeros();
    assert_eq!(tables.ray_of(a1, 0), 0x0101010101010100);
    assert_eq!(tables.ray_of(a1, 2), 0x00000000000000FE);
    assert_eq!(tables.ray_of(a1, 1), 0x8040201008040200);
    assert_eq!(tables.ray_of(a1, 4), 0);
    let orthogonal = tables.ray_of(d4, 0) | tables.ray_of(d4, 2) | tables.ray_of(d4, 4) | tables.ray_of(d4, 6);
    assert_eq!(orthogonal, rook_attacks(&(1u64 << d4)));
    let diagonal = tables.ray_of(d4, 1) | tables.ray_of(d4, 3) | tables.ray_of(d4, 5) | tables.ray_of(d4, 7);
    assert_eq!(diagonal, bishop_attacks(&(1u64 << d4)));
    assert_eq!(tables.king[d4 as usize], 0x0000001C141C0000);
    assert_eq!(tables.knight[0], 0x0000000000020400);
    assert_eq!(tables.white_pawn[33], 0x0000050000000000);
    assert_eq!(tables.black_pawn[33], 0x0000000005000000);
}

#[test]
fn sliders_stop_at_the_first_piece() {
    // White bishop on a1, black pawn on b2: the bishop reaches b2 and no further.
    let board = ChessBoard::initialize_from_fen("4k3/8/8/8/8/8/1p6/B3K3 w - - 0 1").unwrap();
    let listed = board_attacks(&board);
    let a1 = square_to_bb("a1").unwrap();
    let b2 = square_to_bb("b2").unwrap();
    assert!(listed.contains(&(a1, b2)));
    assert_eq!(listed[0], (a1, b2));
}
