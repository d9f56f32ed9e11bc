use bitboard_chess::board::{verify_fen, ChessBoard};

#[test]
fn test_initialize_board() {
    let board = ChessBoard::initialize();
    assert_eq!(board.pawns, 0x00FF00000000FF00);
    assert_eq!(board.knights, 0x4200000000000042);
    assert_eq!(board.bishops, 0x2400000000000024);
    assert_eq!(board.rooks, 0x8100000000000081);
    assert_eq!(board.queens, 0x0800000000000008);
    assert_eq!(board.kings, 0x1000000000000010);
    assert_eq!(board.white_pieces, 0x000000000000FFFF);
    assert_eq!(board.black_pieces, 0xFFFF000000000000);
    assert_eq!(board.side_to_move, true);
    assert_eq!(board.en_passant, 0);
    assert_eq!(board.castling_rights, 0b1111);
    assert_eq!(board.halfmove_clock, 0);
    assert_eq!(board.fullmove_number, 1);
}

#[test]
fn test_empty_board() {
    let board = ChessBoard::empty();
    assert_eq!(board.pawns, 0);
    assert_eq!(board.knights, 0);
    assert_eq!(board.bishops, 0);
    assert_eq!(board.rooks, 0);
    assert_eq!(board.queens, 0);
    assert_eq!(board.kings, 0);
    assert_eq!(board.white_pieces, 0);
    assert_eq!(board.black_pieces, 0);
    assert_eq!(board.side_to_move, true);
    assert_eq!(board.en_passant, 0);
    assert_eq!(board.castling_rights, 0);
    assert_eq!(board.halfmove_clock, 0);
    assert_eq!(board.fullmove_number, 1);
}

#[test]
fn test_verify_fen() {
    let starting_fen = verify_fen("rnbqkbnr/pppppppp/8/8/8/8/PPPPPPPP/RNBQKBNR w KQkq - 0 1"); // Starting position.
    assert_eq!(starting_fen, true);

    let empty_fen = verify_fen("8/8/8/8/8/8/8/8 w - - 0 1"); // No kings.
    assert_eq!(empty_fen, false);

    let random_fen =
        verify_fen("1rbq1rk1/5pbp/2pNn1p1/p1Pn4/Pp1P4/1B3N1P/1P3PP1/R1BQR1K1 w - - 1 18"); // Valid FEN of a middlegame.
    assert_eq!(random_fen, true);

    let too_many_ranks_false_fen = verify_fen(
        "1rbq1rk1/5pbp/2pNn1p1/p1Pn4/Pp1P4/1B3N1P/1P3PP1/R1BQR1K1/1rbq1rk1 w - - 1 18", // 9 ranks != 8.
    );
    assert_eq!(too_many_ranks_false_fen, false);

    let too_few_ranks_false_fen =
        verify_fen("1rbq1rk1/5pbp/2pNn1p1/p1Pn4/Pp1P4/1B3N1P/1P3PP1 w - - 1 18"); // 7 ranks != 7.
    assert_eq!(too_few_ranks_false_fen, false);

    let too_many_squares_false_fen =
        verify_fen("1rbq1rk1/5pbp/2pNn1p1/p1Pn4/Pp1P4/1B3N1P/1P3PP1/R2BQR1K1 w - - 1 18"); // 1st rank has too many squares.
    assert_eq!(too_many_squares_false_fen, false);

    let too_few_squares_false_fen =
        verify_fen("1rbq1rk1/5pbp/2pNn1p1/p1Pn4/Pp1P4/1B3N1P/1P3PP1/RBQR1K1 w - - 1 18"); // 1st rank has too few squares.
    assert_eq!(too_few_squares_false_fen, false);

    let wrong_characters_false_fen =
        verify_fen("1rbq1ak1/5pbp/2pNn1p1/p1Pn4/Pp1P4/1B3N1P/1P3PP1/R1BQR1K1 w - - 1 18"); // 8th rank contains the char 'a'.
    assert_eq!(wrong_characters_false_fen, false);

    let invalid_color_to_move_false_fen =
        verify_fen("rnbqkbnr/pppppppp/8/8/8/8/PPPPPPPP/RNBQKBNR v KQkq - 0 1"); // Starting position with invalid color to move - 'v'.
    assert_eq!(invalid_color_to_move_false_fen, false);

    let color_to_move_len_false_fen =
        verify_fen("rnbqkbnr/pppppppp/8/8/8/8/PPPPPPPP/RNBQKBNR ww KQkq - 0 1"); // Starting position with invalid color to move - 'ww'.
    assert_eq!(color_to_move_len_false_fen, false);

    let castle_rights_len_false_fen =
        verify_fen("rnbqkbnr/pppppppp/8/8/8/8/PPPPPPPP/RNBQKBNR w KQkqK - 0 1"); // Castling rights too long.
    assert_eq!(castle_rights_len_false_fen, false);

    let castle_invalid_char_false_fen =
        verify_fen("rnbqkbnr/pppppppp/8/8/8/8/PPPPPPPP/RNBQKBNR w KQka - 0 1"); // Invalid character in castling rights.
    assert_eq!(castle_invalid_char_false_fen, false);

    let castling_contradiction_false_fen =
        verify_fen("rnbqkbnr/pppppppp/8/8/8/8/PPPPPPPP/RNBQKBNR w -K - 0 1");
    assert_eq!(castling_contradiction_false_fen, false);

    let invalid_len_en_passant_false_fen =
        verify_fen("rnbqkbnr/pppppppp/8/8/8/8/PPPPPPPP/RNBQKBNR w KQkq a33 0 1");
    assert_eq!(invalid_len_en_passant_false_fen, false);

    let invalid_char_en_passant_false_fen =
        verify_fen("rnbqkbnr/pppppppp/8/8/8/8/PPPPPPPP/RNBQKBNR w KQkq i3 0 1");
    assert_eq!(invalid_char_en_passant_false_fen, false);

    let invalid_num_en_passant_false_fen =
        verify_fen("rnbqkbnr/pppppppp/8/8/8/8/PPPPPPPP/RNBQKBNR w KQkq a2 0 1");
    assert_eq!(invalid_num_en_passant_false_fen, false);

    let invalid_halfmove_negative_false_fen =
        verify_fen("rnbqkbnr/pppppppp/8/8/8/8/PPPPPPPP/RNBQKBNR w KQkq - -1 1");
    assert_eq!(invalid_halfmove_negative_false_fen, false);

    let invalid_halfmove_char_false_fen =
        verify_fen("rnbqkbnr/pppppppp/8/8/8/8/PPPPPPPP/RNBQKBNR w KQkq - a 1");
    assert_eq!(invalid_halfmove_char_false_fen, false);

    let invalid_fullmove_negative_false_fen =
        verify_fen("rnbqkbnr/pppppppp/8/8/8/8/PPPPPPPP/RNBQKBNR w KQkq - 0 -1");
    assert_eq!(invalid_fullmove_negative_false_fen, false);

    let invalid_fullmove_zero_false_fen =
        verify_fen("rnbqkbnr/pppppppp/8/8/8/8/PPPPPPPP/RNBQKBNR w KQkq - 0 0");
    assert_eq!(invalid_fullmove_zero_false_fen, false);

    let invalid_fullmove_char_false_fen =
        verify_fen("rnbqkbnr/pppppppp/8/8/8/8/PPPPPPPP/RNBQKBNR w KQkq - 0 a");
    assert_eq!(invalid_fullmove_char_false_fen, false);

    let random_fen2 =
        verify_fen("rnbqk2r/pp2nppp/2pbp3/3p4/3P4/1P1BPN2/PBP2PPP/RN1QK2R b KQkq - 2 6");
    assert_eq!(random_fen2, true);
}

#[test]
fn test_intialize_from_fen() {
    let starting_board = ChessBoard::initialize_from_fen(
        "rnbqkbnr/pppppppp/8/8/8/8/PPPPPPPP/RNBQKBNR w KQkq - 0 1",
    )
    .unwrap();
    assert_eq!(starting_board.pawns, 0x00FF00000000FF00);
    assert_eq!(starting_board.knights, 0x4200000000000042);
    assert_eq!(starting_board.bishops, 0x2400000000000024);
    assert_eq!(starting_board.rooks, 0x8100000000000081);
    assert_eq!(starting_board.queens, 0x0800000000000008);
    assert_eq!(starting_board.kings, 0x1000000000000010);
    assert_eq!(starting_board.white_pieces, 0x000000000000FFFF);
    assert_eq!(starting_board.black_pieces, 0xFFFF000000000000);
    assert_eq!(starting_board.side_to_move, true);
    assert_eq!(starting_board.en_passant, 0);
    assert_eq!(starting_board.castling_rights, 0b1111);
    assert_eq!(starting_board.halfmove_clock, 0);
    assert_eq!(starting_board.fullmove_number, 1);

    let board1 = ChessBoard::initialize_from_fen(
        "r2qkbnr/1p2pppp/p1n5/3p4/3P1B2/3Q1N2/PPP2PPP/RN2K1R1 b Qkq - 2 8",
    )
    .unwrap();
    assert_eq!(
        board1.pawns,
        0b0000000011110010000000010000100000001000000000001110011100000000
    );
    assert_eq!(
        board1.knights,
        0b0100000000000000000001000000000000000000001000000000000000000010
    );
    assert_eq!(
        board1.bishops,
        0b0010000000000000000000000000000000100000000000000000000000000000
    );
    assert_eq!(
        board1.rooks,
        0b1000000100000000000000000000000000000000000000000000000001000001
    );
    assert_eq!(
        board1.queens,
        0b0000100000000000000000000000000000000000000010000000000000000000
    );
    assert_eq!(
        board1.kings,
        0b0001000000000000000000000000000000000000000000000000000000010000
    );
    assert_eq!(
        board1.white_pieces,
        0b0000000000000000000000000000000000101000001010001110011101010011
    );
    assert_eq!(
        board1.black_pieces,
        0b1111100111110010000001010000100000000000000000000000000000000000
    );
    assert_eq!(board1.side_to_move, false);
    assert_eq!(board1.en_passant, 0);
    assert_eq!(board1.castling_rights, 0b0111);
    assert_eq!(board1.halfmove_clock, 2);
    assert_eq!(board1.fullmove_number, 8);

    let board2 = ChessBoard::initialize_from_fen(
        "rnbqkbnr/pppppppp/8/8/6pP/8/PPPPPPP1/RNBQKBNR b KQkq h3 0 1",
    )
    .unwrap();
    assert_eq!(
        board2.pawns,
        0b0000000011111111000000000000000011000000000000000111111100000000
    );
    assert_eq!(board2.knights, 0x4200000000000042);
    assert_eq!(board2.bishops, 0x2400000000000024);
    assert_eq!(board2.rooks, 0x8100000000000081);
    assert_eq!(board2.queens, 0x0800000000000008);
    assert_eq!(board2.kings, 0x1000000000000010);
    assert_eq!(
        board2.white_pieces,
        0b0000000000000000000000000000000010000000000000000111111111111111
    );
    assert_eq!(
        board2.black_pieces,
        0b1111111111111111000000000000000001000000000000000000000000000000
    );
    assert_eq!(board2.side_to_move, false);
    // The en passant field names h3, square index 23.
    assert_eq!(
        board2.en_passant,
        0b0000000000000000000000000000000000000000100000000000000000000000
    );
    assert_eq!(board2.castling_rights, 0b1111);
    assert_eq!(board2.halfmove_clock, 0);
    assert_eq!(board2.fullmove_number, 1);
}
