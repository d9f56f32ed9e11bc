use bitboard_chess::board::{verify_fen, ChessBoard};
use bitboard_chess::moves::{pawn_attacks, queen_attacks, resolve_ray, rook_attacks};
use bitboard_chess::rules::is_check;
use bitboard_chess::utils::square_to_bb;

#[test]
fn start_position_is_valid_fen() {
    assert!(verify_fen("rnbqkbnr/pppppppp/8/8/8/8/PPPPPPPP/RNBQKBNR w KQkq - 0 1"));
}

#[test]
fn kingless_fen_is_invalid() {
    assert!(!verify_fen("8/8/8/8/8/8/8/8 w - - 0 1"));
}

#[test]
fn castling_letters_in_any_order_are_valid() {
    assert!(verify_fen("rnbqkbnr/pppppppp/8/8/8/8/PPPPPPPP/RNBQKBNR w Kq - 0 1"));
    assert!(!verify_fen("rnbqkbnr/pppppppp/8/8/8/8/PPPPPPPP/RNBQKBNR w KQkq - 0"));
}

#[test]
fn pawn_on_e4_attacks_d5_and_f5() {
    let board = ChessBoard::initialize_from_fen(
        "rnbqkbnr/pppppppp/8/8/4P3/8/PPPP1PPP/RNBQKBNR b KQkq e3 0 1",
    )
    .unwrap();
    let attacks = pawn_attacks(&true, &square_to_bb("e4").unwrap(), &board);
    let d5 = square_to_bb("d5").unwrap();
    let f5 = square_to_bb("f5").unwrap();
    assert_eq!(attacks & d5, d5);
    assert_eq!(attacks & f5, f5);
    assert_eq!(attacks, d5 | f5);
}

#[test]
fn bishop_on_f7_gives_check() {
    let board = ChessBoard::initialize_from_fen(
        "rnbqkbnr/pppp1Bpp/8/4pp2/4P3/8/PPPP1PPP/RNBQK1NR b KQkq - 0 1",
    )
    .unwrap();
    assert!(is_check(&board));
}

#[test]
fn rook_on_a1_covers_file_and_rank() {
    let a1 = square_to_bb("a1").unwrap();
    assert_eq!(rook_attacks(&a1), 0x01010101010101FE);
    assert_eq!(rook_attacks(&a1) & 0x8040201008040200, 0);
    assert_ne!(queen_attacks(&a1), rook_attacks(&a1));
}

#[test]
fn ray_stops_at_blockers() {
    let a1 = square_to_bb("a1").unwrap();
    let north: u64 = 0x0101010101010100;
    // Enemy on a4: a2, a3, a4.
    assert_eq!(resolve_ray(a1, north, 0, square_to_bb("a4").unwrap()), 0x0000000001010100);
    // Friendly on a4: a2, a3.
    assert_eq!(resolve_ray(a1, north, square_to_bb("a4").unwrap(), 0), 0x0000000000010100);
    // Downward ray from h8 toward h1 with an enemy on h6.
    let h8 = square_to_bb("h8").unwrap();
    let south: u64 = 0x0080808080808080;
    assert_eq!(resolve_ray(h8, south, 0, square_to_bb("h6").unwrap()), 0x0080800000000000);
    assert_eq!(resolve_ray(h8, south, 0, 0), south);
}

#[test]
fn binary_picture_of_a_bitboard() {
    let text = bitboard_chess::utils::board_binary_text(&0x8000_0000_0000_0001);
    assert_eq!(
        text,
        "00000001\n00000000\n00000000\n00000000\n00000000\n00000000\n00000000\n10000000\n"
    );
}

#[test]
fn empty_bitboard_has_no_square_name() {
    assert_eq!(
        bitboard_chess::utils::bb_to_square(&0),
        Err("Invalid bitboard: no piece on the board.".to_string())
    );
}

#[test]
fn halfmove_clock_stops_at_its_limit() {
    let mut board = ChessBoard::initialize_from_fen("4k3/8/8/8/8/8/8/4K3 w - - 255 7").unwrap();
    let mv = bitboard_chess::apply::encode_move(4, 12, 0);
    let undo = board.apply_move(mv).unwrap();
    assert_eq!(board.halfmove_clock, 255);
    assert_eq!(board.fullmove_number, 7);
    let reply = bitboard_chess::apply::encode_move(60, 52, 0);
    board.apply_move(reply).unwrap();
    assert_eq!(board.fullmove_number, 8);
    assert_eq!(board.to_fen(), "8/4k3/8/8/8/8/4K3/8 w - - 255 8");
    board.unapply_move(reply, &bitboard_chess::apply::UndoInfo {
        halfmove_clock: 255,
        castling_rights: 0,
        en_passant: 0,
        captured: None,
    })
    .unwrap();
    board.unapply_move(mv, &undo).unwrap();
    assert_eq!(board.to_fen(), "4k3/8/8/8/8/8/8/4K3 w - - 255 7");
}

#[test]
fn large_halfmove_clock_is_valid_but_does_not_fit_a_board() {
    let fen = "rnbqkbnr/pppppppp/8/8/8/8/PPPPPPPP/RNBQKBNR w KQkq - 300 1";
    assert!(verify_fen(fen));
    assert!(verify_fen("rnbqkbnr/pppppppp/8/8/8/8/PPPPPPPP/RNBQKBNR w KQkq - 65535 1"));
    assert!(!verify_fen("rnbqkbnr/pppppppp/8/8/8/8/PPPPPPPP/RNBQKBNR w KQkq - 65536 1"));
    assert_eq!(ChessBoard::initialize_from_fen(fen), Err("Invalid FEN string.".to_string()));
    assert_eq!(
        ChessBoard::initialize_from_fen("rnbqkbnr/pppppppp/8/8/8/8/PPPPPPPP/RNBQKBNR w KQkq - 255 1")
            .unwrap()
            .halfmove_clock,
        255
    );
}

#[test]
fn any_unicode_white_space_separates_fields() {
    assert!(verify_fen("rnbqkbnr/pppppppp/8/8/8/8/PPPPPPPP/RNBQKBNR\u{A0}w\u{2003}KQkq\t-  0\n1"));
}
