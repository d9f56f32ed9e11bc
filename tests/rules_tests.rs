use bitboard_chess::board::ChessBoard;
use bitboard_chess::rules::is_check;

#[test]
fn test_is_check() {
    let board1 = ChessBoard::initialize_from_fen(
        "rnbqkbnr/pppp1Bpp/8/4pp2/4P3/8/PPPP1PPP/RNBQK1NR b KQkq - 0 1",
    )
    .unwrap();
    assert_eq!(is_check(&board1), true);

    let board2 = ChessBoard::initialize();
    assert_eq!(is_check(&board2), false);

    let board3 = ChessBoard::initialize_from_fen(
        "rnbqkb1r/pppppppp/8/8/8/5nP1/PPPPPP2/RNBQKBNR w KQkq - 0 1",
    )
    .unwrap();
    assert_eq!(is_check(&board3), true);
}
