use yonmoku::board::{Board, Piece};
use yonmoku::N;

#[test]
fn test_win() {
    let mut board = Board::new();
    assert_eq!(board.win_index().is_some(), false);
    for k in 0..N * N {
        board = Board::new();
        for i in 0..N - 1 {
            board.set_piece(k, i, Piece::Black);
        }
        assert_eq!(board.win_index(), Some(k));
    }
    board = Board::new();
    board.set_piece(0, 0, Piece::Black);
    board.set_piece(5, 0, Piece::White);
    board.set_piece(10, 0, Piece::White);
    board.set_piece(10, 1, Piece::White);
    board.set_piece(10, 2, Piece::Black);
    board.set_piece(15, 0, Piece::White);
    board.set_piece(15, 1, Piece::White);
    board.set_piece(15, 2, Piece::White);
    board.set_piece(15, 3, Piece::Black);
    assert_eq!(board.win_index(), Some(5));

    board = Board::new();
    board.set_piece(3, 0, Piece::Black);
    board.set_piece(6, 0, Piece::White);
    board.set_piece(9, 0, Piece::White);
    board.set_piece(9, 1, Piece::White);
    board.set_piece(9, 2, Piece::Black);
    board.set_piece(12, 0, Piece::White);
    board.set_piece(12, 1, Piece::White);
    board.set_piece(12, 2, Piece::White);
    board.set_piece(12, 3, Piece::Black);
    assert_eq!(board.win_index(), Some(6));
}
