use yonmoku::bitboard::BitBoard;
use yonmoku::bits::count_ones;
use yonmoku::board::{Board, Piece, Player};
use yonmoku::lines::LineTable;
use yonmoku::{unpack_index, N};

#[test]
fn test_ab() {
    let table = LineTable::new();
    for _ in 0..10000 {
        let mut arrayboard = Board::new();
        let mut bitboard = BitBoard::new();
        loop {
            assert_eq!(arrayboard.is_full(), bitboard.is_full());

            if arrayboard.is_full() {
                break;
            }

            let index = (rand::random::<usize>()) % (N * N);
            let bt = bitboard.put(index);
            let at = arrayboard.put(index);

            assert_eq!(at.is_none(), bt.is_none());

            if at.is_none() {
                continue;
            }

            arrayboard = at.unwrap();
            bitboard = bt.unwrap();

            assert_eq!(arrayboard.check_index(), bitboard.check_index(&table));
            assert_eq!(arrayboard.win_index(), bitboard.win_index(&table));

            if arrayboard.win_index().is_some() {
                break;
            }
        }
    }
}

#[test]
fn same_cells_after_same_moves() {
    let moves = [0usize, 5, 5, 10, 3, 15, 15, 15, 7, 0, 0, 0];
    let mut a = Board::new();
    let mut b = BitBoard::new();
    for &m in moves.iter() {
        a = a.put(m).unwrap();
        b = b.put(m).unwrap();
        for x in 0..64 {
            assert_eq!(a.cell(x), b.cell(x));
        }
        assert_eq!(a.next_player(), b.next_player());
    }
}

#[test]
fn stacking_fills_a_column_from_the_bottom() {
    let mut board = BitBoard::new();
    for k in 0..4 {
        assert_eq!(board.find_index(6), Some(k * 16 + 6));
        board = board.put(6).unwrap();
        assert_ne!(board.cell(k * 16 + 6), Piece::Empty);
        for h in (k + 1)..4 {
            assert_eq!(board.cell(h * 16 + 6), Piece::Empty);
        }
    }
    assert_eq!(board.find_index(6), None);
    assert!(board.put(6).is_none());
    assert_eq!(board.cell(6), Piece::Black);
    assert_eq!(board.cell(16 + 6), Piece::White);
}

#[test]
fn array_board_column_heights() {
    let mut board = Board::new();
    assert_eq!(board.find_index(9), Some(0));
    board = board.put(9).unwrap();
    assert_eq!(board.find_index(9), Some(1));
    board = board.put(9).unwrap().put(9).unwrap().put(9).unwrap();
    assert_eq!(board.find_index(9), None);
    assert!(board.put(9).is_none());
}

#[test]
fn turns_alternate() {
    let mut board = BitBoard::new();
    let mut expected = Player::Black;
    for m in [0usize, 1, 2, 0, 15, 15] {
        assert_eq!(board.next_player(), expected);
        board = board.put(m).unwrap();
        expected = expected.next_player();
    }
    assert_eq!(board.next_player(), Player::Black);
    assert_eq!(Player::White.next_player(), Player::Black);
    assert_eq!(Player::Black.to_piece(), Piece::Black);
}

#[test]
fn fifth_drop_into_a_column_is_refused_and_bottom_row_wins() {
    let table = LineTable::new();
    let mut board = BitBoard::new();
    for _ in 0..4 {
        board = board.put(0).unwrap();
    }
    assert!(board.put(0).is_none());

    let mut board = BitBoard::new();
    for m in [0usize, 1, 4, 2, 8, 5] {
        board = board.put(m).unwrap();
    }
    assert_eq!(board.win_index(&table), Some(12));
    assert_eq!(unpack_index(12), (3, 0));
    let board = board.put(12).unwrap();
    for x in [0usize, 4, 8, 12] {
        assert_eq!(board.cell(x), Piece::Black);
    }
    assert_eq!(board.check_index(&table), None);
}

#[test]
fn full_board_is_full() {
    let mut board = BitBoard::new();
    let mut array = Board::new();
    assert!(!board.is_full());
    for k in 0..4 {
        for c in 0..16 {
            let c = if k % 2 == 0 { c } else { (c + 4) % 16 };
            board = board.put(c).unwrap();
            array = array.put(c).unwrap();
        }
    }
    assert!(board.is_full());
    assert!(array.is_full());
    for c in 0..16 {
        assert!(board.put(c).is_none());
    }
}

#[test]
fn space_diagonal_and_vertical_wins() {
    let table = LineTable::new();
    let mut board = Board::new();
    board.set_piece(0, 0, Piece::White);
    board.set_piece(5, 0, Piece::White);
    board.set_piece(5, 1, Piece::Black);
    board.set_piece(10, 0, Piece::White);
    board.set_piece(10, 1, Piece::White);
    board.set_piece(10, 2, Piece::Black);
    board.set_piece(15, 0, Piece::Black);
    board.set_piece(15, 1, Piece::White);
    board.set_piece(15, 2, Piece::White);
    // Black to move; (0,0,0) is White, so the long diagonal is not Black's.
    assert_eq!(board.win_index(), None);

    // A vertical three: the fourth on top wins.
    let mut bit = BitBoard::new();
    for m in [7usize, 8, 7, 8, 7, 9] {
        bit = bit.put(m).unwrap();
    }
    assert_eq!(bit.win_index(&table), Some(7));
    assert_eq!(bit.check_index(&table), None);
}

#[test]
fn scores_of_first_moves() {
    let table = LineTable::new();
    let board = BitBoard::new();
    // A corner of the bottom layer lies on six lines, all empty.
    let (_, s) = board.put_with_simple_policy(&table, 0).unwrap();
    assert_eq!(s, 6);
    let (_, s) = board.put_with_count_policy(&table, 0).unwrap();
    assert_eq!(s, 6);
    // Next to a black corner, White's cell (0,1,0) lies on three lines; the
    // row holds Black's piece, which makes it worth 2.
    let board = board.put(0).unwrap();
    let (_, s) = board.put_with_simple_policy(&table, 1).unwrap();
    assert_eq!(s, 4);
    let (_, s) = board.put_with_count_policy(&table, 1).unwrap();
    assert_eq!(s, 4);
}

#[test]
fn count_policy_sees_threats_and_traps() {
    let table = LineTable::new();
    // Black holds (0,0,0) and (0,1,0); playing (0,2,0) makes a three whose
    // last cell (0,3,0) can be played at once.
    let mut board = BitBoard::new();
    for m in [0usize, 15, 1, 14] {
        board = board.put(m).unwrap();
    }
    let (_, simple) = board.put_with_simple_policy(&table, 2).unwrap();
    let (_, count) = board.put_with_count_policy(&table, 2).unwrap();
    // Lines through (0,2,0): the line along j holds two black pieces, and its
    // empty cell (0,3,0) is on the bottom layer, so it can be played at once
    // (1 for the counting scorer, 2 for the simple one); the line along i
    // holds White's (3,2,0) (2 for both); the diagonal (t,2,t) is empty (1
    // for both).
    assert_eq!(simple, 5);
    assert_eq!(count, 4);

    // A trap: White holds (0,0,1) and (0,1,1); their empty (0,3,1) stands
    // over an empty cell on the second layer, so that line is worth 5. The
    // two other lines through (0,2,1) are empty (1 each).
    let mut board = BitBoard::new();
    for m in [0usize, 0, 1, 1, 2, 15, 15, 14] {
        board = board.put(m).unwrap();
    }
    // Black to move; (0,2,1) lands above Black's (0,2,0).
    let (_, count) = board.put_with_count_policy(&table, 2).unwrap();
    let (_, simple) = board.put_with_simple_policy(&table, 2).unwrap();
    assert_eq!(simple, 4);
    assert_eq!(count, 7);
}

#[test]
fn count_ones_counts_bits() {
    assert_eq!(count_ones(0), 0);
    assert_eq!(count_ones(1), 1);
    assert_eq!(count_ones(0b1011_0000), 3);
    assert_eq!(count_ones(u64::MAX), 64);
}

#[test]
fn line_table_has_a_mask_per_line() {
    let table = LineTable::new();
    // Corner (0,0,0): six lines; top corner (0,0,3) adds the vertical one.
    assert_eq!(table.masks_of(0).len(), 6);
    assert_eq!(table.masks_of(48).len(), 7);
    // An inner cell of the bottom layer, (1,1,0): row, column, diagonal, and
    // nothing vertical or spatial.
    assert_eq!(table.masks_of(5).len(), 3);
    let mut total = 0;
    for x in 0..64 {
        total += table.masks_of(x).len();
        for &m in table.masks_of(x).iter() {
            assert_eq!(m.count_ones(), 3);
            assert_eq!(m & (1u64 << x), 0);
        }
    }
    // 76 lines: 60 non-vertical ones counted at each of their 4 cells, and
    // 16 vertical ones counted once, at the top.
    assert_eq!(total, 60 * 4 + 16);
}

#[test]
fn conversions_keep_the_position() {
    let table = LineTable::new();
    let mut b = BitBoard::new();
    for m in [3usize, 3, 7, 12, 0, 3, 9] {
        b = b.put(m).unwrap();
    }
    let a = b.to_board();
    for x in 0..64 {
        assert_eq!(a.cell(x), b.cell(x));
    }
    assert_eq!(a.next_player(), Player::White);
    assert_eq!(a.next_player(), b.next_player());
    let back = BitBoard::from_board(&a);
    for x in 0..64 {
        assert_eq!(back.cell(x), b.cell(x));
    }
    assert_eq!(back.next_player(), Player::White);
    assert_eq!(back.win_index(&table), b.win_index(&table));
    assert_eq!(back.check_index(&table), a.check_index());
}
