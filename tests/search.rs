use rand::rngs::StdRng;
use rand::SeedableRng;
use yonmoku::bitboard::BitBoard;
use yonmoku::board::Piece;
use yonmoku::lines::LineTable;
use yonmoku::simple_puct::{
    isqrt_exec, ln_fixed_exec, open_column_list, pick_column, playout_with, rollout_column, simulate,
    McResult,
    McTreeLeaf, McTreeRoot, Policy,
    WinRate,
};

fn play(moves: &[usize]) -> BitBoard {
    let mut board = BitBoard::new();
    for &m in moves {
        board = board.put(m).unwrap();
    }
    board
}

#[test]
fn forced_defense_is_played() {
    let table = LineTable::new();
    // White holds (0,0,0), (0,1,0), (0,2,0); Black must block column 3.
    let board = play(&[5, 0, 6, 1, 10, 2]);
    assert_eq!(board.win_index(&table), None);
    assert_eq!(board.check_index(&table), Some(3));

    let mut root = McTreeRoot::new(board, Policy::Count, &table);
    assert_eq!(root.select(&table, 50, 7), Some((3, None)));

    let mut leaf = McTreeLeaf::new(board, 0, Policy::Simple, &table);
    let mut rng = StdRng::seed_from_u64(1);
    let (trials, wins, losses) = leaf.expand(&table, &mut rng);
    assert_eq!(trials, 1);
    assert!(wins + losses <= 1);
    assert_eq!(leaf.leaf_count(), Some(1));
    assert_eq!(leaf.leaf_board(0).cell(3), Piece::Black);
}

#[test]
fn a_won_position_counts_one_win_and_grows_nothing() {
    let table = LineTable::new();
    // Black to move with (0,0,0), (1,0,0), (2,0,0) in hand.
    let board = play(&[0, 1, 4, 2, 8, 5]);
    let mut leaf = McTreeLeaf::new(board, 0, Policy::Count, &table);
    let mut rng = StdRng::seed_from_u64(3);
    assert_eq!(leaf.expand(&table, &mut rng), (1, 1, 0));
    assert_eq!(leaf.leaf_count(), None);
    assert_eq!(simulate(&board, &table, &mut rng), McResult::Win);
}

#[test]
fn expand_grows_one_child_per_open_column() {
    let table = LineTable::new();
    let mut board = BitBoard::new();
    for _ in 0..4 {
        board = board.put(0).unwrap();
    }
    let mut leaf = McTreeLeaf::new(board, 0, Policy::Simple, &table);
    let mut rng = StdRng::seed_from_u64(11);
    let (trials, wins, losses) = leaf.expand(&table, &mut rng);
    assert_eq!(trials, 15);
    assert!(wins + losses <= 15);
    assert_eq!(leaf.leaf_count(), Some(15));
    // The children follow the open columns 1..16 in order.
    assert_eq!(leaf.leaf_board(0).cell(1), Piece::Black);
    assert_eq!(leaf.leaf_board(14).cell(15), Piece::Black);
}

#[test]
fn select_counts_add_up() {
    let table = LineTable::new();
    let mut leaf = McTreeLeaf::new(BitBoard::new(), 0, Policy::Count, &table);
    let mut rng = StdRng::seed_from_u64(5);
    let mut total = 0;
    for _ in 0..60 {
        let (t, w, l) = leaf.select(&table, &mut rng);
        assert!(w + l <= t && t <= 16);
        total += t;
    }
    assert_eq!(leaf.win_rate().trials, total);
    // Past the threshold the node has grown its sixteen children.
    assert_eq!(leaf.leaf_count(), Some(16));
}

#[test]
fn search_is_repeatable_with_one_seed() {
    let table = LineTable::new();
    let board = play(&[5, 6]);
    let mut first = McTreeRoot::new(board, Policy::Count, &table);
    let mut second = McTreeRoot::new(board, Policy::Count, &table);
    let a = first.select(&table, 200, 2024);
    let b = second.select(&table, 200, 2024);
    assert!(a.is_some());
    assert_eq!(a, b);
    let (column, rate) = a.unwrap();
    assert!(column < 16);
    assert!(rate.unwrap().trials >= 200);
}

#[test]
fn full_board_has_no_move() {
    let table = LineTable::new();
    let mut board = BitBoard::new();
    for k in 0..4 {
        for c in 0..16 {
            board = board.put(if k % 2 == 0 { c } else { (c + 4) % 16 }).unwrap();
        }
    }
    assert!(board.is_full());
    let mut root = McTreeRoot::new(board, Policy::Simple, &table);
    assert_eq!(root.select(&table, 10, 1), None);
    let mut rng = StdRng::seed_from_u64(9);
    assert_eq!(simulate(&board, &table, &mut rng), McResult::Draw);
}

#[test]
fn isqrt_values() {
    assert_eq!(isqrt_exec(0), 0);
    assert_eq!(isqrt_exec(15), 3);
    assert_eq!(isqrt_exec(16), 4);
    assert_eq!(isqrt_exec(1u128 << 32), 65536);
    assert_eq!(isqrt_exec(u128::MAX), u64::MAX);
}

#[test]
fn select_rate_value() {
    let table = LineTable::new();
    // Black to move can win at once, so the single playout is a win.
    let board = BitBoard::new()
        .put(0).unwrap().put(1).unwrap().put(4).unwrap()
        .put(2).unwrap().put(8).unwrap().put(5).unwrap();
    let mut leaf = McTreeLeaf::new(board, 10, Policy::Count, &table);
    let mut rng = StdRng::seed_from_u64(0);
    assert_eq!(leaf.select(&table, &mut rng), (1, 1, 0));
    // (1 - 1) * 65536 + 10 * sqrt(4) * 65536 / (5 * 1)
    assert_eq!(leaf.select_rate(4), 262144);
    let mut simple = McTreeLeaf::new(board, 10, Policy::Simple, &table);
    simple.select(&table, &mut rng);
    assert_eq!(simple.select_rate(4), 131072);
}

#[test]
fn pick_column_takes_first_lowest_rate() {
    let r = |trials, wins, losses| Some(WinRate { trials, wins, losses });
    let results = vec![None, r(10, 6, 2), r(10, 2, 6), r(20, 4, 12), r(10, 5, 5)];
    assert_eq!(pick_column(&results), Some((2, WinRate { trials: 10, wins: 2, losses: 6 })));
    let none: Vec<Option<WinRate>> = vec![None, None];
    assert_eq!(pick_column(&none), None);
}

#[test]
fn fixed_point_logarithm() {
    assert_eq!(ln_fixed_exec(0), 0);
    assert_eq!(ln_fixed_exec(1), 0);
    assert_eq!(ln_fixed_exec(2), 45426);
    assert_eq!(ln_fixed_exec(8), 3 * 45426);
    // ln(1000) * 65536 is about 452707.
    let l = ln_fixed_exec(1000) as i64;
    assert!((l - 452707).abs() <= 8, "{}", l);
}

#[test]
fn ucb1_rate_and_search() {
    let table = LineTable::new();
    let board = BitBoard::new()
        .put(0).unwrap().put(1).unwrap().put(4).unwrap()
        .put(2).unwrap().put(8).unwrap().put(5).unwrap();
    let mut leaf = McTreeLeaf::new(board, 0, Policy::Ucb1, &table);
    let mut rng = StdRng::seed_from_u64(0);
    assert_eq!(leaf.select(&table, &mut rng), (1, 1, 0));
    // 0 + isqrt(196 * 65536 * ln_fixed(4) / 100), with ln_fixed(4) = 90852.
    assert_eq!(leaf.select_rate(4), 108027);

    let start = play(&[5, 6]);
    let mut a = McTreeRoot::new(start, Policy::Ucb1, &table);
    let mut b = McTreeRoot::new(start, Policy::Ucb1, &table);
    let ra = a.select(&table, 100, 77);
    assert!(ra.is_some());
    assert_eq!(ra, b.select(&table, 100, 77));
}

#[test]
fn rollout_answers_checks_and_otherwise_follows_the_draw() {
    let table = LineTable::new();
    let threatened = play(&[5, 0, 6, 1, 10, 2]);
    for draw in [0usize, 1, 7, 1000] {
        assert_eq!(rollout_column(&threatened, &table, draw), 3);
    }
    let mut board = BitBoard::new();
    for _ in 0..4 {
        board = board.put(0).unwrap();
    }
    let open = open_column_list(&board);
    assert_eq!(open, (1..16).collect::<Vec<usize>>());
    assert_eq!(rollout_column(&board, &table, 0), 1);
    assert_eq!(rollout_column(&board, &table, 14), 15);
    assert_eq!(rollout_column(&board, &table, 15), 1);
}

fn full_board() -> BitBoard {
    let mut board = BitBoard::new();
    for k in 0..4 {
        for c in 0..16 {
            board = board.put(if k % 2 == 0 { c } else { (c + 4) % 16 }).unwrap();
        }
    }
    board
}

#[test]
fn expanding_a_full_board_counts_a_draw() {
    let table = LineTable::new();
    let board = full_board();
    let mut leaf = McTreeLeaf::new(board, 0, Policy::Count, &table);
    let mut rng = StdRng::seed_from_u64(4);
    assert_eq!(leaf.expand(&table, &mut rng), (1, 0, 0));
    assert_eq!(leaf.leaf_count(), Some(0));
    assert_eq!(leaf.select(&table, &mut rng), (1, 0, 0));
    assert_eq!(leaf.win_rate(), WinRate { trials: 2, wins: 0, losses: 0 });
}

#[test]
fn playout_follows_its_draws() {
    let table = LineTable::new();
    let draws: Vec<usize> = (0..64).map(|i| (i * 7919) % 720720).collect();
    let start = play(&[5, 6]);
    // Replay the same plies by hand.
    let me = start.next_player();
    let mut board = start;
    let mut i = 0;
    let expected = loop {
        if board.is_full() {
            break McResult::Draw;
        }
        if board.win_index(&table).is_some() {
            break if board.next_player() == me { McResult::Win } else { McResult::Lose };
        }
        let c = rollout_column(&board, &table, draws[i]);
        board = board.put(c).unwrap();
        i += 1;
    };
    assert_eq!(playout_with(&start, &table, &draws), expected);
    assert_eq!(playout_with(&full_board(), &table, &draws), McResult::Draw);
    let won = play(&[0, 1, 4, 2, 8, 5]);
    assert_eq!(playout_with(&won, &table, &draws), McResult::Win);
}

#[test]
fn root_select_picks_from_column_results() {
    let table = LineTable::new();
    let mut board = play(&[5, 6]);
    for _ in 0..4 {
        board = board.put(0).unwrap();
    }
    let mut root = McTreeRoot::new(board, Policy::Simple, &table);
    let results = root.search_columns(&table, 60, 99);
    assert_eq!(results.len(), 16);
    assert!(results[0].is_none());
    for r in results.iter().skip(1) {
        let w = r.unwrap();
        assert!(w.trials >= 60 && w.wins + w.losses <= w.trials);
    }
    let chosen = root.select(&table, 60, 99).unwrap();
    let (column, rate) = pick_column(&results).unwrap();
    assert_eq!(chosen, (column, Some(rate)));
}
