use twentysixtyfour::algorithm::{
    best_direction, max_free_space, max_free_space_3dir, naive_lookahead, random, random_3dir,
    score_free_space, score_free_space_sortedness, EvaluationNode, ScoreFunction,
};
use twentysixtyfour::gameplay::{Board, GamePlayer, MoveDir};

fn stuck_board() -> Board {
    Board { values: [2, 8, 16, 32, 256, 16, 2, 16, 4, 8, 4, 8, 2, 4, 2, 4], score: 0 }
}

fn top_row_board() -> Board {
    // Only Down is valid.
    Board { values: [2, 4, 8, 16, 0, 0, 0, 0, 0, 0, 0, 0, 0, 0, 0, 0], score: 0 }
}

#[test]
fn free_space_counts_empty_cells() {
    assert_eq!(score_free_space(&Board::init()), 15);
    assert_eq!(score_free_space(&Board::blank()), 16);
    assert_eq!(score_free_space(&stuck_board()), 0);
}

#[test]
fn sortedness_score_exact_values() {
    // 15 empty cells, 12 ordered pairs along each axis.
    assert_eq!(score_free_space_sortedness(&Board::init()), 20 * 15 + 20 * 24);
    let ascending = Board { values: [0, 1, 2, 3, 4, 5, 6, 7, 8, 9, 10, 11, 12, 13, 14, 15], score: 7 };
    assert_eq!(score_free_space_sortedness(&ascending), 20 * 1 + 20 * 24 + 7);
    let mixed = Board { values: [2, 8, 16, 32, 256, 16, 2, 16, 4, 8, 4, 8, 2, 4, 2, 4], score: 0 };
    // Vertical: 9 pairs non-increasing, 3 non-decreasing; horizontal: 4 and 8.
    assert_eq!(score_free_space_sortedness(&mixed), 20 * (9 + 8));
}

#[test]
fn random_picks_a_valid_move() {
    let mut player = GamePlayer::from_seed(9);
    for _ in 0..20 {
        let d = random(&mut player, &Board::init());
        assert!(d == MoveDir::Right || d == MoveDir::Down);
        assert_eq!(random(&mut player, &top_row_board()), MoveDir::Down);
    }
    assert_eq!(random(&mut player, &stuck_board()), MoveDir::Down);
}

#[test]
fn random_3dir_forces_down() {
    let mut player = GamePlayer::from_seed(9);
    assert_eq!(random_3dir(&mut player, &top_row_board()), MoveDir::Down);
    // Down is forced even where it is itself invalid.
    assert_eq!(random_3dir(&mut player, &stuck_board()), MoveDir::Down);
    for _ in 0..20 {
        assert_eq!(random_3dir(&mut player, &Board::init()), MoveDir::Right);
    }
}

#[test]
fn max_free_space_prefers_merges_and_earliest_tie() {
    let mut player = GamePlayer::from_seed(2);
    // Left and Right both merge two pairs; Left comes first.
    let b = Board { values: [2, 2, 4, 4, 0, 0, 0, 0, 0, 0, 0, 0, 0, 0, 0, 0], score: 0 };
    assert_eq!(max_free_space(&mut player, &b), MoveDir::Left);
    assert_eq!(max_free_space_3dir(&mut player, &b), MoveDir::Left);
    // Only a column merge frees a cell.
    let c = Board { values: [2, 0, 0, 0, 2, 0, 0, 0, 0, 0, 0, 0, 0, 0, 0, 0], score: 0 };
    assert_eq!(max_free_space(&mut player, &c), MoveDir::Up);
}

#[test]
fn max_free_space_falls_back_to_down() {
    let mut player = GamePlayer::from_seed(2);
    assert_eq!(max_free_space(&mut player, &stuck_board()), MoveDir::Down);
    assert_eq!(max_free_space_3dir(&mut player, &stuck_board()), MoveDir::Down);
    assert_eq!(max_free_space_3dir(&mut player, &top_row_board()), MoveDir::Down);
    assert_eq!(max_free_space(&mut player, &top_row_board()), MoveDir::Down);
}

#[test]
fn lookahead_depth_zero_returns_down() {
    let mut player = GamePlayer::from_seed(4);
    assert_eq!(naive_lookahead(&mut player, &Board::init(), 0, ScoreFunction::FreeSpace), MoveDir::Down);
    assert_eq!(
        naive_lookahead(&mut player, &Board::init(), -3, ScoreFunction::FreeSpaceWithSortedness),
        MoveDir::Down
    );
    assert_eq!(naive_lookahead(&mut player, &stuck_board(), 3, ScoreFunction::FreeSpace), MoveDir::Down);
}

#[test]
fn lookahead_returns_a_valid_first_move() {
    let mut player = GamePlayer::from_seed(4);
    for depth in 1..4 {
        for f in [ScoreFunction::FreeSpace, ScoreFunction::FreeSpaceWithSortedness] {
            let d = naive_lookahead(&mut player, &Board::init(), depth, f);
            assert!(d == MoveDir::Right || d == MoveDir::Down);
            assert_eq!(naive_lookahead(&mut player, &top_row_board(), depth, f), MoveDir::Down);
        }
    }
}

#[test]
fn best_direction_takes_first_maximum() {
    let node = |dir, rank| EvaluationNode { dir: Some(dir), board: Board::blank(), rank };
    let nodes = vec![
        node(MoveDir::Up, 3),
        node(MoveDir::Left, 5),
        node(MoveDir::Right, 5),
        node(MoveDir::Down, 1),
    ];
    assert_eq!(best_direction(&nodes), Some(MoveDir::Left));
    assert_eq!(best_direction(&Vec::new()), None);
}

fn quarter_turn(b: &Board) -> Board {
    let mut values = [0i32; 16];
    for i in 0..16 {
        values[i] = b.values[(3 - i % 4) * 4 + i / 4];
    }
    Board { values, score: b.score }
}

#[test]
fn sortedness_ignores_orientation() {
    let boards = [
        Board { values: [2, 8, 16, 32, 256, 16, 2, 16, 4, 8, 4, 8, 2, 4, 2, 4], score: 3 },
        Board { values: [0, 1, 2, 3, 4, 5, 6, 7, 8, 9, 10, 11, 12, 13, 14, 15], score: 0 },
        Board { values: [128, 2, 2, 8, 256, 8, 16, 8, 256, 8, 0, 0, 64, 32, 0, 0], score: 40 },
    ];
    for b in boards.iter() {
        let mut turned = *b;
        for _ in 0..4 {
            turned = quarter_turn(&turned);
            assert_eq!(score_free_space_sortedness(&turned), score_free_space_sortedness(b));
        }
        assert_eq!(turned.values, b.values);
    }
}
