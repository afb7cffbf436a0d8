use twentysixtyfour::gameplay::{
    count_blanks, play_inplace, reduce_row, reduce_row_inplace, spawn_tile, Board, GamePlayer, MoveDir,
};

const DIRS: [MoveDir; 4] = [MoveDir::Up, MoveDir::Down, MoveDir::Left, MoveDir::Right];

#[test]
fn board_row_access() {
    let b = Board { values: [0, 1, 2, 3, 4, 5, 6, 7, 8, 9, 10, 11, 12, 13, 14, 15], ..Board::default() };
    assert_eq!(b.row(0, false), [0, 1, 2, 3]);
    assert_eq!(b.row(2, false), [8, 9, 10, 11]);
    // Reversed
    assert_eq!(b.row(0, true), [3, 2, 1, 0]);
    assert_eq!(b.row(2, true), [11, 10, 9, 8]);
}

#[test]
fn board_col_access() {
    let b = Board {
        values: [0, 1, 2, 3, 4, 5, 6, 7, 8, 9, 10, 11, 12, 13, 14, 15],
        ..Board::default()
    };
    assert_eq!(b.col(2, false), [2, 6, 10, 14]);
    assert_eq!(b.col(3, false), [3, 7, 11, 15]);
    // reversed
    assert_eq!(b.col(2, true), [14, 10, 6, 2]);
    assert_eq!(b.col(3, true), [15, 11, 7, 3]);
}

#[test]
fn test_reduce_row() {
    assert_eq!(reduce_row([0, 0, 0, 0]), ([0, 0, 0, 0], 0));
    assert_eq!(reduce_row([0, 2, 2, 0]), ([0, 0, 0, 4], 4));
    assert_eq!(reduce_row([0, 2, 2, 4]), ([0, 0, 4, 4], 4));
    assert_eq!(reduce_row([2, 2, 2, 2]), ([0, 0, 4, 4], 8));
    assert_eq!(reduce_row([2, 4, 8, 16]), ([2, 4, 8, 16], 0));
    assert_eq!(reduce_row([16, 16, 4, 4]), ([0, 0, 32, 8], 40));
    assert_eq!(reduce_row([16, 16, 0, 0]), ([0, 0, 0, 32], 32));
}

// Ensure that the boards are equal, except that exactly one 0 in b1 has
// been changed to a 2 or a 4 in b2
fn board_compare(b1: Board, b2: Board) {
    let mut change_count = 0;
    for i in 0..16 {
        if b1.values[i] == b2.values[i] {
            continue;
        }
        if b1.values[i] == 0 && change_count == 0 {
            if b2.values[i] == 2 || b2.values[i] == 4 {
                // This is our only allowed change
                change_count = 1;
                continue;
            }
        }
        panic!("Bad match at {}\nb1: {:?}\n b2: {:?}", i, b1.values, b2.values);
    }
    if change_count == 0 {
        panic!("Did not find any zero changes\nb1: {:?}\n b2: {:?}", b1.values, b2.values)
    }
}

#[test]
fn test_play() {
    let b = Board { values: [0, 8, 0, 2, 4, 8, 2, 2, 4, 8, 0, 0, 8, 8, 0, 0], ..Board::default() };
    let bdown_expected = Board {
        values: [0, 0, 0, 0, 0, 0, 0, 0, 8, 16, 0, 0, 8, 16, 2, 4],
        ..Board::default()
    };
    let mut player = GamePlayer::from_seed(7);
    let bdown = player.play(&b, MoveDir::Down);
    match bdown {
        Ok(bdown) => board_compare(bdown_expected, bdown),
        Err(error) => panic!("Error making move: {}", error),
    }

    // Play returns error on invalid move
    let b = Board { values: [0, 2, 4, 8, 0, 2, 4, 8, 0, 2, 4, 8, 0, 2, 4, 8], ..Board::default() };
    let bbad = player.play(&b, MoveDir::Right);
    assert!(bbad.is_err(), "Right should be an invalid move");
}

#[test]
fn test_stuck() {
    let b = Board { values: [0, 8, 0, 2, 4, 8, 2, 2, 4, 8, 0, 0, 8, 8, 0, 0], ..Board::default() };
    assert_eq!(b.stuck(), false);

    let b = Board {
        values: [2, 8, 16, 32, 256, 16, 2, 16, 4, 8, 4, 8, 2, 4, 2, 4],
        ..Board::default()
    };
    assert_eq!(b.stuck(), true);
}

/// Boards with tiles drawn from a small deterministic sequence.
fn sample_boards() -> Vec<Board> {
    let mut boards = vec![
        Board::init(),
        Board::blank(),
        Board { values: [0, 8, 0, 2, 4, 8, 2, 2, 4, 8, 0, 0, 8, 8, 0, 0], score: 0 },
        Board { values: [2, 8, 16, 32, 256, 16, 2, 16, 4, 8, 4, 8, 2, 4, 2, 4], score: 0 },
        Board { values: [0, 0, 0, 2, 0, 0, 0, 0, 0, 0, 0, 0, 0, 0, 0, 0], score: 0 },
        Board { values: [2, 4, 8, 16, 0, 0, 0, 0, 0, 0, 0, 0, 0, 0, 0, 0], score: 0 },
        Board { values: [2, 2, 4, 4, 0, 0, 0, 0, 0, 0, 0, 0, 0, 0, 0, 0], score: 0 },
    ];
    let mut state: u64 = 12345;
    for _ in 0..200 {
        let mut values = [0i32; 16];
        for v in values.iter_mut() {
            state = state.wrapping_mul(6364136223846793005).wrapping_add(1442695040888963407);
            let choice = (state >> 33) % 5;
            *v = if choice == 0 { 0 } else { 1 << choice };
        }
        boards.push(Board { values, score: 0 });
    }
    boards
}

#[test]
fn valid_move_agrees_with_play() {
    let mut player = GamePlayer::from_seed(1);
    for b in sample_boards() {
        for dir in DIRS {
            let valid = b.is_valid_move(dir);
            let outcome = player.play(&b, dir);
            assert_eq!(valid, outcome.is_ok(), "board {:?} dir {:?}", b.values, dir);
        }
    }
}

#[test]
fn equal_empty_cells_do_not_make_a_move_valid() {
    // Row 0 is [0, 0, 0, 2]: the tile already sits at the right edge.
    let b = Board { values: [0, 0, 0, 2, 0, 0, 0, 0, 0, 0, 0, 0, 0, 0, 0, 0], score: 0 };
    assert!(!b.is_valid_move(MoveDir::Right));
    assert!(!b.is_valid_move(MoveDir::Up));
    assert!(b.is_valid_move(MoveDir::Left));
    assert!(b.is_valid_move(MoveDir::Down));
}

#[test]
fn reducing_a_reduced_row_changes_nothing() {
    for row in [[0, 2, 2, 0], [2, 2, 2, 2], [16, 16, 4, 4], [2, 4, 8, 16], [4, 0, 0, 2]] {
        let (once, _) = reduce_row(row);
        let has_pair = (0..3).any(|j| once[j] != 0 && once[j] == once[j + 1]);
        if !has_pair {
            assert_eq!(reduce_row(once), (once, 0));
        }
    }
    // A first reduction may leave equal neighbours, which merge next time.
    let (once, _) = reduce_row([0, 2, 2, 4]);
    assert_eq!(once, [0, 0, 4, 4]);
    assert_eq!(reduce_row(once), ([0, 0, 0, 8], 8));
}

#[test]
fn score_rises_by_merged_tiles() {
    let mut player = GamePlayer::from_seed(3);
    let b = Board { values: [0, 8, 0, 2, 4, 8, 2, 2, 4, 8, 0, 0, 8, 8, 0, 0], score: 5 };
    let after = player.play(&b, MoveDir::Down).unwrap();
    // Merges create 8, 16, 16 and 4.
    assert_eq!(after.score, 5 + 44);
    // A move that only slides tiles earns nothing.
    let b = Board { values: [2, 0, 0, 0, 0, 4, 0, 0, 0, 0, 0, 0, 0, 0, 0, 0], score: 12 };
    let after = player.play(&b, MoveDir::Right).unwrap();
    assert_eq!(after.score, 12);
}

#[test]
fn stuck_needs_a_full_board_without_moves() {
    let full_with_merge = Board {
        values: [2, 2, 16, 32, 256, 16, 2, 16, 4, 8, 4, 8, 2, 4, 2, 4],
        score: 0,
    };
    assert!(!full_with_merge.stuck());
    let with_gap = Board { values: [2, 8, 16, 32, 256, 16, 2, 16, 4, 8, 4, 8, 2, 4, 2, 0], score: 0 };
    assert!(!with_gap.stuck());
    for b in sample_boards() {
        let no_zero = b.values.iter().all(|v| *v != 0);
        let no_move = DIRS.iter().all(|d| !b.is_valid_move(*d));
        assert_eq!(b.stuck(), no_zero && no_move);
    }
}

#[test]
fn play_inplace_spawns_into_an_empty_cell() {
    let mut rng_player = GamePlayer::from_seed(11);
    let mut b = Board::init();
    let r = play_inplace(&mut b, MoveDir::Right, &mut rng_player.rng);
    assert_eq!(r, Ok(true));
    assert_eq!(b.values[3], 2);
    let tiles: Vec<i32> = b.values.iter().copied().filter(|v| *v != 0).collect();
    assert_eq!(tiles.len(), 2);
    let mut before = Board::init();
    before.values = [0, 0, 0, 2, 0, 0, 0, 0, 0, 0, 0, 0, 0, 0, 0, 0];
    board_compare(before, b);
}

#[test]
fn invalid_move_leaves_board_untouched() {
    let mut player = GamePlayer::from_seed(5);
    let mut b = Board { values: [0, 0, 0, 2, 0, 0, 0, 0, 0, 0, 0, 0, 0, 0, 0, 0], score: 9 };
    let r = player.play_inplace(&mut b, MoveDir::Right);
    assert!(r.is_err());
    assert_eq!(b.values, [0, 0, 0, 2, 0, 0, 0, 0, 0, 0, 0, 0, 0, 0, 0, 0]);
    assert_eq!(b.score, 9);
}

#[test]
fn same_seed_same_game() {
    let mut first = GamePlayer::from_seed(42);
    let mut second = GamePlayer::from_seed(42);
    let mut b1 = Board::init();
    let mut b2 = Board::init();
    for i in 0..30 {
        let dir = DIRS[i % 4];
        let r1 = first.play_inplace(&mut b1, dir);
        let r2 = second.play_inplace(&mut b2, dir);
        assert_eq!(r1.is_ok(), r2.is_ok());
        assert_eq!(b1.values, b2.values);
    }
}

#[test]
fn directional_rows_follow_the_move_frame() {
    let b = Board { values: [0, 1, 2, 3, 4, 5, 6, 7, 8, 9, 10, 11, 12, 13, 14, 15], score: 0 };
    assert_eq!(b.directional_row(1, MoveDir::Up), [13, 9, 5, 1]);
    assert_eq!(b.directional_row(1, MoveDir::Down), [1, 5, 9, 13]);
    assert_eq!(b.directional_row(2, MoveDir::Left), [11, 10, 9, 8]);
    assert_eq!(b.directional_row(2, MoveDir::Right), [8, 9, 10, 11]);
}

#[test]
fn set_row_and_col_write_back() {
    let mut b = Board::blank();
    b.set_row(1, [1, 2, 3, 4], true);
    assert_eq!(b.values[4..8], [4, 3, 2, 1]);
    b.set_col(3, [5, 6, 7, 8], false);
    assert_eq!([b.values[3], b.values[7], b.values[11], b.values[15]], [5, 6, 7, 8]);
    assert_eq!(b.values[4..7], [4, 3, 2]);
}

#[test]
fn views_reduce_a_line_in_place() {
    let mut b = Board { values: [2, 2, 0, 4, 0, 0, 0, 0, 0, 0, 0, 0, 0, 0, 0, 0], score: 0 };
    let gain = {
        let mut view = b.directional_view(MoveDir::Left);
        let mut line = view.line_view(0);
        assert_eq!(*line.cell(0, 0), 4);
        assert_eq!(*line.cell(0, 3), 2);
        reduce_row_inplace(&mut line)
    };
    assert_eq!(gain, 4);
    assert_eq!(b.values[0..4], [4, 4, 0, 0]);
    {
        let mut view = b.directional_view(MoveDir::Down);
        *view.cell(0, 3) = 8;
    }
    assert_eq!(b.values[12], 8);
    {
        let mut view = b.directional_view(MoveDir::Up);
        let mut line = view.line_view(1);
        *line.cell_mut(1, 3) = 16;
    }
    assert_eq!(b.values[1], 16);
}

#[test]
fn starting_boards() {
    let b = Board::init();
    assert_eq!(b.values[0], 2);
    assert!(b.values[1..].iter().all(|v| *v == 0));
    assert_eq!(b.score, 0);
    let e = Board::blank();
    assert!(e.values.iter().all(|v| *v == 0));
    assert_eq!(e.score, 0);
    assert!(b.has_room());
    let crowded = Board { values: [2, 0, 0, 0, 0, 0, 0, 0, 0, 0, 0, 0, 0, 0, 0, 0], score: i32::MAX - 1 };
    assert!(!crowded.has_room());
}

#[test]
fn spawn_never_lands_on_a_tile() {
    // After Left the corner cell holds the slid tile; the spawn must go elsewhere.
    for seed in 0..50 {
        let mut player = GamePlayer::from_seed(seed);
        let b = Board { values: [0, 2, 0, 0, 0, 0, 0, 0, 0, 0, 0, 0, 0, 0, 0, 0], score: 0 };
        let after = player.play(&b, MoveDir::Left).unwrap();
        let mut moved = Board::blank();
        moved.values[0] = 2;
        board_compare(moved, after);
    }
}

#[test]
fn spawns_are_mostly_twos() {
    let mut player = GamePlayer::from_seed(99);
    let mut twos = 0;
    let mut fours = 0;
    for _ in 0..200 {
        let after = player.play(&Board::init(), MoveDir::Right).unwrap();
        for (i, v) in after.values.iter().enumerate() {
            if i != 3 && *v == 2 {
                twos += 1;
            }
            if i != 3 && *v == 4 {
                fours += 1;
            }
        }
    }
    assert_eq!(twos + fours, 200);
    assert!(twos > 2 * fours);
    assert!(fours > 0);
}

#[test]
fn cells_stay_powers_of_two() {
    let mut player = GamePlayer::from_seed(17);
    let mut b = Board::init();
    for i in 0..400 {
        let _ = player.play_inplace(&mut b, DIRS[(i * 7 + i / 3) % 4]);
        for v in b.values.iter() {
            assert!(*v == 0 || (*v >= 2 && (*v & (*v - 1)) == 0), "cell {}", v);
        }
    }
    assert!(b.score > 0);
}

#[test]
fn spawn_tile_follows_the_draws() {
    let base = Board { values: [2, 0, 4, 0, 0, 8, 0, 0, 0, 0, 0, 0, 0, 0, 0, 2], score: 6 };
    assert_eq!(count_blanks(&base.values), 12);
    // Empty cells in row-major order: 1, 3, 4, 6, 7, ...
    let mut b = base;
    assert_eq!(spawn_tile(&mut b, 0, 0), 1);
    assert_eq!(b.values[1], 2);
    let mut b = base;
    assert_eq!(spawn_tile(&mut b, 2, 9), 4);
    assert_eq!(b.values[4], 4);
    assert_eq!(b.score, 6);
    let mut b = base;
    assert_eq!(spawn_tile(&mut b, 11, 8), 14);
    assert_eq!(b.values[14], 2);
    let changed = b.values.iter().zip(base.values.iter()).filter(|(x, y)| x != y).count();
    assert_eq!(changed, 1);
}

#[test]
fn invalid_move_reports_and_draws_nothing() {
    let b = Board { values: [0, 2, 4, 8, 0, 2, 4, 8, 0, 2, 4, 8, 0, 2, 4, 8], score: 0 };
    let mut used = GamePlayer::from_seed(31);
    let mut fresh = GamePlayer::from_seed(31);
    assert_eq!(used.play(&b, MoveDir::Right).unwrap_err(), "Invalid move");
    // The failed move drew nothing: both players now spawn alike.
    let x = used.play(&Board::init(), MoveDir::Right).unwrap();
    let y = fresh.play(&Board::init(), MoveDir::Right).unwrap();
    assert_eq!(x.values, y.values);
}
