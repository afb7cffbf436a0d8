//! The Monte Carlo harness: plays games with a strategy and summarises them.
use vstd::prelude::*;
use crate::gameplay::{
    can_move, is_stuck, lemma_gain_nonneg, lemma_transition_well_formed, lemma_valid_iff_changes,
    moved, transition, Board, GamePlayer, MoveDir,
};
use crate::rules::{ints, is_tile_value};

verus! {

/// The outcome of one game.
#[derive(Copy, Clone, Debug)]
pub struct SingleRunResult {
    /// Moves attempted, valid or not.
    pub moves: i32,
    /// Final score.
    pub score: i32,
    /// Largest tile on the final board.
    pub largest: i32,
}

/// Consecutive invalid moves after which a game is abandoned.
pub const MAX_INVALID: i32 = 20;

/// The largest cell of the board.
fn largest_tile(board: &Board) -> (r: i32)
    ensures
        forall|i: int| 0 <= i < 16 ==> #[trigger] board.values[i] <= r,
        exists|i: int| 0 <= i < 16 && board.values[i] == r,
{
    let mut best: i32 = board.values[0];
    let mut i: usize = 1;
    while i < 16
        invariant
            1 <= i <= 16,
            forall|k: int| 0 <= k < i ==> #[trigger] board.values[k] <= best,
            exists|k: int| 0 <= k < i && board.values[k] == best,
        decreases 16 - i,
    {
        if board.values[i] > best {
            best = board.values[i];
        }
        i += 1;
    }
    best
}

/// `b` is the board `Board::init` returns: a 2 in the top-left corner, no
/// score.
pub open spec fn is_start(b: Board) -> bool {
    &&& b.score == 0
    &&& b.values[0] == 2
    &&& forall|i: int| 1 <= i < 16 ==> #[trigger] b.values[i] == 0
}

/// `x` is the largest cell of `b`.
pub open spec fn is_largest(b: Board, x: int) -> bool {
    &&& forall|i: int| 0 <= i < 16 ==> #[trigger] b.values[i] <= x
    &&& exists|i: int| 0 <= i < 16 && b.values[i] == x
}

/// `algo` may answer `d` when asked about `b`.
pub open spec fn may_answer<F: Fn(&mut GamePlayer, &Board) -> MoveDir>(
    algo: F,
    b: Board,
    d: MoveDir,
) -> bool {
    exists|p: &mut GamePlayer, q: &Board| *q == b && #[trigger] call_ensures(algo, (p, q), d)
}

/// One attempt of the harness: a valid move makes a transition, an invalid
/// one leaves the board as it was.
pub open spec fn attempt(before: Board, d: MoveDir, after: Board) -> bool {
    if can_move(before.values@, d) {
        transition(before, d, after)
    } else {
        after == before
    }
}

/// Attempt `j` of the game was invalid.
pub open spec fn invalid_at(boards: Seq<Board>, dirs: Seq<MoveDir>, j: int) -> bool {
    !can_move(boards[j].values@, dirs[j])
}

/// The last `k` of the first `n` attempts were all invalid.
pub open spec fn invalid_tail(boards: Seq<Board>, dirs: Seq<MoveDir>, n: int, k: int) -> bool {
    &&& k <= n
    &&& forall|j: int| n - k <= j < n ==> #[trigger] invalid_at(boards, dirs, j)
}

/// The game went on past attempt `i`: the board was neither stuck nor too
/// full, and fewer than `MAX_INVALID` attempts in a row had been invalid.
pub open spec fn goes_on(boards: Seq<Board>, dirs: Seq<MoveDir>, i: int) -> bool {
    &&& !is_stuck(boards[i].values@)
    &&& boards[i].fits()
    &&& i < i32::MAX
    &&& !invalid_tail(boards, dirs, i, MAX_INVALID as int)
}

/// `boards` and `dirs` record a game played by `algo`: it starts from the
/// starting board, attempt `i` turns `boards[i]` into `boards[i + 1]` with a
/// direction `algo` may answer on `boards[i]`, and the game was still going
/// on when each attempt was made.
pub open spec fn game_trace<F: Fn(&mut GamePlayer, &Board) -> MoveDir>(
    algo: F,
    boards: Seq<Board>,
    dirs: Seq<MoveDir>,
) -> bool {
    &&& boards.len() == dirs.len() + 1
    &&& is_start(boards[0])
    &&& forall|i: int|
        0 <= i < dirs.len() ==> may_answer(algo, boards[i], #[trigger] dirs[i]) && attempt(
            boards[i],
            dirs[i],
            boards[i + 1],
        ) && goes_on(boards, dirs, i)
}

/// The recorded game is over: its last board is stuck, its last
/// `MAX_INVALID` attempts were invalid, or a machine limit was reached (the
/// board no longer fits, or `i32::MAX` attempts were made).
pub open spec fn game_over(boards: Seq<Board>, dirs: Seq<MoveDir>) -> bool {
    let n = dirs.len() as int;
    ||| is_stuck(boards[n].values@)
    ||| invalid_tail(boards, dirs, n, MAX_INVALID as int)
    ||| !boards[n].fits()
    ||| n == i32::MAX
}

/// `r` reports a complete game that `algo` played: its number of attempts,
/// the final score and the largest tile of the final board.
pub open spec fn game_result<F: Fn(&mut GamePlayer, &Board) -> MoveDir>(
    algo: F,
    r: SingleRunResult,
) -> bool {
    exists|boards: Seq<Board>, dirs: Seq<MoveDir>|
        game_trace(algo, boards, dirs) && game_over(boards, dirs) && r.moves == dirs.len()
            && r.score == boards[dirs.len() as int].score && is_largest(
            boards[dirs.len() as int],
            r.largest as int,
        )
}

/// On the starting board, `algo` only answers invalid moves.
pub open spec fn stalls_at_start<F: Fn(&mut GamePlayer, &Board) -> MoveDir>(algo: F) -> bool {
    forall|p: &mut GamePlayer, b: &Board, d: MoveDir|
        is_start(*b) && #[trigger] call_ensures(algo, (p, b), d) ==> !can_move(b.values@, d)
}

/// Plays one game from `Board::init`, asking `algo` for every move, until the
/// board is stuck or `MAX_INVALID` moves in a row have been invalid. An
/// invalid move leaves the board as it was and still counts as a move. The
/// game also ends, far beyond any real game, once the board no longer fits
/// (see `Board::fits`) or the move count reaches `i32::MAX`.
pub fn single<F: Fn(&mut GamePlayer, &Board) -> MoveDir>(player: &mut GamePlayer, algo: &F) -> (r:
    SingleRunResult)
    requires
        forall|p: &mut GamePlayer, b: &Board| b.fits() ==> #[trigger] call_requires(*algo, (p, b)),
    ensures
        game_result(*algo, r),
        1 <= r.moves,
        0 <= r.score,
        is_tile_value(r.largest as int),
        stalls_at_start(*algo) ==> r.moves == MAX_INVALID && r.score == 0 && r.largest == 2,
{
    let start = Board::init();
    assert(start.values[0] >= 2);
    let mut board = start;
    let mut result = SingleRunResult { moves: 0, score: 0, largest: 0 };
    let mut invalid_count: i32 = 0;
    let ghost mut boards: Seq<Board> = seq![start];
    let ghost mut dirs: Seq<MoveDir> = Seq::empty();
    while !board.stuck() && invalid_count < MAX_INVALID && board.has_room() && result.moves
        < i32::MAX
        invariant
            forall|p: &mut GamePlayer, b: &Board| b.fits() ==> #[trigger] call_requires(*algo, (p, b)),
            is_start(start),
            start.fits(),
            !is_stuck(start.values@),
            0 <= invalid_count <= MAX_INVALID,
            0 <= result.moves,
            0 <= board.score,
            board.well_formed(),
            exists|i: int| 0 <= i < 16 && #[trigger] board.values[i] >= 2,
            result.moves == 0 ==> board == start && invalid_count == 0,
            stalls_at_start(*algo) ==> board == start && result.moves == invalid_count,
            game_trace(*algo, boards, dirs),
            dirs.len() == result.moves,
            boards[dirs.len() as int] == board,
            invalid_tail(boards, dirs, dirs.len() as int, invalid_count as int),
            invalid_count < dirs.len() ==> !invalid_at(boards, dirs, dirs.len() - 1 - invalid_count),
        decreases i32::MAX - result.moves,
    {
        let dir = algo(player, &board);
        proof {
            lemma_valid_iff_changes(board.values@, dir);
            lemma_gain_nonneg(board, dir);
            assert(may_answer(*algo, board, dir));
            let n = dirs.len() as int;
            if invalid_tail(boards, dirs, n, MAX_INVALID as int) {
                if invalid_count < n {
                    let j = n - 1 - invalid_count;
                    assert(invalid_at(boards, dirs, j));
                }
            }
            assert(goes_on(boards, dirs, n));
        }
        let ghost before = board;
        match player.play(&board, dir) {
            Ok(new_board) => {
                proof {
                    lemma_transition_well_formed(board, dir, new_board);
                    let m = moved(board.values@, dir);
                    let j = choose|j: int|
                        0 <= j < m.len() && m[j] == 0 && (ints(new_board.values@) == m.update(j, 2)
                            || ints(new_board.values@) == m.update(j, 4));
                    assert(ints(new_board.values@)[j] >= 2);
                    assert(new_board.values[j] >= 2);
                }
                board = new_board;
                invalid_count = 0;
            },
            Err(_) => {
                invalid_count += 1;
            },
        }
        proof {
            let old_boards = boards;
            let old_dirs = dirs;
            let n = old_dirs.len() as int;
            boards = boards.push(board);
            dirs = dirs.push(dir);
            assert(attempt(before, dir, board));
            assert forall|j: int| 0 <= j < n implies #[trigger] invalid_at(boards, dirs, j)
                == invalid_at(old_boards, old_dirs, j) by {}
            assert forall|i: int| 0 <= i <= n implies goes_on(boards, dirs, i) == goes_on(
                old_boards,
                old_dirs,
                i,
            ) by {
                if invalid_tail(boards, dirs, i, MAX_INVALID as int) {
                    assert forall|j: int| i - MAX_INVALID <= j < i implies #[trigger] invalid_at(
                        old_boards,
                        old_dirs,
                        j,
                    ) by {
                        assert(invalid_at(boards, dirs, j));
                    }
                }
                if invalid_tail(old_boards, old_dirs, i, MAX_INVALID as int) {
                    assert forall|j: int| i - MAX_INVALID <= j < i implies #[trigger] invalid_at(
                        boards,
                        dirs,
                        j,
                    ) by {
                        assert(invalid_at(old_boards, old_dirs, j));
                    }
                }
            }
            assert forall|i: int| 0 <= i < dirs.len() implies may_answer(
                *algo,
                boards[i],
                #[trigger] dirs[i],
            ) && attempt(boards[i], dirs[i], boards[i + 1]) && goes_on(boards, dirs, i) by {
                if i < n {
                    assert(old_dirs[i] == dirs[i]);
                }
            }
            assert forall|j: int|
                (n + 1) - invalid_count <= j < n + 1 implies #[trigger] invalid_at(
                boards,
                dirs,
                j,
            ) by {
                if j < n {
                    assert(invalid_at(old_boards, old_dirs, j));
                }
            }
        }
        result.moves += 1;
    }
    result.score = board.score;
    result.largest = largest_tile(&board);
    proof {
        let k = choose|k: int| 0 <= k < 16 && #[trigger] board.values[k] >= 2;
        assert(board.values[k] <= result.largest);
        let i = choose|i: int| 0 <= i < 16 && board.values[i] == result.largest;
        assert(ints(board.values@)[i] == result.largest);
        assert(game_over(boards, dirs));
        assert(is_largest(board, result.largest as int));
    }
    result
}

/// Number of evenly spaced score thresholds in a cumulative distribution.
pub const CDF_POINTS: usize = 100;

/// Summary of a batch of games.
pub struct AggregateResult {
    /// Number of games.
    pub runs: usize,
    /// Highest final score, or 0 for no game.
    pub max_score: i32,
    /// Cumulative score distribution: entry `k - 1`, for `k` in
    /// `1..=CDF_POINTS`, counts the games whose score is below the threshold
    /// `k * max_score / CDF_POINTS`.
    pub score_cdf_below: Vec<usize>,
    /// Entry `b` counts the games whose largest tile lies in bucket `b`
    /// (see `tile_bucket`); the last entry is the highest bucket reached.
    pub largest_hist: Vec<usize>,
}

/// Highest score among `rs`, and 0 when there is none higher.
pub open spec fn max_score_of(rs: Seq<SingleRunResult>) -> int
    decreases rs.len(),
{
    if rs.len() == 0 {
        0
    } else {
        vstd::math::max(max_score_of(rs.drop_last()), rs.last().score as int)
    }
}

/// Number of games among `rs` whose score is below `k / CDF_POINTS` of `top`.
pub open spec fn count_below(rs: Seq<SingleRunResult>, top: int, k: int) -> nat
    decreases rs.len(),
{
    if rs.len() == 0 {
        0
    } else {
        count_below(rs.drop_last(), top, k) + if rs.last().score * (CDF_POINTS as int) < top * k {
            1nat
        } else {
            0nat
        }
    }
}

/// The base-2 logarithm of a tile, rounded down; 0 for anything below 2.
pub open spec fn tile_bucket(x: int) -> nat
    decreases x,
{
    if x <= 1 {
        0
    } else {
        1 + tile_bucket(x / 2)
    }
}

/// Number of games among `rs` whose largest tile lies in bucket `b`.
pub open spec fn count_in_bucket(rs: Seq<SingleRunResult>, b: int) -> nat
    decreases rs.len(),
{
    if rs.len() == 0 {
        0
    } else {
        count_in_bucket(rs.drop_last(), b) + if tile_bucket(rs.last().largest as int) == b {
            1nat
        } else {
            0nat
        }
    }
}

/// One more than the highest bucket among `rs`; 0 when there is no game.
pub open spec fn hist_len(rs: Seq<SingleRunResult>) -> nat
    decreases rs.len(),
{
    if rs.len() == 0 {
        0
    } else {
        vstd::math::max(
            hist_len(rs.drop_last()) as int,
            (tile_bucket(rs.last().largest as int) + 1) as int,
        ) as nat
    }
}

/// The bucket of a tile: its base-2 logarithm, rounded down.
pub fn bucket_of(x: i32) -> (b: usize)
    ensures
        b == tile_bucket(x as int),
{
    let mut y: i32 = x;
    let mut b: usize = 0;
    while y > 1
        invariant
            b + tile_bucket(y as int) == tile_bucket(x as int),
            x <= 1 ==> y == x,
            x > 1 ==> 1 <= y && b + y <= x,
        decreases y,
    {
        y = y / 2;
        b += 1;
    }
    b
}

proof fn lemma_bucket_counts(rs: Seq<SingleRunResult>, b: int)
    ensures
        count_in_bucket(rs, b) <= rs.len(),
        b >= hist_len(rs) ==> count_in_bucket(rs, b) == 0,
    decreases rs.len(),
{
    if rs.len() > 0 {
        lemma_bucket_counts(rs.drop_last(), b);
    }
}

/// `r` summarises the games `rs`: their number, the highest score, for each
/// threshold the number of games below it, and for each bucket the number of
/// games whose largest tile lies in it.
pub open spec fn summarises(r: AggregateResult, rs: Seq<SingleRunResult>) -> bool {
    &&& r.runs == rs.len()
    &&& r.max_score == max_score_of(rs)
    &&& r.score_cdf_below.len() == CDF_POINTS
    &&& forall|k: int|
        0 <= k < CDF_POINTS ==> #[trigger] r.score_cdf_below@[k] == count_below(
            rs,
            r.max_score as int,
            k + 1,
        )
    &&& r.largest_hist.len() == hist_len(rs)
    &&& forall|b: int|
        0 <= b < r.largest_hist.len() ==> #[trigger] r.largest_hist@[b] == count_in_bucket(rs, b)
}

/// Summarises a batch of games: highest score, cumulative score distribution
/// over `CDF_POINTS` thresholds, and histogram of largest-tile buckets.
pub fn aggregate(results: &Vec<SingleRunResult>) -> (r: AggregateResult)
    ensures
        summarises(r, results@),
{
    let ghost rs = results@;
    let mut max_score: i32 = 0;
    let mut i: usize = 0;
    while i < results.len()
        invariant
            i <= results.len(),
            rs == results@,
            max_score == max_score_of(rs.subrange(0, i as int)),
        decreases results.len() - i,
    {
        proof {
            assert(rs.subrange(0, i + 1).drop_last() =~= rs.subrange(0, i as int));
        }
        if results[i].score > max_score {
            max_score = results[i].score;
        }
        i += 1;
    }
    assert(rs.subrange(0, rs.len() as int) =~= rs);
    let mut cdf: Vec<usize> = Vec::new();
    let mut k: usize = 1;
    while k <= CDF_POINTS
        invariant
            1 <= k <= CDF_POINTS + 1,
            rs == results@,
            cdf.len() == k - 1,
            forall|j: int|
                0 <= j < k - 1 ==> #[trigger] cdf@[j] == count_below(rs, max_score as int, j + 1),
        decreases CDF_POINTS + 1 - k,
    {
        assert(i32::MIN * 101 <= max_score * k <= i32::MAX * 101) by (nonlinear_arith)
            requires
                i32::MIN <= max_score <= i32::MAX,
                1 <= k <= 101,
        ;
        let threshold: i64 = max_score as i64 * k as i64;
        let mut below: usize = 0;
        let mut i: usize = 0;
        while i < results.len()
            invariant
                i <= results.len(),
                rs == results@,
                threshold == max_score * k,
                below == count_below(rs.subrange(0, i as int), max_score as int, k as int),
                below <= i,
            decreases results.len() - i,
        {
            proof {
                assert(rs.subrange(0, i + 1).drop_last() =~= rs.subrange(0, i as int));
            }
            if (results[i].score as i64) * (CDF_POINTS as i64) < threshold {
                below += 1;
            }
            i += 1;
        }
        assert(rs.subrange(0, rs.len() as int) =~= rs);
        cdf.push(below);
        k += 1;
    }
    let mut hist: Vec<usize> = Vec::new();
    let mut i: usize = 0;
    while i < results.len()
        invariant
            i <= results.len(),
            rs == results@,
            hist.len() == hist_len(rs.subrange(0, i as int)),
            forall|b: int|
                0 <= b < hist.len() ==> #[trigger] hist@[b] == count_in_bucket(
                    rs.subrange(0, i as int),
                    b,
                ),
        decreases results.len() - i,
    {
        let ghost prefix = rs.subrange(0, i as int);
        proof {
            assert(rs.subrange(0, i + 1).drop_last() =~= prefix);
        }
        let b = bucket_of(results[i].largest);
        while hist.len() <= b
            invariant
                hist_len(prefix) <= hist.len(),
                hist.len() <= vstd::math::max(hist_len(prefix) as int, b + 1),
                forall|c: int| 0 <= c < hist.len() ==> #[trigger] hist@[c] == count_in_bucket(prefix, c),
            decreases b + 1 - hist.len(),
        {
            proof {
                lemma_bucket_counts(prefix, hist.len() as int);
            }
            hist.push(0);
        }
        proof {
            lemma_bucket_counts(prefix, b as int);
        }
        let count = hist[b] + 1;
        hist.set(b, count);
        i += 1;
    }
    assert(rs.subrange(0, rs.len() as int) =~= rs);
    AggregateResult { runs: results.len(), max_score, score_cdf_below: cdf, largest_hist: hist }
}

/// What a batch of games that all end with no score and a largest tile of 2
/// summarises to.
proof fn lemma_blank_games(rs: Seq<SingleRunResult>)
    requires
        forall|i: int| 0 <= i < rs.len() ==> (#[trigger] rs[i]).score == 0 && rs[i].largest == 2,
    ensures
        max_score_of(rs) == 0,
        forall|k: int| #[trigger] count_below(rs, 0, k) == 0,
        hist_len(rs) == if rs.len() == 0 {
            0nat
        } else {
            2nat
        },
        count_in_bucket(rs, 0) == 0,
        count_in_bucket(rs, 1) == rs.len(),
    decreases rs.len(),
{
    assert(tile_bucket(1) == 0);
    assert(tile_bucket(2) == 1);
    if rs.len() > 0 {
        lemma_blank_games(rs.drop_last());
        assert forall|k: int| #[trigger] count_below(rs, 0, k) == 0 by {
            assert(count_below(rs.drop_last(), 0, k) == 0);
        }
    }
}

/// Plays `n` games (none when `n <= 0`) with `algo`, drawing every spawn from
/// `player`, and summarises them with `aggregate`.
pub fn run_batch<F: Fn(&mut GamePlayer, &Board) -> MoveDir>(
    player: &mut GamePlayer,
    algo: &F,
    n: i32,
) -> (r: AggregateResult)
    requires
        forall|p: &mut GamePlayer, b: &Board| b.fits() ==> #[trigger] call_requires(*algo, (p, b)),
    ensures
        exists|rs: Seq<SingleRunResult>|
            rs.len() == (if n > 0 {
                n as int
            } else {
                0
            }) && (forall|i: int| 0 <= i < rs.len() ==> game_result(*algo, #[trigger] rs[i]))
                && summarises(r, rs),
        stalls_at_start(*algo) ==> r.max_score == 0 && (forall|k: int|
            0 <= k < CDF_POINTS ==> #[trigger] r.score_cdf_below@[k] == 0) && r.largest_hist@
            == if n > 0 {
            seq![0usize, n as usize]
        } else {
            Seq::<usize>::empty()
        },
{
    let mut results: Vec<SingleRunResult> = Vec::new();
    let mut i: i32 = 0;
    while i < n
        invariant
            forall|p: &mut GamePlayer, b: &Board| b.fits() ==> #[trigger] call_requires(*algo, (p, b)),
            0 <= i,
            n > 0 ==> i <= n,
            n <= 0 ==> i == 0,
            results.len() == i,
            forall|m: int| 0 <= m < results.len() ==> game_result(*algo, #[trigger] results@[m]),
            stalls_at_start(*algo) ==> forall|m: int|
                0 <= m < results.len() ==> (#[trigger] results@[m]).score == 0 && results@[m].largest
                    == 2,
        decreases n - i,
    {
        results.push(single(player, algo));
        i += 1;
    }
    let r = aggregate(&results);
    proof {
        if stalls_at_start(*algo) {
            lemma_blank_games(results@);
            if n > 0 {
                assert(r.largest_hist@ =~= seq![0usize, n as usize]);
            } else {
                assert(r.largest_hist@ =~= Seq::<usize>::empty());
            }
        }
    }
    r
}

} // verus!
