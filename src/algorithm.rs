//! Move-selection strategies, from random choice to a bounded lookahead.
use vstd::prelude::*;
use crate::gameplay::{
    transition, any_move, can_move, lemma_spawn_fills, lemma_valid_iff_changes, moved, Board, GamePlayer,
    MoveDir,
};
use crate::rng::pick;
use crate::rules::{blank_count, ints};

verus! {

/// Weight of each empty cell and of each ordered neighbour pair, in points of
/// game score. Both count alike; at 20, one more empty cell or ordered pair
/// outranks a merge of two 8s, so the lookahead prefers keeping the board
/// open and ordered over small immediate gains.
pub const ORDER_WEIGHT: i64 = 20;

/// Cells `(a, b)` of the `k`-th neighbouring pair (`k < 12`), pairs taken line
/// by line: `b` is below `a` when `vertical`, to its right otherwise.
pub open spec fn pair_cells(vertical: bool, k: int) -> (int, int) {
    let i = k / 3;
    let j = k % 3;
    if vertical {
        (i + j * 4, i + (j + 1) * 4)
    } else {
        (i * 4 + j, i * 4 + j + 1)
    }
}

/// `a` and `b` are in non-increasing order (`descending`) or non-decreasing
/// order.
pub open spec fn in_order(a: i32, b: i32, descending: bool) -> bool {
    if descending {
        a >= b
    } else {
        a <= b
    }
}

/// 1 when the `k`-th neighbouring pair is in order, else 0.
pub open spec fn pair_in_order(v: Seq<i32>, vertical: bool, descending: bool, k: int) -> int {
    let (a, b) = pair_cells(vertical, k);
    if in_order(v[a], v[b], descending) {
        1
    } else {
        0
    }
}

/// How many of the first `n` neighbouring pairs are in order.
pub open spec fn ordered_pairs(v: Seq<i32>, vertical: bool, descending: bool, n: int) -> int
    decreases n,
{
    if n <= 0 {
        0
    } else {
        ordered_pairs(v, vertical, descending, n - 1) + pair_in_order(v, vertical, descending, n - 1)
    }
}

/// How monotone the board is: along each axis, the larger of the counts of
/// non-increasing and of non-decreasing neighbour pairs, so that it rewards
/// tiles growing toward any edge alike.
pub open spec fn sortedness(v: Seq<i32>) -> int {
    vstd::math::max(ordered_pairs(v, true, true, 12), ordered_pairs(v, true, false, 12))
        + vstd::math::max(ordered_pairs(v, false, true, 12), ordered_pairs(v, false, false, 12))
}

/// The cells `v` turned a quarter round clockwise.
pub open spec fn quarter_turn(v: Seq<i32>) -> Seq<i32> {
    Seq::new(16, |i: int| v[(3 - i % 4) * 4 + i / 4])
}

proof fn lemma_ordered_pairs_unrolled(v: Seq<i32>, vertical: bool, descending: bool)
    ensures
        ordered_pairs(v, vertical, descending, 12) == pair_in_order(v, vertical, descending, 0)
            + pair_in_order(v, vertical, descending, 1) + pair_in_order(v, vertical, descending, 2)
            + pair_in_order(v, vertical, descending, 3) + pair_in_order(v, vertical, descending, 4)
            + pair_in_order(v, vertical, descending, 5) + pair_in_order(v, vertical, descending, 6)
            + pair_in_order(v, vertical, descending, 7) + pair_in_order(v, vertical, descending, 8)
            + pair_in_order(v, vertical, descending, 9) + pair_in_order(v, vertical, descending, 10)
            + pair_in_order(v, vertical, descending, 11),
{
    reveal_with_fuel(ordered_pairs, 13);
}

/// The monotonicity bonus does not depend on which edge is up: a quarter
/// turn of the board leaves it unchanged.
#[verifier::spinoff_prover]
#[verifier::rlimit(40)]
pub proof fn lemma_sortedness_turn(v: Seq<i32>)
    requires
        v.len() == 16,
    ensures
        sortedness(quarter_turn(v)) == sortedness(v),
{
    let w = quarter_turn(v);
    // A vertical pair of the turned board is a horizontal pair of `v`, and a
    // horizontal pair of the turned board is a vertical pair of `v` read
    // backwards.
    assert forall|d: bool, k: int| 0 <= k < 12 implies #[trigger] pair_in_order(w, true, d, k)
        == pair_in_order(v, false, d, (3 - k / 3) * 3 + k % 3) by {}
    assert forall|d: bool, k: int| 0 <= k < 12 implies #[trigger] pair_in_order(w, false, d, k)
        == pair_in_order(v, true, !d, (k / 3) * 3 + 2 - k % 3) by {}
    lemma_ordered_pairs_unrolled(w, true, true);
    lemma_ordered_pairs_unrolled(w, true, false);
    lemma_ordered_pairs_unrolled(w, false, true);
    lemma_ordered_pairs_unrolled(w, false, false);
    lemma_ordered_pairs_unrolled(v, true, true);
    lemma_ordered_pairs_unrolled(v, true, false);
    lemma_ordered_pairs_unrolled(v, false, true);
    lemma_ordered_pairs_unrolled(v, false, false);
}

/// The rank `score_free_space_sortedness` gives a board.
pub open spec fn free_space_sortedness(b: Board) -> int {
    ORDER_WEIGHT * (blank_count(ints(b.values@)) + sortedness(b.values@)) + b.score
}

/// Number of empty cells.
pub fn score_free_space(board: &Board) -> (r: i32)
    ensures
        r == blank_count(ints(board.values@)),
{
    let ghost v = ints(board.values@);
    let mut count: i32 = 0;
    let mut i: usize = 0;
    while i < 16
        invariant
            i <= 16,
            v == ints(board.values@),
            count == blank_count(v.subrange(0, i as int)),
            count <= i,
        decreases 16 - i,
    {
        proof {
            assert(v.subrange(0, i + 1).drop_last() =~= v.subrange(0, i as int));
        }
        if board.values[i] == 0 {
            count += 1;
        }
        i += 1;
    }
    assert(v.subrange(0, 16) =~= v);
    count
}

/// Empty cells plus how monotone the board is, both weighted by
/// `ORDER_WEIGHT`, plus the game score.
pub fn score_free_space_sortedness(board: &Board) -> (r: i64)
    ensures
        r == free_space_sortedness(*board),
{
    let empty_count = score_free_space(board);
    let mut down_ge: i64 = 0;
    let mut down_le: i64 = 0;
    let mut across_ge: i64 = 0;
    let mut across_le: i64 = 0;
    let mut k: usize = 0;
    while k < 12
        invariant
            k <= 12,
            down_ge == ordered_pairs(board.values@, true, true, k as int),
            down_le == ordered_pairs(board.values@, true, false, k as int),
            across_ge == ordered_pairs(board.values@, false, true, k as int),
            across_le == ordered_pairs(board.values@, false, false, k as int),
            0 <= down_ge <= k,
            0 <= down_le <= k,
            0 <= across_ge <= k,
            0 <= across_le <= k,
        decreases 12 - k,
    {
        let i = k / 3;
        let j = k % 3;
        let upper = board.values[i + j * 4];
        let lower = board.values[i + (j + 1) * 4];
        let left = board.values[i * 4 + j];
        let right = board.values[i * 4 + j + 1];
        if upper >= lower {
            down_ge += 1;
        }
        if upper <= lower {
            down_le += 1;
        }
        if left >= right {
            across_ge += 1;
        }
        if left <= right {
            across_le += 1;
        }
        k += 1;
    }
    let down = if down_ge >= down_le {
        down_ge
    } else {
        down_le
    };
    let across = if across_ge >= across_le {
        across_ge
    } else {
        across_le
    };
    ORDER_WEIGHT * (empty_count as i64) + ORDER_WEIGHT * (down + across) + board.score as i64
}

/// Empty cells left after a move toward `dir` and the tile it spawns.
pub open spec fn free_after(v: Seq<i32>, dir: MoveDir) -> int {
    blank_count(moved(v, dir)) - 1
}

/// Among the first `n` of `options`, the valid move that leaves the most
/// empty cells; the earliest of them on a tie; `None` when none is valid.
pub open spec fn best_free_move(v: Seq<i32>, options: Seq<MoveDir>, n: int) -> Option<MoveDir>
    decreases n,
{
    if n <= 0 {
        None
    } else {
        let prev = best_free_move(v, options, n - 1);
        let d = options[n - 1];
        if !can_move(v, d) {
            prev
        } else {
            match prev {
                None => Some(d),
                Some(p) => if free_after(v, d) > free_after(v, p) {
                    Some(d)
                } else {
                    prev
                },
            }
        }
    }
}

/// The move `max_free_space_among` picks: the best of `options`, or `Down`.
pub open spec fn free_space_choice(v: Seq<i32>, options: Seq<MoveDir>) -> MoveDir {
    match best_free_move(v, options, options.len() as int) {
        Some(d) => d,
        None => MoveDir::Down,
    }
}

/// Plays each of `options` on a copy of `board` and picks the one that leaves
/// the most empty cells, the earliest on a tie, or `Down` when none is valid.
fn max_free_space_among(player: &mut GamePlayer, board: &Board, options: &Vec<MoveDir>) -> (d:
    MoveDir)
    requires
        board.fits(),
    ensures
        d == free_space_choice(board.values@, options@),
{
    let ghost v = board.values@;
    let mut selected: Option<MoveDir> = None;
    let mut best_score: i32 = -1;
    let mut i: usize = 0;
    while i < options.len()
        invariant
            i <= options.len(),
            board.fits(),
            v == board.values@,
            selected == best_free_move(v, options@, i as int),
            selected is None ==> best_score == -1,
            selected is Some ==> best_score == free_after(v, selected->Some_0),
        decreases options.len() - i,
    {
        let dir = options[i];
        proof {
            lemma_valid_iff_changes(v, dir);
        }
        match player.play(board, dir) {
            Ok(b) => {
                let score = score_free_space(&b);
                proof {
                    lemma_spawn_fills(moved(v, dir), ints(b.values@));
                }
                if score > best_score {
                    best_score = score;
                    selected = Some(dir);
                }
            },
            Err(_) => {},
        }
        i += 1;
    }
    match selected {
        Some(dir) => dir,
        None => MoveDir::Down,
    }
}

/// Picks uniformly among the valid moves; `Down` when there is none.
pub fn random(player: &mut GamePlayer, board: &Board) -> (d: MoveDir)
    ensures
        any_move(board.values@) ==> can_move(board.values@, d),
        !any_move(board.values@) ==> d == MoveDir::Down,
{
    let ghost v = board.values@;
    let mut options: Vec<MoveDir> = Vec::new();
    if board.is_valid_move(MoveDir::Up) {
        options.push(MoveDir::Up);
    }
    if board.is_valid_move(MoveDir::Down) {
        options.push(MoveDir::Down);
    }
    if board.is_valid_move(MoveDir::Left) {
        options.push(MoveDir::Left);
    }
    if board.is_valid_move(MoveDir::Right) {
        options.push(MoveDir::Right);
    }
    assert(forall|i: int| 0 <= i < options.len() ==> can_move(v, #[trigger] options@[i]));
    if options.len() == 0 {
        return MoveDir::Down;
    }
    pick(&mut player.rng, &options)
}

/// Picks uniformly among the valid moves of `Up`, `Left` and `Right`; when
/// none of them is valid, `Down`, whether or not `Down` is valid.
pub fn random_3dir(player: &mut GamePlayer, board: &Board) -> (d: MoveDir)
    ensures
        can_move(board.values@, MoveDir::Up) || can_move(board.values@, MoveDir::Left)
            || can_move(board.values@, MoveDir::Right) ==> d != MoveDir::Down && can_move(
            board.values@,
            d,
        ),
        !(can_move(board.values@, MoveDir::Up) || can_move(board.values@, MoveDir::Left)
            || can_move(board.values@, MoveDir::Right)) ==> d == MoveDir::Down,
{
    let ghost v = board.values@;
    let mut options: Vec<MoveDir> = Vec::new();
    if board.is_valid_move(MoveDir::Up) {
        options.push(MoveDir::Up);
    }
    if board.is_valid_move(MoveDir::Left) {
        options.push(MoveDir::Left);
    }
    if board.is_valid_move(MoveDir::Right) {
        options.push(MoveDir::Right);
    }
    assert(forall|i: int|
        0 <= i < options.len() ==> can_move(v, #[trigger] options@[i]) && options@[i]
            != MoveDir::Down);
    if options.len() == 0 {
        // Move down as a last resort.
        options.push(MoveDir::Down);
        assert(options@ =~= seq![MoveDir::Down]);
    }
    pick(&mut player.rng, &options)
}

/// Of `Up`, `Left` and `Right`, the valid move that leaves the most empty
/// cells, the earliest on a tie; `Down` when none of them is valid.
pub fn max_free_space_3dir(player: &mut GamePlayer, board: &Board) -> (d: MoveDir)
    requires
        board.fits(),
    ensures
        d == free_space_choice(board.values@, seq![MoveDir::Up, MoveDir::Left, MoveDir::Right]),
{
    let options = vec![MoveDir::Up, MoveDir::Left, MoveDir::Right];
    assert(options@ =~= seq![MoveDir::Up, MoveDir::Left, MoveDir::Right]);
    max_free_space_among(player, board, &options)
}

/// Of the four moves, the valid one that leaves the most empty cells, the
/// earliest of `Up`, `Down`, `Left`, `Right` on a tie; `Down` when none is
/// valid.
pub fn max_free_space(player: &mut GamePlayer, board: &Board) -> (d: MoveDir)
    requires
        board.fits(),
    ensures
        d == free_space_choice(
            board.values@,
            seq![MoveDir::Up, MoveDir::Down, MoveDir::Left, MoveDir::Right],
        ),
{
    let options = vec![MoveDir::Up, MoveDir::Down, MoveDir::Left, MoveDir::Right];
    assert(options@ =~= seq![MoveDir::Up, MoveDir::Down, MoveDir::Left, MoveDir::Right]);
    max_free_space_among(player, board, &options)
}

/// How the lookahead ranks the boards it reaches.
#[derive(Copy, Clone, Debug)]
pub enum ScoreFunction {
    FreeSpace,
    FreeSpaceWithSortedness,
}

/// The rank `score_fn` gives `b`.
pub open spec fn rank_spec(b: Board, score_fn: ScoreFunction) -> int {
    match score_fn {
        ScoreFunction::FreeSpace => blank_count(ints(b.values@)) as int,
        ScoreFunction::FreeSpaceWithSortedness => free_space_sortedness(b),
    }
}

fn rank_of(board: &Board, score_fn: ScoreFunction) -> (r: i64)
    ensures
        r == rank_spec(*board, score_fn),
{
    match score_fn {
        ScoreFunction::FreeSpace => score_free_space(board) as i64,
        ScoreFunction::FreeSpaceWithSortedness => score_free_space_sortedness(board),
    }
}

/// One node of the lookahead's frontier: a board reached from the root, the
/// first move taken from the root to reach it (`None` for the root itself),
/// and the board's rank.
#[derive(Copy, Clone, Debug)]
pub struct EvaluationNode {
    pub dir: Option<MoveDir>,
    pub board: Board,
    pub rank: i64,
}

/// `n` is the root or was reached from `root` by a valid first move.
pub open spec fn reached_from(n: EvaluationNode, root: Board) -> bool {
    &&& n.dir is None ==> n.board == root
    &&& n.dir is Some ==> can_move(root.values@, n.dir->Some_0)
}

/// The `k`-th move in the order the lookahead tries them: Up, Down, Left,
/// Right.
pub open spec fn dir_order(k: int) -> MoveDir {
    if k == 0 {
        MoveDir::Up
    } else if k == 1 {
        MoveDir::Down
    } else if k == 2 {
        MoveDir::Left
    } else {
        MoveDir::Right
    }
}

/// The moves among the first `k` of `dir_order` that change `b`, in that
/// order.
pub open spec fn valid_dirs(b: Board, k: int) -> Seq<MoveDir>
    decreases k,
{
    if k <= 0 {
        Seq::empty()
    } else if can_move(b.values@, dir_order(k - 1)) {
        valid_dirs(b, k - 1).push(dir_order(k - 1))
    } else {
        valid_dirs(b, k - 1)
    }
}

/// The plays `expand_scenarios` makes from the first `n` nodes, in order:
/// for each node whose board fits, its index with each move that changes its
/// board.
pub open spec fn plays(nodes: Seq<EvaluationNode>, n: int) -> Seq<(int, MoveDir)>
    decreases n,
{
    if n <= 0 {
        Seq::empty()
    } else if nodes[n - 1].board.fits() {
        plays(nodes, n - 1) + valid_dirs(nodes[n - 1].board, 4).map_values(
            |d: MoveDir| (n - 1, d),
        )
    } else {
        plays(nodes, n - 1)
    }
}

/// `child` is what playing `d` from `parent` gives: the transition's board,
/// ranked by `score_fn`, keeping the parent's first move (or `d` from the
/// root).
pub open spec fn child_of(
    parent: EvaluationNode,
    d: MoveDir,
    child: EvaluationNode,
    score_fn: ScoreFunction,
) -> bool {
    &&& child.dir == Some(
        match parent.dir {
            Some(first) => first,
            None => d,
        },
    )
    &&& transition(parent.board, d, child.board)
    &&& child.rank == rank_spec(child.board, score_fn)
}

/// Plays every move from every node of `input_set` whose board fits, with a
/// fresh random spawn each time, and collects the successful results. Each
/// child keeps its parent's first move, or takes the move just played when
/// the parent is the root.
fn expand_scenarios(
    player: &mut GamePlayer,
    input_set: &Vec<EvaluationNode>,
    score_fn: ScoreFunction,
    Ghost(root): Ghost<Board>,
) -> (out: Vec<EvaluationNode>)
    requires
        forall|i: int| 0 <= i < input_set.len() ==> reached_from(#[trigger] input_set@[i], root),
    ensures
        forall|i: int|
            0 <= i < out.len() ==> (#[trigger] out@[i]).dir is Some && reached_from(out@[i], root)
                && out@[i].rank == rank_spec(out@[i].board, score_fn),
        out.len() == 0 ==> forall|i: int|
            0 <= i < input_set.len() && (#[trigger] input_set@[i]).board.fits() ==> !any_move(
                input_set@[i].board.values@,
            ),
{
    let options: [MoveDir; 4] = [MoveDir::Up, MoveDir::Down, MoveDir::Left, MoveDir::Right];
    let mut out: Vec<EvaluationNode> = Vec::new();
    let mut i: usize = 0;
    while i < input_set.len()
        invariant
            i <= input_set.len(),
            options@ == seq![MoveDir::Up, MoveDir::Down, MoveDir::Left, MoveDir::Right],
            forall|m: int| 0 <= m < input_set.len() ==> reached_from(#[trigger] input_set@[m], root),
            forall|m: int|
                0 <= m < out.len() ==> (#[trigger] out@[m]).dir is Some && reached_from(out@[m], root)
                    && out@[m].rank == rank_spec(out@[m].board, score_fn),
            out.len() == 0 ==> forall|m: int|
                0 <= m < i && (#[trigger] input_set@[m]).board.fits() ==> !any_move(
                    input_set@[m].board.values@,
                ),
            out.len() == plays(input_set@, i as int).len(),
            forall|m: int|
                0 <= m < out.len() ==> child_of(
                    input_set@[plays(input_set@, i as int)[m].0],
                    plays(input_set@, i as int)[m].1,
                    #[trigger] out@[m],
                    score_fn,
                ),
            forall|m: int|
                0 <= m < plays(input_set@, i as int).len() ==> 0 <= (#[trigger] plays(
                    input_set@,
                    i as int,
                )[m]).0 < i,
        decreases input_set.len() - i,
    {
        let start = input_set[i];
        let ghost before = plays(input_set@, i as int);
        let ghost base = out.len() as int;
        proof {
            lemma_plays_bounded(input_set@, i + 1);
        }
        if start.board.has_room() {
            let mut k: usize = 0;
            while k < 4
                invariant
                    k <= 4,
                    i < input_set.len(),
                    start == input_set@[i as int],
                    start.board.fits(),
                    reached_from(start, root),
                    options@ == seq![MoveDir::Up, MoveDir::Down, MoveDir::Left, MoveDir::Right],
                    forall|m: int|
                        0 <= m < out.len() ==> (#[trigger] out@[m]).dir is Some && reached_from(
                            out@[m],
                            root,
                        ) && out@[m].rank == rank_spec(out@[m].board, score_fn),
                    out.len() == 0 ==> forall|m: int|
                        0 <= m < i && (#[trigger] input_set@[m]).board.fits() ==> !any_move(
                            input_set@[m].board.values@,
                        ),
                    out.len() == 0 ==> forall|m: int|
                        0 <= m < k ==> !can_move(start.board.values@, #[trigger] options@[m]),
                    before == plays(input_set@, i as int),
                    base == before.len(),
                    forall|m: int| 0 <= m < 4 ==> #[trigger] options@[m] == dir_order(m),
                    out.len() == base + valid_dirs(start.board, k as int).len(),
                    forall|m: int|
                        0 <= m < base ==> child_of(
                            input_set@[before[m].0],
                            before[m].1,
                            #[trigger] out@[m],
                            score_fn,
                        ),
                    forall|m: int|
                        base <= m < out.len() ==> child_of(
                            start,
                            valid_dirs(start.board, k as int)[m - base],
                            #[trigger] out@[m],
                            score_fn,
                        ),
                decreases 4 - k,
            {
                let dir = options[k];
                proof {
                    lemma_valid_iff_changes(start.board.values@, dir);
                }
                match player.play(&start.board, dir) {
                    Ok(new_board) => {
                        let rank = rank_of(&new_board, score_fn);
                        let first = match start.dir {
                            Some(d0) => d0,
                            None => dir,
                        };
                        out.push(EvaluationNode { dir: Some(first), board: new_board, rank });
                    },
                    Err(_) => {},
                }
                proof {
                    assert(dir == dir_order(k as int));
                }
                k += 1;
            }
            proof {
                let after = plays(input_set@, i + 1);
                let mine = valid_dirs(start.board, 4).map_values(|d: MoveDir| (i as int, d));
                assert(after == before + mine);
                assert forall|m: int| 0 <= m < out.len() implies child_of(
                    input_set@[after[m].0],
                    after[m].1,
                    #[trigger] out@[m],
                    score_fn,
                ) by {
                    if m >= base {
                        assert(after[m] == mine[m - base]);
                    } else {
                        assert(after[m] == before[m]);
                    }
                }
            }
        } else {
            proof {
                assert(plays(input_set@, i + 1) == before);
            }
        }
        i += 1;
    }
    out
}

proof fn lemma_plays_bounded(nodes: Seq<EvaluationNode>, n: int)
    ensures
        forall|m: int| 0 <= m < plays(nodes, n).len() ==> 0 <= (#[trigger] plays(nodes, n)[m]).0 < n,
    decreases n,
{
    if n > 0 {
        lemma_plays_bounded(nodes, n - 1);
        let p = plays(nodes, n - 1);
        if nodes[n - 1].board.fits() {
            let mine = valid_dirs(nodes[n - 1].board, 4).map_values(|d: MoveDir| (n - 1, d));
            assert forall|m: int| 0 <= m < plays(nodes, n).len() implies 0 <= (#[trigger] plays(
                nodes,
                n,
            )[m]).0 < n by {
                if m >= p.len() {
                    assert(plays(nodes, n)[m] == mine[m - p.len()]);
                } else {
                    assert(plays(nodes, n)[m] == p[m]);
                }
            }
        }
    }
}

/// `k` is the first node of greatest rank in `nodes`.
pub open spec fn first_best(nodes: Seq<EvaluationNode>, k: int) -> bool {
    &&& 0 <= k < nodes.len()
    &&& forall|j: int| 0 <= j < nodes.len() ==> #[trigger] nodes[j].rank <= nodes[k].rank
    &&& forall|j: int| 0 <= j < k ==> #[trigger] nodes[j].rank < nodes[k].rank
}

/// `nodes` is a frontier the lookahead can reach from `root`: not empty, each
/// node reached from `root` by a valid first move and ranked by `score_fn`.
pub open spec fn frontier_of(nodes: Seq<EvaluationNode>, root: Board, score_fn: ScoreFunction) -> bool {
    &&& nodes.len() > 0
    &&& forall|i: int|
        0 <= i < nodes.len() ==> (#[trigger] nodes[i]).dir is Some && reached_from(nodes[i], root)
            && nodes[i].rank == rank_spec(nodes[i].board, score_fn)
}

/// The first move of the first node of greatest rank in `nodes`, in frontier
/// order; `None` when `nodes` is empty.
pub fn best_direction(nodes: &Vec<EvaluationNode>) -> (r: Option<MoveDir>)
    ensures
        nodes.len() == 0 ==> r is None,
        nodes.len() > 0 ==> exists|k: int| first_best(nodes@, k) && r == nodes@[k].dir,
{
    if nodes.len() == 0 {
        return None;
    }
    let mut best: usize = 0;
    let mut i: usize = 1;
    while i < nodes.len()
        invariant
            1 <= i <= nodes.len(),
            best < i,
            forall|j: int| 0 <= j < i ==> #[trigger] nodes@[j].rank <= nodes@[best as int].rank,
            forall|j: int| 0 <= j < best ==> #[trigger] nodes@[j].rank < nodes@[best as int].rank,
        decreases nodes.len() - i,
    {
        if nodes[i].rank > nodes[best].rank {
            best = i;
        }
        i += 1;
    }
    assert(first_best(nodes@, best as int));
    nodes[best].dir
}

/// Picks a move by searching `moves` turns ahead. Each round plays every move
/// from every board of the frontier, each with one random spawn (a sample,
/// not every possible spawn); a round that yields nothing ends the search
/// early. The result is the first move toward the best-ranked board of the
/// last frontier, the earliest in frontier order on a tie, or `Down` when no
/// round yielded anything.
pub fn naive_lookahead(player: &mut GamePlayer, board: &Board, moves: i32, score_fn: ScoreFunction) -> (d:
    MoveDir)
    requires
        board.fits(),
    ensures
        moves <= 0 ==> d == MoveDir::Down && *final(player) == *old(player),
        !any_move(board.values@) ==> d == MoveDir::Down,
        moves > 0 && any_move(board.values@) ==> can_move(board.values@, d),
        moves > 0 && any_move(board.values@) ==> exists|nodes: Seq<EvaluationNode>, k: int|
            frontier_of(nodes, *board, score_fn) && first_best(nodes, k) && nodes[k].dir == Some(d),
{
    if moves <= 0 {
        return MoveDir::Down;
    }
    let root = EvaluationNode { dir: None, board: *board, rank: 0 };
    let mut nodes: Vec<EvaluationNode> = vec![root];
    let mut expanded = false;
    let mut stop = false;
    let mut round: i32 = 0;
    while round < moves && !stop
        invariant
            nodes.len() > 0,
            0 <= round,
            board.fits(),
            root == (EvaluationNode { dir: None, board: *board, rank: 0 }),
            !expanded ==> nodes@ == seq![root],
            expanded ==> frontier_of(nodes@, *board, score_fn),
            forall|i: int| 0 <= i < nodes.len() ==> reached_from(#[trigger] nodes@[i], *board),
            stop ==> expanded || !any_move(board.values@),
            !stop && !expanded ==> round == 0,
            expanded ==> 0 < round <= moves,
        decreases moves - round + if stop {
            0int
        } else {
            1int
        },
    {
        let new_nodes = expand_scenarios(player, &nodes, score_fn, Ghost(*board));
        if new_nodes.len() == 0 {
            proof {
                if !expanded {
                    assert(nodes@[0] == root);
                }
            }
            stop = true;
        } else {
            nodes = new_nodes;
            expanded = true;
            round += 1;
        }
    }
    if !expanded {
        return MoveDir::Down;
    }
    match best_direction(&nodes) {
        Some(dir) => dir,
        None => MoveDir::Down,
    }
}

} // verus!
