//! The board, its directional geometry, and the transition engine.
use vstd::prelude::*;
use crate::rng::{below, seeded};
use crate::rules::{
    blank_count, blanks, created_tiles, has_equal_neighbours, ints, is_tile_value,
    lemma_blank_count_fill, lemma_blank_count_pos, lemma_changed_line_has_blank, lemma_line_fixed,
    lemma_merge, lemma_merge_shortens, lemma_merge_step, lemma_pair_le_sum, lemma_reduce_tile_values, lemma_sum4,
    lemma_sum_concat, lemma_sum_front, lemma_sum_nonneg, lemma_sum_push, lemma_tiles, line_can_move,
    line_gain, merge_tiles, movable_pair, nonneg, reduce_line, sum, tile_values, tiles,
};
use rand::rngs::SmallRng;

verus! {

/// A move: every tile slides toward the named edge.
#[derive(Copy, Clone, PartialEq, Eq, Structural, Debug)]
pub enum MoveDir {
    Up,
    Down,
    Left,
    Right,
}

/// Board index of the cell at position `pos` (0 = far edge, 3 = near edge)
/// of line `line` (a row for `Left`/`Right`, a column for `Up`/`Down`) when
/// the board is seen in the frame of a move toward `dir`.
pub open spec fn cell_index(dir: MoveDir, line: int, pos: int) -> int {
    match dir {
        MoveDir::Right => line * 4 + pos,
        MoveDir::Left => line * 4 + 3 - pos,
        MoveDir::Down => line + pos * 4,
        MoveDir::Up => line + (3 - pos) * 4,
    }
}

/// The line that board index `i` lies on, in the frame of `dir`.
pub open spec fn line_at(dir: MoveDir, i: int) -> int {
    match dir {
        MoveDir::Right | MoveDir::Left => i / 4,
        MoveDir::Down | MoveDir::Up => i % 4,
    }
}

/// The position of board index `i` on its line, in the frame of `dir`.
pub open spec fn pos_at(dir: MoveDir, i: int) -> int {
    match dir {
        MoveDir::Right => i % 4,
        MoveDir::Left => 3 - i % 4,
        MoveDir::Down => i / 4,
        MoveDir::Up => 3 - i / 4,
    }
}

/// Line `line` of the cells `v` in the frame of `dir`, far edge first.
pub open spec fn line_of(v: Seq<i32>, dir: MoveDir, line: int) -> Seq<int> {
    Seq::new(4, |k: int| v[cell_index(dir, line, k)] as int)
}

/// The cells after a move toward `dir`, before a new tile spawns.
pub open spec fn moved(v: Seq<i32>, dir: MoveDir) -> Seq<int> {
    Seq::new(16, |i: int| reduce_line(line_of(v, dir, line_at(dir, i)))[pos_at(dir, i)])
}

/// The score a move toward `dir` earns: the sum of the tiles its merges create.
pub open spec fn move_gain(v: Seq<i32>, dir: MoveDir) -> int {
    line_gain(line_of(v, dir, 0)) + line_gain(line_of(v, dir, 1)) + line_gain(line_of(v, dir, 2))
        + line_gain(line_of(v, dir, 3))
}

/// A move toward `dir` would change the cells `v`.
pub open spec fn can_move(v: Seq<i32>, dir: MoveDir) -> bool {
    exists|l: int| 0 <= l < 4 && #[trigger] line_can_move(line_of(v, dir, l))
}

/// Some move changes the cells `v`.
pub open spec fn any_move(v: Seq<i32>) -> bool {
    can_move(v, MoveDir::Up) || can_move(v, MoveDir::Down) || can_move(v, MoveDir::Left)
        || can_move(v, MoveDir::Right)
}

/// Some cell is empty.
pub open spec fn has_blank(v: Seq<i32>) -> bool {
    exists|i: int| 0 <= i < v.len() && v[i] == 0
}

/// The game is over: no cell is empty and no move changes the board.
pub open spec fn is_stuck(v: Seq<i32>) -> bool {
    &&& !has_blank(v)
    &&& !can_move(v, MoveDir::Up)
    &&& !can_move(v, MoveDir::Down)
    &&& !can_move(v, MoveDir::Left)
    &&& !can_move(v, MoveDir::Right)
}

/// Sum of all cells.
pub open spec fn total(v: Seq<i32>) -> int {
    sum(ints(v))
}

/// `after` is `before` with one empty cell given a new tile of 2 or 4.
pub open spec fn spawned_from(before: Seq<int>, after: Seq<int>) -> bool {
    exists|i: int|
        0 <= i < before.len() && before[i] == 0 && (after == before.update(i, 2) || after
            == before.update(i, 4))
}

/// A spawn fills exactly one empty cell.
pub proof fn lemma_spawn_fills(before: Seq<int>, after: Seq<int>)
    requires
        spawned_from(before, after),
    ensures
        blank_count(after) + 1 == blank_count(before),
{
    let i = choose|i: int|
        0 <= i < before.len() && before[i] == 0 && (after == before.update(i, 2) || after
            == before.update(i, 4));
    if after == before.update(i, 2) {
        lemma_blank_count_fill(before, i, 2);
    } else {
        lemma_blank_count_fill(before, i, 4);
    }
}

/// The frame of every move maps (line, position) one to one onto the cells.
pub proof fn lemma_frame(dir: MoveDir)
    ensures
        forall|l: int, k: int|
            0 <= l < 4 && 0 <= k < 4 ==> 0 <= #[trigger] cell_index(dir, l, k) < 16 && line_at(
                dir,
                cell_index(dir, l, k),
            ) == l && pos_at(dir, cell_index(dir, l, k)) == k,
        forall|i: int|
            0 <= i < 16 ==> 0 <= #[trigger] line_at(dir, i) < 4 && 0 <= pos_at(dir, i) < 4
                && cell_index(dir, line_at(dir, i), pos_at(dir, i)) == i,
{
}

/// The four lines of any frame hold every cell once: their sums add up to the
/// board's total.
pub proof fn lemma_line_sums(v: Seq<i32>, dir: MoveDir)
    requires
        v.len() == 16,
    ensures
        sum(line_of(v, dir, 0)) + sum(line_of(v, dir, 1)) + sum(line_of(v, dir, 2)) + sum(
            line_of(v, dir, 3),
        ) == total(v),
{
    let w = ints(v);
    lemma_sum4(line_of(v, dir, 0));
    lemma_sum4(line_of(v, dir, 1));
    lemma_sum4(line_of(v, dir, 2));
    lemma_sum4(line_of(v, dir, 3));
    let a = w.subrange(0, 4);
    let b = w.subrange(4, 8);
    let c = w.subrange(8, 12);
    let d = w.subrange(12, 16);
    lemma_sum4(a);
    lemma_sum4(b);
    lemma_sum4(c);
    lemma_sum4(d);
    lemma_sum_concat(a, b);
    lemma_sum_concat(a + b, c);
    lemma_sum_concat(a + b + c, d);
    assert(a + b + c + d =~= w);
}

/// Every line of a board that fits is non-negative, with a sum that fits.
pub proof fn lemma_fitting_lines(b: Board, dir: MoveDir)
    requires
        b.fits(),
    ensures
        forall|l: int|
            0 <= l < 4 ==> nonneg(#[trigger] line_of(b.values@, dir, l)) && 0 <= sum(
                line_of(b.values@, dir, l),
            ),
        sum(line_of(b.values@, dir, 0)) + sum(line_of(b.values@, dir, 1)) + sum(
            line_of(b.values@, dir, 2),
        ) + sum(line_of(b.values@, dir, 3)) == total(b.values@),
{
    lemma_frame(dir);
    lemma_line_sums(b.values@, dir);
    assert forall|l: int| 0 <= l < 4 implies nonneg(#[trigger] line_of(b.values@, dir, l)) && 0 <= sum(
        line_of(b.values@, dir, l),
    ) by {
        let s = line_of(b.values@, dir, l);
        assert forall|k: int| 0 <= k < 4 implies s[k] >= 0 by {
            assert(ints(b.values@)[cell_index(dir, l, k)] >= 0);
        }
        lemma_sum_nonneg(s);
    }
}

/// The total of a board is the sum of its sixteen cells.
pub proof fn lemma_total_cells(v: Seq<i32>)
    requires
        v.len() == 16,
    ensures
        total(v) == v[0] + v[1] + v[2] + v[3] + v[4] + v[5] + v[6] + v[7] + v[8] + v[9] + v[10]
            + v[11] + v[12] + v[13] + v[14] + v[15],
{
    lemma_line_sums(v, MoveDir::Right);
    lemma_sum4(line_of(v, MoveDir::Right, 0));
    lemma_sum4(line_of(v, MoveDir::Right, 1));
    lemma_sum4(line_of(v, MoveDir::Right, 2));
    lemma_sum4(line_of(v, MoveDir::Right, 3));
}

/// A move on a board that fits earns a non-negative score.
pub proof fn lemma_gain_nonneg(b: Board, dir: MoveDir)
    requires
        b.fits(),
    ensures
        move_gain(b.values@, dir) >= 0,
{
    lemma_fitting_lines(b, dir);
    assert forall|l: int| 0 <= l < 4 implies line_gain(#[trigger] line_of(b.values@, dir, l)) >= 0 by {
        lemma_tiles(line_of(b.values@, dir, l));
        lemma_merge(tiles(line_of(b.values@, dir, l)));
    }
}

/// Score comes from merges alone: a move none of whose compacted lines holds
/// two equal tiles side by side earns nothing, however far its tiles slide.
pub proof fn lemma_no_merge_no_gain(v: Seq<i32>, dir: MoveDir)
    requires
        forall|l: int| 0 <= l < 4 ==> !has_equal_neighbours(tiles(#[trigger] line_of(v, dir, l))),
    ensures
        move_gain(v, dir) == 0,
{
    assert forall|l: int| 0 <= l < 4 implies line_gain(#[trigger] line_of(v, dir, l)) == 0 by {
        lemma_merge_shortens(tiles(line_of(v, dir, l)));
        assert(sum(Seq::<int>::empty()) == 0);
    }
}

/// A move changes the cells exactly when it changes one of the lines.
pub proof fn lemma_moved_changes(v: Seq<i32>, dir: MoveDir)
    requires
        v.len() == 16,
    ensures
        moved(v, dir) != ints(v) <==> exists|l: int|
            0 <= l < 4 && reduce_line(#[trigger] line_of(v, dir, l)) != line_of(v, dir, l),
{
    lemma_frame(dir);
    if moved(v, dir) != ints(v) {
        if forall|l: int| 0 <= l < 4 ==> reduce_line(#[trigger] line_of(v, dir, l)) == line_of(v, dir, l) {
            assert(moved(v, dir) =~= ints(v));
        }
    }
    if exists|l: int| 0 <= l < 4 && reduce_line(#[trigger] line_of(v, dir, l)) != line_of(v, dir, l) {
        let l = choose|l: int| 0 <= l < 4 && reduce_line(#[trigger] line_of(v, dir, l)) != line_of(v, dir, l);
        let s = line_of(v, dir, l);
        lemma_tiles(s);
        lemma_changed_line_has_blank(s);
        assert(reduce_line(s).len() == 4);
        assert(!(reduce_line(s) =~= s));
        let k = choose|k: int| 0 <= k < 4 && reduce_line(s)[k] != s[k];
        assert(moved(v, dir)[cell_index(dir, l, k)] != ints(v)[cell_index(dir, l, k)]);
    }
}

/// `is_valid_move(dir)` holds exactly when a move toward `dir` changes the
/// cells, that is, exactly when `play_inplace` succeeds.
pub proof fn lemma_valid_iff_changes(v: Seq<i32>, dir: MoveDir)
    requires
        v.len() == 16,
    ensures
        can_move(v, dir) <==> moved(v, dir) != ints(v),
{
    lemma_moved_changes(v, dir);
    assert forall|l: int| 0 <= l < 4 implies (#[trigger] line_can_move(line_of(v, dir, l))
        <==> reduce_line(line_of(v, dir, l)) != line_of(v, dir, l)) by {
        lemma_line_fixed(line_of(v, dir, l));
    }
    if can_move(v, dir) {
        let l = choose|l: int| 0 <= l < 4 && #[trigger] line_can_move(line_of(v, dir, l));
        assert(reduce_line(line_of(v, dir, l)) != line_of(v, dir, l));
    }
    if moved(v, dir) != ints(v) {
        let l = choose|l: int|
            0 <= l < 4 && reduce_line(#[trigger] line_of(v, dir, l)) != line_of(v, dir, l);
        assert(line_can_move(line_of(v, dir, l)));
    }
}

/// `after` is what a successful move toward `dir` makes of `before`: the score
/// rises by the tiles the merges create, and one empty cell of the moved
/// cells receives a new tile.
pub open spec fn transition(before: Board, dir: MoveDir, after: Board) -> bool {
    &&& after.score == before.score + move_gain(before.values@, dir)
    &&& spawned_from(moved(before.values@, dir), ints(after.values@))
}

/// A successful move keeps every cell empty or a power of two no smaller
/// than 2.
pub proof fn lemma_transition_well_formed(before: Board, dir: MoveDir, after: Board)
    requires
        before.well_formed(),
        transition(before, dir, after),
    ensures
        after.well_formed(),
{
    let v = before.values@;
    let m = moved(v, dir);
    lemma_frame(dir);
    assert forall|i: int| 0 <= i < 16 implies m[i] == 0 || is_tile_value(#[trigger] m[i]) by {
        let l = line_at(dir, i);
        let s = line_of(v, dir, l);
        assert forall|k: int| 0 <= k < s.len() implies s[k] == 0 || is_tile_value(#[trigger] s[k]) by {
            assert(s[k] == ints(v)[cell_index(dir, l, k)]);
        }
        lemma_reduce_tile_values(s);
        lemma_tiles(s);
        lemma_merge(tiles(s));
    }
    let j = choose|j: int|
        0 <= j < m.len() && m[j] == 0 && (ints(after.values@) == m.update(j, 2) || ints(
            after.values@,
        ) == m.update(j, 4));
    assert(is_tile_value(2));
    assert(is_tile_value(4)) by {
        assert(4int / 2 == 2);
    }
    assert forall|i: int| 0 <= i < 16 implies ints(after.values@)[i] == 0 || is_tile_value(
        #[trigger] ints(after.values@)[i],
    ) by {
        if i != j {
            assert(ints(after.values@)[i] == m[i]);
        }
    }
}

/// Reduces one line toward its near edge (index 3): compaction, then one
/// merge pass from the near edge. Returns the new line and the score the
/// merges earn.
#[verifier::rlimit(30)]
pub fn reduce_row(row: [i32; 4]) -> (r: ([i32; 4], i32))
    requires
        nonneg(ints(row@)),
        sum(ints(row@)) <= i32::MAX,
    ensures
        ints(r.0@) == reduce_line(ints(row@)),
        r.1 == line_gain(ints(row@)),
{
    let ghost s = ints(row@);
    // Compaction: gather the non-empty cells, far edge first.
    let mut nz: [i32; 4] = [0, 0, 0, 0];
    let mut n: usize = 0;
    let mut i: usize = 0;
    while i < 4
        invariant
            i <= 4,
            n <= i,
            s == ints(row@),
            ints(nz@.subrange(0, n as int)) == tiles(s.subrange(0, i as int)),
        decreases 4 - i,
    {
        proof {
            assert(s.subrange(0, i + 1).drop_last() =~= s.subrange(0, i as int));
        }
        if row[i] != 0 {
            nz[n] = row[i];
            n += 1;
            assert(ints(nz@.subrange(0, n as int)) =~= tiles(s.subrange(0, i as int)).push(
                s[i as int],
            ));
        }
        i += 1;
    }
    let ghost t = ints(nz@.subrange(0, n as int));
    proof {
        assert(s.subrange(0, 4) =~= s);
        lemma_tiles(s);
        lemma_merge(t);
        assert(nonneg(t));
    }
    // Merge pass from the near edge, writing the result from the near edge.
    let mut out: [i32; 4] = [0, 0, 0, 0];
    let mut w: usize = 4;
    let mut k: usize = n;
    let mut gain: i32 = 0;
    let ghost mut suf: Seq<int> = Seq::empty();
    proof {
        assert(t.subrange(0, n as int) =~= t);
        assert(merge_tiles(t) + suf =~= merge_tiles(t));
    }
    while k > 0
        invariant
            k <= n <= 4,
            t == ints(nz@.subrange(0, n as int)),
            nonneg(t),
            sum(t) <= i32::MAX,
            merge_tiles(t).len() <= n,
            sum(created_tiles(t)) <= sum(t),
            suf.len() == 4 - w,
            merge_tiles(t) == merge_tiles(t.subrange(0, k as int)) + suf,
            sum(created_tiles(t)) == sum(created_tiles(t.subrange(0, k as int))) + gain,
            forall|j: int| 0 <= j < w ==> out[j] == 0,
            forall|j: int| w <= j < 4 ==> out[j] == suf[j - w],
        decreases k,
    {
        let ghost p = t.subrange(0, k as int);
        proof {
            lemma_merge(p);
            lemma_merge_step(t, k as int);
        }
        if k >= 2 && nz[k - 1] == nz[k - 2] {
            proof {
                lemma_pair_le_sum(t, k - 2, k - 1);
                lemma_merge(t.subrange(0, k - 2));
                lemma_sum_push(created_tiles(t.subrange(0, k - 2)), 2 * t[k - 1]);
            }
            w -= 1;
            out[w] = 2 * nz[k - 1];
            gain += out[w];
            k -= 2;
        } else {
            w -= 1;
            out[w] = nz[k - 1];
            k -= 1;
        }
        proof {
            suf = seq![out[w as int] as int] + suf;
            assert(merge_tiles(t) =~= merge_tiles(t.subrange(0, k as int)) + suf);
        }
    }
    proof {
        assert(t.subrange(0, 0) =~= Seq::<int>::empty());
        assert(ints(out@) =~= blanks(w as nat) + merge_tiles(t));
    }
    (out, gain)
}

/// A board's cells, borrowed and seen in the frame of a move toward `dir`.
pub struct DirectionalView<'a> {
    pub dir: MoveDir,
    pub values: &'a mut [i32; 16],
}

/// Line `row` of a `DirectionalView`.
pub struct LineView<'a> {
    pub dir: MoveDir,
    pub values: &'a mut [i32; 16],
    pub row: usize,
}

impl LineView<'_> {
    /// The cell at position `col` of line `row`, in this view's frame.
    pub fn cell(&self, row: usize, col: usize) -> (r: &i32)
        requires
            row < 4,
            col < 4,
        ensures
            *r == old(self.values)@[cell_index(self.dir, row as int, col as int)],
    {
        match self.dir {
            MoveDir::Right => &self.values[row * 4 + col],
            MoveDir::Left => &self.values[row * 4 + 3 - col],
            MoveDir::Down => &self.values[row + col * 4],
            MoveDir::Up => &self.values[row + (3 - col) * 4],
        }
    }

    /// The cell at position `col` of line `row`, in this view's frame, for
    /// writing.
    pub fn cell_mut(&mut self, row: usize, col: usize) -> (r: &mut i32)
        requires
            row < 4,
            col < 4,
        ensures
            *r == old(self).values@[cell_index(old(self).dir, row as int, col as int)],
            final(self).values@ == old(self).values@.update(
                cell_index(old(self).dir, row as int, col as int),
                *final(r),
            ),
            *final(final(self).values) == *final(old(self).values),
            final(self).dir == old(self).dir,
            final(self).row == old(self).row,
    {
        match self.dir {
            MoveDir::Right => &mut self.values[row * 4 + col],
            MoveDir::Left => &mut self.values[row * 4 + 3 - col],
            MoveDir::Down => &mut self.values[row + col * 4],
            MoveDir::Up => &mut self.values[row + (3 - col) * 4],
        }
    }
}

impl DirectionalView<'_> {
    /// The cell at position `col` of line `row`, in this view's frame, for
    /// writing.
    pub fn cell(&mut self, row: usize, col: usize) -> (r: &mut i32)
        requires
            row < 4,
            col < 4,
        ensures
            *r == old(self).values@[cell_index(old(self).dir, row as int, col as int)],
            final(self).values@ == old(self).values@.update(
                cell_index(old(self).dir, row as int, col as int),
                *final(r),
            ),
            *final(final(self).values) == *final(old(self).values),
            final(self).dir == old(self).dir,
    {
        match self.dir {
            MoveDir::Right => &mut self.values[row * 4 + col],
            MoveDir::Left => &mut self.values[row * 4 + 3 - col],
            MoveDir::Down => &mut self.values[row + col * 4],
            MoveDir::Up => &mut self.values[row + (3 - col) * 4],
        }
    }

    /// Line `row` of this view.
    pub fn line_view(&mut self, row: usize) -> (r: LineView)
        ensures
            r.dir == old(self).dir,
            r.row == row,
            r.values@ == old(self).values@,
            final(self).values@ == final(r.values)@,
            *final(final(self).values) == *final(old(self).values),
            final(self).dir == old(self).dir,
    {
        LineView { row, dir: self.dir, values: self.values }
    }
}

/// A 4x4 board, row-major, with the score accumulated by merges.
/// An empty cell holds 0.
#[derive(Copy, Clone, Debug)]
pub struct Board {
    pub values: [i32; 16],
    pub score: i32,
}

impl Default for Board {
    /// An empty board with no score.
    fn default() -> (b: Board)
        ensures
            forall|i: int| 0 <= i < 16 ==> #[trigger] b.values[i] == 0,
            b.score == 0,
    {
        Board { values: [0; 16], score: 0 }
    }
}

impl Board {
    /// Every cell is empty or holds a power of two no smaller than 2.
    pub open spec fn well_formed(&self) -> bool {
        tile_values(ints(self.values@))
    }

    /// Cells are non-negative and the score plus every tile on the board fits
    /// in an `i32`: no move can then overflow.
    pub open spec fn fits(&self) -> bool {
        &&& nonneg(ints(self.values@))
        &&& 0 <= self.score
        &&& self.score + total(self.values@) <= i32::MAX
    }

    /// Row `n`, left to right, or right to left when `reverse`.
    pub fn row(&self, n: usize, reverse: bool) -> (r: [i32; 4])
        requires
            n < 4,
        ensures
            forall|i: int|
                0 <= i < 4 ==> #[trigger] r[i] == self.values[if reverse {
                    n * 4 + 3 - i
                } else {
                    n * 4 + i
                }],
    {
        let mut r: [i32; 4] = [0, 0, 0, 0];
        let mut i: usize = 0;
        while i < 4
            invariant
                n < 4,
                i <= 4,
                forall|k: int|
                    0 <= k < i ==> #[trigger] r[k] == self.values[if reverse {
                        n * 4 + 3 - k
                    } else {
                        n * 4 + k
                    }],
            decreases 4 - i,
        {
            let src = if reverse {
                n * 4 + 3 - i
            } else {
                n * 4 + i
            };
            r[i] = self.values[src];
            i += 1;
        }
        r
    }

    /// Column `n`, top to bottom, or bottom to top when `reverse`.
    pub fn col(&self, n: usize, reverse: bool) -> (r: [i32; 4])
        requires
            n < 4,
        ensures
            forall|i: int|
                0 <= i < 4 ==> #[trigger] r[i] == self.values[if reverse {
                    n + (3 - i) * 4
                } else {
                    n + i * 4
                }],
    {
        let mut r: [i32; 4] = [0, 0, 0, 0];
        let mut i: usize = 0;
        while i < 4
            invariant
                n < 4,
                i <= 4,
                forall|k: int|
                    0 <= k < i ==> #[trigger] r[k] == self.values[if reverse {
                        n + (3 - k) * 4
                    } else {
                        n + k * 4
                    }],
            decreases 4 - i,
        {
            let src = if reverse {
                n + (3 - i) * 4
            } else {
                n + i * 4
            };
            r[i] = self.values[src];
            i += 1;
        }
        r
    }

    /// Writes row `n` from `value`, read left to right, or right to left
    /// when `reverse`.
    pub fn set_row(&mut self, n: usize, value: [i32; 4], reverse: bool)
        requires
            n < 4,
        ensures
            forall|i: int|
                0 <= i < 4 ==> final(self).values[if reverse {
                    n * 4 + 3 - i
                } else {
                    n * 4 + i
                }] == #[trigger] value[i],
            forall|j: int|
                0 <= j < 16 && j / 4 != n ==> #[trigger] final(self).values[j] == old(
                    self,
                ).values[j],
            final(self).score == old(self).score,
    {
        let mut i: usize = 0;
        while i < 4
            invariant
                n < 4,
                i <= 4,
                self.score == old(self).score,
                forall|k: int|
                    0 <= k < i ==> self.values[if reverse {
                        n * 4 + 3 - k
                    } else {
                        n * 4 + k
                    }] == #[trigger] value[k],
                forall|j: int|
                    0 <= j < 16 && (j / 4 != n || (if reverse {
                        3 - j % 4
                    } else {
                        j % 4
                    }) >= i) ==> #[trigger] self.values[j] == old(self).values[j],
            decreases 4 - i,
        {
            let dst = if reverse {
                n * 4 + 3 - i
            } else {
                n * 4 + i
            };
            self.values[dst] = value[i];
            i += 1;
        }
    }

    /// Writes column `n` from `value`, read top to bottom, or bottom to top
    /// when `reverse`.
    pub fn set_col(&mut self, n: usize, value: [i32; 4], reverse: bool)
        requires
            n < 4,
        ensures
            forall|i: int|
                0 <= i < 4 ==> final(self).values[if reverse {
                    n + (3 - i) * 4
                } else {
                    n + i * 4
                }] == #[trigger] value[i],
            forall|j: int|
                0 <= j < 16 && j % 4 != n ==> #[trigger] final(self).values[j] == old(
                    self,
                ).values[j],
            final(self).score == old(self).score,
    {
        let mut i: usize = 0;
        while i < 4
            invariant
                n < 4,
                i <= 4,
                self.score == old(self).score,
                forall|k: int|
                    0 <= k < i ==> self.values[if reverse {
                        n + (3 - k) * 4
                    } else {
                        n + k * 4
                    }] == #[trigger] value[k],
                forall|j: int|
                    0 <= j < 16 && (j % 4 != n || (if reverse {
                        3 - j / 4
                    } else {
                        j / 4
                    }) >= i) ==> #[trigger] self.values[j] == old(self).values[j],
            decreases 4 - i,
        {
            let dst = if reverse {
                n + (3 - i) * 4
            } else {
                n + i * 4
            };
            self.values[dst] = value[i];
            i += 1;
        }
    }

    /// Line `n` in the frame of a move toward `dir`, far edge first.
    pub fn directional_row(&self, n: usize, dir: MoveDir) -> (r: [i32; 4])
        requires
            n < 4,
        ensures
            forall|k: int| 0 <= k < 4 ==> #[trigger] r[k] == self.values[cell_index(dir, n as int, k)],
            ints(r@) == line_of(self.values@, dir, n as int),
    {
        let r = match dir {
            MoveDir::Up => self.col(n, true),
            MoveDir::Down => self.col(n, false),
            MoveDir::Left => self.row(n, true),
            MoveDir::Right => self.row(n, false),
        };
        assert(ints(r@) =~= line_of(self.values@, dir, n as int));
        r
    }

    /// Whether a move toward `dir` would change the board: some tile has an
    /// empty cell or a tile of its own value next to it on the near side.
    pub fn is_valid_move(&self, dir: MoveDir) -> (r: bool)
        ensures
            r == can_move(self.values@, dir),
    {
        let mut i: usize = 0;
        while i < 4
            invariant
                i <= 4,
                forall|l: int| 0 <= l < i ==> !#[trigger] line_can_move(line_of(self.values@, dir, l)),
            decreases 4 - i,
        {
            let row = self.directional_row(i, dir);
            let ghost s = line_of(self.values@, dir, i as int);
            let mut j: usize = 0;
            while j < 3
                invariant
                    j <= 3,
                    i < 4,
                    s == ints(row@),
                    s == line_of(self.values@, dir, i as int),
                    forall|m: int| 0 <= m < j ==> !#[trigger] movable_pair(s[m], s[m + 1]),
                decreases 3 - j,
            {
                if row[j] != 0 && (row[j + 1] == 0 || row[j] == row[j + 1]) {
                    assert(movable_pair(s[j as int], s[j + 1]));
                    assert(line_can_move(line_of(self.values@, dir, i as int)));
                    return true;
                }
                j += 1;
            }
            i += 1;
        }
        false
    }

    /// Whether the game is over: no empty cell and no move changes the board.
    pub fn stuck(&self) -> (r: bool)
        ensures
            r == is_stuck(self.values@),
    {
        let mut i: usize = 0;
        while i < 16
            invariant
                i <= 16,
                forall|k: int| 0 <= k < i ==> #[trigger] self.values[k] != 0,
            decreases 16 - i,
        {
            if self.values[i] == 0 {
                return false;
            }
            i += 1;
        }
        !(self.is_valid_move(MoveDir::Up) || self.is_valid_move(MoveDir::Down)
            || self.is_valid_move(MoveDir::Left) || self.is_valid_move(MoveDir::Right))
    }

    /// Whether the board satisfies `fits`, so that a move on it cannot
    /// overflow.
    pub fn has_room(&self) -> (r: bool)
        ensures
            r == self.fits(),
    {
        if self.score < 0 {
            return false;
        }
        let ghost v = ints(self.values@);
        let mut acc: i64 = 0;
        let mut i: usize = 0;
        while i < 16
            invariant
                i <= 16,
                v == ints(self.values@),
                nonneg(v.subrange(0, i as int)),
                acc == sum(v.subrange(0, i as int)),
                0 <= acc <= i * i32::MAX,
            decreases 16 - i,
        {
            if self.values[i] < 0 {
                assert(v[i as int] < 0);
                return false;
            }
            proof {
                assert(v.subrange(0, i + 1).drop_last() =~= v.subrange(0, i as int));
            }
            acc += self.values[i] as i64;
            i += 1;
        }
        assert(v.subrange(0, 16) =~= v);
        acc + self.score as i64 <= i32::MAX as i64
    }

    /// The cells of this board, borrowed in the frame of a move toward `dir`.
    pub fn directional_view(&mut self, dir: MoveDir) -> (r: DirectionalView)
        ensures
            r.dir == dir,
            r.values@ == old(self).values@,
            final(self).values@ == final(r.values)@,
            final(self).score == old(self).score,
    {
        DirectionalView { dir, values: &mut self.values }
    }

    /// Writes line `n` of the frame of `dir` from `value`, far edge first.
    fn set_directional_row(&mut self, n: usize, value: [i32; 4], dir: MoveDir)
        requires
            n < 4,
        ensures
            forall|k: int|
                0 <= k < 4 ==> final(self).values[cell_index(dir, n as int, k)] == #[trigger] value[k],
            forall|j: int|
                0 <= j < 16 && line_at(dir, j) != n ==> #[trigger] final(self).values[j] == old(
                    self,
                ).values[j],
            final(self).score == old(self).score,
    {
        match dir {
            MoveDir::Up => self.set_col(n, value, true),
            MoveDir::Down => self.set_col(n, value, false),
            MoveDir::Left => self.set_row(n, value, true),
            MoveDir::Right => self.set_row(n, value, false),
        }
    }

    /// An empty board with no score.
    pub fn blank() -> (b: Board)
        ensures
            forall|i: int| 0 <= i < 16 ==> #[trigger] b.values[i] == 0,
            b.score == 0,
    {
        Board { values: [0; 16], score: 0 }
    }

    /// The starting board: a single 2 in the top-left corner, no score.
    pub fn init() -> (b: Board)
        ensures
            b.values[0] == 2,
            forall|i: int| 1 <= i < 16 ==> #[trigger] b.values[i] == 0,
            b.score == 0,
            b.fits(),
            b.well_formed(),
            has_blank(b.values@),
    {
        let b = Board { values: [2, 0, 0, 0, 0, 0, 0, 0, 0, 0, 0, 0, 0, 0, 0, 0], score: 0 };
        proof {
            lemma_total_cells(b.values@);
            assert(b.values@[1] == 0);
        }
        b
    }
}

/// Reduces the line of `row` in place toward its near edge, as `reduce_row`
/// does, and returns the score its merges earn.
pub fn reduce_row_inplace(row: &mut LineView) -> (r: i32)
    requires
        old(row).row < 4,
        nonneg(line_of(old(row).values@, old(row).dir, old(row).row as int)),
        sum(line_of(old(row).values@, old(row).dir, old(row).row as int)) <= i32::MAX,
    ensures
        r == line_gain(line_of(old(row).values@, old(row).dir, old(row).row as int)),
        forall|k: int|
            0 <= k < 4 ==> final(row).values@[cell_index(old(row).dir, old(row).row as int, k)]
                == #[trigger] reduce_line(line_of(old(row).values@, old(row).dir, old(row).row as int))[k],
        forall|j: int|
            0 <= j < 16 && line_at(old(row).dir, j) != old(row).row ==> #[trigger] final(row).values@[j]
                == old(row).values@[j],
        *final(final(row).values) == *final(old(row).values),
        final(row).dir == old(row).dir,
        final(row).row == old(row).row,
{
    let ghost s = line_of(row.values@, row.dir, row.row as int);
    let n = row.row;
    let line = [*row.cell(n, 0), *row.cell(n, 1), *row.cell(n, 2), *row.cell(n, 3)];
    assert(ints(line@) =~= s);
    let (new_line, gain) = reduce_row(line);
    *row.cell_mut(n, 0) = new_line[0];
    *row.cell_mut(n, 1) = new_line[1];
    *row.cell_mut(n, 2) = new_line[2];
    *row.cell_mut(n, 3) = new_line[3];
    proof {
        lemma_frame(row.dir);
        assert(ints(new_line@)[0] == reduce_line(s)[0]);
        assert(ints(new_line@)[1] == reduce_line(s)[1]);
        assert(ints(new_line@)[2] == reduce_line(s)[2]);
        assert(ints(new_line@)[3] == reduce_line(s)[3]);
    }
    gain
}

/// One game's random source, owned by that game alone.
pub struct GamePlayer {
    pub rng: SmallRng,
}

impl GamePlayer {
    /// A player whose random draws are fixed by `seed`.
    pub fn from_seed(seed: u64) -> GamePlayer {
        GamePlayer { rng: seeded(seed) }
    }

    /// The board after a move toward `dir` and a tile spawn, or an error when
    /// the move changes nothing.
    pub fn play(&mut self, b: &Board, dir: MoveDir) -> (r: Result<Board, String>)
        requires
            b.fits(),
        ensures
            (r is Ok) <==> moved(b.values@, dir) != ints(b.values@),
            r is Ok ==> transition(*b, dir, r->Ok_0),
            r is Err ==> r->Err_0@ == "Invalid move"@ && *final(self) == *old(self),
    {
        let mut new_board = *b;
        match self.play_inplace(&mut new_board, dir) {
            Ok(_) => Ok(new_board),
            Err(message) => Err(message),
        }
    }

    /// `play_inplace` with this player's random source.
    pub fn play_inplace(&mut self, b: &mut Board, dir: MoveDir) -> (r: Result<bool, String>)
        requires
            old(b).fits(),
        ensures
            (r is Ok) <==> moved(old(b).values@, dir) != ints(old(b).values@),
            r is Ok ==> r == Ok::<bool, String>(true) && transition(*old(b), dir, *final(b)),
            r is Err ==> *final(b) == *old(b),
            r is Err ==> r->Err_0@ == "Invalid move"@ && *final(self) == *old(self),
    {
        play_inplace(b, dir, &mut self.rng)
    }
}

/// `idx` is the empty cell of `v` preceded, in row-major order, by exactly
/// `k` other empty cells.
pub open spec fn nth_blank_at(v: Seq<int>, idx: int, k: int) -> bool {
    &&& 0 <= idx < v.len()
    &&& v[idx] == 0
    &&& blank_count(v.subrange(0, idx)) == k
}

/// The tile a spawn places for a draw `c` in `0..10`: 2 for nine draws of
/// ten, 4 for the last.
pub open spec fn spawn_value(c: int) -> int {
    if c < 9 {
        2
    } else {
        4
    }
}

/// Number of empty cells.
pub fn count_blanks(values: &[i32; 16]) -> (n: u32)
    ensures
        n == blank_count(ints(values@)),
        n <= 16,
{
    let ghost w = ints(values@);
    let mut n: u32 = 0;
    let mut i: usize = 0;
    while i < 16
        invariant
            i <= 16,
            w == ints(values@),
            n == blank_count(w.subrange(0, i as int)),
            n <= i,
        decreases 16 - i,
    {
        proof {
            assert(w.subrange(0, i + 1).drop_last() =~= w.subrange(0, i as int));
        }
        if values[i] == 0 {
            n += 1;
        }
        i += 1;
    }
    assert(w.subrange(0, 16) =~= w);
    n
}

/// Index of the empty cell preceded by exactly `k` other empty cells.
fn nth_blank(values: &[i32; 16], k: u32) -> (idx: usize)
    requires
        k < blank_count(ints(values@)),
    ensures
        nth_blank_at(ints(values@), idx as int, k as int),
{
    let ghost v = ints(values@);
    let mut remaining: u32 = k;
    let mut i: usize = 0;
    while i < 16
        invariant
            i <= 16,
            v == ints(values@),
            remaining + blank_count(v.subrange(0, i as int)) == k,
            k < blank_count(v),
        decreases 16 - i,
    {
        proof {
            assert(v.subrange(0, i + 1).drop_last() =~= v.subrange(0, i as int));
        }
        if values[i] == 0 {
            if remaining == 0 {
                return i;
            }
            remaining -= 1;
        }
        i += 1;
    }
    proof {
        assert(v.subrange(0, 16) =~= v);
    }
    0
}

/// Places a new tile from two draws: `blank_choice` picks the empty cell
/// (counting empty cells in row-major order from 0) and `value_choice`, a
/// draw in `0..10`, picks a 2 or, for 9, a 4. Returns the cell's index.
pub fn spawn_tile(b: &mut Board, blank_choice: u32, value_choice: u32) -> (idx: usize)
    requires
        blank_choice < blank_count(ints(old(b).values@)),
    ensures
        nth_blank_at(ints(old(b).values@), idx as int, blank_choice as int),
        ints(final(b).values@) == ints(old(b).values@).update(
            idx as int,
            spawn_value(value_choice as int),
        ),
        final(b).score == old(b).score,
{
    let idx = nth_blank(&b.values, blank_choice);
    if value_choice < 9 {
        b.values[idx] = 2;
    } else {
        b.values[idx] = 4;
    }
    assert(ints(b.values@) =~= ints(old(b).values@).update(
        idx as int,
        spawn_value(value_choice as int),
    ));
    idx
}

/// Moves every tile of `b` toward `dir`, merging equal neighbours, and then
/// spawns a 2 (nine times in ten) or a 4 in an empty cell chosen uniformly by
/// `rng`. When the move changes nothing, returns an error and leaves `b`
/// untouched.
pub fn play_inplace(b: &mut Board, dir: MoveDir, rng: &mut SmallRng) -> (r: Result<bool, String>)
    requires
        old(b).fits(),
    ensures
        (r is Ok) <==> moved(old(b).values@, dir) != ints(old(b).values@),
        r is Ok ==> r == Ok::<bool, String>(true),
        r is Ok ==> transition(*old(b), dir, *final(b)),
        r is Ok ==> exists|k: int, c: int, idx: int|
            0 <= c < 10 && nth_blank_at(moved(old(b).values@, dir), idx, k) && ints(
                final(b).values@,
            ) == moved(old(b).values@, dir).update(idx, spawn_value(c)),
        r is Err ==> *final(b) == *old(b),
        r is Err ==> r->Err_0@ == "Invalid move"@,
        r is Err ==> *final(rng) == *old(rng),
{
    let ghost v0 = b.values@;
    let mut nb: Board = *b;
    let mut changed = false;
    let ghost mut gains: Seq<int> = Seq::empty();
    let ghost line_sums = seq![
        sum(line_of(v0, dir, 0)),
        sum(line_of(v0, dir, 1)),
        sum(line_of(v0, dir, 2)),
        sum(line_of(v0, dir, 3)),
    ];
    proof {
        lemma_frame(dir);
        lemma_fitting_lines(*b, dir);
        lemma_sum4(line_sums);
        assert(line_sums.subrange(0, 4) =~= line_sums);
    }
    let mut l: usize = 0;
    while l < 4
        invariant
            l <= 4,
            v0.len() == 16,
            line_sums == seq![
                sum(line_of(v0, dir, 0)),
                sum(line_of(v0, dir, 1)),
                sum(line_of(v0, dir, 2)),
                sum(line_of(v0, dir, 3)),
            ],
            forall|m: int| 0 <= m < 4 ==> nonneg(#[trigger] line_of(v0, dir, m)) && 0 <= sum(line_of(v0, dir, m)),
            forall|j: int| 0 <= j < 16 ==> 0 <= #[trigger] line_at(dir, j) < 4 && 0 <= pos_at(dir, j) < 4
                && cell_index(dir, line_at(dir, j), pos_at(dir, j)) == j,
            forall|m: int, k: int| 0 <= m < 4 && 0 <= k < 4 ==> 0 <= #[trigger] cell_index(dir, m, k) < 16
                && line_at(dir, cell_index(dir, m, k)) == m && pos_at(dir, cell_index(dir, m, k)) == k,
            gains.len() == l,
            0 <= old(b).score,
            forall|m: int| 0 <= m < l ==> #[trigger] gains[m] == line_gain(line_of(v0, dir, m)),
            nb.score == old(b).score + sum(gains),
            0 <= sum(gains),
            old(b).score + sum(gains) + sum(line_sums.subrange(l as int, 4)) <= i32::MAX,
            forall|j: int|
                0 <= j < 16 && line_at(dir, j) < l ==> #[trigger] nb.values[j] == moved(v0, dir)[j],
            forall|j: int| 0 <= j < 16 && line_at(dir, j) >= l ==> #[trigger] nb.values[j] == v0[j],
            changed <==> exists|m: int|
                0 <= m < l && reduce_line(#[trigger] line_of(v0, dir, m)) != line_of(v0, dir, m),
        decreases 4 - l,
    {
        let line = nb.directional_row(l, dir);
        let ghost s = line_of(v0, dir, l as int);
        proof {
            assert(line_of(nb.values@, dir, l as int) =~= s);
            lemma_tiles(s);
            lemma_merge(tiles(s));
            lemma_sum_front(line_sums.subrange(l as int, 4));
            assert(line_sums.subrange(l as int, 4).subrange(1, 4 - l as int) =~= line_sums.subrange(
                l + 1,
                4,
            ));
            assert(nonneg(line_sums.subrange(l + 1, 4)));
            lemma_sum_nonneg(line_sums.subrange(l + 1, 4));
        }
        let (new_line, gain) = reduce_row(line);
        if line[0] != new_line[0] || line[1] != new_line[1] || line[2] != new_line[2] || line[3]
            != new_line[3] {
            changed = true;
            proof {
                if reduce_line(s) == s {
                    assert(ints(new_line@)[0] == ints(line@)[0]);
                    assert(ints(new_line@)[1] == ints(line@)[1]);
                    assert(ints(new_line@)[2] == ints(line@)[2]);
                    assert(ints(new_line@)[3] == ints(line@)[3]);
                }
            }
        } else {
            proof {
                assert(reduce_line(s) =~= s);
            }
        }
        nb.set_directional_row(l, new_line, dir);
        proof {
            lemma_sum_push(gains, gain as int);
            gains = gains.push(gain as int);
        }
        nb.score = nb.score + gain;
        l += 1;
    }
    proof {
        lemma_moved_changes(v0, dir);
        lemma_sum4(gains);
        assert(nb.values@.len() == 16);
    }
    if !changed {
        proof {
            assert(moved(v0, dir) =~= ints(v0));
            reveal_strlit("Invalid move");
        }
        return Err(String::from_str("Invalid move"));
    }
    // A changed line ends with an empty cell at its far edge.
    let ghost lc = choose|m: int| 0 <= m < 4 && reduce_line(#[trigger] line_of(v0, dir, m)) != line_of(v0, dir, m);
    proof {
        lemma_changed_line_has_blank(line_of(v0, dir, lc));
        assert(nb.values[cell_index(dir, lc, 0)] == 0);
        assert(ints(nb.values@) =~= moved(v0, dir));
    }
    let ghost w = ints(nb.values@);
    let zero_count = count_blanks(&nb.values);
    proof {
        lemma_blank_count_pos(w, cell_index(dir, lc, 0));
    }
    let blank_choice = below(rng, zero_count);
    let value_choice = below(rng, 10);
    let set_idx = spawn_tile(&mut nb, blank_choice, value_choice);
    proof {
        assert(ints(nb.values@)[set_idx as int] == 2 || ints(nb.values@)[set_idx as int] == 4);
        assert(ints(nb.values@) == w.update(set_idx as int, 2) || ints(nb.values@) == w.update(
            set_idx as int,
            4,
        ));
    }
    *b = nb;
    Ok(true)
}

} // verus!
