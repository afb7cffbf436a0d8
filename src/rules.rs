//! The mathematical model of one line of the board.
//!
//! A line is read from its far edge (index 0) to its near edge (the last
//! index): a move slides every tile toward the near edge.
use vstd::prelude::*;

verus! {

/// The values of a sequence of machine integers, as mathematical integers.
pub open spec fn ints(s: Seq<i32>) -> Seq<int> {
    s.map_values(|x: i32| x as int)
}

/// Sum of a sequence.
pub open spec fn sum(s: Seq<int>) -> int
    decreases s.len(),
{
    if s.len() == 0 {
        0
    } else {
        sum(s.drop_last()) + s.last()
    }
}

/// Every element is non-negative.
pub open spec fn nonneg(s: Seq<int>) -> bool {
    forall|i: int| 0 <= i < s.len() ==> s[i] >= 0
}

/// Every element is non-zero.
pub open spec fn nonzero(s: Seq<int>) -> bool {
    forall|i: int| 0 <= i < s.len() ==> s[i] != 0
}

/// The non-empty cells of a line, in order: the line after compaction,
/// without its padding.
pub open spec fn tiles(s: Seq<int>) -> Seq<int>
    decreases s.len(),
{
    if s.len() == 0 {
        s
    } else if s.last() == 0 {
        tiles(s.drop_last())
    } else {
        tiles(s.drop_last()).push(s.last())
    }
}

/// Compacted tiles after one merge pass: equal neighbours are paired from the
/// near edge, each pair becoming one tile of twice the value; a tile takes
/// part in at most one merge.
pub open spec fn merge_tiles(t: Seq<int>) -> Seq<int>
    decreases t.len(),
{
    if t.len() < 2 {
        t
    } else if t.last() == t[t.len() - 2] {
        merge_tiles(t.subrange(0, t.len() - 2)).push(2 * t.last())
    } else {
        merge_tiles(t.drop_last()).push(t.last())
    }
}

/// The values of the tiles that the merge pass of `merge_tiles` creates.
pub open spec fn created_tiles(t: Seq<int>) -> Seq<int>
    decreases t.len(),
{
    if t.len() < 2 {
        Seq::empty()
    } else if t.last() == t[t.len() - 2] {
        created_tiles(t.subrange(0, t.len() - 2)).push(2 * t.last())
    } else {
        created_tiles(t.drop_last())
    }
}

/// `x` is a power of two no smaller than 2: a value a tile can hold.
pub open spec fn is_tile_value(x: int) -> bool
    decreases x,
{
    if x <= 2 {
        x == 2
    } else {
        x % 2 == 0 && is_tile_value(x / 2)
    }
}

/// Every cell is empty or holds a tile value.
pub open spec fn tile_values(s: Seq<int>) -> bool {
    forall|i: int| 0 <= i < s.len() ==> s[i] == 0 || is_tile_value(#[trigger] s[i])
}

/// A move can act on two neighbours `a` (farther) and `b` (nearer): `a` is a
/// tile and `b` is empty or holds a tile of the same value.
pub open spec fn movable_pair(a: int, b: int) -> bool {
    a != 0 && (b == 0 || a == b)
}

/// Some neighbouring pair of the line is movable.
pub open spec fn line_can_move(s: Seq<int>) -> bool {
    exists|j: int| 0 <= j < s.len() - 1 && #[trigger] movable_pair(s[j], s[j + 1])
}

/// Two neighbouring elements are equal.
pub open spec fn has_equal_neighbours(t: Seq<int>) -> bool {
    exists|j: int| 0 <= j < t.len() - 1 && #[trigger] t[j] == t[j + 1]
}

/// `n` empty cells.
pub open spec fn blanks(n: nat) -> Seq<int> {
    Seq::new(n, |i: int| 0int)
}

/// A line after a move toward its near edge: empty cells at the far edge,
/// then the merged tiles.
pub open spec fn reduce_line(s: Seq<int>) -> Seq<int> {
    let m = merge_tiles(tiles(s));
    blanks((s.len() - m.len()) as nat) + m
}

/// The score that a move earns on a line: the sum of the tiles its merges
/// create.
pub open spec fn line_gain(s: Seq<int>) -> int {
    sum(created_tiles(tiles(s)))
}

pub proof fn lemma_sum_push(s: Seq<int>, x: int)
    ensures
        sum(s.push(x)) == sum(s) + x,
{
    assert(s.push(x).drop_last() =~= s);
}

pub proof fn lemma_sum_concat(a: Seq<int>, b: Seq<int>)
    ensures
        sum(a + b) == sum(a) + sum(b),
    decreases b.len(),
{
    if b.len() == 0 {
        assert(a + b =~= a);
    } else {
        assert((a + b).drop_last() =~= a + b.drop_last());
        lemma_sum_concat(a, b.drop_last());
    }
}

pub proof fn lemma_sum_nonneg(s: Seq<int>)
    requires
        nonneg(s),
    ensures
        sum(s) >= 0,
    decreases s.len(),
{
    if s.len() > 0 {
        lemma_sum_nonneg(s.drop_last());
    }
}

/// An element of a non-negative sequence is at most its sum.
pub proof fn lemma_elem_le_sum(s: Seq<int>, i: int)
    requires
        nonneg(s),
        0 <= i < s.len(),
    ensures
        s[i] <= sum(s),
    decreases s.len(),
{
    if i < s.len() - 1 {
        lemma_elem_le_sum(s.drop_last(), i);
    } else {
        lemma_sum_nonneg(s.drop_last());
    }
}

/// Two distinct elements of a non-negative sequence add up to at most its sum.
pub proof fn lemma_pair_le_sum(s: Seq<int>, i: int, j: int)
    requires
        nonneg(s),
        0 <= i < j < s.len(),
    ensures
        s[i] + s[j] <= sum(s),
    decreases s.len(),
{
    if j < s.len() - 1 {
        lemma_pair_le_sum(s.drop_last(), i, j);
    } else {
        lemma_elem_le_sum(s.drop_last(), i);
    }
}

/// Compaction keeps the non-empty cells and their sum.
pub proof fn lemma_tiles(s: Seq<int>)
    ensures
        tiles(s).len() <= s.len(),
        nonzero(tiles(s)),
        nonneg(s) ==> nonneg(tiles(s)),
        sum(tiles(s)) == sum(s),
    decreases s.len(),
{
    if s.len() > 0 {
        lemma_tiles(s.drop_last());
        if s.last() != 0 {
            lemma_sum_push(tiles(s.drop_last()), s.last());
        }
    }
}

/// Merging keeps the sum, creates tiles worth at most that sum, and keeps
/// tiles non-empty.
pub proof fn lemma_merge(t: Seq<int>)
    requires
        nonneg(t),
    ensures
        merge_tiles(t).len() <= t.len(),
        nonneg(merge_tiles(t)),
        nonzero(t) ==> nonzero(merge_tiles(t)),
        sum(merge_tiles(t)) == sum(t),
        nonneg(created_tiles(t)),
        0 <= sum(created_tiles(t)) <= sum(t),
    decreases t.len(),
{
    if t.len() >= 2 {
        let n = t.len();
        if t.last() == t[n - 2] {
            let p = t.subrange(0, n - 2);
            lemma_merge(p);
            assert(t.drop_last().drop_last() =~= p);
            assert(sum(t.drop_last()) == sum(p) + t[n - 2]);
            assert(nonneg(created_tiles(p).push(2 * t.last())));
            lemma_sum_push(merge_tiles(p), 2 * t.last());
            lemma_sum_push(created_tiles(p), 2 * t.last());
        } else {
            let p = t.drop_last();
            lemma_merge(p);
            lemma_sum_push(merge_tiles(p), t.last());
            assert(nonneg(merge_tiles(p).push(t.last())));
        }
    } else if t.len() == 1 {
        assert(t.drop_last() =~= Seq::<int>::empty());
        assert(sum(t.drop_last()) == 0);
    }
}

pub proof fn lemma_sum4(s: Seq<int>)
    requires
        s.len() == 4,
    ensures
        sum(s) == s[0] + s[1] + s[2] + s[3],
{
    let s3 = s.drop_last();
    let s2 = s3.drop_last();
    let s1 = s2.drop_last();
    assert(sum(s1.drop_last()) == 0);
    assert(sum(s1) == s[0]);
    assert(sum(s2) == s[0] + s[1]);
    assert(sum(s3) == s[0] + s[1] + s[2]);
}

/// Sum of the first element and the rest.
pub proof fn lemma_sum_front(s: Seq<int>)
    requires
        s.len() > 0,
    ensures
        sum(s) == s[0] + sum(s.subrange(1, s.len() as int)),
{
    lemma_sum_concat(seq![s[0]], s.subrange(1, s.len() as int));
    assert(seq![s[0]] + s.subrange(1, s.len() as int) =~= s);
    assert(seq![s[0]].drop_last() =~= Seq::<int>::empty());
    assert(sum(Seq::<int>::empty()) == 0);
    assert(sum(seq![s[0]]) == s[0]);
}

/// Number of empty cells.
pub open spec fn blank_count(s: Seq<int>) -> nat
    decreases s.len(),
{
    if s.len() == 0 {
        0
    } else {
        blank_count(s.drop_last()) + if s.last() == 0 {
            1nat
        } else {
            0nat
        }
    }
}

/// A line with an empty cell has a positive count of them.
pub proof fn lemma_blank_count_pos(s: Seq<int>, i: int)
    requires
        0 <= i < s.len(),
        s[i] == 0,
    ensures
        blank_count(s) >= 1,
    decreases s.len(),
{
    if i < s.len() - 1 {
        lemma_blank_count_pos(s.drop_last(), i);
    }
}

/// Filling an empty cell leaves one empty cell fewer.
pub proof fn lemma_blank_count_fill(s: Seq<int>, i: int, x: int)
    requires
        0 <= i < s.len(),
        s[i] == 0,
        x != 0,
    ensures
        blank_count(s.update(i, x)) + 1 == blank_count(s),
    decreases s.len(),
{
    if i < s.len() - 1 {
        assert(s.update(i, x).drop_last() =~= s.drop_last().update(i, x));
        lemma_blank_count_fill(s.drop_last(), i, x);
    } else {
        assert(s.update(i, x).drop_last() =~= s.drop_last());
    }
}

/// Merging never leaves an empty cell among non-empty tiles.
pub proof fn lemma_merge_nonzero(t: Seq<int>)
    requires
        nonzero(t),
    ensures
        nonzero(merge_tiles(t)),
        merge_tiles(t).len() <= t.len(),
    decreases t.len(),
{
    if t.len() >= 2 {
        if t.last() == t[t.len() - 2] {
            lemma_merge_nonzero(t.subrange(0, t.len() - 2));
        } else {
            lemma_merge_nonzero(t.drop_last());
        }
    }
}

/// Merging shortens exactly the sequences that hold equal neighbours.
pub proof fn lemma_merge_shortens(t: Seq<int>)
    ensures
        merge_tiles(t).len() <= t.len(),
        has_equal_neighbours(t) ==> merge_tiles(t).len() < t.len(),
        !has_equal_neighbours(t) ==> merge_tiles(t) == t,
        !has_equal_neighbours(t) ==> created_tiles(t) == Seq::<int>::empty(),
    decreases t.len(),
{
    if t.len() >= 2 {
        let n = t.len();
        if t.last() == t[n - 2] {
            let p = t.subrange(0, n - 2);
            lemma_merge_shortens(p);
            assert(t[n - 2] == t[(n - 2) + 1]);
        } else {
            let p = t.drop_last();
            lemma_merge_shortens(p);
            if has_equal_neighbours(t) {
                let j = choose|j: int| 0 <= j < t.len() - 1 && #[trigger] t[j] == t[j + 1];
                assert(p[j] == p[j + 1]);
            }
            if !has_equal_neighbours(t) {
                assert forall|j: int| 0 <= j < p.len() - 1 implies #[trigger] p[j] != p[j + 1] by {
                    assert(t[j] != t[j + 1]);
                }
                assert(merge_tiles(p).push(t.last()) =~= t);
            }
        }
    }
}

/// Empty cells followed by tiles compact to those tiles.
pub proof fn lemma_tiles_of_compact(k: nat, m: Seq<int>)
    requires
        nonzero(m),
    ensures
        tiles(blanks(k) + m) == m,
    decreases m.len(), k,
{
    if m.len() > 0 {
        assert((blanks(k) + m).drop_last() =~= blanks(k) + m.drop_last());
        lemma_tiles_of_compact(k, m.drop_last());
        assert(m.drop_last().push(m.last()) =~= m);
    } else if k > 0 {
        assert((blanks(k) + m).drop_last() =~= blanks((k - 1) as nat) + m);
        lemma_tiles_of_compact((k - 1) as nat, m);
    } else {
        assert(blanks(k) + m =~= m);
    }
}

/// A line without a tile before an empty cell is its empty cells followed by
/// its tiles.
pub proof fn lemma_compact_form(s: Seq<int>)
    requires
        forall|j: int| 0 <= j < s.len() - 1 ==> !(#[trigger] s[j] != 0 && s[j + 1] == 0),
    ensures
        tiles(s).len() <= s.len(),
        s == blanks((s.len() - tiles(s).len()) as nat) + tiles(s),
    decreases s.len(),
{
    lemma_tiles(s);
    if s.len() > 0 {
        let p = s.drop_last();
        lemma_compact_form(p);
        lemma_tiles(p);
        let zp = (p.len() - tiles(p).len()) as nat;
        if s.last() == 0 {
            // Then every cell is empty.
            if tiles(p).len() > 0 {
                assert(p[p.len() - 1] == (blanks(zp) + tiles(p))[p.len() - 1]);
                assert(s[s.len() - 2] != 0 && s[s.len() - 1] == 0);
            }
            assert(tiles(s) == tiles(p));
            assert forall|i: int| 0 <= i < s.len() implies #[trigger] s[i] == 0 by {
                if i < p.len() {
                    assert(p[i] == (blanks(zp) + tiles(p))[i]);
                }
            }
            assert(s =~= blanks((s.len() - tiles(s).len()) as nat) + tiles(s));
        } else {
            assert(s =~= p.push(s.last()));
            assert((blanks(zp) + tiles(p)).push(s.last()) =~= blanks(zp) + tiles(p).push(s.last()));
        }
    }
}

/// A move leaves a line unchanged exactly when no neighbouring pair of it is
/// movable.
pub proof fn lemma_line_fixed(s: Seq<int>)
    ensures
        reduce_line(s) == s <==> !line_can_move(s),
        reduce_line(s) == s ==> line_gain(s) == 0,
{
    lemma_tiles(s);
    let t = tiles(s);
    lemma_merge_nonzero(t);
    lemma_merge_shortens(t);
    let m = merge_tiles(t);
    let z = (s.len() - m.len()) as nat;
    if !line_can_move(s) {
        assert forall|j: int| 0 <= j < s.len() - 1 implies !(#[trigger] s[j] != 0 && s[j + 1] == 0) by {
            assert(!movable_pair(s[j], s[j + 1]));
        }
        lemma_compact_form(s);
        let zt = (s.len() - t.len()) as nat;
        if has_equal_neighbours(t) {
            let j = choose|j: int| 0 <= j < t.len() - 1 && #[trigger] t[j] == t[j + 1];
            assert(s[zt + j] == t[j]);
            assert(s[zt + j + 1] == t[j + 1]);
            assert(movable_pair(s[zt + j], s[zt + j + 1]));
        }
        assert(sum(Seq::<int>::empty()) == 0);
    }
    if reduce_line(s) == s {
        lemma_tiles_of_compact(z, m);
        assert(tiles(s) == m);
        if line_can_move(s) {
            let j = choose|j: int| 0 <= j < s.len() - 1 && #[trigger] movable_pair(s[j], s[j + 1]);
            assert(s[j] == (blanks(z) + m)[j]);
            assert(j >= z);
            assert(s[j + 1] == m[j + 1 - z]);
            assert(m[j - z] == m[(j - z) + 1]);
            assert(has_equal_neighbours(m));
        }
    }
}

/// Reducing a line again changes nothing and earns nothing, provided its
/// first reduction left no two equal tiles side by side (a line such as
/// `[0, 2, 2, 4]` reduces to `[0, 0, 4, 4]`, which reduces further).
pub proof fn lemma_reduce_idempotent(s: Seq<int>)
    requires
        !has_equal_neighbours(merge_tiles(tiles(s))),
    ensures
        reduce_line(reduce_line(s)) == reduce_line(s),
        line_gain(reduce_line(s)) == 0,
{
    lemma_tiles(s);
    let m = merge_tiles(tiles(s));
    lemma_merge_nonzero(tiles(s));
    let z = (s.len() - m.len()) as nat;
    lemma_tiles_of_compact(z, m);
    lemma_merge_shortens(m);
    assert(reduce_line(s) == blanks(z) + m);
    assert(tiles(reduce_line(s)) == m);
    assert(sum(Seq::<int>::empty()) == 0);
}

/// Merging two tiles of a tile value makes a tile value.
pub proof fn lemma_double_tile_value(x: int)
    requires
        is_tile_value(x),
    ensures
        is_tile_value(2 * x),
{
    assert((2 * x) / 2 == x);
}

proof fn lemma_merge_tile_values(t: Seq<int>)
    requires
        forall|i: int| 0 <= i < t.len() ==> is_tile_value(#[trigger] t[i]),
    ensures
        forall|i: int| 0 <= i < merge_tiles(t).len() ==> is_tile_value(#[trigger] merge_tiles(t)[i]),
    decreases t.len(),
{
    if t.len() >= 2 {
        if t.last() == t[t.len() - 2] {
            let p = t.subrange(0, t.len() - 2);
            assert forall|i: int| 0 <= i < p.len() implies is_tile_value(#[trigger] p[i]) by {
                assert(p[i] == t[i]);
            }
            lemma_merge_tile_values(p);
            lemma_double_tile_value(t.last());
            let m = merge_tiles(t);
            assert forall|i: int| 0 <= i < m.len() implies is_tile_value(#[trigger] m[i]) by {
                if i < m.len() - 1 {
                    assert(m[i] == merge_tiles(p)[i]);
                }
            }
        } else {
            let p = t.drop_last();
            assert forall|i: int| 0 <= i < p.len() implies is_tile_value(#[trigger] p[i]) by {
                assert(p[i] == t[i]);
            }
            lemma_merge_tile_values(p);
            let m = merge_tiles(t);
            assert forall|i: int| 0 <= i < m.len() implies is_tile_value(#[trigger] m[i]) by {
                if i < m.len() - 1 {
                    assert(m[i] == merge_tiles(p)[i]);
                }
            }
        }
    }
}

proof fn lemma_tiles_tile_values(s: Seq<int>)
    requires
        tile_values(s),
    ensures
        forall|i: int| 0 <= i < tiles(s).len() ==> is_tile_value(#[trigger] tiles(s)[i]),
    decreases s.len(),
{
    if s.len() > 0 {
        let p = s.drop_last();
        assert forall|i: int| 0 <= i < p.len() implies p[i] == 0 || is_tile_value(#[trigger] p[i]) by {
            assert(p[i] == s[i]);
        }
        lemma_tiles_tile_values(p);
        let t = tiles(s);
        if s.last() != 0 {
            assert(s[s.len() - 1] == 0 || is_tile_value(s[s.len() - 1]));
            assert forall|i: int| 0 <= i < t.len() implies is_tile_value(#[trigger] t[i]) by {
                if i < t.len() - 1 {
                    assert(t[i] == tiles(p)[i]);
                }
            }
        }
    }
}

/// A move keeps every cell of a line empty or a tile value.
pub proof fn lemma_reduce_tile_values(s: Seq<int>)
    requires
        tile_values(s),
    ensures
        tile_values(reduce_line(s)),
{
    lemma_tiles(s);
    lemma_tiles_tile_values(s);
    lemma_merge_tile_values(tiles(s));
    lemma_merge_shortens(tiles(s));
    let m = merge_tiles(tiles(s));
    let z = (s.len() - m.len()) as nat;
    assert forall|i: int| 0 <= i < reduce_line(s).len() implies reduce_line(s)[i] == 0
        || is_tile_value(#[trigger] reduce_line(s)[i]) by {
        if i >= z {
            assert(reduce_line(s)[i] == m[i - z]);
        }
    }
}

/// A line is left as it is by a move exactly when each of its tiles has,
/// on its near side, a tile of another value; such a line earns nothing.
pub proof fn lemma_reduced_line(s: Seq<int>)
    ensures
        reduce_line(s) == s <==> forall|j: int|
            0 <= j < s.len() - 1 ==> (#[trigger] s[j] != 0 ==> s[j + 1] != 0 && s[j + 1] != s[j]),
        reduce_line(s) == s ==> line_gain(s) == 0,
{
    lemma_line_fixed(s);
    if line_can_move(s) {
        let j = choose|j: int| 0 <= j < s.len() - 1 && #[trigger] movable_pair(s[j], s[j + 1]);
        assert(!(s[j] != 0 ==> s[j + 1] != 0 && s[j + 1] != s[j]));
    } else {
        assert forall|j: int| 0 <= j < s.len() - 1 implies (#[trigger] s[j] != 0 ==> s[j + 1] != 0
            && s[j + 1] != s[j]) by {
            assert(!movable_pair(s[j], s[j + 1]));
        }
    }
}

proof fn lemma_created_positive(t: Seq<int>)
    requires
        forall|i: int| 0 <= i < t.len() ==> #[trigger] t[i] > 0,
    ensures
        merge_tiles(t).len() + created_tiles(t).len() == t.len(),
        forall|i: int| 0 <= i < created_tiles(t).len() ==> #[trigger] created_tiles(t)[i] > 0,
        created_tiles(t).len() > 0 ==> sum(created_tiles(t)) > 0,
    decreases t.len(),
{
    if t.len() >= 2 {
        let n = t.len();
        let p = if t.last() == t[n - 2] {
            t.subrange(0, n - 2)
        } else {
            t.drop_last()
        };
        assert forall|i: int| 0 <= i < p.len() implies #[trigger] p[i] > 0 by {
            assert(p[i] == t[i]);
        }
        lemma_created_positive(p);
        if t.last() == t[n - 2] {
            let c = created_tiles(t);
            assert(c == created_tiles(p).push(2 * t.last()));
            assert forall|i: int| 0 <= i < c.len() implies #[trigger] c[i] > 0 by {
                if i < c.len() - 1 {
                    assert(c[i] == created_tiles(p)[i]);
                }
            }
            lemma_sum_push(created_tiles(p), 2 * t.last());
            lemma_sum_nonneg(created_tiles(p));
        }
    }
}

/// Reducing a row whose reduction merged nothing returns it unchanged, with
/// no score, when its cells are tile values.
pub proof fn lemma_no_merge_reduced(s: Seq<int>)
    requires
        tile_values(s),
        line_gain(s) == 0,
    ensures
        reduce_line(reduce_line(s)) == reduce_line(s),
        line_gain(reduce_line(s)) == 0,
{
    lemma_tiles(s);
    lemma_tiles_tile_values(s);
    let t = tiles(s);
    assert forall|i: int| 0 <= i < t.len() implies #[trigger] t[i] > 0 by {
        assert(is_tile_value(t[i]));
    }
    lemma_created_positive(t);
    lemma_merge_shortens(t);
    lemma_reduce_idempotent(s);
}

/// A line that a move changes ends with an empty cell at its far edge.
pub proof fn lemma_changed_line_has_blank(s: Seq<int>)
    requires
        s.len() > 0,
        reduce_line(s) != s,
    ensures
        reduce_line(s)[0] == 0,
        merge_tiles(tiles(s)).len() < s.len(),
{
    lemma_tiles(s);
    let t = tiles(s);
    lemma_merge_shortens(t);
    if merge_tiles(t).len() == s.len() {
        // No empty cell and no equal neighbours: the line cannot move.
        lemma_compact_form_full(s);
        assert(t == s);
        assert(merge_tiles(t) == t);
        assert(blanks(0) + s =~= s);
    }
}

/// A line whose tiles fill it is its own compaction.
proof fn lemma_compact_form_full(s: Seq<int>)
    requires
        tiles(s).len() == s.len(),
    ensures
        tiles(s) == s,
    decreases s.len(),
{
    lemma_tiles(s);
    if s.len() > 0 {
        lemma_tiles(s.drop_last());
        if s.last() == 0 {
            assert(false);
        } else {
            lemma_compact_form_full(s.drop_last());
            assert(s.drop_last().push(s.last()) =~= s);
        }
    }
}

/// One step of the merge pass over the first `k` tiles of `t`.
pub proof fn lemma_merge_step(t: Seq<int>, k: int)
    requires
        0 < k <= t.len(),
    ensures
        k >= 2 && t[k - 1] == t[k - 2] ==> merge_tiles(t.subrange(0, k)) == merge_tiles(
            t.subrange(0, k - 2),
        ).push(2 * t[k - 1]) && created_tiles(t.subrange(0, k)) == created_tiles(
            t.subrange(0, k - 2),
        ).push(2 * t[k - 1]),
        !(k >= 2 && t[k - 1] == t[k - 2]) ==> merge_tiles(t.subrange(0, k)) == merge_tiles(
            t.subrange(0, k - 1),
        ).push(t[k - 1]) && created_tiles(t.subrange(0, k)) == created_tiles(
            t.subrange(0, k - 1),
        ),
{
    let p = t.subrange(0, k);
    if k >= 2 {
        assert(p.subrange(0, k - 2) =~= t.subrange(0, k - 2));
    }
    assert(p.drop_last() =~= t.subrange(0, k - 1));
    if k == 1 {
        assert(t.subrange(0, 0) =~= Seq::<int>::empty());
        assert(merge_tiles(p) == p);
        assert(merge_tiles(t.subrange(0, 0)).push(t[0]) =~= p);
    }
}

} // verus!
