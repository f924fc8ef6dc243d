//! A model of the playfield as rows of cells, and facts about counting and heights of cells.
use vstd::prelude::*;

verus! {

/// Number of filled cells.
pub open spec fn count_true(s: Seq<bool>) -> nat
    decreases s.len(),
{
    if s.len() == 0 {
        0
    } else {
        count_true(s.drop_last()) + if s.last() { 1nat } else { 0nat }
    }
}

/// One past the highest filled cell (counting from the bottom), or 0 when none is filled.
pub open spec fn height(s: Seq<bool>) -> nat
    decreases s.len(),
{
    if s.len() == 0 {
        0
    } else if s.last() {
        s.len()
    } else {
        height(s.drop_last())
    }
}

/// One past the highest empty cell, or 0 when none is empty.
pub open spec fn last_empty(s: Seq<bool>) -> nat
    decreases s.len(),
{
    if s.len() == 0 {
        0
    } else if !s.last() {
        s.len()
    } else {
        last_empty(s.drop_last())
    }
}

/// One past the highest empty cell below the highest filled cell of a column, or 0 when there
/// is no such cell.
pub open spec fn top_hole(s: Seq<bool>) -> nat {
    if height(s) == 0 {
        0
    } else {
        last_empty(s.take(height(s) - 1))
    }
}

/// Column `x` of a board given row by row from the bottom.
pub open spec fn column(g: Seq<Seq<bool>>, x: int) -> Seq<bool> {
    Seq::new(g.len(), |h: int| g[h][x])
}

/// The board that a grid read from the screen (top row first) shows, row by row from the
/// bottom, each row cut to the width of the top row.
pub open spec fn board_of(bits: Seq<Seq<bool>>) -> Seq<Seq<bool>> {
    Seq::new(bits.len(), |h: int| bits[bits.len() - 1 - h].take(bits[0].len() as int))
}

/// Every row of the grid is at least as long as the top one.
pub open spec fn rows_cover_top(bits: Seq<Seq<bool>>) -> bool {
    &&& bits.len() >= 1
    &&& forall|j: int| 0 <= j < bits.len() ==> #[trigger] bits[j].len() >= bits[0].len()
}

pub proof fn lemma_count_append(a: Seq<bool>, b: Seq<bool>)
    ensures
        count_true(a + b) == count_true(a) + count_true(b),
    decreases b.len(),
{
    if b.len() > 0 {
        lemma_count_append(a, b.drop_last());
        assert((a + b).drop_last() =~= a + b.drop_last());
    } else {
        assert(a + b =~= a);
    }
}

pub proof fn lemma_count_le_len(s: Seq<bool>)
    ensures
        count_true(s) <= s.len(),
        count_true(s) == s.len() ==> forall|i: int| 0 <= i < s.len() ==> #[trigger] s[i],
        (exists|i: int| 0 <= i < s.len() && !#[trigger] s[i]) ==> count_true(s) < s.len(),
    decreases s.len(),
{
    if s.len() > 0 {
        lemma_count_le_len(s.drop_last());
        assert forall|i: int| 0 <= i < s.len() - 1 implies s.drop_last()[i] == s[i] by {}
        if exists|i: int| 0 <= i < s.len() && !#[trigger] s[i] {
            let i = choose|i: int| 0 <= i < s.len() && !#[trigger] s[i];
            if i < s.len() - 1 {
                assert(!s.drop_last()[i]);
            }
        }
    }
}

pub proof fn lemma_count_update(s: Seq<bool>, i: int)
    requires
        0 <= i < s.len(),
        !s[i],
    ensures
        count_true(s.update(i, true)) == count_true(s) + 1,
    decreases s.len(),
{
    let t = s.update(i, true);
    if i == s.len() - 1 {
        assert(t.drop_last() =~= s.drop_last());
    } else {
        lemma_count_update(s.drop_last(), i);
        assert(t.drop_last() =~= s.drop_last().update(i, true));
    }
}

pub proof fn lemma_count_mono(a: Seq<bool>, b: Seq<bool>)
    requires
        a.len() == b.len(),
        forall|i: int| 0 <= i < a.len() && #[trigger] a[i] ==> b[i],
    ensures
        count_true(a) <= count_true(b),
    decreases a.len(),
{
    if a.len() > 0 {
        lemma_count_mono(a.drop_last(), b.drop_last());
    }
}

pub proof fn lemma_height_bounds(s: Seq<bool>)
    ensures
        height(s) <= s.len(),
        count_true(s) <= height(s),
        forall|i: int| height(s) <= i < s.len() ==> !#[trigger] s[i],
        height(s) > 0 ==> s[height(s) - 1],
    decreases s.len(),
{
    if s.len() > 0 {
        lemma_height_bounds(s.drop_last());
        if s.last() {
            lemma_count_le_len(s);
        } else {
            assert forall|i: int| height(s) <= i < s.len() implies !#[trigger] s[i] by {
                if i < s.len() - 1 {
                    assert(s.drop_last()[i] == s[i]);
                }
            }
        }
    }
}

/// The height is one past a filled cell above which every cell is empty.
pub proof fn lemma_height_at(s: Seq<bool>, k: int)
    requires
        0 <= k < s.len(),
        s[k],
        forall|i: int| k < i < s.len() ==> !#[trigger] s[i],
    ensures
        height(s) == k + 1,
    decreases s.len(),
{
    if k < s.len() - 1 {
        assert(!s[s.len() - 1]);
        lemma_height_at(s.drop_last(), k);
    }
}

pub proof fn lemma_height_zero(s: Seq<bool>)
    requires
        forall|i: int| 0 <= i < s.len() ==> !#[trigger] s[i],
    ensures
        height(s) == 0,
    decreases s.len(),
{
    if s.len() > 0 {
        lemma_height_zero(s.drop_last());
    }
}

/// Filling a cell at or above the height raises the height to one past that cell.
pub proof fn lemma_height_update(s: Seq<bool>, i: int)
    requires
        height(s) <= i < s.len(),
    ensures
        height(s.update(i, true)) == i + 1,
{
    lemma_height_bounds(s);
    let t = s.update(i, true);
    assert forall|j: int| i < j < t.len() implies !#[trigger] t[j] by {}
    lemma_height_at(t, i);
}

/// One past an empty cell above which every cell is filled.
pub proof fn lemma_last_empty_at(s: Seq<bool>, k: int)
    requires
        0 <= k < s.len(),
        !s[k],
        forall|i: int| k < i < s.len() ==> #[trigger] s[i],
    ensures
        last_empty(s) == k + 1,
    decreases s.len(),
{
    if k < s.len() - 1 {
        assert(s[s.len() - 1]);
        lemma_last_empty_at(s.drop_last(), k);
    }
}

pub proof fn lemma_last_empty_zero(s: Seq<bool>)
    requires
        forall|i: int| 0 <= i < s.len() ==> #[trigger] s[i],
    ensures
        last_empty(s) == 0,
    decreases s.len(),
{
    if s.len() > 0 {
        lemma_last_empty_zero(s.drop_last());
    }
}

pub proof fn lemma_count_zero(s: Seq<bool>)
    requires
        forall|i: int| 0 <= i < s.len() ==> !#[trigger] s[i],
    ensures
        count_true(s) == 0,
    decreases s.len(),
{
    if s.len() > 0 {
        lemma_count_zero(s.drop_last());
    }
}

/// The entries whose mark is not set, in order.
pub open spec fn keep_rows<A>(vals: Seq<A>, marks: Seq<bool>) -> Seq<A>
    decreases vals.len(),
{
    if vals.len() == 0 {
        Seq::empty()
    } else {
        let rest = keep_rows(vals.drop_last(), marks.drop_last());
        if marks.last() {
            rest
        } else {
            rest.push(vals.last())
        }
    }
}

/// The board without the marked rows, topped with as many empty rows of width `w` as were
/// removed.
pub open spec fn cleared_board(g: Seq<Seq<bool>>, marks: Seq<bool>, w: nat) -> Seq<Seq<bool>> {
    keep_rows(g, marks) + Seq::new(count_true(marks), |h: int| Seq::new(w, |x: int| false))
}

pub proof fn lemma_keep_rows_len<A>(vals: Seq<A>, marks: Seq<bool>)
    requires
        vals.len() == marks.len(),
    ensures
        keep_rows(vals, marks).len() == vals.len() - count_true(marks),
    decreases vals.len(),
{
    if vals.len() > 0 {
        lemma_keep_rows_len(vals.drop_last(), marks.drop_last());
    }
}

/// Keeping the unmarked entries commutes with mapping the entries.
pub proof fn lemma_keep_rows_map<A, B>(vals: Seq<A>, marks: Seq<bool>, f: spec_fn(A) -> B)
    requires
        vals.len() == marks.len(),
    ensures
        keep_rows(vals.map_values(f), marks) == keep_rows(vals, marks).map_values(f),
    decreases vals.len(),
{
    if vals.len() > 0 {
        lemma_keep_rows_map(vals.drop_last(), marks.drop_last(), f);
        assert(vals.map_values(f).drop_last() =~= vals.drop_last().map_values(f));
        if marks.last() {
        } else {
            assert(keep_rows(vals, marks).map_values(f) =~= keep_rows(vals.drop_last(), marks.drop_last()).map_values(f).push(f(vals.last())));
        }
    } else {
        assert(keep_rows(vals, marks).map_values(f) =~= Seq::<B>::empty());
    }
}

/// Removing marked cells that are all filled removes exactly that many filled cells.
pub proof fn lemma_keep_rows_count(s: Seq<bool>, marks: Seq<bool>)
    requires
        s.len() == marks.len(),
        forall|h: int| 0 <= h < s.len() && #[trigger] marks[h] ==> s[h],
    ensures
        count_true(keep_rows(s, marks)) + count_true(marks) == count_true(s),
    decreases s.len(),
{
    if s.len() > 0 {
        lemma_keep_rows_count(s.drop_last(), marks.drop_last());
        let rest = keep_rows(s.drop_last(), marks.drop_last());
        if !marks.last() {
            assert(rest.push(s.last()).drop_last() =~= rest);
        }
    }
}

/// Removing marked cells that are all filled lowers the height by at least their number, and
/// by exactly their number when the highest filled cell is not marked.
pub proof fn lemma_keep_rows_height(s: Seq<bool>, marks: Seq<bool>)
    requires
        s.len() == marks.len(),
        forall|h: int| 0 <= h < s.len() && #[trigger] marks[h] ==> s[h],
    ensures
        height(keep_rows(s, marks)) + count_true(marks) <= height(s),
        (height(s) == 0 || !marks[height(s) - 1]) ==> height(keep_rows(s, marks)) + count_true(marks) == height(s),
    decreases s.len(),
{
    if s.len() > 0 {
        let s1 = s.drop_last();
        let m1 = marks.drop_last();
        lemma_keep_rows_height(s1, m1);
        lemma_keep_rows_len(s1, m1);
        let rest = keep_rows(s1, m1);
        lemma_height_bounds(rest);
        lemma_height_bounds(s1);
        if s.last() {
            if !marks.last() {
                assert(rest.push(true).drop_last() =~= rest);
            }
        } else {
            assert(!marks.last());
            assert(rest.push(false).drop_last() =~= rest);
            if height(s) > 0 {
                lemma_height_bounds(s);
                assert(height(s) == height(s1));
                assert(marks[height(s) - 1] == m1[height(s) - 1]);
            }
        }
    }
}

/// Empty cells on top change neither the height nor the count.
pub proof fn lemma_append_empty(s: Seq<bool>, n: nat)
    ensures
        height(s + Seq::new(n, |h: int| false)) == height(s),
        count_true(s + Seq::new(n, |h: int| false)) == count_true(s),
    decreases n,
{
    let e = Seq::new(n, |h: int| false);
    lemma_count_zero(e);
    lemma_count_append(s, e);
    if n > 0 {
        lemma_append_empty(s, (n - 1) as nat);
        assert((s + e).drop_last() =~= s + Seq::new((n - 1) as nat, |h: int| false));
    } else {
        assert(s + e =~= s);
    }
}

/// Clearing full rows from a board: each row left keeps its cells and the new rows on top are
/// empty; each column loses one filled cell per cleared row, and its height drops by at least
/// the number of cleared rows, by exactly that number when its highest filled cell is not in a
/// cleared row.
pub proof fn lemma_cleared_board(g: Seq<Seq<bool>>, marks: Seq<bool>, w: nat)
    requires
        marks.len() == g.len(),
        forall|h: int| 0 <= h < g.len() ==> (#[trigger] g[h]).len() == w,
        forall|h: int| 0 <= h < g.len() && #[trigger] marks[h] ==> count_true(g[h]) == w,
    ensures
        cleared_board(g, marks, w).len() == g.len(),
        forall|h: int| 0 <= h < g.len() ==> (#[trigger] cleared_board(g, marks, w)[h]).len() == w,
        forall|t: int| 0 <= t < g.len() ==> count_true(#[trigger] cleared_board(g, marks, w)[t])
            == (keep_rows(g.map_values(|row: Seq<bool>| count_true(row) as int), marks)
                + Seq::new(count_true(marks), |h: int| 0int))[t],
        forall|x: int| 0 <= x < w ==> count_true(#[trigger] column(cleared_board(g, marks, w), x)) + count_true(marks)
            == count_true(column(g, x)),
        forall|x: int| 0 <= x < w ==> height(#[trigger] column(cleared_board(g, marks, w), x)) + count_true(marks)
            <= height(column(g, x)),
        forall|x: int| 0 <= x < w && (height(column(g, x)) == 0 || !marks[height(column(g, x)) - 1]) ==>
            height(#[trigger] column(cleared_board(g, marks, w), x)) + count_true(marks) == height(column(g, x)),
{
    let k = count_true(marks);
    let kept = keep_rows(g, marks);
    let cb = cleared_board(g, marks, w);
    let empty = Seq::new(w, |x: int| false);
    lemma_keep_rows_len(g, marks);
    lemma_count_le_len(marks);
    let f = |row: Seq<bool>| count_true(row) as int;
    lemma_keep_rows_map(g, marks, f);
    lemma_count_zero(empty);
    // every kept row is a row of the board
    assert forall|t: int| 0 <= t < kept.len() implies (#[trigger] kept[t]).len() == w by {
        let lens = |row: Seq<bool>| row.len() as int;
        lemma_keep_rows_map(g, marks, lens);
        assert(keep_rows(g.map_values(lens), marks)[t] == kept.map_values(lens)[t]);
        lemma_keep_rows_all(g.map_values(lens), marks, w as int);
    }
    assert forall|t: int| 0 <= t < g.len() implies count_true(#[trigger] cb[t])
        == (keep_rows(g.map_values(f), marks) + Seq::new(k, |h: int| 0int))[t] by {
        if t < kept.len() {
            assert(kept.map_values(f)[t] == f(kept[t]));
        } else {
            assert(cb[t] == empty);
        }
    }
    assert forall|x: int| 0 <= x < w implies {
        &&& count_true(#[trigger] column(cb, x)) + k == count_true(column(g, x))
        &&& height(column(cb, x)) + k <= height(column(g, x))
        &&& (height(column(g, x)) == 0 || !marks[height(column(g, x)) - 1]) ==> height(column(cb, x)) + k == height(column(g, x))
    } by {
        let fx = |row: Seq<bool>| row[x];
        let col = column(g, x);
        assert(g.map_values(fx) =~= col);
        lemma_keep_rows_map(g, marks, fx);
        assert(column(cb, x) =~= keep_rows(col, marks) + Seq::new(k, |h: int| false)) by {
            assert forall|t: int| 0 <= t < cb.len() implies column(cb, x)[t] == (keep_rows(col, marks) + Seq::new(k, |h: int| false))[t] by {
                if t < kept.len() {
                    assert(kept.map_values(fx)[t] == kept[t][x]);
                } else {
                    assert(cb[t] == empty);
                }
            }
        }
        assert forall|h: int| 0 <= h < col.len() && #[trigger] marks[h] implies col[h] by {
            lemma_count_le_len(g[h]);
            assert(g[h][x]);
        }
        lemma_append_empty(keep_rows(col, marks), k);
        lemma_keep_rows_count(col, marks);
        lemma_keep_rows_height(col, marks);
    }
}

/// When every entry equals `v`, so does every kept entry.
pub proof fn lemma_keep_rows_all(vals: Seq<int>, marks: Seq<bool>, v: int)
    requires
        vals.len() == marks.len(),
        forall|h: int| 0 <= h < vals.len() ==> #[trigger] vals[h] == v,
    ensures
        forall|t: int| 0 <= t < keep_rows(vals, marks).len() ==> #[trigger] keep_rows(vals, marks)[t] == v,
    decreases vals.len(),
{
    if vals.len() > 0 {
        lemma_keep_rows_all(vals.drop_last(), marks.drop_last(), v);
        let rest = keep_rows(vals.drop_last(), marks.drop_last());
        let kept = keep_rows(vals, marks);
        assert forall|t: int| 0 <= t < kept.len() implies #[trigger] kept[t] == v by {
            if t < rest.len() {
                assert(kept[t] == rest[t]);
            }
        }
    }
}

/// The column with the cells `lo..hi` filled.
pub open spec fn fill_range(s: Seq<bool>, lo: int, hi: int) -> Seq<bool> {
    Seq::new(s.len(), |h: int| s[h] || (lo <= h < hi))
}

/// Filling the cells `lo..hi`, at or above the height, raises the height to `hi` and adds
/// `hi - lo` filled cells.
pub proof fn lemma_fill_range(s: Seq<bool>, lo: int, hi: int)
    requires
        height(s) <= lo <= hi <= s.len(),
    ensures
        height(fill_range(s, lo, hi)) == if lo < hi { hi } else { height(s) as int },
        count_true(fill_range(s, lo, hi)) == count_true(s) + (hi - lo),
    decreases hi - lo,
{
    if lo == hi {
        assert(fill_range(s, lo, hi) =~= s);
    } else {
        lemma_fill_range(s, lo, hi - 1);
        let t = fill_range(s, lo, hi - 1);
        lemma_height_bounds(s);
        assert(!t[hi - 1]);
        assert(fill_range(s, lo, hi) =~= t.update(hi - 1, true));
        lemma_count_update(t, hi - 1);
        lemma_height_update(t, hi - 1);
    }
}

/// Filled cells of the first `n` rows of a board.
pub open spec fn rows_total(g: Seq<Seq<bool>>, n: int) -> int
    decreases n,
{
    if n <= 0 {
        0
    } else {
        rows_total(g, n - 1) + count_true(g[n - 1])
    }
}

/// Filled cells of the first `n` columns of a board.
pub open spec fn cols_total(g: Seq<Seq<bool>>, n: int) -> int
    decreases n,
{
    if n <= 0 {
        0
    } else {
        cols_total(g, n - 1) + count_true(column(g, n - 1))
    }
}

proof fn lemma_cols_total_last_row(g: Seq<Seq<bool>>, w: int, n: int)
    requires
        g.len() >= 1,
        0 <= n <= w,
        forall|h: int| 0 <= h < g.len() ==> (#[trigger] g[h]).len() == w,
    ensures
        cols_total(g, n) == cols_total(g.drop_last(), n) + count_true(g.last().take(n)),
    decreases n,
{
    if n > 0 {
        lemma_cols_total_last_row(g, w, n - 1);
        let x = n - 1;
        assert(column(g, x).drop_last() =~= column(g.drop_last(), x));
        assert(g.last().take(n).drop_last() =~= g.last().take(n - 1));
    } else {
        assert(g.last().take(0) =~= Seq::<bool>::empty());
    }
}

/// Counting the filled cells of a board row by row or column by column gives the same number.
pub proof fn lemma_rows_cols_total(g: Seq<Seq<bool>>, w: int)
    requires
        0 <= w,
        forall|h: int| 0 <= h < g.len() ==> (#[trigger] g[h]).len() == w,
    ensures
        rows_total(g, g.len() as int) == cols_total(g, w),
    decreases g.len(),
{
    if g.len() == 0 {
        lemma_cols_total_empty(g, w);
    } else {
        let gp = g.drop_last();
        lemma_rows_cols_total(gp, w);
        lemma_cols_total_last_row(g, w, w);
        assert(g.last().take(w) =~= g.last());
        assert(rows_total(gp, gp.len() as int) == rows_total(g, gp.len() as int)) by {
            lemma_rows_total_prefix(g, gp.len() as int);
        }
    }
}

proof fn lemma_cols_total_empty(g: Seq<Seq<bool>>, n: int)
    requires
        g.len() == 0,
    ensures
        cols_total(g, n) == 0,
    decreases n,
{
    if n > 0 {
        lemma_cols_total_empty(g, n - 1);
        assert(column(g, n - 1) =~= Seq::<bool>::empty());
    }
}

proof fn lemma_rows_total_prefix(g: Seq<Seq<bool>>, n: int)
    requires
        0 <= n < g.len(),
    ensures
        rows_total(g.drop_last(), n) == rows_total(g, n),
    decreases n,
{
    if n > 0 {
        lemma_rows_total_prefix(g, n - 1);
    }
}

/// A column whose filled cells all lie among `m` consecutive cells from `lo` has at most `m`
/// filled cells.
pub proof fn lemma_count_window(s: Seq<bool>, lo: int, m: int)
    requires
        0 <= m,
        forall|i: int| 0 <= i < s.len() && #[trigger] s[i] ==> lo <= i < lo + m,
    ensures
        count_true(s) <= m,
    decreases s.len(),
{
    if s.len() > 0 {
        let t = s.drop_last();
        let last = s.len() - 1;
        if s.last() {
            assert(lo <= last < lo + m);
            assert forall|i: int| 0 <= i < t.len() && #[trigger] t[i] implies lo <= i < lo + (last - lo) by {
                assert(s[i]);
            }
            lemma_count_window(t, lo, last - lo);
        } else {
            assert forall|i: int| 0 <= i < t.len() && #[trigger] t[i] implies lo <= i < lo + m by {
                assert(s[i]);
            }
            lemma_count_window(t, lo, m);
        }
    }
}

/// When every entry that is not marked is below `bound`, so is every kept entry.
pub proof fn lemma_keep_rows_below(vals: Seq<int>, marks: Seq<bool>, bound: int)
    requires
        vals.len() == marks.len(),
        forall|h: int| 0 <= h < vals.len() && !marks[h] ==> #[trigger] vals[h] < bound,
    ensures
        forall|t: int| 0 <= t < keep_rows(vals, marks).len() ==> #[trigger] keep_rows(vals, marks)[t] < bound,
    decreases vals.len(),
{
    if vals.len() > 0 {
        let vp = vals.drop_last();
        let mp = marks.drop_last();
        assert forall|h: int| 0 <= h < vp.len() && !mp[h] implies #[trigger] vp[h] < bound by {
            assert(vals[h] == vp[h] && marks[h] == mp[h]);
        }
        lemma_keep_rows_below(vp, mp, bound);
        let rest = keep_rows(vp, mp);
        let kept = keep_rows(vals, marks);
        assert forall|t: int| 0 <= t < kept.len() implies #[trigger] kept[t] < bound by {
            if t < rest.len() {
                assert(kept[t] == rest[t]);
            }
        }
    }
}

} // verus!
