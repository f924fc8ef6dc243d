//! Row and column summaries of the playfield, and the effect of dropping a tetromino on them.
use vstd::prelude::*;
use crate::board::{
    board_of, rows_total, cols_total, lemma_rows_cols_total, lemma_count_window, lemma_keep_rows_below, column, count_true, height, lemma_count_append, lemma_count_le_len, lemma_count_mono,
    lemma_count_update, lemma_count_zero, lemma_height_at, keep_rows, lemma_keep_rows_len, cleared_board, lemma_cleared_board, fill_range, lemma_fill_range, lemma_height_bounds, lemma_height_update, lemma_height_zero,
    lemma_last_empty_at, lemma_last_empty_zero, rows_cover_top, top_hole,
};
use crate::colr::TetrColr;
use crate::constants::YCNT;
use crate::tetr::{
    is_piece, lemma_piece_rotations, lemma_piece_size, lemma_same_turns_cols, piece_cols, piece_size_upto, rotation_cols,
    same_turns,
};

verus! {

/// The cells of a grid of booleans, row by row.
pub open spec fn bits_view(v: Vec<Vec<bool>>) -> Seq<Seq<bool>> {
    v@.map_values(|r: Vec<bool>| r@)
}

/// Summary of the playfield: one entry per row (from the bottom) and one per column.
#[derive(Debug, Clone)]
pub struct BitsDes {
    pub rd: Vec<BitsRowDes>,
    pub cd: Vec<BitsColDes>,
}

/// Summary of one column: its height, its number of filled cells, and one past its highest
/// empty cell under the highest filled one (0 when there is none).
#[derive(Clone, Copy, Debug)]
pub struct BitsColDes {
    pub len: u32,
    pub cnt: u32,
    pub first_hole: i32,
}

/// Summary of one row: its number of filled cells.
#[derive(Clone, Copy, Debug)]
pub struct BitsRowDes {
    pub cnt: u32,
}

/// The summary gives, for the board `g` (rows from the bottom), the number of filled cells of
/// each row, and the height and number of filled cells of each column.
pub open spec fn describes_board(bd: BitsDes, g: Seq<Seq<bool>>) -> bool {
    &&& g.len() == bd.rd@.len()
    &&& forall|h: int| 0 <= h < g.len() ==> (#[trigger] g[h]).len() == bd.cd@.len()
    &&& forall|h: int| 0 <= h < g.len() ==> (#[trigger] bd.rd@[h]).cnt == count_true(g[h])
    &&& forall|x: int| 0 <= x < bd.cd@.len() ==> (#[trigger] bd.cd@[x]).len == height(column(g, x))
        && bd.cd@[x].cnt == count_true(column(g, x))
}

/// Sum of the filled-cell counts of the first `n` row summaries.
pub open spec fn row_sum(rd: Seq<BitsRowDes>, n: int) -> int
    decreases n,
{
    if n <= 0 {
        0
    } else {
        row_sum(rd, n - 1) + rd[n - 1].cnt
    }
}

/// Sum of the filled-cell counts of the first `n` column summaries.
pub open spec fn col_sum(cd: Seq<BitsColDes>, n: int) -> int
    decreases n,
{
    if n <= 0 {
        0
    } else {
        col_sum(cd, n - 1) + cd[n - 1].cnt
    }
}

proof fn lemma_row_sum_total(rd: Seq<BitsRowDes>, g: Seq<Seq<bool>>, n: int)
    requires
        0 <= n <= g.len(),
        g.len() == rd.len(),
        forall|h: int| 0 <= h < g.len() ==> (#[trigger] rd[h]).cnt == count_true(g[h]),
    ensures
        row_sum(rd, n) == rows_total(g, n),
    decreases n,
{
    if n > 0 {
        lemma_row_sum_total(rd, g, n - 1);
    }
}

proof fn lemma_col_sum_total(cd: Seq<BitsColDes>, g: Seq<Seq<bool>>, n: int)
    requires
        0 <= n <= cd.len(),
        forall|x: int| 0 <= x < cd.len() ==> (#[trigger] cd[x]).cnt == count_true(column(g, x)),
    ensures
        col_sum(cd, n) == cols_total(g, n),
    decreases n,
{
    if n > 0 {
        lemma_col_sum_total(cd, g, n - 1);
    }
}

/// Row and column counts that are those of one board add up to the same total: its number of
/// filled cells.
proof fn lemma_counts_totals(rd: Seq<BitsRowDes>, cd: Seq<BitsColDes>, g: Seq<Seq<bool>>)
    requires
        g.len() == rd.len(),
        forall|h: int| 0 <= h < g.len() ==> (#[trigger] g[h]).len() == cd.len(),
        forall|h: int| 0 <= h < g.len() ==> (#[trigger] rd[h]).cnt == count_true(g[h]),
        forall|x: int| 0 <= x < cd.len() ==> (#[trigger] cd[x]).cnt == count_true(column(g, x)),
    ensures
        row_sum(rd, rd.len() as int) == rows_total(g, g.len() as int),
        col_sum(cd, cd.len() as int) == rows_total(g, g.len() as int),
{
    lemma_row_sum_total(rd, g, rd.len() as int);
    lemma_col_sum_total(cd, g, cd.len() as int);
    lemma_rows_cols_total(g, cd.len() as int);
}

/// The row counts and the column counts of a summary add up to the same total: the number of
/// filled cells of the board it describes.
pub proof fn lemma_summary_totals(bd: BitsDes, g: Seq<Seq<bool>>)
    requires
        describes_board(bd, g),
    ensures
        row_sum(bd.rd@, bd.rd@.len() as int) == rows_total(g, g.len() as int),
        col_sum(bd.cd@, bd.cd@.len() as int) == rows_total(g, g.len() as int),
{
    lemma_counts_totals(bd.rd@, bd.cd@, g);
}

/// The summary is the summary of some board.
pub open spec fn board_wf(bd: BitsDes) -> bool {
    exists|g: Seq<Seq<bool>>| describes_board(bd, g)
}

/// Counts the filled cells of each row of a grid read from the screen, the bottom row first.
fn bits2rowdes(bits: &Vec<Vec<bool>>) -> (ret: Vec<BitsRowDes>)
    requires
        rows_cover_top(bits_view(*bits)),
        bits@[0]@.len() <= u32::MAX,
    ensures
        ret@.len() == bits@.len(),
        forall|i: int| 0 <= i < ret@.len() ==> (#[trigger] ret@[i]).cnt == count_true(board_of(bits_view(*bits))[i]),
{
    let ghost b = bits_view(*bits);
    let mut ret: Vec<BitsRowDes> = Vec::new();
    let c = bits[0].len();
    let r = bits.len();
    let mut i: usize = 0;
    while i < r
        invariant
            b == bits_view(*bits),
            rows_cover_top(b),
            c == b[0].len(),
            c <= u32::MAX,
            r == b.len(),
            i <= r,
            ret@.len() == i,
            forall|a: int| 0 <= a < i ==> (#[trigger] ret@[a]).cnt == count_true(board_of(b)[a]),
        decreases r - i,
    {
        let ghost row = b[r - 1 - i];
        assert(row.len() >= c);
        assert(bits@[r - 1 - i]@ == row);
        let mut tmp: u32 = 0;
        let mut j: usize = 0;
        while j < c
            invariant
                b == bits_view(*bits),
                row == b[r - 1 - i],
                bits@[r - 1 - i]@ == row,
                row.len() >= c,
                c <= u32::MAX,
                r == b.len(),
                i < r,
                j <= c,
                tmp == count_true(row.take(j as int)),
                tmp <= j,
            decreases c - j,
        {
            assert(row.take(j + 1).drop_last() =~= row.take(j as int));
            if bits[r - 1 - i][j] {
                tmp = tmp + 1;
            }
            j = j + 1;
        }
        assert(board_of(b)[i as int] == row.take(c as int));
        ret.push(BitsRowDes { cnt: tmp });
        i = i + 1;
    }
    ret
}

/// Summarises each column of a grid read from the screen: its height, its number of filled
/// cells and the height of its highest hole.
fn bits2coldes(bits: &Vec<Vec<bool>>) -> (ret: Vec<BitsColDes>)
    requires
        rows_cover_top(bits_view(*bits)),
        bits@.len() <= i32::MAX,
    ensures
        ret@.len() == bits@[0]@.len(),
        forall|x: int| 0 <= x < ret@.len() ==> {
            let s = column(board_of(bits_view(*bits)), x);
            &&& (#[trigger] ret@[x]).len == height(s)
            &&& ret@[x].cnt == count_true(s)
            &&& ret@[x].first_hole == top_hole(s)
        },
{
    let ghost b = bits_view(*bits);
    let mut ret: Vec<BitsColDes> = Vec::new();
    let c = bits[0].len();
    let r = bits.len();
    let mut i: usize = 0;
    while i < c
        invariant
            b == bits_view(*bits),
            rows_cover_top(b),
            c == b[0].len(),
            r == b.len(),
            r <= i32::MAX,
            i <= c,
            ret@.len() == i,
            forall|x: int| 0 <= x < i ==> {
                let s = column(board_of(b), x);
                &&& (#[trigger] ret@[x]).len == height(s)
                &&& ret@[x].cnt == count_true(s)
                &&& ret@[x].first_hole == top_hole(s)
            },
        decreases c - i,
    {
        let ghost s = column(board_of(b), i as int);
        assert forall|h: int| 0 <= h < r implies #[trigger] s[h] == b[r - 1 - h][i as int] by {
            assert(b[r - 1 - h].len() >= c);
        }
        let mut first_fill: Option<usize> = None;
        let mut first_hole: Option<usize> = None;
        let mut fill_cnt: u32 = 0;
        let mut j: usize = 0;
        while j < r
            invariant
                b == bits_view(*bits),
                rows_cover_top(b),
                c == b[0].len(),
                r == b.len(),
                r <= i32::MAX,
                i < c,
                j <= r,
                s.len() == r,
                forall|h: int| 0 <= h < r ==> #[trigger] s[h] == b[r - 1 - h][i as int],
                fill_cnt == count_true(s.subrange(r - j, r as int)),
                fill_cnt <= j,
                first_fill is None ==> forall|h: int| r - j <= h < r ==> !#[trigger] s[h],
                first_fill matches Some(f) ==> f < j && s[r - 1 - f]
                    && forall|h: int| r - 1 - f < h < r ==> !#[trigger] s[h],
                first_hole matches Some(fh) ==> first_fill matches Some(f) && f < fh < j && !s[r - 1 - fh]
                    && forall|h: int| r - 1 - fh < h < r - 1 - f ==> #[trigger] s[h],
                first_hole is None ==> (first_fill matches Some(f) ==> forall|h: int| r - j <= h < r - 1 - f ==> #[trigger] s[h]),
            decreases r - j,
        {
            assert(b[j as int].len() >= c);
            assert(bits@[j as int]@ == b[j as int]);
            let ghost top = s[r - 1 - j];
            assert(top == b[j as int][i as int]);
            proof {
                assert(s.subrange(r - j - 1, r as int) =~= seq![top] + s.subrange(r - j, r as int));
                lemma_count_append(seq![top], s.subrange(r - j, r as int));
                assert(seq![top].drop_last() =~= Seq::<bool>::empty());
                assert(count_true(Seq::<bool>::empty()) == 0);
                assert(count_true(seq![top]) == if top { 1nat } else { 0nat });
            }
            if bits[j][i] {
                if first_fill.is_none() {
                    first_fill = Some(j);
                }
                fill_cnt = fill_cnt + 1;
            } else {
                if first_fill.is_some() && first_hole.is_none() {
                    first_hole = Some(j);
                }
            }
            j = j + 1;
        }
        assert(s.subrange(0, r as int) =~= s);
        let len: u32 = match first_fill {
            None => {
                proof {
                    lemma_height_zero(s);
                }
                0
            },
            Some(x) => {
                proof {
                    lemma_height_at(s, r - 1 - x);
                }
                (r - x) as u32
            },
        };
        let fh: i32 = match first_hole {
            None => {
                proof {
                    if let Some(f) = first_fill {
                        let t = s.take(r - 1 - f);
                        assert forall|h: int| 0 <= h < t.len() implies #[trigger] t[h] by {
                            assert(s[h]);
                        }
                        lemma_last_empty_zero(t);
                    }
                }
                0
            },
            Some(x) => {
                proof {
                    let f = first_fill.unwrap();
                    let t = s.take(r - 1 - f);
                    assert forall|h: int| r - 1 - x < h < t.len() implies #[trigger] t[h] by {
                        assert(s[h]);
                    }
                    lemma_last_empty_at(t, r - 1 - x);
                }
                (r - x) as i32
            },
        };
        ret.push(BitsColDes { len, first_hole: fh, cnt: fill_cnt });
        i = i + 1;
    }
    ret
}

/// Summarises a grid read from the screen (top row first; a cell is filled when `true`) by rows
/// from the bottom and by columns. Requires every row to be at least as long as the top one,
/// which gives the number of columns.
pub fn bits2des(bits: &Vec<Vec<bool>>) -> (ret: BitsDes)
    requires
        rows_cover_top(bits_view(*bits)),
        bits@.len() <= i32::MAX,
        bits@[0]@.len() <= u32::MAX,
    ensures
        describes_board(ret, board_of(bits_view(*bits))),
        forall|x: int| 0 <= x < ret.cd@.len() ==> (#[trigger] ret.cd@[x]).first_hole
            == top_hole(column(board_of(bits_view(*bits)), x)),
        row_sum(ret.rd@, ret.rd@.len() as int) == col_sum(ret.cd@, ret.cd@.len() as int),
        row_sum(ret.rd@, ret.rd@.len() as int) == rows_total(board_of(bits_view(*bits)), bits@.len() as int),
{
    let ret = BitsDes { rd: bits2rowdes(bits), cd: bits2coldes(bits) };
    proof {
        let b = bits_view(*bits);
        let g = board_of(b);
        assert forall|h: int| 0 <= h < g.len() implies (#[trigger] g[h]).len() == ret.cd@.len() by {
            assert(b[b.len() - 1 - h].len() >= b[0].len());
        }
        lemma_summary_totals(ret, g);
    }
    ret
}

/// A grid read from the screen with one more empty row on top has the board with one more empty
/// row at its top, and every column keeps its height, its number of filled cells and its
/// highest hole: only the row summaries gain an empty row.
pub proof fn lemma_empty_top_row(bits: Seq<Seq<bool>>, top: Seq<bool>)
    requires
        rows_cover_top(bits),
        top.len() == bits[0].len(),
        forall|i: int| 0 <= i < top.len() ==> !#[trigger] top[i],
    ensures
        ({
            let more = seq![top] + bits;
            &&& rows_cover_top(more)
            &&& board_of(more) == board_of(bits).push(top)
            &&& count_true(top) == 0
            &&& forall|x: int| 0 <= x < bits[0].len() ==> height(#[trigger] column(board_of(more), x))
                == height(column(board_of(bits), x))
                && count_true(column(board_of(more), x)) == count_true(column(board_of(bits), x))
                && top_hole(column(board_of(more), x)) == top_hole(column(board_of(bits), x))
        }),
{
    let more = seq![top] + bits;
    let w = bits[0].len() as int;
    assert(more[0] == top);
    assert forall|j: int| 0 <= j < more.len() implies #[trigger] more[j].len() >= more[0].len() by {
        if j > 0 {
            assert(more[j] == bits[j - 1]);
        }
    }
    assert(top.take(w) =~= top);
    assert forall|h: int| 0 <= h < bits.len() implies board_of(more)[h] == board_of(bits)[h] by {
        assert(more[more.len() - 1 - h] == bits[bits.len() - 1 - h]);
    }
    assert(board_of(more) =~= board_of(bits).push(top));
    lemma_count_zero(top);
    assert forall|x: int| 0 <= x < w implies height(#[trigger] column(board_of(more), x))
        == height(column(board_of(bits), x))
        && count_true(column(board_of(more), x)) == count_true(column(board_of(bits), x))
        && top_hole(column(board_of(more), x)) == top_hole(column(board_of(bits), x)) by {
        let a = column(board_of(more), x);
        let b = column(board_of(bits), x);
        assert(a =~= b.push(false));
        assert(a.drop_last() =~= b);
        lemma_height_bounds(b);
        if height(b) > 0 {
            assert(a.take(height(b) - 1) =~= b.take(height(b) - 1));
        }
    }
}

/// The board `g` once the tetromino of colour `c`, turned `r` quarters with its left column over
/// column `p`, has come to rest on it (before full rows are cleared).
pub open spec fn drop_board(bd: BitsDes, c: TetrColr, r: int, p: int, g: Seq<Seq<bool>>) -> Seq<Seq<bool>> {
    placed(g, piece_cols(c, r), landing(bd, c, r, p), p, piece_cols(c, r).len() as int)
}

/// `nd` summarises the board `gd` once its marked rows are cleared: the counts of every row and
/// column exactly; the height of every column from above, and exactly when the highest filled
/// cell of the column in `gd` is not in a cleared row. Every marked row of `gd` is full.
pub open spec fn summarises_cleared(nd: BitsDes, gd: Seq<Seq<bool>>, marks: Seq<bool>) -> bool {
    let cb = cleared_board(gd, marks, nd.cd@.len());
    &&& cb.len() == nd.rd@.len()
    &&& forall|h: int| 0 <= h < cb.len() ==> (#[trigger] nd.rd@[h]).cnt == count_true(cb[h])
    &&& forall|x: int| 0 <= x < nd.cd@.len() ==> (#[trigger] nd.cd@[x]).cnt == count_true(column(cb, x))
        && height(column(cb, x)) <= nd.cd@[x].len
        && ((height(column(gd, x)) == 0 || !marks[height(column(gd, x)) - 1]) ==> height(column(cb, x)) == nd.cd@[x].len)
    &&& forall|h: int| 0 <= h < gd.len() && #[trigger] marks[h] ==> count_true(gd[h]) == nd.cd@.len()
}

/// Dropping the piece on any board the summary describes: once its first `i` columns rest, every
/// row holds its cells plus those of the piece, and every column covered has the height the
/// piece reaches there and its cells plus those of the piece.
pub proof fn lemma_placed_counts(bd: BitsDes, c: TetrColr, r: int, p: int, g: Seq<Seq<bool>>, i: int)
    requires
        is_piece(c),
        0 <= r < 4,
        0 <= p,
        fits(bd, c, r, p),
        drop_in_rows(bd, c, r, p),
        describes_board(bd, g),
        0 <= i <= piece_cols(c, r).len(),
    ensures
        ({
            let pc = piece_cols(c, r);
            let land = landing(bd, c, r, p);
            let gi = placed(g, pc, land, p, i);
            &&& gi.len() == g.len()
            &&& forall|h: int| 0 <= h < g.len() ==> (#[trigger] gi[h]).len() == bd.cd@.len()
            &&& forall|h: int| 0 <= h < g.len() ==> count_true(#[trigger] gi[h]) == bd.rd@[h].cnt + cells_upto(pc, land, h, i)
            &&& forall|x: int| 0 <= x < bd.cd@.len() ==> height(#[trigger] column(gi, x))
                == (if p <= x < p + i { new_len(bd, c, r, p, x - p) } else { bd.cd@[x].len as int })
                && count_true(column(gi, x)) == bd.cd@[x].cnt + (if p <= x < p + i { pc[x - p].1 } else { 0int })
        }),
    decreases i,
{
    let pc = piece_cols(c, r);
    let land = landing(bd, c, r, p);
    let w = bd.cd@.len() as int;
    let gi = placed(g, pc, land, p, i);
    lemma_piece_rotations(c, r);
    if i == 0 {
        assert forall|h: int| 0 <= h < g.len() implies #[trigger] gi[h] =~= g[h] by {}
        assert forall|x: int| 0 <= x < w implies #[trigger] column(gi, x) =~= column(g, x) by {}
    } else {
        lemma_placed_counts(bd, c, r, p, g, i - 1);
        let gp = placed(g, pc, land, p, i - 1);
        let x0 = p + i - 1;
        let lo = land + pc[i - 1].0;
        let hi = lo + pc[i - 1].1;
        lemma_land_upto_ge(bd.cd@, pc, p, pc.len() as int, i - 1);
        assert(new_len(bd, c, r, p, i - 1) < YCNT);
        lemma_fits_in_rows(bd, c, r, p);
        assert(new_len(bd, c, r, p, i - 1) <= bd.rd@.len());
        assert(column(gp, x0) =~= column(g, x0));
        assert(height(column(g, x0)) == bd.cd@[x0].len);
        lemma_height_bounds(column(gp, x0));
        assert forall|h: int| 0 <= h < g.len() implies #[trigger] gi[h]
            =~= (if lo <= h < hi { gp[h].update(x0, true) } else { gp[h] }) by {}
        assert forall|h: int| 0 <= h < g.len() implies count_true(#[trigger] gi[h]) == bd.rd@[h].cnt + cells_upto(pc, land, h, i) by {
            if lo <= h < hi {
                assert(!column(gp, x0)[h]);
                lemma_count_update(gp[h], x0);
            }
        }
        assert(column(gi, x0) =~= fill_range(column(gp, x0), lo, hi));
        lemma_fill_range(column(gp, x0), lo, hi);
        assert forall|x: int| 0 <= x < w && x != x0 implies #[trigger] column(gi, x) =~= column(gp, x) by {}
    }
}

/// Lowest height at which the first `n` columns of a piece, placed from column `p` on, rest on
/// the columns of the summary: the largest column height less the height of the piece's lowest
/// cell in that column, and at least 0.
pub open spec fn land_upto(cd: Seq<BitsColDes>, pc: Seq<(int, int)>, p: int, n: int) -> int
    decreases n,
{
    if n <= 0 {
        0
    } else {
        let a = land_upto(cd, pc, p, n - 1);
        let b = cd[p + n - 1].len - pc[n - 1].0;
        if a >= b {
            a
        } else {
            b
        }
    }
}

/// Height at which the tetromino of colour `c`, turned `r` quarters and placed from column `p`
/// on, comes to rest.
pub open spec fn landing(bd: BitsDes, c: TetrColr, r: int, p: int) -> int {
    land_upto(bd.cd@, piece_cols(c, r), p, piece_cols(c, r).len() as int)
}

/// Height of column `p + i` once the piece has come to rest (before full rows are cleared).
pub open spec fn new_len(bd: BitsDes, c: TetrColr, r: int, p: int, i: int) -> int {
    landing(bd, c, r, p) + piece_cols(c, r)[i].0 + piece_cols(c, r)[i].1
}

/// The piece fits: it lies within the columns, and no column it covers reaches the top row count.
pub open spec fn fits(bd: BitsDes, c: TetrColr, r: int, p: int) -> bool {
    &&& p + piece_cols(c, r).len() <= bd.cd@.len()
    &&& forall|i: int| 0 <= i < piece_cols(c, r).len() ==> #[trigger] new_len(bd, c, r, p, i) < YCNT
}

/// The rows that the drop writes exist: when the piece lies within the columns, each column it
/// covers, reached while every column before it (and itself) stays below `YCNT`, ends at most at
/// the number of row entries of the summary.
pub open spec fn drop_in_rows(bd: BitsDes, c: TetrColr, r: int, p: int) -> bool {
    p + piece_cols(c, r).len() <= bd.cd@.len() ==> forall|i: int|
        0 <= i < piece_cols(c, r).len() && (forall|a: int| 0 <= a <= i ==> #[trigger] new_len(bd, c, r, p, a) < YCNT)
            ==> #[trigger] new_len(bd, c, r, p, i) <= bd.rd@.len()
}

/// A summary with at least `YCNT - 1` row entries has room for every drop.
pub proof fn lemma_tall_drop_in_rows(bd: BitsDes, c: TetrColr, r: int, p: int)
    requires
        bd.rd@.len() >= YCNT - 1,
    ensures
        drop_in_rows(bd, c, r, p),
{
    if p + piece_cols(c, r).len() <= bd.cd@.len() {
        assert forall|i: int|
            0 <= i < piece_cols(c, r).len() && (forall|a: int| 0 <= a <= i ==> #[trigger] new_len(bd, c, r, p, a) < YCNT)
            implies #[trigger] new_len(bd, c, r, p, i) <= bd.rd@.len() by {
            assert(new_len(bd, c, r, p, i) < YCNT);
        }
    }
}

/// When the piece fits and the rows it writes exist, every column it covers ends within the rows.
pub proof fn lemma_fits_in_rows(bd: BitsDes, c: TetrColr, r: int, p: int)
    requires
        fits(bd, c, r, p),
        drop_in_rows(bd, c, r, p),
    ensures
        forall|i: int| 0 <= i < piece_cols(c, r).len() ==> #[trigger] new_len(bd, c, r, p, i) <= bd.rd@.len(),
{
    assert forall|i: int| 0 <= i < piece_cols(c, r).len() implies #[trigger] new_len(bd, c, r, p, i) <= bd.rd@.len() by {
        assert(forall|a: int| 0 <= a <= i ==> #[trigger] new_len(bd, c, r, p, a) < YCNT);
    }
}

/// Number of cells that the first `n` columns of a piece resting at height `land` put in row `h`.
pub open spec fn cells_upto(pc: Seq<(int, int)>, land: int, h: int, n: int) -> int
    decreases n,
{
    if n <= 0 {
        0
    } else {
        cells_upto(pc, land, h, n - 1) + if land + pc[n - 1].0 <= h < land + pc[n - 1].0 + pc[n - 1].1 {
            1int
        } else {
            0int
        }
    }
}

/// Number of cells the piece puts in row `h`.
pub open spec fn piece_cells(bd: BitsDes, c: TetrColr, r: int, p: int, h: int) -> int {
    cells_upto(piece_cols(c, r), landing(bd, c, r, p), h, piece_cols(c, r).len() as int)
}

/// Number of filled cells of row `h` once the piece has come to rest.
pub open spec fn row_after(bd: BitsDes, c: TetrColr, r: int, p: int, h: int) -> int {
    bd.rd@[h].cnt + piece_cells(bd, c, r, p, h)
}

/// Row `h` receives a cell of the piece and becomes full: it is cleared.
pub open spec fn row_cleared(bd: BitsDes, c: TetrColr, r: int, p: int, h: int) -> bool {
    piece_cells(bd, c, r, p, h) > 0 && row_after(bd, c, r, p, h) == bd.cd@.len()
}

/// For each row, whether the piece clears it.
pub open spec fn cleared_marks(bd: BitsDes, c: TetrColr, r: int, p: int) -> Seq<bool> {
    Seq::new(bd.rd@.len(), |h: int| row_cleared(bd, c, r, p, h))
}

/// Number of rows that the piece clears.
pub open spec fn cleared_cnt(bd: BitsDes, c: TetrColr, r: int, p: int) -> nat {
    count_true(cleared_marks(bd, c, r, p))
}

/// Filled cells of each row (from the bottom) once the piece has come to rest and the full rows
/// have been cleared: the rows left in order, then as many empty rows as were cleared.
pub open spec fn rows_after(bd: BitsDes, c: TetrColr, r: int, p: int) -> Seq<int> {
    keep_rows(Seq::new(bd.rd@.len(), |h: int| row_after(bd, c, r, p, h)), cleared_marks(bd, c, r, p))
        + Seq::new(cleared_cnt(bd, c, r, p), |h: int| 0int)
}

/// Column `x` is covered by the piece.
pub open spec fn in_piece(c: TetrColr, r: int, p: int, x: int) -> bool {
    p <= x < p + piece_cols(c, r).len()
}

/// Height recorded for column `x` after the drop: its height once the piece rests, less the
/// number of cleared rows.
pub open spec fn col_len_after(bd: BitsDes, c: TetrColr, r: int, p: int, x: int) -> int {
    (if in_piece(c, r, p, x) { new_len(bd, c, r, p, x - p) } else { bd.cd@[x].len as int })
        - cleared_cnt(bd, c, r, p)
}

/// Filled cells of column `x` after the drop: its cells plus those of the piece, less the number
/// of cleared rows.
pub open spec fn col_cnt_after(bd: BitsDes, c: TetrColr, r: int, p: int, x: int) -> int {
    bd.cd@[x].cnt + (if in_piece(c, r, p, x) { piece_cols(c, r)[x - p].1 } else { 0int })
        - cleared_cnt(bd, c, r, p)
}

/// Largest height, over the first `n` columns of the piece, of the columns it covers once it
/// rests (0 when `n` is 0).
pub open spec fn max_new_upto(bd: BitsDes, c: TetrColr, r: int, p: int, n: int) -> int
    decreases n,
{
    if n <= 0 {
        0
    } else {
        let a = max_new_upto(bd, c, r, p, n - 1);
        let b = new_len(bd, c, r, p, n - 1);
        if a >= b {
            a
        } else {
            b
        }
    }
}

/// Height of the highest column the piece covers, after the full rows are cleared.
pub open spec fn top_after(bd: BitsDes, c: TetrColr, r: int, p: int) -> int {
    max_new_upto(bd, c, r, p, piece_cols(c, r).len() as int) - cleared_cnt(bd, c, r, p)
}

/// Cell `(h, x)` belongs to one of the first `i` columns of a piece resting at height `land`
/// from column `p` on.
pub open spec fn placed_cell(pc: Seq<(int, int)>, land: int, p: int, i: int, h: int, x: int) -> bool {
    p <= x < p + i && land + pc[x - p].0 <= h < land + pc[x - p].0 + pc[x - p].1
}

/// The board `g` with the first `i` columns of the piece added.
pub open spec fn placed(g: Seq<Seq<bool>>, pc: Seq<(int, int)>, land: int, p: int, i: int) -> Seq<Seq<bool>> {
    Seq::new(g.len(), |h: int| Seq::new(g[h].len(), |x: int| g[h][x] || placed_cell(pc, land, p, i, h, x)))
}

proof fn lemma_land_upto_ge(cd: Seq<BitsColDes>, pc: Seq<(int, int)>, p: int, n: int, i: int)
    requires
        0 <= i < n,
    ensures
        land_upto(cd, pc, p, n) >= cd[p + i].len - pc[i].0,
        land_upto(cd, pc, p, n) >= 0,
    decreases n,
{
    if i < n - 1 {
        lemma_land_upto_ge(cd, pc, p, n - 1, i);
    }
    if n > 1 {
        lemma_land_upto_ge(cd, pc, p, n - 1, 0);
    } else {
        assert(land_upto(cd, pc, p, 0) == 0);
    }
}

proof fn lemma_max_new_ge(bd: BitsDes, c: TetrColr, r: int, p: int, n: int, i: int)
    requires
        0 <= i < n,
    ensures
        max_new_upto(bd, c, r, p, n) >= new_len(bd, c, r, p, i),
    decreases n,
{
    if i < n - 1 {
        lemma_max_new_ge(bd, c, r, p, n - 1, i);
    }
}

proof fn lemma_cells_nonneg(pc: Seq<(int, int)>, land: int, h: int, n: int)
    ensures
        cells_upto(pc, land, h, n) >= 0,
    decreases n,
{
    if n > 0 {
        lemma_cells_nonneg(pc, land, h, n - 1);
    }
}

/// Fills the cells `lo..hi` of column `x0` of the board `gcur`, whose row counts are `rd`:
/// each of those rows gains a cell, and a row that becomes full is marked. The rows that are
/// marked are those that became full since the row counts were `base`. Returns the new board.
fn fill_column(
    rd: &mut Vec<BitsRowDes>,
    marks: &mut Vec<bool>,
    k: &mut usize,
    x0: usize,
    lo: usize,
    hi: usize,
    width: u32,
    Ghost(gcur): Ghost<Seq<Seq<bool>>>,
    Ghost(base): Ghost<Seq<BitsRowDes>>,
) -> (ng: Ghost<Seq<Seq<bool>>>)
    requires
        gcur.len() == old(rd)@.len(),
        old(marks)@.len() == gcur.len(),
        base.len() == gcur.len(),
        forall|h: int| 0 <= h < gcur.len() ==> (#[trigger] gcur[h]).len() == width,
        x0 < width,
        lo <= hi <= gcur.len(),
        height(column(gcur, x0 as int)) <= lo,
        forall|h: int| 0 <= h < gcur.len() ==> (#[trigger] old(rd)@[h]).cnt == count_true(gcur[h])
            && old(rd)@[h].cnt >= base[h].cnt,
        forall|h: int| 0 <= h < gcur.len() ==> #[trigger] old(marks)@[h]
            == (old(rd)@[h].cnt == width && old(rd)@[h].cnt != base[h].cnt),
        *old(k) == count_true(old(marks)@),
    ensures
        ng@.len() == gcur.len(),
        forall|h: int| 0 <= h < gcur.len() ==> (#[trigger] ng@[h]).len() == width,
        forall|h: int, y: int| 0 <= h < gcur.len() && 0 <= y < width ==> #[trigger] ng@[h][y]
            == (gcur[h][y] || (y == x0 && lo <= h < hi)),
        final(rd)@.len() == gcur.len(),
        final(marks)@.len() == gcur.len(),
        forall|h: int| 0 <= h < gcur.len() ==> (#[trigger] final(rd)@[h]).cnt == count_true(ng@[h])
            && final(rd)@[h].cnt == old(rd)@[h].cnt + (if lo <= h < hi { 1int } else { 0int }),
        forall|h: int| 0 <= h < gcur.len() ==> #[trigger] final(marks)@[h]
            == (final(rd)@[h].cnt == width && final(rd)@[h].cnt != base[h].cnt),
        *final(k) == count_true(final(marks)@),
        *final(k) <= gcur.len(),
        forall|y: int| 0 <= y < width && y != x0 ==> #[trigger] column(ng@, y) == column(gcur, y),
        height(column(ng@, x0 as int)) == (if lo < hi { hi as int } else { height(column(gcur, x0 as int)) as int }),
        count_true(column(ng@, x0 as int)) == count_true(column(gcur, x0 as int)) + (hi - lo),
{
    let ghost mut gc = gcur;
    let ghost xx = x0 as int;
    let n_rows: usize = rd.len();
    let mut j: usize = lo;
    proof {
        lemma_count_le_len(marks@);
    }
    while j < hi
        invariant
            gc.len() == gcur.len(),
            rd@.len() == gcur.len(),
            marks@.len() == gcur.len(),
            base.len() == gcur.len(),
            n_rows == gcur.len(),
            xx == x0,
            x0 < width,
            lo <= j <= hi,
            hi <= gcur.len(),
            forall|h: int| 0 <= h < gcur.len() ==> (#[trigger] gc[h]).len() == width,
            forall|h: int, y: int| 0 <= h < gcur.len() && 0 <= y < width ==> #[trigger] gc[h][y]
                == (gcur[h][y] || (y == x0 && lo <= h < j)),
            forall|y: int| 0 <= y < width && y != x0 ==> #[trigger] column(gc, y) == column(gcur, y),
            height(column(gcur, xx)) <= lo,
            height(column(gc, xx)) == (if lo < j { j as int } else { height(column(gcur, xx)) as int }),
            count_true(column(gc, xx)) == count_true(column(gcur, xx)) + (j - lo),
            forall|h: int| 0 <= h < gcur.len() ==> (#[trigger] rd@[h]).cnt == count_true(gc[h])
                && rd@[h].cnt == old(rd)@[h].cnt + (if lo <= h < j { 1int } else { 0int }),
            forall|h: int| 0 <= h < gcur.len() ==> old(rd)@[h].cnt >= base[h].cnt,
            forall|h: int| 0 <= h < gcur.len() ==> #[trigger] marks@[h]
                == (rd@[h].cnt == width && rd@[h].cnt != base[h].cnt),
            *k == count_true(marks@),
            *k <= gcur.len(),
        decreases hi - j,
    {
        proof {
            let col = column(gc, xx);
            lemma_height_bounds(col);
            assert(!col[j as int]);
            assert(!gc[j as int][xx]);
            lemma_count_le_len(gc[j as int]);
            lemma_count_update(gc[j as int], xx);
            lemma_height_update(col, j as int);
            lemma_count_update(col, j as int);
        }
        let old_row = rd[j];
        rd.set(j, BitsRowDes { cnt: old_row.cnt + 1 });
        if rd[j].cnt == width {
            proof {
                lemma_count_update(marks@, j as int);
                lemma_count_le_len(marks@.update(j as int, true));
            }
            marks.set(j, true);
            *k = *k + 1;
        }
        proof {
            let ng = gc.update(j as int, gc[j as int].update(xx, true));
            assert(column(ng, xx) =~= column(gc, xx).update(j as int, true));
            assert forall|y: int| 0 <= y < width && y != x0 implies #[trigger] column(ng, y) == column(gcur, y) by {
                assert(column(ng, y) =~= column(gc, y));
            }
            gc = ng;
        }
        j = j + 1;
    }
    Ghost(gc)
}

/// Height at which a piece whose columns are described by `col_des` comes to rest when its left
/// column is over column `pos_idx`.
fn landing_height(cd: &Vec<BitsColDes>, col_des: &Vec<(u32, u32)>, pos_idx: usize, Ghost(pc): Ghost<Seq<(int, int)>>) -> (max_h: u32)
    requires
        pos_idx + col_des@.len() <= cd@.len(),
        cd@.len() <= u32::MAX,
        col_des@.len() == pc.len(),
        forall|a: int| 0 <= a < col_des@.len() ==> (#[trigger] col_des@[a]).0 == pc[a].0 && col_des@[a].1 == pc[a].1,
        exists|z: int| 0 <= z < pc.len() && (#[trigger] pc[z]).0 == 0,
    ensures
        max_h == land_upto(cd@, pc, pos_idx as int, pc.len() as int),
{
    let ghost p = pos_idx as int;
    let mut max_h: Option<u32> = None;
    let mut i: usize = 0;
    while i < col_des.len()
        invariant
            p == pos_idx,
            p + pc.len() <= cd@.len(),
            cd@.len() <= u32::MAX,
            col_des@.len() == pc.len(),
            forall|a: int| 0 <= a < col_des@.len() ==> (#[trigger] col_des@[a]).0 == pc[a].0 && col_des@[a].1 == pc[a].1,
            i <= col_des@.len(),
            max_h is None ==> land_upto(cd@, pc, p, i as int) == 0
                && forall|a: int| 0 <= a < i ==> cd@[p + a].len < (#[trigger] pc[a]).0,
            max_h matches Some(v) ==> v == land_upto(cd@, pc, p, i as int) && 0 <= v,
        decreases col_des@.len() - i,
    {
        let col_pos = pos_idx + i;
        if cd[col_pos].len >= col_des[i].0 {
            let cand = cd[col_pos].len - col_des[i].0;
            match max_h {
                None => {
                    max_h = Some(cand);
                },
                Some(v) => {
                    max_h = Some(if v >= cand { v } else { cand });
                },
            }
        }
        i = i + 1;
    }
    proof {
        let z = choose|z: int| 0 <= z < pc.len() && (#[trigger] pc[z]).0 == 0;
        if max_h is None {
            assert(cd@[p + z].len < pc[z].0);
        }
    }
    max_h.unwrap()
}

/// A copy of the column summaries.
fn copy_cols(v: &Vec<BitsColDes>) -> (r: Vec<BitsColDes>)
    ensures
        r@ == v@,
{
    let mut r: Vec<BitsColDes> = Vec::new();
    let mut x: usize = 0;
    while x < v.len()
        invariant
            x <= v@.len(),
            r@.len() == x,
            forall|a: int| 0 <= a < x ==> #[trigger] r@[a] == v@[a],
        decreases v@.len() - x,
    {
        r.push(v[x]);
        x = x + 1;
    }
    assert(r@ =~= v@);
    r
}

/// A copy of the row summaries, and one unset mark per row.
fn copy_rows(v: &Vec<BitsRowDes>) -> (r: (Vec<BitsRowDes>, Vec<bool>))
    ensures
        r.0@ == v@,
        r.1@.len() == v@.len(),
        count_true(r.1@) == 0,
        forall|a: int| 0 <= a < v@.len() ==> !#[trigger] r.1@[a],
{
    let mut rd: Vec<BitsRowDes> = Vec::new();
    let mut marks: Vec<bool> = Vec::new();
    let mut x: usize = 0;
    while x < v.len()
        invariant
            x <= v@.len(),
            rd@.len() == x,
            marks@.len() == x,
            forall|a: int| 0 <= a < x ==> #[trigger] rd@[a] == v@[a],
            forall|a: int| 0 <= a < x ==> !#[trigger] marks@[a],
        decreases v@.len() - x,
    {
        rd.push(v[x]);
        marks.push(false);
        x = x + 1;
    }
    assert(rd@ =~= v@);
    proof {
        lemma_count_zero(marks@);
    }
    (rd, marks)
}

/// The state reached once the first `i` columns of the piece rest on the board `g`: the board
/// `gcur` with those cells, and the column summaries, row summaries, marks of rows made full,
/// number of such rows and highest covered column.
pub open spec fn placement_state(
    bd: BitsDes, c: TetrColr, r: int, p: int, g: Seq<Seq<bool>>, land: int, i: int,
    gcur: Seq<Seq<bool>>, cd: Seq<BitsColDes>, rd: Seq<BitsRowDes>, marks: Seq<bool>, k: int, top: int,
) -> bool {
    let pc = piece_cols(c, r);
    let w = bd.cd@.len();
    &&& forall|a: int| 0 <= a < i ==> #[trigger] new_len(bd, c, r, p, a) < YCNT
    &&& top == max_new_upto(bd, c, r, p, i)
    &&& gcur.len() == g.len()
    &&& forall|h: int| 0 <= h < gcur.len() ==> (#[trigger] gcur[h]).len() == w
    &&& forall|h: int, y: int| 0 <= h < gcur.len() && 0 <= y < w ==> #[trigger] gcur[h][y]
        == (g[h][y] || placed_cell(pc, land, p, i, h, y))
    &&& cd.len() == w
    &&& rd.len() == bd.rd@.len()
    &&& marks.len() == bd.rd@.len()
    &&& forall|y: int| 0 <= y < w ==> (#[trigger] cd[y]).len == height(column(gcur, y))
        && cd[y].cnt == count_true(column(gcur, y))
        && cd[y].first_hole == bd.cd@[y].first_hole
    &&& forall|y: int| 0 <= y < w ==> (#[trigger] cd[y]).len == (if p <= y < p + i { new_len(bd, c, r, p, y - p) } else { bd.cd@[y].len as int })
        && cd[y].cnt == bd.cd@[y].cnt + (if p <= y < p + i { pc[y - p].1 } else { 0int })
    &&& forall|h: int| 0 <= h < bd.rd@.len() ==> (#[trigger] rd[h]).cnt == count_true(gcur[h])
        && rd[h].cnt == bd.rd@[h].cnt + cells_upto(pc, land, h, i)
    &&& forall|h: int| 0 <= h < bd.rd@.len() ==> #[trigger] marks[h] == (rd[h].cnt == w && rd[h].cnt != bd.rd@[h].cnt)
    &&& k == count_true(marks)
    &&& 0 <= k <= bd.rd@.len()
}

/// Places the columns of the piece one by one on the board that `bd` summarises, updating the
/// summaries and marking the rows made full. Returns `None` as soon as a column would reach the
/// top row count.
#[verifier::rlimit(50)]
fn place_piece(
    bd: &BitsDes,
    c: TetrColr,
    rot_idx: usize,
    pos_idx: usize,
    col_des: &Vec<(u32, u32)>,
    max_h: u32,
    Ghost(g): Ghost<Seq<Seq<bool>>>,
) -> (res: Option<(Vec<BitsColDes>, Vec<BitsRowDes>, Vec<bool>, usize, u32, Ghost<Seq<Seq<bool>>>)>)
    requires
        is_piece(c),
        rot_idx < 4,
        pos_idx + piece_cols(c, rot_idx as int).len() <= bd.cd@.len(),
        bd.cd@.len() <= u32::MAX,
        drop_in_rows(*bd, c, rot_idx as int, pos_idx as int),
        describes_board(*bd, g),
        col_des@.len() == piece_cols(c, rot_idx as int).len(),
        forall|a: int| 0 <= a < col_des@.len() ==> (#[trigger] col_des@[a]).0 == piece_cols(c, rot_idx as int)[a].0
            && col_des@[a].1 == piece_cols(c, rot_idx as int)[a].1,
        max_h == landing(*bd, c, rot_idx as int, pos_idx as int),
    ensures
        res is None <==> !fits(*bd, c, rot_idx as int, pos_idx as int),
        res matches Some((cd, rd, marks, k, top, gf)) ==> placement_state(*bd, c, rot_idx as int, pos_idx as int, g,
            max_h as int, piece_cols(c, rot_idx as int).len() as int, gf@, cd@, rd@, marks@, k as int, top as int),
{
    let ghost r = rot_idx as int;
    let ghost p = pos_idx as int;
    let ghost pc = piece_cols(c, r);
    let ghost w = bd.cd@.len() as int;
    let ghost land = max_h as int;
    proof {
        lemma_piece_rotations(c, r);
        assert forall|a: int| 0 <= a < pc.len() implies bd.cd@[p + a].len <= land + (#[trigger] pc[a]).0 by {
            lemma_land_upto_ge(bd.cd@, pc, p, pc.len() as int, a);
        }
    }
    let mut cd = copy_cols(&bd.cd);
    let (mut rd, mut marks) = copy_rows(&bd.rd);
    let width: u32 = bd.cd.len() as u32;
    let mut k: usize = 0;
    let mut block_max_hight: u32 = 0;
    let ghost mut gcur = g;
    proof {
        assert forall|h: int, y: int| 0 <= h < gcur.len() && 0 <= y < w implies #[trigger] gcur[h][y]
            == (g[h][y] || placed_cell(pc, land, p, 0, h, y)) by {}
        assert forall|h: int| 0 <= h < bd.rd@.len() implies (#[trigger] rd@[h]).cnt == bd.rd@[h].cnt + cells_upto(pc, land, h, 0) by {}
    }
    let mut i: usize = 0;
    while i < col_des.len()
        invariant
            r == rot_idx,
            pc == piece_cols(c, r),
            col_des@.len() == pc.len(),
            1 <= pc.len() <= 4,
            forall|a: int| 0 <= a < pc.len() ==> 0 <= (#[trigger] pc[a]).0 && 1 <= pc[a].1 && pc[a].0 + pc[a].1 <= 4,
            forall|a: int| 0 <= a < col_des@.len() ==> (#[trigger] col_des@[a]).0 == pc[a].0 && col_des@[a].1 == pc[a].1,
            p + pc.len() <= w,
            w == bd.cd@.len(),
            w == width,
            w <= u32::MAX,
            p == pos_idx,
            land == max_h,
            land == landing(*bd, c, r, p),
            0 <= land,
            drop_in_rows(*bd, c, r, p),
            forall|a: int| 0 <= a < pc.len() ==> bd.cd@[p + a].len <= land + (#[trigger] pc[a]).0,
            describes_board(*bd, g),
            g.len() == bd.rd@.len(),
            i <= pc.len(),
            placement_state(*bd, c, r, p, g, land, i as int, gcur, cd@, rd@, marks@, k as int, block_max_hight as int),
        decreases pc.len() - i,
    {
        let col_pos = pos_idx + i;
        let one_col_des = col_des[i];
        let ghost x0 = col_pos as int;
        let lo64: u64 = max_h as u64 + one_col_des.0 as u64;
        let hi64: u64 = lo64 + one_col_des.1 as u64;
        proof {
            assert(hi64 == new_len(*bd, c, r, p, i as int));
        }
        if hi64 >= YCNT as u64 {
            proof {
                assert(new_len(*bd, c, r, p, i as int) >= YCNT);
                assert(!fits(*bd, c, rot_idx as int, pos_idx as int));
            }
            return None;
        }
        let lo: u32 = lo64 as u32;
        let hi: u32 = hi64 as u32;
        proof {
            assert(column(gcur, x0) =~= column(g, x0)) by {
                assert forall|h: int| 0 <= h < g.len() implies column(gcur, x0)[h] == column(g, x0)[h] by {
                    assert(gcur[h][x0] == (g[h][x0] || placed_cell(pc, land, p, i as int, h, x0)));
                }
            }
            assert(cd@[x0].len == bd.cd@[x0].len);
            assert(bd.cd@[x0].len <= lo);
            lemma_height_bounds(column(gcur, x0));
            assert(hi == new_len(*bd, c, r, p, i as int));
            assert(forall|a: int| 0 <= a <= i ==> #[trigger] new_len(*bd, c, r, p, a) < YCNT);
            assert(new_len(*bd, c, r, p, i as int) <= bd.rd@.len());
        }
        let old = cd[col_pos];
        cd.set(col_pos, BitsColDes { len: hi, cnt: old.cnt + one_col_des.1, first_hole: old.first_hole });
        let ghost gstart = gcur;
        let ghost cd_before = cd@;
        proof {
            assert forall|h: int| 0 <= h < bd.rd@.len() implies (#[trigger] rd@[h]).cnt >= bd.rd@[h].cnt by {
                lemma_cells_nonneg(pc, land, h, i as int);
            }
        }
        let gn = fill_column(&mut rd, &mut marks, &mut k, col_pos, lo as usize, hi as usize, width, Ghost(gcur), Ghost(bd.rd@));
        proof {
            gcur = gn@;
            assert forall|h: int| 0 <= h < bd.rd@.len() implies cells_upto(pc, land, h, i + 1) == cells_upto(pc, land, h, i as int)
                + (if lo <= h < hi { 1int } else { 0int }) by {}
            assert forall|h: int, y: int| 0 <= h < gcur.len() && 0 <= y < w implies #[trigger] gcur[h][y]
                == (g[h][y] || placed_cell(pc, land, p, i + 1, h, y)) by {
                assert(gstart[h][y] == (g[h][y] || placed_cell(pc, land, p, i as int, h, y)));
            }
            assert forall|y: int| 0 <= y < w implies (#[trigger] cd@[y]).len == height(column(gcur, y))
                && cd@[y].cnt == count_true(column(gcur, y))
                && cd@[y].first_hole == bd.cd@[y].first_hole by {
                if y != x0 {
                    assert(column(gcur, y) == column(gstart, y));
                }
            }
        }
        block_max_hight = if block_max_hight >= hi { block_max_hight } else { hi };
        i = i + 1;
    }
    Some((cd, rd, marks, k, block_max_hight, Ghost(gcur)))
}

/// Lowers the height and the count of filled cells of every column by `kk`.
fn lower_cols(cd: &mut Vec<BitsColDes>, kk: u32)
    requires
        forall|a: int| 0 <= a < old(cd)@.len() ==> kk <= (#[trigger] old(cd)@[a]).cnt <= old(cd)@[a].len,
    ensures
        final(cd)@.len() == old(cd)@.len(),
        forall|a: int| 0 <= a < old(cd)@.len() ==> (#[trigger] final(cd)@[a]).len == old(cd)@[a].len - kk
            && final(cd)@[a].cnt == old(cd)@[a].cnt - kk
            && final(cd)@[a].first_hole == old(cd)@[a].first_hole,
{
    let ghost pre = cd@;
    let mut y: usize = 0;
    while y < cd.len()
        invariant
            cd@.len() == pre.len(),
            y <= cd@.len(),
            forall|a: int| 0 <= a < pre.len() ==> kk <= (#[trigger] pre[a]).cnt <= pre[a].len,
            forall|a: int| 0 <= a < y ==> (#[trigger] cd@[a]).len == pre[a].len - kk && cd@[a].cnt == pre[a].cnt - kk
                && cd@[a].first_hole == pre[a].first_hole,
            forall|a: int| y <= a < cd@.len() ==> #[trigger] cd@[a] == pre[a],
        decreases cd@.len() - y,
    {
        let o = cd[y];
        cd.set(y, BitsColDes { len: o.len - kk, cnt: o.cnt - kk, first_hole: o.first_hole });
        y = y + 1;
    }
}

/// The row counts of `rd` without the marked rows, followed by `k` empty rows.
fn clear_rows(rd: &Vec<BitsRowDes>, marks: &Vec<bool>, k: usize) -> (nrd: Vec<BitsRowDes>)
    requires
        rd@.len() == marks@.len(),
        k == count_true(marks@),
    ensures
        nrd@.len() == rd@.len(),
        forall|t: int| 0 <= t < nrd@.len() ==> (#[trigger] nrd@[t]).cnt
            == (keep_rows(Seq::new(rd@.len(), |h: int| rd@[h].cnt as int), marks@) + Seq::new(k as nat, |a: int| 0int))[t],
{
    let ghost vals = Seq::new(rd@.len(), |h: int| rd@[h].cnt as int);
    let ghost mk = marks@;
    let mut nrd: Vec<BitsRowDes> = Vec::new();
    let mut h: usize = 0;
    while h < rd.len()
        invariant
            h <= rd@.len(),
            vals == Seq::new(rd@.len(), |h: int| rd@[h].cnt as int),
            mk == marks@,
            mk.len() == rd@.len(),
            nrd@.len() == keep_rows(vals.take(h as int), mk.take(h as int)).len(),
            forall|t: int| 0 <= t < nrd@.len() ==> (#[trigger] nrd@[t]).cnt == keep_rows(vals.take(h as int), mk.take(h as int))[t],
        decreases rd@.len() - h,
    {
        proof {
            assert(vals.take(h + 1).drop_last() =~= vals.take(h as int));
            assert(mk.take(h + 1).drop_last() =~= mk.take(h as int));
        }
        if !marks[h] {
            nrd.push(rd[h]);
        }
        h = h + 1;
    }
    proof {
        assert(vals.take(rd@.len() as int) =~= vals);
        assert(mk.take(rd@.len() as int) =~= mk);
        lemma_keep_rows_len(vals, mk);
    }
    let ghost kept = keep_rows(vals, mk);
    let mut z: usize = 0;
    while z < k
        invariant
            z <= k,
            nrd@.len() == kept.len() + z,
            forall|t: int| 0 <= t < nrd@.len() ==> (#[trigger] nrd@[t]).cnt == (kept + Seq::new(k as nat, |a: int| 0int))[t],
        decreases k - z,
    {
        nrd.push(BitsRowDes { cnt: 0 });
        z = z + 1;
    }
    nrd
}

/// `nd` is the summary that dropping the tetromino of colour `c`, turned `r` quarters with its
/// left column over column `p`, gives from `bd`: rows as `rows_after`, columns as
/// `col_len_after` and `col_cnt_after`, holes unchanged.
pub open spec fn is_drop_result(bd: BitsDes, c: TetrColr, r: int, p: int, nd: BitsDes) -> bool {
    &&& nd.rd@.len() == bd.rd@.len()
    &&& forall|h: int| 0 <= h < nd.rd@.len() ==> (#[trigger] nd.rd@[h]).cnt == rows_after(bd, c, r, p)[h]
    &&& nd.cd@.len() == bd.cd@.len()
    &&& forall|x: int| 0 <= x < nd.cd@.len() ==> (#[trigger] nd.cd@[x]).len == col_len_after(bd, c, r, p, x)
        && nd.cd@[x].cnt == col_cnt_after(bd, c, r, p, x)
        && nd.cd@[x].first_hole == bd.cd@[x].first_hole
        && nd.cd@[x].cnt <= nd.cd@[x].len <= bd.rd@.len()
}

/// Dropping a piece on a summary gives the summary of the board after the drop: for every board
/// that `bd` describes, the summary `nd` that the drop gives describes that board once the piece
/// rests and its full rows are cleared (every row and column count exactly; every column height
/// from above, and exactly unless the column's highest cell was in a cleared row), and the rows
/// cleared are full.
pub proof fn lemma_drop_result_summarises(bd: BitsDes, c: TetrColr, r: int, p: int, nd: BitsDes)
    requires
        is_piece(c),
        0 <= r < 4,
        0 <= p,
        fits(bd, c, r, p),
        drop_in_rows(bd, c, r, p),
        is_drop_result(bd, c, r, p, nd),
    ensures
        forall|g: Seq<Seq<bool>>| #[trigger] describes_board(bd, g)
            ==> summarises_cleared(nd, drop_board(bd, c, r, p, g), cleared_marks(bd, c, r, p)),
{
    let pc = piece_cols(c, r);
    let n = pc.len() as int;
    let land = landing(bd, c, r, p);
    let w = bd.cd@.len();
    let m = cleared_marks(bd, c, r, p);
    let k = cleared_cnt(bd, c, r, p);
    assert forall|g: Seq<Seq<bool>>| #[trigger] describes_board(bd, g) implies summarises_cleared(nd, drop_board(bd, c, r, p, g), m) by {
        lemma_placed_counts(bd, c, r, p, g, n);
        let gd = drop_board(bd, c, r, p, g);
        assert forall|h: int| 0 <= h < gd.len() && #[trigger] m[h] implies count_true(gd[h]) == w by {}
        lemma_cleared_board(gd, m, w);
        let f = |row: Seq<bool>| count_true(row) as int;
        assert(Seq::new(bd.rd@.len(), |h: int| row_after(bd, c, r, p, h)) =~= gd.map_values(f));
        let cb = cleared_board(gd, m, w);
        assert forall|h: int| 0 <= h < cb.len() implies (#[trigger] nd.rd@[h]).cnt == count_true(cb[h]) by {}
        assert forall|x: int| 0 <= x < nd.cd@.len() implies (#[trigger] nd.cd@[x]).cnt == count_true(column(cb, x))
            && height(column(cb, x)) <= nd.cd@[x].len
            && ((height(column(gd, x)) == 0 || !m[height(column(gd, x)) - 1]) ==> height(column(cb, x)) == nd.cd@[x].len) by {
            assert(in_piece(c, r, p, x) == (p <= x < p + n));
        }
    }
}

/// After a drop, the row counts and the column counts of the new summary add up to the same
/// total.
pub proof fn lemma_drop_totals(bd: BitsDes, c: TetrColr, r: int, p: int, nd: BitsDes)
    requires
        is_piece(c),
        0 <= r < 4,
        0 <= p,
        fits(bd, c, r, p),
        drop_in_rows(bd, c, r, p),
        board_wf(bd),
        is_drop_result(bd, c, r, p, nd),
    ensures
        row_sum(nd.rd@, nd.rd@.len() as int) == col_sum(nd.cd@, nd.cd@.len() as int),
{
    let g = choose|g: Seq<Seq<bool>>| describes_board(bd, g);
    let w = bd.cd@.len();
    let m = cleared_marks(bd, c, r, p);
    lemma_drop_result_summarises(bd, c, r, p, nd);
    lemma_placed_counts(bd, c, r, p, g, piece_cols(c, r).len() as int);
    let gd = drop_board(bd, c, r, p, g);
    assert(summarises_cleared(nd, gd, m));
    lemma_cleared_board(gd, m, w);
    lemma_counts_totals(nd.rd@, nd.cd@, cleared_board(gd, m, w));
}

proof fn lemma_max_new_same(bd: BitsDes, c: TetrColr, r: int, r2: int, p: int, n: int)
    requires
        piece_cols(c, r) == piece_cols(c, r2),
    ensures
        max_new_upto(bd, c, r, p, n) == max_new_upto(bd, c, r2, p, n),
    decreases n,
{
    if n > 0 {
        lemma_max_new_same(bd, c, r, r2, p, n - 1);
    }
}

/// Turns of a tetromino that look the same (a half turn of the I, S or Z piece, any turn of the O
/// piece) drop it the same way: the piece fits for both or neither, needs the same rows, clears
/// the same rows, reaches the same top, and gives the same summary and the same board.
pub proof fn lemma_same_turns_drop(bd: BitsDes, c: TetrColr, r: int, r2: int, p: int)
    requires
        is_piece(c),
        0 <= r < 4,
        0 <= r2 < 4,
        same_turns(c, r, r2),
    ensures
        fits(bd, c, r, p) == fits(bd, c, r2, p),
        drop_in_rows(bd, c, r, p) == drop_in_rows(bd, c, r2, p),
        cleared_marks(bd, c, r, p) == cleared_marks(bd, c, r2, p),
        cleared_cnt(bd, c, r, p) == cleared_cnt(bd, c, r2, p),
        top_after(bd, c, r, p) == top_after(bd, c, r2, p),
        forall|nd: BitsDes| #[trigger] is_drop_result(bd, c, r, p, nd) == is_drop_result(bd, c, r2, p, nd),
        forall|g: Seq<Seq<bool>>| #[trigger] drop_board(bd, c, r, p, g) == drop_board(bd, c, r2, p, g),
{
    lemma_same_turns_cols(c, r, r2);
    let pc = piece_cols(c, r);
    assert(landing(bd, c, r, p) == landing(bd, c, r2, p));
    assert forall|i: int| #[trigger] new_len(bd, c, r, p, i) == new_len(bd, c, r2, p, i) by {}
    assert forall|h: int| #[trigger] piece_cells(bd, c, r, p, h) == piece_cells(bd, c, r2, p, h) by {}
    assert(cleared_marks(bd, c, r, p) =~= cleared_marks(bd, c, r2, p));
    lemma_max_new_same(bd, c, r, r2, p, pc.len() as int);
    assert(Seq::new(bd.rd@.len(), |h: int| row_after(bd, c, r, p, h)) =~= Seq::new(bd.rd@.len(), |h: int| row_after(bd, c, r2, p, h)));
    assert(rows_after(bd, c, r, p) == rows_after(bd, c, r2, p));
    assert forall|x: int| #[trigger] col_len_after(bd, c, r, p, x) == col_len_after(bd, c, r2, p, x)
        && col_cnt_after(bd, c, r, p, x) == col_cnt_after(bd, c, r2, p, x) by {}
    assert forall|nd: BitsDes| #[trigger] is_drop_result(bd, c, r, p, nd) == is_drop_result(bd, c, r2, p, nd) by {
        if is_drop_result(bd, c, r, p, nd) {
            assert forall|x: int| 0 <= x < nd.cd@.len() implies (#[trigger] nd.cd@[x]).len == col_len_after(bd, c, r2, p, x) by {
                assert(col_len_after(bd, c, r, p, x) == col_len_after(bd, c, r2, p, x));
            }
        }
        if is_drop_result(bd, c, r2, p, nd) {
            assert forall|x: int| 0 <= x < nd.cd@.len() implies (#[trigger] nd.cd@[x]).len == col_len_after(bd, c, r, p, x) by {
                assert(col_len_after(bd, c, r, p, x) == col_len_after(bd, c, r2, p, x));
            }
        }
    }
    if fits(bd, c, r, p) {
        assert forall|i: int| 0 <= i < piece_cols(c, r2).len() implies #[trigger] new_len(bd, c, r2, p, i) < YCNT by {
            assert(new_len(bd, c, r, p, i) == new_len(bd, c, r2, p, i));
        }
    }
    if fits(bd, c, r2, p) {
        assert forall|i: int| 0 <= i < piece_cols(c, r).len() implies #[trigger] new_len(bd, c, r, p, i) < YCNT by {
            assert(new_len(bd, c, r, p, i) == new_len(bd, c, r2, p, i));
        }
    }
    if p + pc.len() <= bd.cd@.len() {
        if drop_in_rows(bd, c, r, p) {
            assert forall|i: int|
                0 <= i < piece_cols(c, r2).len() && (forall|a: int| 0 <= a <= i ==> #[trigger] new_len(bd, c, r2, p, a) < YCNT)
                implies #[trigger] new_len(bd, c, r2, p, i) <= bd.rd@.len() by {
                assert forall|a: int| 0 <= a <= i implies #[trigger] new_len(bd, c, r, p, a) < YCNT by {
                    assert(new_len(bd, c, r, p, a) == new_len(bd, c, r2, p, a));
                }
                assert(new_len(bd, c, r, p, i) == new_len(bd, c, r2, p, i));
                assert(0 <= i < piece_cols(c, r).len());
            }
        }
        if drop_in_rows(bd, c, r2, p) {
            assert forall|i: int|
                0 <= i < piece_cols(c, r).len() && (forall|a: int| 0 <= a <= i ==> #[trigger] new_len(bd, c, r, p, a) < YCNT)
                implies #[trigger] new_len(bd, c, r, p, i) <= bd.rd@.len() by {
                assert forall|a: int| 0 <= a <= i implies #[trigger] new_len(bd, c, r2, p, a) < YCNT by {
                    assert(new_len(bd, c, r, p, a) == new_len(bd, c, r2, p, a));
                }
                assert(new_len(bd, c, r, p, i) == new_len(bd, c, r2, p, i));
                assert(0 <= i < piece_cols(c, r2).len());
            }
        }
    }
}

proof fn lemma_cells_window(pc: Seq<(int, int)>, land: int, h: int, n: int)
    requires
        0 <= n <= pc.len(),
        forall|i: int| 0 <= i < pc.len() ==> 0 <= (#[trigger] pc[i]).0 && pc[i].0 + pc[i].1 <= 4,
        cells_upto(pc, land, h, n) > 0,
    ensures
        land <= h < land + 4,
    decreases n,
{
    if cells_upto(pc, land, h, n - 1) > 0 {
        lemma_cells_window(pc, land, h, n - 1);
    }
}

/// A drop clears at most four rows: only rows that receive a cell of the piece are cleared.
pub proof fn lemma_clears_at_most_four(bd: BitsDes, c: TetrColr, r: int, p: int)
    requires
        is_piece(c),
        0 <= r < 4,
    ensures
        cleared_cnt(bd, c, r, p) <= 4,
{
    lemma_piece_rotations(c, r);
    let pc = piece_cols(c, r);
    let land = landing(bd, c, r, p);
    let m = cleared_marks(bd, c, r, p);
    assert forall|h: int| 0 <= h < m.len() && #[trigger] m[h] implies land <= h < land + 4 by {
        lemma_cells_window(pc, land, h, pc.len() as int);
    }
    lemma_count_window(m, land, 4);
}

/// A drop on a board with no full row leaves no full row: the rows it fills are cleared.
pub proof fn lemma_no_full_row_left(bd: BitsDes, c: TetrColr, r: int, p: int, nd: BitsDes)
    requires
        is_piece(c),
        0 <= r < 4,
        0 <= p,
        fits(bd, c, r, p),
        drop_in_rows(bd, c, r, p),
        board_wf(bd),
        is_drop_result(bd, c, r, p, nd),
        forall|h: int| 0 <= h < bd.rd@.len() ==> (#[trigger] bd.rd@[h]).cnt < bd.cd@.len(),
    ensures
        forall|h: int| 0 <= h < nd.rd@.len() ==> (#[trigger] nd.rd@[h]).cnt < nd.cd@.len(),
{
    let g = choose|g: Seq<Seq<bool>>| describes_board(bd, g);
    let w = bd.cd@.len() as int;
    let pc = piece_cols(c, r);
    lemma_placed_counts(bd, c, r, p, g, pc.len() as int);
    let gi = placed(g, pc, landing(bd, c, r, p), p, pc.len() as int);
    let vals = Seq::new(bd.rd@.len(), |h: int| row_after(bd, c, r, p, h));
    let m = cleared_marks(bd, c, r, p);
    assert forall|h: int| 0 <= h < vals.len() && !m[h] implies #[trigger] vals[h] < w by {
        lemma_count_le_len(gi[h]);
        lemma_cells_nonneg(pc, landing(bd, c, r, p), h, pc.len() as int);
        assert(count_true(gi[h]) == bd.rd@[h].cnt + cells_upto(pc, landing(bd, c, r, p), h, pc.len() as int));
    }
    lemma_keep_rows_below(vals, m, w);
    lemma_keep_rows_len(vals, m);
    assert forall|h: int| 0 <= h < nd.rd@.len() implies (#[trigger] nd.rd@[h]).cnt < nd.cd@.len() by {
        assert(nd.rd@[h].cnt == rows_after(bd, c, r, p)[h]);
    }
}

/// Cells of the piece in the columns before column `n`.
pub open spec fn piece_cells_before(pc: Seq<(int, int)>, p: int, n: int) -> int {
    piece_size_upto(pc, if n - p <= 0 { 0 } else if n - p >= pc.len() { pc.len() as int } else { n - p })
}

proof fn lemma_col_sum_after(bd: BitsDes, c: TetrColr, r: int, p: int, nd: BitsDes, n: int)
    requires
        0 <= p,
        0 <= n <= bd.cd@.len(),
        is_drop_result(bd, c, r, p, nd),
    ensures
        col_sum(nd.cd@, n) == col_sum(bd.cd@, n) + piece_cells_before(piece_cols(c, r), p, n)
            - cleared_cnt(bd, c, r, p) * n,
    decreases n,
{
    let k = cleared_cnt(bd, c, r, p) as int;
    let pc = piece_cols(c, r);
    if n > 0 {
        lemma_col_sum_after(bd, c, r, p, nd, n - 1);
        assert(k * n == k * (n - 1) + k) by (nonlinear_arith);
        assert(nd.cd@[n - 1].cnt == col_cnt_after(bd, c, r, p, n - 1));
        if p <= n - 1 < p + pc.len() {
            assert(piece_cells_before(pc, p, n) == piece_cells_before(pc, p, n - 1) + pc[n - 1 - p].1);
        } else {
            assert(piece_cells_before(pc, p, n) == piece_cells_before(pc, p, n - 1));
        }
    } else {
        assert(k * n == 0) by (nonlinear_arith)
            requires
                n == 0,
        ;
    }
}

/// A drop adds the four cells of the tetromino, and each cleared row takes away one cell of every
/// column.
pub proof fn lemma_drop_adds_four(bd: BitsDes, c: TetrColr, r: int, p: int, nd: BitsDes)
    requires
        is_piece(c),
        0 <= r < 4,
        0 <= p,
        fits(bd, c, r, p),
        is_drop_result(bd, c, r, p, nd),
    ensures
        col_sum(nd.cd@, nd.cd@.len() as int) == col_sum(bd.cd@, bd.cd@.len() as int) + 4
            - cleared_cnt(bd, c, r, p) * bd.cd@.len(),
{
    lemma_col_sum_after(bd, c, r, p, nd, bd.cd@.len() as int);
    lemma_piece_size(c, r);
    lemma_piece_rotations(c, r);
}

/// Drops the tetromino of colour `c`, turned `rot_idx` quarters, with its left column over
/// column `pos_idx` of the playfield that `bd` summarises, and clears the rows it fills.
/// Returns `None` when the piece does not lie within the columns or a column it covers would
/// reach the top row count. Otherwise returns the new summary, the height of the highest
/// column the piece covers, and the number of rows cleared. Every column height and count in
/// the new summary is lowered by the number of cleared rows; the holes are left as they were.
/// The summary keeps its number of rows and columns; its rows and columns hold the same number
/// of cells, four more than before less one per column for each cleared row (at most four).
/// The rows that the drop writes must exist (see `drop_in_rows`): any summary of `YCNT - 1`
/// rows or more has them.
pub fn block_add(bd: &BitsDes, c: TetrColr, rot_idx: usize, pos_idx: usize) -> (res: Option<(BitsDes, u32, usize)>)
    requires
        is_piece(c),
        rot_idx < 4,
        pos_idx < bd.cd@.len(),
        bd.cd@.len() <= u32::MAX,
        drop_in_rows(*bd, c, rot_idx as int, pos_idx as int),
        board_wf(*bd),
    ensures
        res is None <==> !fits(*bd, c, rot_idx as int, pos_idx as int),
        res matches Some((nd, top, k)) ==> {
            &&& k == cleared_cnt(*bd, c, rot_idx as int, pos_idx as int)
            &&& top == top_after(*bd, c, rot_idx as int, pos_idx as int)
            &&& is_drop_result(*bd, c, rot_idx as int, pos_idx as int, nd)
            &&& nd.rd@.len() == bd.rd@.len()
            &&& nd.cd@.len() == bd.cd@.len()
            &&& row_sum(nd.rd@, nd.rd@.len() as int) == col_sum(nd.cd@, nd.cd@.len() as int)
            &&& col_sum(nd.cd@, nd.cd@.len() as int) == col_sum(bd.cd@, bd.cd@.len() as int) + 4 - k * bd.cd@.len()
            &&& k <= 4
            &&& (forall|h: int| 0 <= h < bd.rd@.len() ==> (#[trigger] bd.rd@[h]).cnt < bd.cd@.len())
                ==> forall|h: int| 0 <= h < nd.rd@.len() ==> (#[trigger] nd.rd@[h]).cnt < nd.cd@.len()
        },
        res matches Some((nd, top, k)) ==> forall|g: Seq<Seq<bool>>| #[trigger] describes_board(*bd, g)
            ==> summarises_cleared(nd, drop_board(*bd, c, rot_idx as int, pos_idx as int, g),
                cleared_marks(*bd, c, rot_idx as int, pos_idx as int)),
{
    let ghost r = rot_idx as int;
    let ghost p = pos_idx as int;
    let ghost pc = piece_cols(c, r);
    let ghost g = choose|g: Seq<Seq<bool>>| describes_board(*bd, g);
    let ghost w = bd.cd@.len() as int;
    proof {
        lemma_piece_rotations(c, r);
    }
    let col_des = rotation_cols(c, rot_idx);
    if col_des.len() > bd.cd.len() - pos_idx {
        return None;
    }
    let max_h = landing_height(&bd.cd, &col_des, pos_idx, Ghost(pc));
    match place_piece(bd, c, rot_idx, pos_idx, &col_des, max_h, Ghost(g)) {
        None => None,
        Some((cd, rd, marks, k, top, gf)) => {
            let ghost land = max_h as int;
            let ghost gcur = gf@;
            let ghost n = pc.len() as int;
            proof {
                // every cleared row is full, so every column holds a cell in each of them
                assert forall|y: int| 0 <= y < w implies k <= (#[trigger] cd@[y]).cnt <= cd@[y].len by {
                    let col = column(gcur, y);
                    assert forall|h: int| 0 <= h < marks@.len() && #[trigger] marks@[h] implies col[h] by {
                        lemma_count_le_len(gcur[h]);
                        assert(gcur[h][y]);
                    }
                    lemma_count_mono(marks@, col);
                    lemma_height_bounds(col);
                    assert(col.len() == bd.rd@.len());
                }
                lemma_max_new_ge(*bd, c, r, p, n, 0);
                assert(cd@[p].len == new_len(*bd, c, r, p, 0));
                assert forall|h: int| 0 <= h < bd.rd@.len() implies #[trigger] marks@[h] == cleared_marks(*bd, c, r, p)[h] by {
                    lemma_cells_nonneg(pc, land, h, n);
                }
                assert(marks@ =~= cleared_marks(*bd, c, r, p));
                assert(Seq::new(rd@.len(), |h: int| rd@[h].cnt as int) =~= Seq::new(bd.rd@.len(), |h: int| row_after(*bd, c, r, p, h)));
            }
            let ghost cd_pre = cd@;
            let mut cd = cd;
            let kk: u32 = k as u32;
            lower_cols(&mut cd, kk);
            let nrd = clear_rows(&rd, &marks, k);
            let nd = BitsDes { rd: nrd, cd };
            proof {
                lemma_fits_in_rows(*bd, c, r, p);
                assert forall|x: int| 0 <= x < w implies (#[trigger] bd.cd@[x]).len <= bd.rd@.len() by {
                    lemma_height_bounds(column(g, x));
                }
                assert(is_drop_result(*bd, c, r, p, nd));
                lemma_drop_result_summarises(*bd, c, r, p, nd);
                lemma_drop_totals(*bd, c, r, p, nd);
                lemma_drop_adds_four(*bd, c, r, p, nd);
                lemma_clears_at_most_four(*bd, c, r, p);
                if forall|h: int| 0 <= h < bd.rd@.len() ==> (#[trigger] bd.rd@[h]).cnt < bd.cd@.len() {
                    lemma_no_full_row_left(*bd, c, r, p, nd);
                }
            }
            Some((nd, top - kk, k))
        },
    }
}

} // verus!
