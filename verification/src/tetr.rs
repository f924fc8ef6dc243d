//! Tetromino shapes and the column description of each rotation.
use vstd::prelude::*;
use crate::colr::TetrColr;

verus! {

/// The cells of a grid of integers, row by row.
pub open spec fn grid_view(v: Vec<Vec<i32>>) -> Seq<Seq<i32>> {
    v@.map_values(|r: Vec<i32>| r@)
}

/// Every row is at least as long as the first one (which the column count is read from).
pub open spec fn rows_cover_first(b: Seq<Seq<i32>>) -> bool {
    &&& b.len() >= 1
    &&& forall|j: int| 0 <= j < b.len() ==> #[trigger] b[j].len() >= b[0].len()
}

/// The grid turned a quarter clockwise: row `i` of the result is column `i` read from the
/// bottom row up.
pub open spec fn rot90(b: Seq<Seq<i32>>) -> Seq<Seq<i32>> {
    Seq::new(b[0].len(), |i: int| Seq::new(b.len(), |k: int| b[b.len() - 1 - k][i]))
}

/// The grid turned `n` quarters clockwise.
pub open spec fn rot_n(b: Seq<Seq<i32>>, n: nat) -> Seq<Seq<i32>>
    decreases n,
{
    if n == 0 {
        b
    } else {
        rot90(rot_n(b, (n - 1) as nat))
    }
}

/// Turns a grid a quarter clockwise.
pub fn get_clock_rot90(bits: &Vec<Vec<i32>>) -> (ret: Vec<Vec<i32>>)
    requires
        rows_cover_first(grid_view(*bits)),
    ensures
        grid_view(ret) == rot90(grid_view(*bits)),
{
    let ghost b = grid_view(*bits);
    let mut ret: Vec<Vec<i32>> = Vec::new();
    let cols = bits[0].len();
    let rows = bits.len();
    let mut i: usize = 0;
    while i < cols
        invariant
            b == grid_view(*bits),
            rows_cover_first(b),
            cols == b[0].len(),
            rows == b.len(),
            i <= cols,
            ret@.len() == i,
            forall|a: int| 0 <= a < i ==> #[trigger] grid_view(ret)[a] == rot90(b)[a],
        decreases cols - i,
    {
        let mut tmp: Vec<i32> = Vec::new();
        let mut j: usize = rows;
        while j > 0
            invariant
                b == grid_view(*bits),
                rows_cover_first(b),
                cols == b[0].len(),
                rows == b.len(),
                i < cols,
                j <= rows,
                tmp@.len() == rows - j,
                forall|k: int| 0 <= k < rows - j ==> #[trigger] tmp@[k] == b[rows - 1 - k][i as int],
            decreases j,
        {
            j = j - 1;
            assert(b[j as int].len() >= b[0].len());
            assert(bits@[j as int]@ == b[j as int]);
            tmp.push(bits[j][i]);
        }
        assert(tmp@ =~= rot90(b)[i as int]);
        let ghost prev = ret@;
        let ghost prevg = grid_view(ret);
        ret.push(tmp);
        assert forall|a: int| 0 <= a < i + 1 implies #[trigger] grid_view(ret)[a] == rot90(b)[a] by {
            assert(ret@[a] == prev.push(tmp)[a]);
            if a < i {
                assert(prevg[a] == prev[a]@);
                assert(prevg[a] == rot90(b)[a]);
            }
        }
        i = i + 1;
    }
    assert(grid_view(ret) =~= rot90(b));
    ret
}

/// The cell of column `i` at height `j`, counting from the bottom row.
pub open spec fn cell_up(b: Seq<Seq<i32>>, i: int, j: int) -> i32 {
    b[b.len() - 1 - j][i]
}

/// Height (from the bottom, starting at `j`) of the lowest filled cell of column `i`, or the
/// number of rows when there is none.
pub open spec fn first_one(b: Seq<Seq<i32>>, i: int, j: int) -> int
    decreases b.len() - j,
{
    if j < 0 || j >= b.len() {
        b.len() as int
    } else if cell_up(b, i, j) == 1 {
        j
    } else {
        first_one(b, i, j + 1)
    }
}

/// Number of consecutive filled cells of column `i` from height `j` upwards.
pub open spec fn run_len(b: Seq<Seq<i32>>, i: int, j: int) -> int
    decreases b.len() - j,
{
    if j < 0 || j >= b.len() || cell_up(b, i, j) != 1 {
        0
    } else {
        1 + run_len(b, i, j + 1)
    }
}

/// The description of column `i`: height of its lowest filled cell and length of the run of
/// filled cells that starts there.
pub open spec fn shape_col(b: Seq<Seq<i32>>, i: int) -> (int, int) {
    (first_one(b, i, 0), run_len(b, i, first_one(b, i, 0)))
}

/// Every column of the grid holds a filled cell.
pub open spec fn cols_filled(b: Seq<Seq<i32>>) -> bool {
    forall|i: int| 0 <= i < b[0].len() ==> #[trigger] first_one(b, i, 0) < b.len()
}

proof fn lemma_first_one_bounds(b: Seq<Seq<i32>>, i: int, j: int)
    requires
        0 <= j <= b.len(),
    ensures
        j <= first_one(b, i, j) <= b.len(),
        first_one(b, i, j) < b.len() ==> cell_up(b, i, first_one(b, i, j)) == 1,
        forall|k: int| j <= k < first_one(b, i, j) ==> cell_up(b, i, k) != 1,
    decreases b.len() - j,
{
    if j < b.len() && cell_up(b, i, j) != 1 {
        lemma_first_one_bounds(b, i, j + 1);
    }
}

proof fn lemma_run_len_bounds(b: Seq<Seq<i32>>, i: int, j: int)
    requires
        0 <= j <= b.len(),
    ensures
        0 <= run_len(b, i, j) <= b.len() - j,
        forall|k: int| j <= k < j + run_len(b, i, j) ==> cell_up(b, i, k) == 1,
        j + run_len(b, i, j) < b.len() ==> cell_up(b, i, j + run_len(b, i, j)) != 1,
    decreases b.len() - j,
{
    if j < b.len() && cell_up(b, i, j) == 1 {
        lemma_run_len_bounds(b, i, j + 1);
    }
}

/// Describes each column of a shape by the height (from the bottom) of its lowest filled cell
/// and the length of the run of filled cells that starts there.
pub fn get_shape_col(bits: &Vec<Vec<i32>>) -> (ret: Vec<(u32, u32)>)
    requires
        rows_cover_first(grid_view(*bits)),
        bits@.len() <= u32::MAX,
        cols_filled(grid_view(*bits)),
    ensures
        ret@.len() == bits@[0]@.len(),
        forall|i: int| 0 <= i < ret@.len() ==> (#[trigger] ret@[i]).0 == shape_col(grid_view(*bits), i).0
            && ret@[i].1 == shape_col(grid_view(*bits), i).1,
{
    let ghost b = grid_view(*bits);
    let mut ret: Vec<(u32, u32)> = Vec::new();
    let c = bits[0].len();
    let r = bits.len();
    let mut i: usize = 0;
    while i < c
        invariant
            b == grid_view(*bits),
            rows_cover_first(b),
            cols_filled(b),
            r <= u32::MAX,
            c == b[0].len(),
            r == b.len(),
            i <= c,
            ret@.len() == i,
            forall|a: int| 0 <= a < i ==> (#[trigger] ret@[a]).0 == shape_col(b, a).0
                && ret@[a].1 == shape_col(b, a).1,
        decreases c - i,
    {
        proof {
            lemma_first_one_bounds(b, i as int, 0);
            assert(first_one(b, i as int, 0) < r);
        }
        let mut idx: u32 = 0;
        let mut j: usize = 0;
        let mut found = false;
        while j < r && !found
            invariant
                b == grid_view(*bits),
                rows_cover_first(b),
                r <= u32::MAX,
                c == b[0].len(),
                r == b.len(),
                i < c,
                j <= r,
                idx == j,
                first_one(b, i as int, 0) < r,
                found ==> j == first_one(b, i as int, 0),
                !found ==> first_one(b, i as int, 0) == first_one(b, i as int, j as int),
            decreases r - j + (if found { 0int } else { 1int }),
        {
            assert(b[r - j - 1].len() >= b[0].len());
            assert(bits@[r - j - 1]@ == b[r - j - 1]);
            if bits[r - j - 1][i] == 1 {
                found = true;
            } else {
                idx = idx + 1;
                j = j + 1;
            }
        }
        proof {
            if !found {
                assert(first_one(b, i as int, j as int) == r);
            }
            lemma_run_len_bounds(b, i as int, idx as int);
        }
        let mut cnt: u32 = 0;
        let mut j: usize = idx as usize;
        let mut stop = false;
        while j < r && !stop
            invariant
                b == grid_view(*bits),
                rows_cover_first(b),
                r <= u32::MAX,
                c == b[0].len(),
                r == b.len(),
                i < c,
                idx == first_one(b, i as int, 0),
                idx <= j <= r,
                cnt == j - idx,
                stop ==> run_len(b, i as int, idx as int) == cnt,
                !stop ==> run_len(b, i as int, idx as int) == cnt + run_len(b, i as int, j as int),
            decreases r - j + (if stop { 0int } else { 1int }),
        {
            assert(b[r - j - 1].len() >= b[0].len());
            assert(bits@[r - j - 1]@ == b[r - j - 1]);
            if bits[r - j - 1][i] == 1 {
                cnt = cnt + 1;
                j = j + 1;
            } else {
                stop = true;
            }
        }
        ret.push((idx, cnt));
        i = i + 1;
    }
    ret
}


/// Column `i` of the grid holds a filled cell.
pub open spec fn col_has_one(b: Seq<Seq<i32>>, i: int) -> bool {
    exists|j: int| 0 <= j < b.len() && #[trigger] b[j][i] == 1
}

/// Row `j` of the grid holds a filled cell.
pub open spec fn row_has_one(b: Seq<Seq<i32>>, j: int) -> bool {
    exists|i: int| 0 <= i < b[0].len() && #[trigger] b[j][i] == 1
}

/// A shape grid: rectangular, not empty, and every row and every column holds a filled cell.
pub open spec fn tight(b: Seq<Seq<i32>>) -> bool {
    &&& b.len() >= 1
    &&& b[0].len() >= 1
    &&& forall|j: int| 0 <= j < b.len() ==> #[trigger] b[j].len() == b[0].len()
    &&& forall|i: int| 0 <= i < b[0].len() ==> #[trigger] col_has_one(b, i)
    &&& forall|j: int| 0 <= j < b.len() ==> #[trigger] row_has_one(b, j)
}

/// A quarter turn keeps a shape grid tight and swaps its dimensions.
pub proof fn lemma_rot90_tight(b: Seq<Seq<i32>>)
    requires
        tight(b),
    ensures
        tight(rot90(b)),
        rot90(b).len() == b[0].len(),
        rot90(b)[0].len() == b.len(),
{
    let r = rot90(b);
    let rows = b.len();
    let cols = b[0].len();
    assert(r.len() == cols);
    assert(r[0].len() == rows);
    assert forall|j: int| 0 <= j < r.len() implies #[trigger] r[j].len() == r[0].len() by {}
    assert forall|i: int| 0 <= i < r[0].len() implies #[trigger] col_has_one(r, i) by {
        let row = rows - 1 - i;
        assert(0 <= row < rows);
        assert(row_has_one(b, row));
        let w = choose|w: int| 0 <= w < cols && #[trigger] b[row][w] == 1;
        assert(r[w][i] == b[rows - 1 - i][w]);
    }
    assert forall|j: int| 0 <= j < r.len() implies #[trigger] row_has_one(r, j) by {
        assert(col_has_one(b, j));
        let w = choose|w: int| 0 <= w < rows && #[trigger] b[w][j] == 1;
        let k = rows - 1 - w;
        assert(r[j][k] == b[rows - 1 - k][j]);
    }
}

/// Turning a tight grid any number of quarters keeps it tight; its dimensions stay within a
/// bound that holds of both dimensions of the unturned grid.
pub proof fn lemma_rot_n_tight(b: Seq<Seq<i32>>, n: nat, bound: int)
    requires
        tight(b),
        b.len() <= bound,
        b[0].len() <= bound,
    ensures
        tight(rot_n(b, n)),
        rot_n(b, n).len() <= bound,
        rot_n(b, n)[0].len() <= bound,
    decreases n,
{
    if n > 0 {
        lemma_rot_n_tight(b, (n - 1) as nat, bound);
        lemma_rot90_tight(rot_n(b, (n - 1) as nat));
    }
}

/// In a tight grid every column has a filled cell, and some column has one in the bottom row.
pub proof fn lemma_tight_cols(b: Seq<Seq<i32>>)
    requires
        tight(b),
    ensures
        rows_cover_first(b),
        cols_filled(b),
        exists|i: int| 0 <= i < b[0].len() && #[trigger] first_one(b, i, 0) == 0,
{
    assert forall|i: int| 0 <= i < b[0].len() implies #[trigger] first_one(b, i, 0) < b.len() by {
        lemma_first_one_bounds(b, i, 0);
        assert(col_has_one(b, i));
        let w = choose|w: int| 0 <= w < b.len() && #[trigger] b[w][i] == 1;
        assert(cell_up(b, i, b.len() - 1 - w) == 1);
    }
    let bottom = b.len() - 1;
    assert(row_has_one(b, bottom));
    let w = choose|w: int| 0 <= w < b[0].len() && #[trigger] b[bottom][w] == 1;
    assert(cell_up(b, w, 0) == 1);
    assert(first_one(b, w, 0) == 0);
}

/// The colours that belong to a tetromino.
pub open spec fn is_piece(c: TetrColr) -> bool {
    c != TetrColr::Black && c != TetrColr::Gray
}

/// The shape of the tetromino of colour `c` as it appears, row by row, 1 for a filled cell.
pub open spec fn spec_shape(c: TetrColr) -> Seq<Seq<i32>> {
    match c {
        TetrColr::Purple => seq![seq![0i32, 1, 0], seq![1i32, 1, 1]],
        TetrColr::Red => seq![seq![1i32, 1, 0], seq![0i32, 1, 1]],
        TetrColr::Cyan => seq![seq![1i32, 1, 1, 1]],
        TetrColr::Blue => seq![seq![1i32, 0, 0], seq![1i32, 1, 1]],
        TetrColr::Green => seq![seq![0i32, 1, 1], seq![1i32, 1, 0]],
        TetrColr::Orange => seq![seq![0i32, 0, 1], seq![1i32, 1, 1]],
        _ => seq![seq![1i32, 1], seq![1i32, 1]],
    }
}

/// For each rotation, the column at which the tetromino of colour `c` appears.
pub open spec fn spec_start_pos(c: TetrColr) -> Seq<i32> {
    match c {
        TetrColr::Cyan => seq![3i32, 5, 3, 5],
        TetrColr::Yellow => seq![4i32, 4, 4, 4],
        _ => seq![3i32, 4, 3, 3],
    }
}

/// The rotations of the tetromino of colour `c` that give different placements.
pub open spec fn spec_rot_ids(c: TetrColr) -> Seq<i32> {
    match c {
        TetrColr::Red | TetrColr::Cyan | TetrColr::Green => seq![0i32, 1],
        TetrColr::Yellow => seq![0i32],
        _ => seq![0i32, 1, 2, 3],
    }
}

/// The shape of colour `c` turned `r` quarters clockwise.
pub open spec fn rotated_shape(c: TetrColr, r: int) -> Seq<Seq<i32>> {
    rot_n(spec_shape(c), r as nat)
}

/// Column description of the shape of colour `c` turned `r` quarters clockwise: for each column,
/// the height of its lowest filled cell and the length of the run of filled cells from there.
pub open spec fn piece_cols(c: TetrColr, r: int) -> Seq<(int, int)> {
    Seq::new(rotated_shape(c, r)[0].len(), |i: int| shape_col(rotated_shape(c, r), i))
}

/// The shapes of the tetrominoes are tight and fit in four by four cells.
pub proof fn lemma_shape_tight(c: TetrColr)
    requires
        is_piece(c),
    ensures
        tight(spec_shape(c)),
        spec_shape(c).len() <= 4,
        spec_shape(c)[0].len() <= 4,
{
    let b = spec_shape(c);
    assert(forall|j: int| 0 <= j < b.len() ==> #[trigger] b[j].len() == b[0].len());
    assert forall|i: int| 0 <= i < b[0].len() implies #[trigger] col_has_one(b, i) by {
        let bottom = b.len() - 1;
        if b[bottom][i] == 1 {
            assert(b[bottom][i] == 1);
        } else {
            assert(b[0][i] == 1);
        }
    }
    assert forall|j: int| 0 <= j < b.len() implies #[trigger] row_has_one(b, j) by {
        if b[j][0] == 1 {
            assert(b[j][0] == 1);
        } else if b[j][1] == 1 {
            assert(b[j][1] == 1);
        } else {
            assert(b[j][2] == 1);
        }
    }
}

/// Every rotation of every tetromino is tight, has at most four rows and columns, and has a
/// column whose lowest filled cell is in its bottom row.
pub proof fn lemma_piece_rotations(c: TetrColr, r: int)
    requires
        is_piece(c),
        0 <= r,
    ensures
        tight(rotated_shape(c, r)),
        rotated_shape(c, r).len() <= 4,
        1 <= piece_cols(c, r).len() <= 4,
        exists|i: int| 0 <= i < piece_cols(c, r).len() && (#[trigger] piece_cols(c, r)[i]).0 == 0,
        forall|i: int| 0 <= i < piece_cols(c, r).len() ==> 0 <= (#[trigger] piece_cols(c, r)[i]).0
            && 1 <= piece_cols(c, r)[i].1
            && piece_cols(c, r)[i].0 + piece_cols(c, r)[i].1 <= 4,
{
    lemma_shape_tight(c);
    lemma_rot_n_tight(spec_shape(c), r as nat, 4);
    let b = rotated_shape(c, r);
    lemma_tight_cols(b);
    let w = choose|w: int| 0 <= w < b[0].len() && #[trigger] first_one(b, w, 0) == 0;
    assert(piece_cols(c, r)[w].0 == 0);
    assert forall|i: int| 0 <= i < piece_cols(c, r).len() implies 0 <= (#[trigger] piece_cols(c, r)[i]).0
        && 1 <= piece_cols(c, r)[i].1
        && piece_cols(c, r)[i].0 + piece_cols(c, r)[i].1 <= 4 by {
        lemma_first_one_bounds(b, i, 0);
        assert(first_one(b, i, 0) < b.len());
        lemma_run_len_bounds(b, i, first_one(b, i, 0));
        assert(run_len(b, i, first_one(b, i, 0)) >= 1);
    }
}

/// The column description of one rotation of a tetromino.
#[derive(Debug)]
pub struct ColDes {
    rot_id: u32,
    col: Vec<(u32, u32)>,
}

/// A tetromino: its start column and column description for each rotation, and the rotations
/// that give different placements.
pub struct TetrBlk {
    pos: [i32; 4],
    rots: Vec<ColDes>,
    rot_ids: Vec<i32>,
}

impl ColDes {
    /// The description describes rotation `r` of colour `c`.
    pub closed spec fn describes(&self, c: TetrColr, r: int) -> bool {
        &&& self.rot_id == r
        &&& self.col@.len() == piece_cols(c, r).len()
        &&& forall|i: int| 0 <= i < self.col@.len() ==> (#[trigger] self.col@[i]).0 == piece_cols(c, r)[i].0
            && self.col@[i].1 == piece_cols(c, r)[i].1
    }
}

impl TetrBlk {
    /// The tetromino is the one of colour `c`.
    pub closed spec fn describes(&self, c: TetrColr) -> bool {
        &&& self.pos@ == spec_start_pos(c)
        &&& self.rot_ids@ == spec_rot_ids(c)
        &&& self.rots@.len() == 4
        &&& forall|r: int| 0 <= r < 4 ==> (#[trigger] self.rots@[r]).describes(c, r)
    }
}

/// Builds the tetromino of colour `c`: its start columns, its rotations described column by
/// column, and the rotations that give different placements.
fn make_blk(c: TetrColr) -> (blk: TetrBlk)
    requires
        is_piece(c),
    ensures
        blk.describes(c),
{
    let (pos, shape, ids): ([i32; 4], Vec<Vec<i32>>, Vec<i32>) = match c {
        TetrColr::Purple => ([3, 4, 3, 3], vec![vec![0, 1, 0], vec![1, 1, 1]], vec![0, 1, 2, 3]),
        TetrColr::Red => ([3, 4, 3, 3], vec![vec![1, 1, 0], vec![0, 1, 1]], vec![0, 1]),
        TetrColr::Cyan => ([3, 5, 3, 5], vec![vec![1, 1, 1, 1]], vec![0, 1]),
        TetrColr::Blue => ([3, 4, 3, 3], vec![vec![1, 0, 0], vec![1, 1, 1]], vec![0, 1, 2, 3]),
        TetrColr::Green => ([3, 4, 3, 3], vec![vec![0, 1, 1], vec![1, 1, 0]], vec![0, 1]),
        TetrColr::Orange => ([3, 4, 3, 3], vec![vec![0, 0, 1], vec![1, 1, 1]], vec![0, 1, 2, 3]),
        _ => ([4, 4, 4, 4], vec![vec![1, 1], vec![1, 1]], vec![0]),
    };
    assert(grid_view(shape) =~~= spec_shape(c));
    assert(pos@ =~= spec_start_pos(c));
    assert(ids@ =~= spec_rot_ids(c));
    let mut rots: Vec<ColDes> = Vec::new();
    let mut sp = shape;
    let mut r: u32 = 0;
    while r < 4
        invariant
            is_piece(c),
            r <= 4,
            grid_view(sp) == rotated_shape(c, r as int),
            rots@.len() == r,
            forall|q: int| 0 <= q < r ==> (#[trigger] rots@[q]).describes(c, q),
        decreases 4 - r,
    {
        proof {
            lemma_piece_rotations(c, r as int);
            lemma_tight_cols(rotated_shape(c, r as int));
        }
        let col = get_shape_col(&sp);
        rots.push(ColDes { rot_id: r, col });
        sp = get_clock_rot90(&sp);
        assert(rot_n(spec_shape(c), (r + 1) as nat) == rot90(rot_n(spec_shape(c), r as nat)));
        r = r + 1;
    }
    TetrBlk { pos, rots, rot_ids: ids }
}

/// The column at which the tetromino of colour `c` turned `rot_idx` quarters appears.
pub fn get_start_pos(c: TetrColr, rot_idx: usize) -> (r: i32)
    requires
        is_piece(c),
        rot_idx < 4,
    ensures
        r == spec_start_pos(c)[rot_idx as int],
{
    let a = make_blk(c);
    a.pos[rot_idx]
}

/// The rotations of the tetromino of colour `c` that give different placements.
pub fn get_rot_ids(c: TetrColr) -> (r: Vec<usize>)
    requires
        is_piece(c),
    ensures
        r@.len() == spec_rot_ids(c).len(),
        forall|i: int| 0 <= i < r@.len() ==> #[trigger] r@[i] == spec_rot_ids(c)[i],
{
    let a = make_blk(c);
    let mut r: Vec<usize> = Vec::new();
    let mut i: usize = 0;
    while i < a.rot_ids.len()
        invariant
            a.describes(c),
            i <= a.rot_ids@.len(),
            r@.len() == i,
            forall|k: int| 0 <= k < i ==> #[trigger] r@[k] == spec_rot_ids(c)[k],
        decreases a.rot_ids@.len() - i,
    {
        assert(0 <= a.rot_ids@[i as int] < 4);
        r.push(a.rot_ids[i] as usize);
        i = i + 1;
    }
    r
}

/// The column description of the tetromino of colour `c` turned `rot_idx` quarters clockwise:
/// for each column, the height of its lowest filled cell and the length of its run of cells.
pub(crate) fn rotation_cols(c: TetrColr, rot_idx: usize) -> (r: Vec<(u32, u32)>)
    requires
        is_piece(c),
        rot_idx < 4,
    ensures
        r@.len() == piece_cols(c, rot_idx as int).len(),
        forall|i: int| 0 <= i < r@.len() ==> (#[trigger] r@[i]).0 == piece_cols(c, rot_idx as int)[i].0
            && r@[i].1 == piece_cols(c, rot_idx as int)[i].1,
{
    let blk = make_blk(c);
    let TetrBlk { rots, .. } = blk;
    let mut rots = rots;
    let d = rots.remove(rot_idx);
    assert(d.describes(c, rot_idx as int));
    d.col
}

/// The grid is rectangular and not empty.
pub open spec fn rectangular(b: Seq<Seq<i32>>) -> bool {
    &&& b.len() >= 1
    &&& b[0].len() >= 1
    &&& forall|j: int| 0 <= j < b.len() ==> #[trigger] b[j].len() == b[0].len()
}

proof fn lemma_rot90_rect(b: Seq<Seq<i32>>)
    requires
        rectangular(b),
    ensures
        rectangular(rot90(b)),
        rot90(b).len() == b[0].len(),
        rot90(b)[0].len() == b.len(),
        forall|i: int, k: int| 0 <= i < b[0].len() && 0 <= k < b.len() ==> #[trigger] rot90(b)[i][k] == b[b.len() - 1 - k][i],
{
}

/// Four quarter turns give the grid back.
pub proof fn lemma_rot90_four(b: Seq<Seq<i32>>)
    requires
        rectangular(b),
    ensures
        rot_n(b, 4) == b,
{
    let r1 = rot90(b);
    lemma_rot90_rect(b);
    let r2 = rot90(r1);
    lemma_rot90_rect(r1);
    let r3 = rot90(r2);
    lemma_rot90_rect(r2);
    let r4 = rot90(r3);
    lemma_rot90_rect(r3);
    assert(rot_n(b, 0) == b);
    assert(rot_n(b, 1) == r1);
    assert(rot_n(b, 2) == r2);
    assert(rot_n(b, 3) == r3);
    assert(rot_n(b, 4) == r4);
    assert forall|j: int| 0 <= j < b.len() implies #[trigger] r4[j] =~= b[j] by {
        assert forall|i: int| 0 <= i < b[0].len() implies r4[j][i] == b[j][i] by {
            let rows = b.len();
            let cols = b[0].len();
            assert(r4[j][i] == r3[cols - 1 - i][j]);
            assert(r3[cols - 1 - i][j] == r2[rows - 1 - j][cols - 1 - i]);
            assert(r2[rows - 1 - j][cols - 1 - i] == r1[i][rows - 1 - j]);
            assert(r1[i][rows - 1 - j] == b[j][i]);
        }
    }
    assert(r4 =~= b);
}

/// Turns `r` and `r2` of the tetromino of colour `c` look the same: they are equal, or differ by
/// a half turn for the I, S and Z pieces, or the piece is the O piece.
pub open spec fn same_turns(c: TetrColr, r: int, r2: int) -> bool {
    ||| r == r2
    ||| c == TetrColr::Yellow
    ||| (c == TetrColr::Red || c == TetrColr::Green || c == TetrColr::Cyan) && r % 2 == r2 % 2
}

proof fn lemma_turns_repeat(c: TetrColr, r: int)
    requires
        is_piece(c),
        0 <= r,
    ensures
        c == TetrColr::Yellow ==> rotated_shape(c, r) == spec_shape(c),
        (c == TetrColr::Red || c == TetrColr::Green || c == TetrColr::Cyan) ==> rotated_shape(c, r)
            == rotated_shape(c, r % 2),
    decreases r,
{
    let b = spec_shape(c);
    assert(rot_n(b, 0) == b);
    assert(rot_n(b, 1) == rot90(b));
    assert(rot_n(b, 2) == rot90(rot90(b)));
    if c == TetrColr::Yellow {
        assert(rot90(b) =~~= b);
        if r > 0 {
            lemma_turns_repeat(c, r - 1);
            assert(rotated_shape(c, r) == rot90(rotated_shape(c, r - 1)));
        }
    }
    if c == TetrColr::Red || c == TetrColr::Green || c == TetrColr::Cyan {
        assert(rot90(rot90(b)) =~~= b);
        if r >= 2 {
            lemma_turns_repeat(c, r - 2);
            assert(rot_n(b, r as nat) == rot90(rot_n(b, (r - 1) as nat)));
            assert(rot_n(b, (r - 1) as nat) == rot90(rot_n(b, (r - 2) as nat)));
            assert((r - 2) % 2 == r % 2);
            if r % 2 == 0 {
                assert(rot_n(b, (r - 2) as nat) == b);
            } else {
                assert(rot_n(b, (r - 2) as nat) == rot90(b));
                assert(rot90(rot90(rot90(b))) == rot90(b));
            }
        }
    }
}

/// Turns that look the same give the same column description.
pub proof fn lemma_same_turns_cols(c: TetrColr, r: int, r2: int)
    requires
        is_piece(c),
        0 <= r,
        0 <= r2,
        same_turns(c, r, r2),
    ensures
        piece_cols(c, r) == piece_cols(c, r2),
{
    lemma_turns_repeat(c, r);
    lemma_turns_repeat(c, r2);
    assert(rotated_shape(c, r) == rotated_shape(c, r2));
}

/// Number of cells of the first `n` columns of a column description.
pub open spec fn piece_size_upto(pc: Seq<(int, int)>, n: int) -> int
    decreases n,
{
    if n <= 0 {
        0
    } else {
        piece_size_upto(pc, n - 1) + pc[n - 1].1
    }
}

/// The grids of the tetrominoes in each of their turns.
spec fn turned_grid(g: Seq<Seq<i32>>) -> bool {
    ||| g == seq![seq![0i32, 1, 0], seq![1i32, 1, 1]]
    ||| g == seq![seq![1i32, 0], seq![1i32, 1], seq![1i32, 0]]
    ||| g == seq![seq![1i32, 1, 1], seq![0i32, 1, 0]]
    ||| g == seq![seq![0i32, 1], seq![1i32, 1], seq![0i32, 1]]
    ||| g == seq![seq![1i32, 1, 0], seq![0i32, 1, 1]]
    ||| g == seq![seq![0i32, 1], seq![1i32, 1], seq![1i32, 0]]
    ||| g == seq![seq![1i32, 1, 1, 1]]
    ||| g == seq![seq![1i32], seq![1i32], seq![1i32], seq![1i32]]
    ||| g == seq![seq![1i32, 0, 0], seq![1i32, 1, 1]]
    ||| g == seq![seq![1i32, 1], seq![1i32, 0], seq![1i32, 0]]
    ||| g == seq![seq![1i32, 1, 1], seq![0i32, 0, 1]]
    ||| g == seq![seq![0i32, 1], seq![0i32, 1], seq![1i32, 1]]
    ||| g == seq![seq![0i32, 1, 1], seq![1i32, 1, 0]]
    ||| g == seq![seq![1i32, 0], seq![1i32, 1], seq![0i32, 1]]
    ||| g == seq![seq![0i32, 0, 1], seq![1i32, 1, 1]]
    ||| g == seq![seq![1i32, 0], seq![1i32, 0], seq![1i32, 1]]
    ||| g == seq![seq![1i32, 1, 1], seq![1i32, 0, 0]]
    ||| g == seq![seq![1i32, 1], seq![0i32, 1], seq![0i32, 1]]
    ||| g == seq![seq![1i32, 1], seq![1i32, 1]]
}

proof fn lemma_turned_grid_cells(g: Seq<Seq<i32>>)
    requires
        turned_grid(g),
    ensures
        piece_size_upto(Seq::new(g[0].len(), |i: int| shape_col(g, i)), g[0].len() as int) == 4,
{
    reveal_with_fuel(first_one, 5);
    reveal_with_fuel(run_len, 5);
    reveal_with_fuel(piece_size_upto, 5);
}

/// Every turn of every tetromino, cell by cell (rows from the top, 1 for a filled cell).
proof fn lemma_turned_shape(c: TetrColr, r: int)
    requires
        is_piece(c),
        0 <= r < 4,
    ensures
        turned_grid(rotated_shape(c, r)),
        c == TetrColr::Purple && r == 0 ==> rotated_shape(c, r) == seq![seq![0i32, 1, 0], seq![1i32, 1, 1]],
        c == TetrColr::Purple && r == 1 ==> rotated_shape(c, r) == seq![seq![1i32, 0], seq![1i32, 1], seq![1i32, 0]],
        c == TetrColr::Purple && r == 2 ==> rotated_shape(c, r) == seq![seq![1i32, 1, 1], seq![0i32, 1, 0]],
        c == TetrColr::Purple && r == 3 ==> rotated_shape(c, r) == seq![seq![0i32, 1], seq![1i32, 1], seq![0i32, 1]],
        c == TetrColr::Red && r == 0 ==> rotated_shape(c, r) == seq![seq![1i32, 1, 0], seq![0i32, 1, 1]],
        c == TetrColr::Red && r == 1 ==> rotated_shape(c, r) == seq![seq![0i32, 1], seq![1i32, 1], seq![1i32, 0]],
        c == TetrColr::Red && r == 2 ==> rotated_shape(c, r) == seq![seq![1i32, 1, 0], seq![0i32, 1, 1]],
        c == TetrColr::Red && r == 3 ==> rotated_shape(c, r) == seq![seq![0i32, 1], seq![1i32, 1], seq![1i32, 0]],
        c == TetrColr::Cyan && r == 0 ==> rotated_shape(c, r) == seq![seq![1i32, 1, 1, 1]],
        c == TetrColr::Cyan && r == 1 ==> rotated_shape(c, r) == seq![seq![1i32], seq![1i32], seq![1i32], seq![1i32]],
        c == TetrColr::Cyan && r == 2 ==> rotated_shape(c, r) == seq![seq![1i32, 1, 1, 1]],
        c == TetrColr::Cyan && r == 3 ==> rotated_shape(c, r) == seq![seq![1i32], seq![1i32], seq![1i32], seq![1i32]],
        c == TetrColr::Blue && r == 0 ==> rotated_shape(c, r) == seq![seq![1i32, 0, 0], seq![1i32, 1, 1]],
        c == TetrColr::Blue && r == 1 ==> rotated_shape(c, r) == seq![seq![1i32, 1], seq![1i32, 0], seq![1i32, 0]],
        c == TetrColr::Blue && r == 2 ==> rotated_shape(c, r) == seq![seq![1i32, 1, 1], seq![0i32, 0, 1]],
        c == TetrColr::Blue && r == 3 ==> rotated_shape(c, r) == seq![seq![0i32, 1], seq![0i32, 1], seq![1i32, 1]],
        c == TetrColr::Green && r == 0 ==> rotated_shape(c, r) == seq![seq![0i32, 1, 1], seq![1i32, 1, 0]],
        c == TetrColr::Green && r == 1 ==> rotated_shape(c, r) == seq![seq![1i32, 0], seq![1i32, 1], seq![0i32, 1]],
        c == TetrColr::Green && r == 2 ==> rotated_shape(c, r) == seq![seq![0i32, 1, 1], seq![1i32, 1, 0]],
        c == TetrColr::Green && r == 3 ==> rotated_shape(c, r) == seq![seq![1i32, 0], seq![1i32, 1], seq![0i32, 1]],
        c == TetrColr::Orange && r == 0 ==> rotated_shape(c, r) == seq![seq![0i32, 0, 1], seq![1i32, 1, 1]],
        c == TetrColr::Orange && r == 1 ==> rotated_shape(c, r) == seq![seq![1i32, 0], seq![1i32, 0], seq![1i32, 1]],
        c == TetrColr::Orange && r == 2 ==> rotated_shape(c, r) == seq![seq![1i32, 1, 1], seq![1i32, 0, 0]],
        c == TetrColr::Orange && r == 3 ==> rotated_shape(c, r) == seq![seq![1i32, 1], seq![0i32, 1], seq![0i32, 1]],
        c == TetrColr::Yellow && r == 0 ==> rotated_shape(c, r) == seq![seq![1i32, 1], seq![1i32, 1]],
        c == TetrColr::Yellow && r == 1 ==> rotated_shape(c, r) == seq![seq![1i32, 1], seq![1i32, 1]],
        c == TetrColr::Yellow && r == 2 ==> rotated_shape(c, r) == seq![seq![1i32, 1], seq![1i32, 1]],
        c == TetrColr::Yellow && r == 3 ==> rotated_shape(c, r) == seq![seq![1i32, 1], seq![1i32, 1]],
{
    let b = spec_shape(c);
    assert(rot_n(b, 0) == b);
    assert(rot_n(b, 1) == rot90(b));
    assert(rot_n(b, 2) == rot90(rot90(b)));
    assert(rot_n(b, 3) == rot90(rot90(rot90(b))));
    match c {
        TetrColr::Purple => {
            assert(rot90(b) =~~= seq![seq![1i32, 0], seq![1i32, 1], seq![1i32, 0]]);
            assert(rot90(seq![seq![1i32, 0], seq![1i32, 1], seq![1i32, 0]]) =~~= seq![seq![1i32, 1, 1], seq![0i32, 1, 0]]);
            assert(rot90(seq![seq![1i32, 1, 1], seq![0i32, 1, 0]]) =~~= seq![seq![0i32, 1], seq![1i32, 1], seq![0i32, 1]]);
        },
        TetrColr::Red => {
            assert(rot90(b) =~~= seq![seq![0i32, 1], seq![1i32, 1], seq![1i32, 0]]);
            assert(rot90(seq![seq![0i32, 1], seq![1i32, 1], seq![1i32, 0]]) =~~= seq![seq![1i32, 1, 0], seq![0i32, 1, 1]]);
            assert(rot90(seq![seq![1i32, 1, 0], seq![0i32, 1, 1]]) =~~= seq![seq![0i32, 1], seq![1i32, 1], seq![1i32, 0]]);
        },
        TetrColr::Cyan => {
            assert(rot90(b) =~~= seq![seq![1i32], seq![1i32], seq![1i32], seq![1i32]]);
            assert(rot90(seq![seq![1i32], seq![1i32], seq![1i32], seq![1i32]]) =~~= seq![seq![1i32, 1, 1, 1]]);
            assert(rot90(seq![seq![1i32, 1, 1, 1]]) =~~= seq![seq![1i32], seq![1i32], seq![1i32], seq![1i32]]);
        },
        TetrColr::Blue => {
            assert(rot90(b) =~~= seq![seq![1i32, 1], seq![1i32, 0], seq![1i32, 0]]);
            assert(rot90(seq![seq![1i32, 1], seq![1i32, 0], seq![1i32, 0]]) =~~= seq![seq![1i32, 1, 1], seq![0i32, 0, 1]]);
            assert(rot90(seq![seq![1i32, 1, 1], seq![0i32, 0, 1]]) =~~= seq![seq![0i32, 1], seq![0i32, 1], seq![1i32, 1]]);
        },
        TetrColr::Green => {
            assert(rot90(b) =~~= seq![seq![1i32, 0], seq![1i32, 1], seq![0i32, 1]]);
            assert(rot90(seq![seq![1i32, 0], seq![1i32, 1], seq![0i32, 1]]) =~~= seq![seq![0i32, 1, 1], seq![1i32, 1, 0]]);
            assert(rot90(seq![seq![0i32, 1, 1], seq![1i32, 1, 0]]) =~~= seq![seq![1i32, 0], seq![1i32, 1], seq![0i32, 1]]);
        },
        TetrColr::Orange => {
            assert(rot90(b) =~~= seq![seq![1i32, 0], seq![1i32, 0], seq![1i32, 1]]);
            assert(rot90(seq![seq![1i32, 0], seq![1i32, 0], seq![1i32, 1]]) =~~= seq![seq![1i32, 1, 1], seq![1i32, 0, 0]]);
            assert(rot90(seq![seq![1i32, 1, 1], seq![1i32, 0, 0]]) =~~= seq![seq![1i32, 1], seq![0i32, 1], seq![0i32, 1]]);
        },
        TetrColr::Yellow => {
            assert(rot90(b) =~~= seq![seq![1i32, 1], seq![1i32, 1]]);
            assert(rot90(seq![seq![1i32, 1], seq![1i32, 1]]) =~~= seq![seq![1i32, 1], seq![1i32, 1]]);
            assert(rot90(seq![seq![1i32, 1], seq![1i32, 1]]) =~~= seq![seq![1i32, 1], seq![1i32, 1]]);
        },
        _ => {},
    }
}

/// Every turn of every tetromino has four cells.
pub proof fn lemma_piece_size(c: TetrColr, r: int)
    requires
        is_piece(c),
        0 <= r < 4,
    ensures
        piece_size_upto(piece_cols(c, r), piece_cols(c, r).len() as int) == 4,
{
    lemma_turned_shape(c, r);
    lemma_turned_grid_cells(rotated_shape(c, r));
}

proof fn lemma_turned_grid_cols(g: Seq<Seq<i32>>)
    requires
        turned_grid(g),
    ensures
        g == seq![seq![0i32, 1, 0], seq![1i32, 1, 1]] ==> Seq::new(g[0].len(), |i: int| shape_col(g, i)) == seq![(0int, 1int), (0, 2), (0, 1)],
        g == seq![seq![1i32, 0], seq![1i32, 1], seq![1i32, 0]] ==> Seq::new(g[0].len(), |i: int| shape_col(g, i)) == seq![(0int, 3int), (1, 1)],
        g == seq![seq![1i32, 1, 1], seq![0i32, 1, 0]] ==> Seq::new(g[0].len(), |i: int| shape_col(g, i)) == seq![(1int, 1int), (0, 2), (1, 1)],
        g == seq![seq![0i32, 1], seq![1i32, 1], seq![0i32, 1]] ==> Seq::new(g[0].len(), |i: int| shape_col(g, i)) == seq![(1int, 1int), (0, 3)],
        g == seq![seq![1i32, 1, 0], seq![0i32, 1, 1]] ==> Seq::new(g[0].len(), |i: int| shape_col(g, i)) == seq![(1int, 1int), (0, 2), (0, 1)],
        g == seq![seq![0i32, 1], seq![1i32, 1], seq![1i32, 0]] ==> Seq::new(g[0].len(), |i: int| shape_col(g, i)) == seq![(0int, 2int), (1, 2)],
        g == seq![seq![1i32, 1, 1, 1]] ==> Seq::new(g[0].len(), |i: int| shape_col(g, i)) == seq![(0int, 1int), (0, 1), (0, 1), (0, 1)],
        g == seq![seq![1i32], seq![1i32], seq![1i32], seq![1i32]] ==> Seq::new(g[0].len(), |i: int| shape_col(g, i)) == seq![(0int, 4int)],
        g == seq![seq![1i32, 0, 0], seq![1i32, 1, 1]] ==> Seq::new(g[0].len(), |i: int| shape_col(g, i)) == seq![(0int, 2int), (0, 1), (0, 1)],
        g == seq![seq![1i32, 1], seq![1i32, 0], seq![1i32, 0]] ==> Seq::new(g[0].len(), |i: int| shape_col(g, i)) == seq![(0int, 3int), (2, 1)],
        g == seq![seq![1i32, 1, 1], seq![0i32, 0, 1]] ==> Seq::new(g[0].len(), |i: int| shape_col(g, i)) == seq![(1int, 1int), (1, 1), (0, 2)],
        g == seq![seq![0i32, 1], seq![0i32, 1], seq![1i32, 1]] ==> Seq::new(g[0].len(), |i: int| shape_col(g, i)) == seq![(0int, 1int), (0, 3)],
        g == seq![seq![0i32, 1, 1], seq![1i32, 1, 0]] ==> Seq::new(g[0].len(), |i: int| shape_col(g, i)) == seq![(0int, 1int), (0, 2), (1, 1)],
        g == seq![seq![1i32, 0], seq![1i32, 1], seq![0i32, 1]] ==> Seq::new(g[0].len(), |i: int| shape_col(g, i)) == seq![(1int, 2int), (0, 2)],
        g == seq![seq![0i32, 0, 1], seq![1i32, 1, 1]] ==> Seq::new(g[0].len(), |i: int| shape_col(g, i)) == seq![(0int, 1int), (0, 1), (0, 2)],
        g == seq![seq![1i32, 0], seq![1i32, 0], seq![1i32, 1]] ==> Seq::new(g[0].len(), |i: int| shape_col(g, i)) == seq![(0int, 3int), (0, 1)],
        g == seq![seq![1i32, 1, 1], seq![1i32, 0, 0]] ==> Seq::new(g[0].len(), |i: int| shape_col(g, i)) == seq![(0int, 2int), (1, 1), (1, 1)],
        g == seq![seq![1i32, 1], seq![0i32, 1], seq![0i32, 1]] ==> Seq::new(g[0].len(), |i: int| shape_col(g, i)) == seq![(2int, 1int), (0, 3)],
        g == seq![seq![1i32, 1], seq![1i32, 1]] ==> Seq::new(g[0].len(), |i: int| shape_col(g, i)) == seq![(0int, 2int), (0, 2)],
{
    reveal_with_fuel(first_one, 5);
    reveal_with_fuel(run_len, 5);
    let cs = Seq::new(g[0].len(), |i: int| shape_col(g, i));
    if g == seq![seq![0i32, 1, 0], seq![1i32, 1, 1]] {
        assert(cs =~= seq![(0int, 1int), (0, 2), (0, 1)]);
    }
    if g == seq![seq![1i32, 0], seq![1i32, 1], seq![1i32, 0]] {
        assert(cs =~= seq![(0int, 3int), (1, 1)]);
    }
    if g == seq![seq![1i32, 1, 1], seq![0i32, 1, 0]] {
        assert(cs =~= seq![(1int, 1int), (0, 2), (1, 1)]);
    }
    if g == seq![seq![0i32, 1], seq![1i32, 1], seq![0i32, 1]] {
        assert(cs =~= seq![(1int, 1int), (0, 3)]);
    }
    if g == seq![seq![1i32, 1, 0], seq![0i32, 1, 1]] {
        assert(cs =~= seq![(1int, 1int), (0, 2), (0, 1)]);
    }
    if g == seq![seq![0i32, 1], seq![1i32, 1], seq![1i32, 0]] {
        assert(cs =~= seq![(0int, 2int), (1, 2)]);
    }
    if g == seq![seq![1i32, 1, 1, 1]] {
        assert(cs =~= seq![(0int, 1int), (0, 1), (0, 1), (0, 1)]);
    }
    if g == seq![seq![1i32], seq![1i32], seq![1i32], seq![1i32]] {
        assert(cs =~= seq![(0int, 4int)]);
    }
    if g == seq![seq![1i32, 0, 0], seq![1i32, 1, 1]] {
        assert(cs =~= seq![(0int, 2int), (0, 1), (0, 1)]);
    }
    if g == seq![seq![1i32, 1], seq![1i32, 0], seq![1i32, 0]] {
        assert(cs =~= seq![(0int, 3int), (2, 1)]);
    }
    if g == seq![seq![1i32, 1, 1], seq![0i32, 0, 1]] {
        assert(cs =~= seq![(1int, 1int), (1, 1), (0, 2)]);
    }
    if g == seq![seq![0i32, 1], seq![0i32, 1], seq![1i32, 1]] {
        assert(cs =~= seq![(0int, 1int), (0, 3)]);
    }
    if g == seq![seq![0i32, 1, 1], seq![1i32, 1, 0]] {
        assert(cs =~= seq![(0int, 1int), (0, 2), (1, 1)]);
    }
    if g == seq![seq![1i32, 0], seq![1i32, 1], seq![0i32, 1]] {
        assert(cs =~= seq![(1int, 2int), (0, 2)]);
    }
    if g == seq![seq![0i32, 0, 1], seq![1i32, 1, 1]] {
        assert(cs =~= seq![(0int, 1int), (0, 1), (0, 2)]);
    }
    if g == seq![seq![1i32, 0], seq![1i32, 0], seq![1i32, 1]] {
        assert(cs =~= seq![(0int, 3int), (0, 1)]);
    }
    if g == seq![seq![1i32, 1, 1], seq![1i32, 0, 0]] {
        assert(cs =~= seq![(0int, 2int), (1, 1), (1, 1)]);
    }
    if g == seq![seq![1i32, 1], seq![0i32, 1], seq![0i32, 1]] {
        assert(cs =~= seq![(2int, 1int), (0, 3)]);
    }
    if g == seq![seq![1i32, 1], seq![1i32, 1]] {
        assert(cs =~= seq![(0int, 2int), (0, 2)]);
    }
}

/// The column descriptions of every turn of every tetromino: for each column, left to right,
/// the height (from the bottom of the turned shape) of its lowest cell and its number of cells.
/// The J (blue) piece stands on a tall left column and the L (orange) piece on a tall right
/// column; the S (green) and Z (red) pieces rise to the right and to the left.
pub proof fn lemma_piece_columns(c: TetrColr, r: int)
    requires
        is_piece(c),
        0 <= r < 4,
    ensures
        c == TetrColr::Purple && r == 0 ==> piece_cols(c, r) == seq![(0int, 1int), (0, 2), (0, 1)],
        c == TetrColr::Purple && r == 1 ==> piece_cols(c, r) == seq![(0int, 3int), (1, 1)],
        c == TetrColr::Purple && r == 2 ==> piece_cols(c, r) == seq![(1int, 1int), (0, 2), (1, 1)],
        c == TetrColr::Purple && r == 3 ==> piece_cols(c, r) == seq![(1int, 1int), (0, 3)],
        c == TetrColr::Red && r == 0 ==> piece_cols(c, r) == seq![(1int, 1int), (0, 2), (0, 1)],
        c == TetrColr::Red && r == 1 ==> piece_cols(c, r) == seq![(0int, 2int), (1, 2)],
        c == TetrColr::Red && r == 2 ==> piece_cols(c, r) == seq![(1int, 1int), (0, 2), (0, 1)],
        c == TetrColr::Red && r == 3 ==> piece_cols(c, r) == seq![(0int, 2int), (1, 2)],
        c == TetrColr::Cyan && r == 0 ==> piece_cols(c, r) == seq![(0int, 1int), (0, 1), (0, 1), (0, 1)],
        c == TetrColr::Cyan && r == 1 ==> piece_cols(c, r) == seq![(0int, 4int)],
        c == TetrColr::Cyan && r == 2 ==> piece_cols(c, r) == seq![(0int, 1int), (0, 1), (0, 1), (0, 1)],
        c == TetrColr::Cyan && r == 3 ==> piece_cols(c, r) == seq![(0int, 4int)],
        c == TetrColr::Blue && r == 0 ==> piece_cols(c, r) == seq![(0int, 2int), (0, 1), (0, 1)],
        c == TetrColr::Blue && r == 1 ==> piece_cols(c, r) == seq![(0int, 3int), (2, 1)],
        c == TetrColr::Blue && r == 2 ==> piece_cols(c, r) == seq![(1int, 1int), (1, 1), (0, 2)],
        c == TetrColr::Blue && r == 3 ==> piece_cols(c, r) == seq![(0int, 1int), (0, 3)],
        c == TetrColr::Green && r == 0 ==> piece_cols(c, r) == seq![(0int, 1int), (0, 2), (1, 1)],
        c == TetrColr::Green && r == 1 ==> piece_cols(c, r) == seq![(1int, 2int), (0, 2)],
        c == TetrColr::Green && r == 2 ==> piece_cols(c, r) == seq![(0int, 1int), (0, 2), (1, 1)],
        c == TetrColr::Green && r == 3 ==> piece_cols(c, r) == seq![(1int, 2int), (0, 2)],
        c == TetrColr::Orange && r == 0 ==> piece_cols(c, r) == seq![(0int, 1int), (0, 1), (0, 2)],
        c == TetrColr::Orange && r == 1 ==> piece_cols(c, r) == seq![(0int, 3int), (0, 1)],
        c == TetrColr::Orange && r == 2 ==> piece_cols(c, r) == seq![(0int, 2int), (1, 1), (1, 1)],
        c == TetrColr::Orange && r == 3 ==> piece_cols(c, r) == seq![(2int, 1int), (0, 3)],
        c == TetrColr::Yellow && r == 0 ==> piece_cols(c, r) == seq![(0int, 2int), (0, 2)],
        c == TetrColr::Yellow && r == 1 ==> piece_cols(c, r) == seq![(0int, 2int), (0, 2)],
        c == TetrColr::Yellow && r == 2 ==> piece_cols(c, r) == seq![(0int, 2int), (0, 2)],
        c == TetrColr::Yellow && r == 3 ==> piece_cols(c, r) == seq![(0int, 2int), (0, 2)],
{
    lemma_turned_shape(c, r);
    lemma_turned_grid_cols(rotated_shape(c, r));
}

/// The column at which each turn of each tetromino appears: the I piece at column 3 lying and 5
/// standing, the O piece at column 4, every other piece at column 4 after one quarter turn and
/// at column 3 otherwise. The turns tried are all four, except two for the I, S and Z pieces and
/// one for the O piece.
pub proof fn lemma_start_columns(c: TetrColr, r: int)
    requires
        is_piece(c),
        0 <= r < 4,
    ensures
        spec_start_pos(c)[r] == (if c == TetrColr::Cyan {
            if r % 2 == 0 { 3int } else { 5int }
        } else if c == TetrColr::Yellow {
            4int
        } else if r == 1 {
            4int
        } else {
            3int
        }),
        spec_rot_ids(c).len() == (if c == TetrColr::Yellow {
            1int
        } else if c == TetrColr::Red || c == TetrColr::Green || c == TetrColr::Cyan {
            2int
        } else {
            4int
        }),
        forall|k: int| 0 <= k < spec_rot_ids(c).len() ==> #[trigger] spec_rot_ids(c)[k] == k,
{
}

} // verus!
