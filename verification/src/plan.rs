//! Choosing where to drop the next tetromino.
use vstd::prelude::*;
use crate::board::{column, count_true, height, lemma_height_bounds};
use crate::colr::TetrColr;
use crate::constants::XCNT;
use crate::des::{
    block_add, board_wf, drop_in_rows, col_cnt_after, col_len_after, describes_board, fits, BitsColDes, BitsDes,
};
use crate::tetr::is_piece;

verus! {

/// A placement of the next tetromino and the column summaries it leads to.
pub struct PsbMap {
    pub cd: Vec<BitsColDes>,
    pub rot_idx: usize,
    pub pos_idx: usize,
}

/// The decimal digit `d`.
pub open spec fn digit_char(d: int) -> char {
    seq!['0', '1', '2', '3', '4', '5', '6', '7', '8', '9'][d]
}

/// The decimal text of `n`.
pub open spec fn dec_text(n: nat) -> Seq<char>
    decreases n,
{
    if n < 10 {
        seq![digit_char(n as int)]
    } else {
        dec_text(n / 10) + seq![digit_char((n % 10) as int)]
    }
}

/// Appends the decimal digit `d`.
fn push_digit(s: &mut String, d: usize)
    requires
        d < 10,
    ensures
        final(s)@ == old(s)@ + seq![digit_char(d as int)],
{
    match d {
        0 => {
            proof {
                reveal_strlit("0");
            }
            s.append("0");
        },
        1 => {
            proof {
                reveal_strlit("1");
            }
            s.append("1");
        },
        2 => {
            proof {
                reveal_strlit("2");
            }
            s.append("2");
        },
        3 => {
            proof {
                reveal_strlit("3");
            }
            s.append("3");
        },
        4 => {
            proof {
                reveal_strlit("4");
            }
            s.append("4");
        },
        5 => {
            proof {
                reveal_strlit("5");
            }
            s.append("5");
        },
        6 => {
            proof {
                reveal_strlit("6");
            }
            s.append("6");
        },
        7 => {
            proof {
                reveal_strlit("7");
            }
            s.append("7");
        },
        8 => {
            proof {
                reveal_strlit("8");
            }
            s.append("8");
        },
        _ => {
            proof {
                reveal_strlit("9");
            }
            s.append("9");
        },
    }
}

/// Appends the decimal text of `n`.
fn push_dec(s: &mut String, n: usize)
    ensures
        final(s)@ == old(s)@ + dec_text(n as nat),
    decreases n,
{
    let ghost s0 = s@;
    if n >= 10 {
        push_dec(s, n / 10);
    }
    push_digit(s, n % 10);
    proof {
        if n >= 10 {
            assert(s@ =~= s0 + dec_text(n as nat));
        } else {
            assert(s@ =~= s0 + dec_text(n as nat));
        }
    }
}

impl PsbMap {
    /// The placement as text, by its rotation and column only, such as
    /// `PsbMap { rot: 1, pos: 12 }`.
    pub fn debug_text(&self) -> (r: String)
        ensures
            r@ == "PsbMap { rot: "@ + dec_text(self.rot_idx as nat) + ", pos: "@ + dec_text(self.pos_idx as nat) + " }"@,
    {
        let mut s = String::from_str("PsbMap { rot: ");
        push_dec(&mut s, self.rot_idx);
        s.append(", pos: ");
        push_dec(&mut s, self.pos_idx);
        s.append(" }");
        s
    }
}

/// Number of placements tried: four rotations, each over every column of the playfield.
pub open spec fn tries() -> int {
    4 * XCNT as int
}

/// Rotation of the `q`-th placement tried.
pub open spec fn try_rot(q: int) -> int {
    q / XCNT as int
}

/// Left column of the `q`-th placement tried.
pub open spec fn try_pos(q: int) -> int {
    q % XCNT as int
}

/// The placements that fit among the first `n` tried, in order (by rotation, then column).
pub open spec fn possible_upto(bd: BitsDes, c: TetrColr, n: int) -> Seq<(int, int)>
    decreases n,
{
    if n <= 0 {
        Seq::empty()
    } else {
        let prev = possible_upto(bd, c, n - 1);
        if fits(bd, c, try_rot(n - 1), try_pos(n - 1)) {
            prev.push((try_rot(n - 1), try_pos(n - 1)))
        } else {
            prev
        }
    }
}

/// The placements of the tetromino of colour `c` that fit, by rotation, then column.
pub open spec fn possible(bd: BitsDes, c: TetrColr) -> Seq<(int, int)> {
    possible_upto(bd, c, tries())
}

/// The boards the get-all functions accept for the tetromino of colour `c`: the summary of a
/// board of at least `XCNT` columns, with room in its rows for every drop tried (always so with
/// `YCNT - 1` rows or more, see `lemma_tall_drop_in_rows`).
pub open spec fn plan_input(bd: BitsDes, c: TetrColr) -> bool {
    &&& XCNT <= bd.cd@.len() <= u32::MAX
    &&& board_wf(bd)
    &&& forall|r: int, p: int| 0 <= r < 4 && 0 <= p < XCNT ==> #[trigger] drop_in_rows(bd, c, r, p)
}

/// `m` is placement `pl` of the tetromino of colour `c` with the column summaries that
/// dropping it gives.
pub open spec fn psb_matches(m: PsbMap, bd: BitsDes, c: TetrColr, pl: (int, int)) -> bool {
    &&& m.rot_idx == pl.0
    &&& m.pos_idx == pl.1
    &&& m.cd@.len() == bd.cd@.len()
    &&& forall|x: int| 0 <= x < m.cd@.len() ==> (#[trigger] m.cd@[x]).len == col_len_after(bd, c, pl.0, pl.1, x)
        && m.cd@[x].cnt == col_cnt_after(bd, c, pl.0, pl.1, x)
        && m.cd@[x].first_hole == bd.cd@[x].first_hole
        && m.cd@[x].cnt <= m.cd@[x].len <= bd.rd@.len()
}

/// Every placement of the tetromino of colour `c` (four rotations, each over every column) that
/// fits, by rotation then column, with the column summaries that dropping it gives.
pub fn get_all_possible(bd: &BitsDes, next_colr: TetrColr) -> (all_possible: Vec<PsbMap>)
    requires
        plan_input(*bd, next_colr),
        is_piece(next_colr),
    ensures
        all_possible@.len() == possible(*bd, next_colr).len(),
        forall|t: int| 0 <= t < all_possible@.len() ==> psb_matches(#[trigger] all_possible@[t], *bd, next_colr,
            possible(*bd, next_colr)[t]),
{
    let mut all_possible: Vec<PsbMap> = Vec::new();
    let mut rot_idx: usize = 0;
    while rot_idx < 4
        invariant
            plan_input(*bd, next_colr),
            is_piece(next_colr),
            rot_idx <= 4,
            all_possible@.len() == possible_upto(*bd, next_colr, rot_idx * XCNT).len(),
            forall|t: int| 0 <= t < all_possible@.len() ==> psb_matches(#[trigger] all_possible@[t], *bd, next_colr,
                possible_upto(*bd, next_colr, rot_idx * XCNT)[t]),
        decreases 4 - rot_idx,
    {
        let mut pos_idx: usize = 0;
        while pos_idx < XCNT as usize
            invariant
                plan_input(*bd, next_colr),
                is_piece(next_colr),
                rot_idx < 4,
                pos_idx <= XCNT,
                all_possible@.len() == possible_upto(*bd, next_colr, rot_idx * XCNT + pos_idx).len(),
                forall|t: int| 0 <= t < all_possible@.len() ==> psb_matches(#[trigger] all_possible@[t], *bd, next_colr,
                    possible_upto(*bd, next_colr, rot_idx * XCNT + pos_idx)[t]),
            decreases XCNT - pos_idx,
        {
            let ghost q = rot_idx * XCNT + pos_idx;
            assert(try_rot(q) == rot_idx && try_pos(q) == pos_idx);
            let add_info = block_add(bd, next_colr, rot_idx, pos_idx);
            match add_info {
                None => {},
                Some(info) => {
                    let ghost prev = all_possible@;
                    let (nd, _top, _k) = info;
                    let BitsDes { rd: _, cd } = nd;
                    all_possible.push(PsbMap { cd, rot_idx, pos_idx });
                    assert forall|t: int| 0 <= t < all_possible@.len() implies psb_matches(#[trigger] all_possible@[t], *bd, next_colr,
                        possible_upto(*bd, next_colr, q + 1)[t]) by {
                        if t < prev.len() {
                            assert(all_possible@[t] == prev[t]);
                        }
                    }
                },
            }
            pos_idx = pos_idx + 1;
        }
        rot_idx = rot_idx + 1;
    }
    all_possible
}

/// Heights and filled-cell counts of the columns of a summary.
pub open spec fn col_pairs(cd: Seq<BitsColDes>) -> Seq<(int, int)> {
    cd.map_values(|d: BitsColDes| (d.len as int, d.cnt as int))
}

/// Heights and filled-cell counts of the columns once placement `pl` has been dropped.
pub open spec fn after_pairs(bd: BitsDes, c: TetrColr, pl: (int, int)) -> Seq<(int, int)> {
    Seq::new(bd.cd@.len(), |x: int| (col_len_after(bd, c, pl.0, pl.1, x), col_cnt_after(bd, c, pl.0, pl.1, x)))
}

/// Number of holes (empty cells under the top of a column) of the first `n` columns.
pub open spec fn holes_upto(s: Seq<(int, int)>, n: int) -> int
    decreases n,
{
    if n <= 0 {
        0
    } else {
        holes_upto(s, n - 1) + s[n - 1].0 - s[n - 1].1
    }
}

/// Sum of the heights of the first `n` columns.
pub open spec fn total_upto(s: Seq<(int, int)>, n: int) -> int
    decreases n,
{
    if n <= 0 {
        0
    } else {
        total_upto(s, n - 1) + s[n - 1].0
    }
}

/// Largest height of the first `n` columns (the first column's height when `n` is 1 or less).
pub open spec fn max_upto(s: Seq<(int, int)>, n: int) -> int
    decreases n,
{
    if n <= 1 {
        s[0].0
    } else {
        let a = max_upto(s, n - 1);
        if a >= s[n - 1].0 {
            a
        } else {
            s[n - 1].0
        }
    }
}

/// Sum of the squared differences between the heights of the first `n` columns and `avg`.
pub open spec fn var_upto(s: Seq<(int, int)>, avg: int, n: int) -> int
    decreases n,
{
    if n <= 0 {
        0
    } else {
        var_upto(s, avg, n - 1) + (s[n - 1].0 - avg) * (s[n - 1].0 - avg)
    }
}

/// How a placement is ranked: number of holes, largest height, sum of heights, and spread of
/// the heights around their (rounded down) mean.
pub open spec fn rank_key(s: Seq<(int, int)>) -> (int, int, int, int) {
    let n = s.len() as int;
    (holes_upto(s, n), max_upto(s, n), total_upto(s, n), var_upto(s, total_upto(s, n) / n, n))
}

/// Placement key `a` ranks before `b`: by largest height when those differ by more than 2, else
/// by holes, then largest height, then sum of heights, then spread.
pub open spec fn ranks_before(a: (int, int, int, int), b: (int, int, int, int)) -> bool {
    if a.1 - b.1 > 2 || b.1 - a.1 > 2 {
        a.1 < b.1
    } else {
        a.0 < b.0 || (a.0 == b.0 && (a.1 < b.1 || (a.1 == b.1 && (a.2 < b.2 || (a.2 == b.2 && a.3 < b.3)))))
    }
}

/// Rank key of the `t`-th possible placement.
pub open spec fn key_at(bd: BitsDes, c: TetrColr, t: int) -> (int, int, int, int) {
    rank_key(after_pairs(bd, c, possible(bd, c)[t]))
}

/// Number of holes that the `t`-th possible placement leaves.
pub open spec fn holes_at(bd: BitsDes, c: TetrColr, t: int) -> int {
    holes_upto(after_pairs(bd, c, possible(bd, c)[t]), bd.cd@.len() as int)
}

/// Largest column height that the `t`-th possible placement leaves.
pub open spec fn top_at(bd: BitsDes, c: TetrColr, t: int) -> int {
    max_upto(after_pairs(bd, c, possible(bd, c)[t]), bd.cd@.len() as int)
}

/// Sum of the column heights that the `t`-th possible placement leaves.
pub open spec fn total_at(bd: BitsDes, c: TetrColr, t: int) -> int {
    total_upto(after_pairs(bd, c, possible(bd, c)[t]), bd.cd@.len() as int)
}

/// Spread of the column heights that the `t`-th possible placement leaves.
pub open spec fn spread_at(bd: BitsDes, c: TetrColr, t: int) -> int {
    key_at(bd, c, t).3
}

/// The lowest largest height left by the first `n` possible placements.
pub open spec fn lowest_upto(bd: BitsDes, c: TetrColr, n: int) -> int
    decreases n,
{
    if n <= 1 {
        top_at(bd, c, 0)
    } else {
        let a = lowest_upto(bd, c, n - 1);
        let b = top_at(bd, c, n - 1);
        if b < a {
            b
        } else {
            a
        }
    }
}

/// Key `a` comes before key `b` in the order of holes, then largest height, then sum of
/// heights, then spread.
pub open spec fn key_less(a: (int, int, int, int), b: (int, int, int, int)) -> bool {
    ||| a.0 < b.0
    ||| a.0 == b.0 && a.1 < b.1
    ||| a.0 == b.0 && a.1 == b.1 && a.2 < b.2
    ||| a.0 == b.0 && a.1 == b.1 && a.2 == b.2 && a.3 < b.3
}

/// Index of the chosen placement among the first `n` possible ones (-1 when none is chosen
/// yet): of those whose largest height is at most `low + 2`, the first with the least key.
pub open spec fn best_upto(bd: BitsDes, c: TetrColr, low: int, n: int) -> int
    decreases n,
{
    if n <= 0 {
        -1
    } else {
        let b = best_upto(bd, c, low, n - 1);
        if top_at(bd, c, n - 1) > low + 2 {
            b
        } else if b < 0 || key_less(key_at(bd, c, n - 1), key_at(bd, c, b)) {
            n - 1
        } else {
            b
        }
    }
}

/// Index of the placement that `get_best` chooses.
pub open spec fn best_index(bd: BitsDes, c: TetrColr) -> int {
    let n = possible(bd, c).len() as int;
    best_upto(bd, c, lowest_upto(bd, c, n), n)
}

proof fn lemma_key_at_parts(bd: BitsDes, c: TetrColr, t: int)
    ensures
        key_at(bd, c, t) == (holes_at(bd, c, t), top_at(bd, c, t), total_at(bd, c, t), spread_at(bd, c, t)),
{
    assert(after_pairs(bd, c, possible(bd, c)[t]).len() == bd.cd@.len());
}

proof fn lemma_lowest_upto(bd: BitsDes, c: TetrColr, n: int)
    requires
        n >= 1,
    ensures
        forall|t: int| 0 <= t < n ==> lowest_upto(bd, c, n) <= #[trigger] top_at(bd, c, t),
        exists|t: int| 0 <= t < n && #[trigger] top_at(bd, c, t) == lowest_upto(bd, c, n),
    decreases n,
{
    if n > 1 {
        lemma_lowest_upto(bd, c, n - 1);
        let w = choose|t: int| 0 <= t < n - 1 && #[trigger] top_at(bd, c, t) == lowest_upto(bd, c, n - 1);
        if top_at(bd, c, n - 1) < lowest_upto(bd, c, n - 1) {
            assert(top_at(bd, c, n - 1) == lowest_upto(bd, c, n));
        } else {
            assert(top_at(bd, c, w) == lowest_upto(bd, c, n));
        }
    } else {
        assert(top_at(bd, c, 0) == lowest_upto(bd, c, n));
    }
}

proof fn lemma_best_upto(bd: BitsDes, c: TetrColr, low: int, n: int)
    requires
        n >= 0,
    ensures
        best_upto(bd, c, low, n) < n,
        best_upto(bd, c, low, n) >= 0 ==> top_at(bd, c, best_upto(bd, c, low, n)) <= low + 2,
        forall|t: int| 0 <= t < n && #[trigger] top_at(bd, c, t) <= low + 2 ==> {
            let b = best_upto(bd, c, low, n);
            &&& b >= 0
            &&& !key_less(key_at(bd, c, t), key_at(bd, c, b))
            &&& t < b ==> key_at(bd, c, t) != key_at(bd, c, b)
        },
    decreases n,
{
    if n > 0 {
        lemma_best_upto(bd, c, low, n - 1);
    }
}

/// The placements that fit among the first `n` tried have a rotation below 4 and a left column
/// below `XCNT`.
proof fn lemma_possible_upto_bounds(bd: BitsDes, c: TetrColr, n: int)
    requires
        n <= tries(),
    ensures
        forall|t: int| 0 <= t < possible_upto(bd, c, n).len() ==> 0 <= (#[trigger] possible_upto(bd, c, n)[t]).0 < 4
            && 0 <= possible_upto(bd, c, n)[t].1 < XCNT,
    decreases n,
{
    if n > 0 {
        lemma_possible_upto_bounds(bd, c, n - 1);
        let prev = possible_upto(bd, c, n - 1);
        assert(0 <= try_rot(n - 1) < 4);
        assert(0 <= try_pos(n - 1) < XCNT);
        assert forall|t: int| 0 <= t < possible_upto(bd, c, n).len() implies 0 <= (#[trigger] possible_upto(
            bd,
            c,
            n,
        )[t]).0 < 4 && 0 <= possible_upto(bd, c, n)[t].1 < XCNT by {
            if t < prev.len() {
                assert(possible_upto(bd, c, n)[t] == prev[t]);
            }
        }
    }
}

/// The placement that `get_best` chooses has a rotation below 4 and a left column below `XCNT`.
pub proof fn lemma_best_placement_bounds(bd: BitsDes, c: TetrColr)
    requires
        possible(bd, c).len() > 0,
    ensures
        0 <= best_placement(bd, c).0 < 4,
        0 <= best_placement(bd, c).1 < XCNT,
{
    lemma_best_choice(bd, c);
    lemma_possible_upto_bounds(bd, c, tries());
    let b = best_index(bd, c);
    assert(0 <= possible(bd, c)[b].0 < 4);
}

/// Ranking summary of one placement.
#[derive(Debug)]
struct ApDes {
    idx: usize,
    hole_cnt: i32,
    max_hight: i32,
    total_hight: i32,
    hight_var: i32,
}

/// Ranks the column summaries of a placement whose heights are at most `cap`.
fn rank_of(cd: &Vec<BitsColDes>, idx: usize, Ghost(cap): Ghost<nat>) -> (d: ApDes)
    requires
        1 <= cd@.len() <= u32::MAX,
        cd@.len() * cap <= i32::MAX,
        cd@.len() * cap * cap <= i32::MAX,
        forall|x: int| 0 <= x < cd@.len() ==> (#[trigger] cd@[x]).cnt <= cd@[x].len <= cap,
    ensures
        d.idx == idx,
        (d.hole_cnt as int, d.max_hight as int, d.total_hight as int, d.hight_var as int) == rank_key(col_pairs(cd@)),
{
    let ghost s = col_pairs(cd@);
    let n = cd.len();
    let mut hole_cnt: u32 = 0;
    let mut max_hight: u32 = cd[0].len;
    let mut total_hight: i32 = 0;
    let mut i: usize = 0;
    assert(cap * n == n * cap && cap <= cap * n) by (nonlinear_arith)
        requires
            n >= 1,
    ;
    while i < n
        invariant
            n == cd@.len(),
            1 <= n <= u32::MAX,
            cap * n <= i32::MAX,
            cap <= cap * n,
            s == col_pairs(cd@),
            forall|x: int| 0 <= x < cd@.len() ==> (#[trigger] cd@[x]).cnt <= cd@[x].len <= cap,
            i <= n,
            hole_cnt == holes_upto(s, i as int),
            0 <= hole_cnt <= cap * i,
            total_hight == total_upto(s, i as int),
            0 <= total_hight <= cap * i,
            max_hight == max_upto(s, if i == 0 { 1int } else { i as int }),
            max_hight <= cap,
        decreases n - i,
    {
        let y = cd[i];
        assert(cap * i + cap == cap * (i + 1) && cap * (i + 1) <= cap * n) by (nonlinear_arith)
            requires
                i < n,
        ;
        assert(y.len <= cap);
        hole_cnt = hole_cnt + (y.len - y.cnt);
        total_hight = total_hight + y.len as i32;
        max_hight = if max_hight >= y.len { max_hight } else { y.len };
        i = i + 1;
    }
    let avg_hight: i32 = (total_hight as u32 / n as u32) as i32;
    assert(avg_hight <= cap) by (nonlinear_arith)
        requires
            avg_hight as int == (total_hight as int) / (n as int),
            0 <= total_hight <= cap * n,
            n >= 1,
    ;
    let mut hight_var: i32 = 0;
    let mut i: usize = 0;
    while i < n
        invariant
            n == cd@.len(),
            1 <= n <= u32::MAX,
            n * cap * cap <= i32::MAX,
            s == col_pairs(cd@),
            forall|x: int| 0 <= x < cd@.len() ==> (#[trigger] cd@[x]).cnt <= cd@[x].len <= cap,
            0 <= avg_hight <= cap,
            i <= n,
            hight_var == var_upto(s, avg_hight as int, i as int),
            0 <= hight_var <= cap * cap * i,
        decreases n - i,
    {
        let ghost l = cd@[i as int].len as int;
        assert((l - avg_hight) * (l - avg_hight) <= cap * cap) by (nonlinear_arith)
            requires
                0 <= l <= cap,
                0 <= avg_hight <= cap,
        ;
        assert(cap * cap * i + cap * cap == cap * cap * (i + 1) && cap * cap * (i + 1) <= n * cap * cap)
            by (nonlinear_arith)
            requires
                i < n,
        ;
        let d: i64 = cd[i].len as i64 - avg_hight as i64;
        assert(d * d == (l - avg_hight) * (l - avg_hight));
        assert(0 <= d * d) by (nonlinear_arith);
        hight_var = hight_var + (d * d) as i32;
        i = i + 1;
    }
    proof {
        assert(s.len() == n);
        assert(avg_hight as int == total_upto(s, n as int) / (n as int));
        assert(hole_cnt as int == holes_upto(s, n as int));
        assert(max_hight as int == max_upto(s, n as int));
    }
    ApDes { idx, hole_cnt: hole_cnt as i32, max_hight: max_hight as i32, total_hight, hight_var }
}

/// Whether placement summary `a` has a lesser key than `b`: fewer holes, then a lower largest
/// height, then a lower sum of heights, then a lower spread.
fn ap_less(a: &ApDes, b: &ApDes) -> (r: bool)
    ensures
        r == key_less(
            (a.hole_cnt as int, a.max_hight as int, a.total_hight as int, a.hight_var as int),
            (b.hole_cnt as int, b.max_hight as int, b.total_hight as int, b.hight_var as int),
        ),
{
    if a.hole_cnt != b.hole_cnt {
        a.hole_cnt < b.hole_cnt
    } else if a.max_hight != b.max_hight {
        a.max_hight < b.max_hight
    } else if a.total_hight != b.total_hight {
        a.total_hight < b.total_hight
    } else {
        a.hight_var < b.hight_var
    }
}

/// The placement that `get_best` chooses for the tetromino of colour `c` (rotation, left
/// column) and whether its number of holes differs from that of the board now.
pub open spec fn best_placement(bd: BitsDes, c: TetrColr) -> (int, int, bool) {
    let poss = possible(bd, c);
    let b = best_index(bd, c);
    (poss[b].0, poss[b].1, holes_upto(col_pairs(bd.cd@), bd.cd@.len() as int) != holes_at(bd, c, b))
}

/// No possible placement ranks before the `u`-th one (see `ranks_before`).
pub open spec fn unbeaten(bd: BitsDes, c: TetrColr, u: int) -> bool {
    forall|t: int| 0 <= t < possible(bd, c).len() ==> !#[trigger] ranks_before(key_at(bd, c, t), key_at(bd, c, u))
}

/// What the chosen placement is, over the placements that fit (each judged by the column heights
/// and counts its drop leaves):
/// - no placement leaves a largest height more than 2 below the one the chosen placement leaves;
/// - among the placements that no other leaves more than 2 lower (the low ones), the chosen one
///   leaves the fewest holes, then the lowest largest height, then the lowest sum of heights,
///   then the lowest spread, and comes first among those that tie on all four;
/// - whenever some placement is ranked before by none (see `ranks_before`), the chosen one is
///   ranked before by none either.
pub proof fn lemma_best_choice(bd: BitsDes, c: TetrColr)
    requires
        possible(bd, c).len() > 0,
    ensures
        ({
            let n = possible(bd, c).len() as int;
            let b = best_index(bd, c);
            &&& 0 <= b < n
            &&& forall|t: int| 0 <= t < n ==> top_at(bd, c, b) <= #[trigger] top_at(bd, c, t) + 2
            &&& forall|t: int| 0 <= t < n && (forall|u: int| 0 <= u < n ==> #[trigger] top_at(bd, c, t) <= top_at(bd, c, u) + 2)
                ==> {
                &&& holes_at(bd, c, b) <= #[trigger] holes_at(bd, c, t)
                &&& holes_at(bd, c, b) == holes_at(bd, c, t) ==> top_at(bd, c, b) <= top_at(bd, c, t)
                &&& holes_at(bd, c, b) == holes_at(bd, c, t) && top_at(bd, c, b) == top_at(bd, c, t)
                    ==> total_at(bd, c, b) <= total_at(bd, c, t)
                &&& holes_at(bd, c, b) == holes_at(bd, c, t) && top_at(bd, c, b) == top_at(bd, c, t)
                    && total_at(bd, c, b) == total_at(bd, c, t) ==> spread_at(bd, c, b) <= spread_at(bd, c, t)
                &&& t < b ==> key_at(bd, c, t) != key_at(bd, c, b)
            }
            &&& (exists|u: int| 0 <= u < n && #[trigger] unbeaten(bd, c, u)) ==> unbeaten(bd, c, b)
        }),
{
    let n = possible(bd, c).len() as int;
    let low = lowest_upto(bd, c, n);
    let b = best_index(bd, c);
    lemma_lowest_upto(bd, c, n);
    lemma_best_upto(bd, c, low, n);
    let w = choose|t: int| 0 <= t < n && #[trigger] top_at(bd, c, t) == lowest_upto(bd, c, n);
    assert(top_at(bd, c, w) <= low + 2);
    assert(0 <= b < n);
    assert forall|t: int| 0 <= t < n && (forall|u: int| 0 <= u < n ==> #[trigger] top_at(bd, c, t) <= top_at(bd, c, u) + 2)
        implies {
        &&& holes_at(bd, c, b) <= #[trigger] holes_at(bd, c, t)
        &&& holes_at(bd, c, b) == holes_at(bd, c, t) ==> top_at(bd, c, b) <= top_at(bd, c, t)
        &&& holes_at(bd, c, b) == holes_at(bd, c, t) && top_at(bd, c, b) == top_at(bd, c, t)
            ==> total_at(bd, c, b) <= total_at(bd, c, t)
        &&& holes_at(bd, c, b) == holes_at(bd, c, t) && top_at(bd, c, b) == top_at(bd, c, t)
            && total_at(bd, c, b) == total_at(bd, c, t) ==> spread_at(bd, c, b) <= spread_at(bd, c, t)
        &&& t < b ==> key_at(bd, c, t) != key_at(bd, c, b)
    } by {
        assert(top_at(bd, c, t) <= top_at(bd, c, w) + 2);
        lemma_key_at_parts(bd, c, t);
        lemma_key_at_parts(bd, c, b);
    }
    if exists|u: int| 0 <= u < n && #[trigger] unbeaten(bd, c, u) {
        let u = choose|u: int| 0 <= u < n && #[trigger] unbeaten(bd, c, u);
        lemma_key_at_parts(bd, c, u);
        lemma_key_at_parts(bd, c, b);
        lemma_key_at_parts(bd, c, w);
        // the lowest placement is not ranked before `u`, so `u` is one of the low ones
        assert(!ranks_before(key_at(bd, c, w), key_at(bd, c, u)));
        assert(top_at(bd, c, u) <= low + 2);
        // the chosen key is not after the key of `u`, and `b` is not ranked before `u`: the keys agree
        assert(!ranks_before(key_at(bd, c, b), key_at(bd, c, u)));
        assert(key_at(bd, c, b) == key_at(bd, c, u));
    }
}

/// Chooses where to drop the tetromino of colour `c`. Of the placements that fit (by rotation,
/// then column), those whose largest column height is within 2 of the lowest are compared by
/// holes, then largest height, then sum of heights, then spread, and the first least one is
/// chosen; any other placement is ranked after the lowest one (see `ranks_before`), and among
/// the low ones `ranks_before` is that comparison, so whenever some placement is ranked before
/// by none this is such a placement (see `lemma_best_choice`). Returns its rotation and left
/// column, and whether its number of holes differs from that of the board now (then holding
/// the piece may be worth it).
pub fn get_best(bd: &BitsDes, next_colr: TetrColr) -> (r: (usize, usize, bool))
    requires
        plan_input(*bd, next_colr),
        bd.cd@.len() * bd.rd@.len() <= i32::MAX,
        bd.cd@.len() * bd.rd@.len() * bd.rd@.len() <= i32::MAX,
        is_piece(next_colr),
        possible(*bd, next_colr).len() > 0,
    ensures
        (r.0 as int, r.1 as int, r.2) == best_placement(*bd, next_colr),
        ({
            let b = best_index(*bd, next_colr);
            &&& 0 <= b < possible(*bd, next_colr).len()
            &&& r.0 == possible(*bd, next_colr)[b].0
            &&& r.1 == possible(*bd, next_colr)[b].1
            &&& r.2 == (holes_upto(col_pairs(bd.cd@), bd.cd@.len() as int) != holes_at(*bd, next_colr, b))
        }),
{
    let ap = get_all_possible(bd, next_colr);
    let ghost g = choose|g: Seq<Seq<bool>>| describes_board(*bd, g);
    let ghost s0 = col_pairs(bd.cd@);
    let origin_cd = &bd.cd;
    let mut origin_hole_cnt: u32 = 0;
    let mut x: usize = 0;
    while x < origin_cd.len()
        invariant
            describes_board(*bd, g),
            origin_cd == &bd.cd,
            s0 == col_pairs(bd.cd@),
            bd.cd@.len() * bd.rd@.len() <= i32::MAX,
            x <= bd.cd@.len(),
            origin_hole_cnt == holes_upto(s0, x as int),
            0 <= origin_hole_cnt <= bd.rd@.len() * x,
        decreases bd.cd@.len() - x,
    {
        proof {
            lemma_height_bounds(column(g, x as int));
            assert(bd.cd@[x as int].len == height(column(g, x as int)));
            assert(bd.cd@[x as int].cnt == count_true(column(g, x as int)));
            let rr = bd.rd@.len() as int;
            assert(rr * x + rr == rr * (x + 1) && rr * (x + 1) <= bd.cd@.len() * rr) by (nonlinear_arith)
                requires
                    x < bd.cd@.len(),
                    rr >= 0,
            ;
        }
        let y = origin_cd[x];
        origin_hole_cnt = origin_hole_cnt + (y.len - y.cnt);
        x = x + 1;
    }
    assert(bd.rd@.len() * bd.cd@.len() == bd.cd@.len() * bd.rd@.len()) by (nonlinear_arith);
    let ghost n = ap@.len() as int;
    let ghost poss = possible(*bd, next_colr);
    let mut ap_des: Vec<ApDes> = Vec::new();
    let mut t: usize = 0;
    while t < ap.len()
        invariant
            plan_input(*bd, next_colr),
            bd.cd@.len() * bd.rd@.len() <= i32::MAX,
            bd.cd@.len() * bd.rd@.len() * bd.rd@.len() <= i32::MAX,
            poss == possible(*bd, next_colr),
            ap@.len() == poss.len(),
            forall|a: int| 0 <= a < ap@.len() ==> psb_matches(#[trigger] ap@[a], *bd, next_colr, poss[a]),
            t <= ap@.len(),
            ap_des@.len() == t,
            forall|a: int| 0 <= a < t ==> (#[trigger] ap_des@[a]).idx == a
                && (ap_des@[a].hole_cnt as int, ap_des@[a].max_hight as int, ap_des@[a].total_hight as int,
                    ap_des@[a].hight_var as int) == key_at(*bd, next_colr, a),
        decreases ap@.len() - t,
    {
        proof {
            assert(col_pairs(ap@[t as int].cd@) =~= after_pairs(*bd, next_colr, poss[t as int]));
        }
        ap_des.push(rank_of(&ap[t].cd, t, Ghost(bd.rd@.len())));
        t = t + 1;
    }
    let mut low: i32 = ap_des[0].max_hight;
    let mut t: usize = 1;
    while t < ap_des.len()
        invariant
            poss == possible(*bd, next_colr),
            ap_des@.len() == poss.len(),
            ap_des@.len() >= 1,
            forall|a: int| 0 <= a < ap_des@.len() ==> (#[trigger] ap_des@[a]).idx == a
                && (ap_des@[a].hole_cnt as int, ap_des@[a].max_hight as int, ap_des@[a].total_hight as int,
                    ap_des@[a].hight_var as int) == key_at(*bd, next_colr, a),
            1 <= t <= ap_des@.len(),
            low == lowest_upto(*bd, next_colr, t as int),
        decreases ap_des@.len() - t,
    {
        proof {
            lemma_key_at_parts(*bd, next_colr, t as int);
        }
        if ap_des[t].max_hight < low {
            low = ap_des[t].max_hight;
        }
        t = t + 1;
    }
    proof {
        lemma_key_at_parts(*bd, next_colr, 0);
    }
    let mut best: usize = 0;
    let mut found: bool = false;
    let mut t: usize = 0;
    while t < ap_des.len()
        invariant
            poss == possible(*bd, next_colr),
            ap_des@.len() == poss.len(),
            ap_des@.len() >= 1,
            forall|a: int| 0 <= a < ap_des@.len() ==> (#[trigger] ap_des@[a]).idx == a
                && (ap_des@[a].hole_cnt as int, ap_des@[a].max_hight as int, ap_des@[a].total_hight as int,
                    ap_des@[a].hight_var as int) == key_at(*bd, next_colr, a),
            0 <= t <= ap_des@.len(),
            low == lowest_upto(*bd, next_colr, ap_des@.len() as int),
            found == (best_upto(*bd, next_colr, low as int, t as int) >= 0),
            found ==> best == best_upto(*bd, next_colr, low as int, t as int),
            best < ap_des@.len(),
        decreases ap_des@.len() - t,
    {
        proof {
            lemma_key_at_parts(*bd, next_colr, t as int);
            lemma_best_upto(*bd, next_colr, low as int, t as int);
        }
        if (ap_des[t].max_hight as i64) <= (low as i64) + 2 {
            if !found || ap_less(&ap_des[t], &ap_des[best]) {
                best = t;
                found = true;
            }
        }
        t = t + 1;
    }
    proof {
        lemma_best_choice(*bd, next_colr);
    }
    let first_des = &ap_des[best];
    let idx = first_des.idx;
    let may_swap = if origin_hole_cnt as i32 != first_des.hole_cnt {
        true
    } else {
        false
    };
    let tmp = &ap[idx];
    (tmp.rot_idx, tmp.pos_idx, may_swap)
}

} // verus!
