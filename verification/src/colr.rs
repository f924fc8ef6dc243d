//! Colours of the playfield and the nearest-colour classification of pixels.
use vstd::prelude::*;

verus! {

/// The colours that a cell of the playfield or of the preview can show.
#[derive(Debug, PartialEq, Eq, Clone, Copy, Hash, Structural)]
pub enum TetrColr {
    Purple,
    Red,
    Cyan,
    Blue,
    Green,
    Orange,
    Yellow,
    Black,
    Gray,
}

/// One screen pixel: red, green, blue and alpha channels.
#[derive(Debug, Clone, Copy, PartialEq, Eq)]
pub struct Rgba(pub [u8; 4]);

/// Number of entries of the colour table.
pub const COLR_CNT: usize = 8;

/// The colour table: entry `i` is a colour and the pixel at the centre of its range.
pub open spec fn spec_color_entry(i: int) -> (TetrColr, Seq<u8>) {
    if i == 0 {
        (TetrColr::Purple, seq![206u8, 58, 192, 255])
    } else if i == 1 {
        (TetrColr::Red, seq![227u8, 43, 53, 255])
    } else if i == 2 {
        (TetrColr::Cyan, seq![41u8, 227, 158, 255])
    } else if i == 3 {
        (TetrColr::Blue, seq![83u8, 58, 206, 255])
    } else if i == 4 {
        (TetrColr::Green, seq![157u8, 227, 41, 255])
    } else if i == 5 {
        (TetrColr::Orange, seq![227u8, 112, 40, 255])
    } else if i == 6 {
        (TetrColr::Yellow, seq![227u8, 190, 41, 255])
    } else {
        (TetrColr::Black, seq![0u8, 0, 0, 255])
    }
}

/// Entry `i` of the colour table: the colour and the centre of its range.
pub fn color_entry(i: usize) -> (r: (TetrColr, Rgba))
    requires
        i < COLR_CNT,
    ensures
        r.0 == spec_color_entry(i as int).0,
        r.1.0@ == spec_color_entry(i as int).1,
{
    let e = match i {
        0 => (TetrColr::Purple, Rgba([206, 58, 192, 255])),
        1 => (TetrColr::Red, Rgba([227, 43, 53, 255])),
        2 => (TetrColr::Cyan, Rgba([41, 227, 158, 255])),
        3 => (TetrColr::Blue, Rgba([83, 58, 206, 255])),
        4 => (TetrColr::Green, Rgba([157, 227, 41, 255])),
        5 => (TetrColr::Orange, Rgba([227, 112, 40, 255])),
        6 => (TetrColr::Yellow, Rgba([227, 190, 41, 255])),
        _ => (TetrColr::Black, Rgba([0, 0, 0, 255])),
    };
    assert(e.1.0@ =~= spec_color_entry(i as int).1);
    e
}

/// Squared distance between a pixel and a centre over the red, green and blue channels.
pub open spec fn color_dist(p: Seq<u8>, c: Seq<u8>) -> int {
    (p[0] - c[0]) * (p[0] - c[0]) + (p[1] - c[1]) * (p[1] - c[1]) + (p[2] - c[2]) * (p[2] - c[2])
}

/// Distance from `p` to the centre of table entry `i`.
pub open spec fn entry_dist(p: Seq<u8>, i: int) -> int {
    color_dist(p, spec_color_entry(i).1)
}

/// Index of the entry nearest to `p` among the first `n` entries; on a tie the earlier entry.
pub open spec fn nearest_upto(p: Seq<u8>, n: int) -> int
    decreases n,
{
    if n <= 1 {
        0
    } else {
        let b = nearest_upto(p, n - 1);
        if entry_dist(p, b) > entry_dist(p, n - 1) {
            n - 1
        } else {
            b
        }
    }
}

/// The colour whose centre is nearest to `p`; on a tie the one earlier in the table.
pub open spec fn spec_color_of(p: Seq<u8>) -> TetrColr {
    spec_color_entry(nearest_upto(p, COLR_CNT as int)).0
}

/// The nearest entry among the first `n` is strictly nearer than every entry before it and no
/// farther than every entry up to `n`.
pub proof fn lemma_nearest_upto(p: Seq<u8>, n: int)
    requires
        1 <= n,
    ensures
        0 <= nearest_upto(p, n) < n,
        forall|j: int| 0 <= j < n ==> entry_dist(p, nearest_upto(p, n)) <= #[trigger] entry_dist(p, j),
        forall|j: int| 0 <= j < nearest_upto(p, n) ==> entry_dist(p, nearest_upto(p, n)) < #[trigger] entry_dist(p, j),
    decreases n,
{
    if n > 1 {
        lemma_nearest_upto(p, n - 1);
    }
}

/// Classifies a pixel as the colour of the table whose centre is nearest in red, green and blue
/// (squared distance), the earlier entry winning a tie. The table is never empty, so the result
/// is always `Some`.
pub fn get_color(p: &Rgba) -> (r: Option<TetrColr>)
    ensures
        r == Some(spec_color_of(p.0@)),
{
    let mut min_dis: Option<(i32, TetrColr)> = None;
    let ghost mut best: int = 0;
    let mut k: usize = 0;
    while k < COLR_CNT
        invariant
            k <= COLR_CNT,
            k == 0 ==> min_dis.is_none(),
            k > 0 ==> min_dis.is_some() && best == nearest_upto(p.0@, k as int)
                && min_dis.unwrap().1 == spec_color_entry(best).0
                && min_dis.unwrap().0 == entry_dist(p.0@, best),
        decreases COLR_CNT - k,
    {
        let x = color_entry(k);
        let mut dis: i32 = 0;
        let mut i: usize = 0;
        while i < 3
            invariant
                i <= 3,
                x.1.0@ == spec_color_entry(k as int).1,
                dis == (if i >= 1 { (p.0@[0] - x.1.0@[0]) * (p.0@[0] - x.1.0@[0]) } else { 0 })
                    + (if i >= 2 { (p.0@[1] - x.1.0@[1]) * (p.0@[1] - x.1.0@[1]) } else { 0 })
                    + (if i >= 3 { (p.0@[2] - x.1.0@[2]) * (p.0@[2] - x.1.0@[2]) } else { 0 }),
                0 <= dis <= i * 65025,
            decreases 3 - i,
        {
            let a: i32 = p.0[i] as i32;
            let b: i32 = x.1.0[i] as i32;
            let d: i32 = a - b;
            assert(0 <= d * d <= 65025) by (nonlinear_arith)
                requires
                    -255 <= d <= 255,
            ;
            dis = dis + d * d;
            i = i + 1;
        }
        proof {
            assert(dis == entry_dist(p.0@, k as int));
        }
        match min_dis {
            Some(md) => {
                if md.0 > dis {
                    min_dis = Some((dis, x.0));
                    proof {
                        best = k as int;
                    }
                }
            },
            None => {
                min_dis = Some((dis, x.0));
                proof {
                    best = k as int;
                }
            },
        }
        k = k + 1;
    }
    match min_dis {
        None => None,
        Some(md) => Some(md.1),
    }
}

/// Whether a pixel is classified as black.
pub fn is_black(p: &Rgba) -> (r: bool)
    ensures
        r == (spec_color_of(p.0@) == TetrColr::Black),
{
    let c = get_color(p);
    match c {
        Some(c) => c == TetrColr::Black,
        None => false,
    }
}

/// The centre of every entry of the colour table is classified as that entry's colour.
pub proof fn lemma_centres_classified(i: int)
    requires
        0 <= i < COLR_CNT,
    ensures
        spec_color_of(spec_color_entry(i).1) == spec_color_entry(i).0,
{
    let p = spec_color_entry(i).1;
    lemma_nearest_upto(p, COLR_CNT as int);
    let b = nearest_upto(p, COLR_CNT as int);
    assert(entry_dist(p, i) == 0);
    assert forall|j: int| 0 <= j < COLR_CNT && j != i implies entry_dist(p, j) > 0 by {
        let c = spec_color_entry(j).1;
        let x = p[0] - c[0];
        let y = p[1] - c[1];
        let z = p[2] - c[2];
        assert(x != 0 || y != 0 || z != 0);
        assert(x * x + y * y + z * z > 0) by (nonlinear_arith)
            requires
                x != 0 || y != 0 || z != 0,
        ;
    }
    assert(entry_dist(p, b) <= entry_dist(p, i));
    assert(b == i);
}

} // verus!
