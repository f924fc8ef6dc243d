use tetrbot::colr::TetrColr;
use tetrbot::des::{bits2des, block_add, BitsDes};

fn empty_bits() -> Vec<Vec<bool>> {
    vec![vec![false; 10]; 20]
}

fn lens(bd: &BitsDes) -> Vec<u32> {
    bd.cd.iter().map(|c| c.len).collect()
}

fn cnts(bd: &BitsDes) -> Vec<u32> {
    bd.cd.iter().map(|c| c.cnt).collect()
}

fn rows(bd: &BitsDes) -> Vec<u32> {
    bd.rd.iter().map(|r| r.cnt).collect()
}

#[test]
fn summary_of_empty_board() {
    let bd = bits2des(&empty_bits());
    assert_eq!(bd.rd.len(), 20);
    assert_eq!(bd.cd.len(), 10);
    assert!(rows(&bd).iter().all(|&c| c == 0));
    assert!(bd.cd.iter().all(|c| c.len == 0 && c.cnt == 0 && c.first_hole == 0));
}

#[test]
fn summary_counts_rows_from_the_bottom_and_columns() {
    let mut bits = empty_bits();
    // column 0: cells at rows (from the top) 15, 17, 18, 19 -> hole at 16
    bits[15][0] = true;
    bits[17][0] = true;
    bits[18][0] = true;
    bits[19][0] = true;
    // column 3: single cell at the bottom
    bits[19][3] = true;
    let bd = bits2des(&bits);
    assert_eq!(bd.cd[0].len, 5);
    assert_eq!(bd.cd[0].cnt, 4);
    assert_eq!(bd.cd[0].first_hole, 4);
    assert_eq!(bd.cd[3].len, 1);
    assert_eq!(bd.cd[3].cnt, 1);
    assert_eq!(bd.cd[3].first_hole, 0);
    assert_eq!(bd.cd[1].len, 0);
    assert_eq!(rows(&bd)[0], 2);
    assert_eq!(rows(&bd)[1], 1);
    assert_eq!(rows(&bd)[2], 1);
    assert_eq!(rows(&bd)[3], 0);
    assert_eq!(rows(&bd)[4], 1);
}

#[test]
fn highest_hole_is_reported() {
    let mut bits = empty_bits();
    // column 2 from the bottom: filled, empty, filled, empty, filled
    bits[19][2] = true;
    bits[17][2] = true;
    bits[15][2] = true;
    let bd = bits2des(&bits);
    assert_eq!(bd.cd[2].len, 5);
    assert_eq!(bd.cd[2].cnt, 3);
    assert_eq!(bd.cd[2].first_hole, 4);
}

#[test]
fn flat_i_on_empty_board() {
    let bd = bits2des(&empty_bits());
    let (nd, top, k) = block_add(&bd, TetrColr::Cyan, 0, 0).unwrap();
    assert_eq!(lens(&nd), vec![1, 1, 1, 1, 0, 0, 0, 0, 0, 0]);
    assert_eq!(cnts(&nd), vec![1, 1, 1, 1, 0, 0, 0, 0, 0, 0]);
    assert_eq!(rows(&nd)[0], 4);
    assert!(rows(&nd)[1..].iter().all(|&c| c == 0));
    assert_eq!(top, 1);
    assert_eq!(k, 0);
}

#[test]
fn standing_i_in_last_column() {
    let bd = bits2des(&empty_bits());
    let (nd, top, k) = block_add(&bd, TetrColr::Cyan, 1, 9).unwrap();
    assert_eq!(lens(&nd), vec![0, 0, 0, 0, 0, 0, 0, 0, 0, 4]);
    assert_eq!(&rows(&nd)[0..5], &[1, 1, 1, 1, 0]);
    assert_eq!(top, 4);
    assert_eq!(k, 0);
}

#[test]
fn piece_past_the_right_edge_does_not_fit() {
    let bd = bits2des(&empty_bits());
    assert!(block_add(&bd, TetrColr::Cyan, 0, 7).is_none());
    assert!(block_add(&bd, TetrColr::Cyan, 0, 6).is_some());
    assert!(block_add(&bd, TetrColr::Yellow, 0, 9).is_none());
}

#[test]
fn t_rests_on_the_highest_column() {
    let mut bits = empty_bits();
    bits[19][1] = true;
    bits[18][1] = true;
    let bd = bits2des(&bits);
    // T flat over columns 0..3 rests on column 1 (height 2)
    let (nd, top, k) = block_add(&bd, TetrColr::Purple, 0, 0).unwrap();
    assert_eq!(&lens(&nd)[0..4], &[3, 4, 3, 0]);
    assert_eq!(&cnts(&nd)[0..4], &[1, 4, 1, 0]);
    assert_eq!(&rows(&nd)[0..5], &[1, 1, 3, 1, 0]);
    assert_eq!(top, 4);
    assert_eq!(k, 0);
}

#[test]
fn completed_row_is_cleared() {
    let mut bits = empty_bits();
    for x in 4..10 {
        bits[19][x] = true;
    }
    let bd = bits2des(&bits);
    let (nd, top, k) = block_add(&bd, TetrColr::Cyan, 0, 0).unwrap();
    assert_eq!(k, 1);
    assert_eq!(top, 0);
    assert!(lens(&nd).iter().all(|&l| l == 0));
    assert!(cnts(&nd).iter().all(|&c| c == 0));
    assert!(rows(&nd).iter().all(|&c| c == 0));
    assert_eq!(nd.rd.len(), 20);
}

#[test]
fn rows_above_a_cleared_row_move_down() {
    let mut bits = empty_bits();
    for x in 1..10 {
        bits[19][x] = true;
    }
    bits[18][5] = true;
    let bd = bits2des(&bits);
    // standing I in column 0 fills the bottom row, which is cleared
    let (nd, top, k) = block_add(&bd, TetrColr::Cyan, 1, 0).unwrap();
    assert_eq!(k, 1);
    assert_eq!(top, 3);
    assert_eq!(lens(&nd), vec![3, 0, 0, 0, 0, 1, 0, 0, 0, 0]);
    assert_eq!(cnts(&nd), vec![3, 0, 0, 0, 0, 1, 0, 0, 0, 0]);
    assert_eq!(&rows(&nd)[0..4], &[2, 1, 1, 0]);
}

#[test]
fn two_rows_cleared_at_once() {
    let mut bits = empty_bits();
    for x in 0..8 {
        bits[19][x] = true;
        bits[18][x] = true;
    }
    let bd = bits2des(&bits);
    let (nd, top, k) = block_add(&bd, TetrColr::Yellow, 0, 8).unwrap();
    assert_eq!(k, 2);
    assert_eq!(top, 0);
    assert!(lens(&nd).iter().all(|&l| l == 0));
    assert!(rows(&nd).iter().all(|&c| c == 0));
}

#[test]
fn stack_reaching_the_top_does_not_fit() {
    let mut bits = empty_bits();
    for y in 2..20 {
        bits[y][0] = true;
    }
    let bd = bits2des(&bits);
    assert_eq!(bd.cd[0].len, 18);
    // O over columns 0 and 1 would reach height 20
    assert!(block_add(&bd, TetrColr::Yellow, 0, 0).is_none());
    // standing I in column 2 reaches 4 only
    assert!(block_add(&bd, TetrColr::Cyan, 1, 2).is_some());
}

#[test]
fn holes_are_left_as_they_were() {
    let mut bits = empty_bits();
    bits[19][0] = true;
    bits[17][0] = true;
    let bd = bits2des(&bits);
    assert_eq!(bd.cd[0].first_hole, 2);
    let (nd, _, _) = block_add(&bd, TetrColr::Yellow, 0, 2).unwrap();
    assert_eq!(nd.cd[0].first_hole, 2);
    assert_eq!(nd.cd[0].len, 3);
}

fn cols(bd: &BitsDes) -> Vec<(u32, u32, i32)> {
    bd.cd.iter().map(|c| (c.len, c.cnt, c.first_hole)).collect()
}

#[test]
fn vertical_i_fills_the_gap_of_a_short_board() {
    let bits = vec![
        vec![false; 4],
        vec![false; 4],
        vec![false; 4],
        vec![true, true, true, false],
    ];
    let bd = bits2des(&bits);
    let (d, top, k) = block_add(&bd, TetrColr::Cyan, 1, 3).unwrap();
    assert_eq!((top, k), (3, 1));
    assert_eq!(rows(&d), vec![1, 1, 1, 0]);
    assert_eq!(cols(&d), vec![(0, 0, 0), (0, 0, 0), (0, 0, 0), (3, 3, 0)]);
}

#[test]
fn downward_t_clears_two_rows_of_a_narrow_board() {
    let bits = vec![
        vec![false; 3],
        vec![false; 3],
        vec![false; 3],
        vec![true, false, true],
    ];
    let bd = bits2des(&bits);
    let (d, top, k) = block_add(&bd, TetrColr::Purple, 2, 0).unwrap();
    assert_eq!((top, k), (0, 2));
    assert_eq!(rows(&d), vec![0, 0, 0, 0]);
    assert_eq!(cols(&d), vec![(0, 0, 0); 3]);
}

#[test]
fn flat_i_on_a_four_by_four_board() {
    let bd = bits2des(&vec![vec![false; 4]; 4]);
    assert!(block_add(&bd, TetrColr::Cyan, 0, 1).is_none());
    let (d, top, k) = block_add(&bd, TetrColr::Cyan, 0, 0).unwrap();
    assert_eq!((top, k), (0, 1));
    assert_eq!(rows(&d), vec![0, 0, 0, 0]);
}

#[test]
fn board_of_nineteen_rows_takes_drops() {
    let bd = bits2des(&vec![vec![false; 10]; 19]);
    let (d, top, k) = block_add(&bd, TetrColr::Cyan, 1, 0).unwrap();
    assert_eq!((top, k), (4, 0));
    assert_eq!(d.rd.len(), 19);
    assert_eq!(lens(&d)[0], 4);
}

#[test]
fn row_and_column_totals_agree() {
    let mut bits = empty_bits();
    bits[19][0] = true;
    bits[19][4] = true;
    bits[18][4] = true;
    bits[12][9] = true;
    let bd = bits2des(&bits);
    let row_total: u32 = rows(&bd).iter().sum();
    let col_total: u32 = cnts(&bd).iter().sum();
    assert_eq!(row_total, 4);
    assert_eq!(col_total, 4);
    let (d, _, k) = block_add(&bd, TetrColr::Blue, 0, 1).unwrap();
    let row_total: u32 = rows(&d).iter().sum();
    let col_total: u32 = cnts(&d).iter().sum();
    assert_eq!(k, 0);
    assert_eq!(row_total, 8);
    assert_eq!(col_total, 8);
}

#[test]
fn turns_that_look_the_same_drop_the_same() {
    let mut bits = empty_bits();
    bits[19][2] = true;
    bits[18][2] = true;
    bits[19][5] = true;
    let bd = bits2des(&bits);
    for c in [TetrColr::Red, TetrColr::Green, TetrColr::Cyan] {
        for r in 0..2 {
            for p in 0..10 {
                let a = block_add(&bd, c, r, p);
                let b = block_add(&bd, c, r + 2, p);
                assert_eq!(a.is_some(), b.is_some());
                if let (Some((da, ta, ka)), Some((db, tb, kb))) = (a, b) {
                    assert_eq!((ta, ka), (tb, kb));
                    assert_eq!(rows(&da), rows(&db));
                    assert_eq!(cols(&da), cols(&db));
                }
            }
        }
    }
    for r in 1..4 {
        for p in 0..10 {
            let a = block_add(&bd, TetrColr::Yellow, 0, p);
            let b = block_add(&bd, TetrColr::Yellow, r, p);
            assert_eq!(a.is_some(), b.is_some());
            if let (Some((da, ta, ka)), Some((db, tb, kb))) = (a, b) {
                assert_eq!((ta, ka), (tb, kb));
                assert_eq!(rows(&da), rows(&db));
                assert_eq!(cols(&da), cols(&db));
            }
        }
    }
}

#[test]
fn empty_row_on_top_adds_only_an_empty_row_summary() {
    let mut bits = empty_bits();
    bits[19][1] = true;
    bits[17][1] = true;
    bits[18][6] = true;
    let bd = bits2des(&bits);
    let mut more = vec![vec![false; 10]];
    more.extend(bits.iter().cloned());
    let bd2 = bits2des(&more);
    assert_eq!(cols(&bd2), cols(&bd));
    let mut r = rows(&bd);
    r.push(0);
    assert_eq!(rows(&bd2), r);
}
