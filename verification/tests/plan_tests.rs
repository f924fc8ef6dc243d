use tetrbot::colr::TetrColr;
use tetrbot::des::bits2des;
use tetrbot::plan::{get_all_possible, get_best};

fn empty_bits() -> Vec<Vec<bool>> {
    vec![vec![false; 10]; 20]
}

#[test]
fn all_placements_of_o_on_empty_board() {
    let bd = bits2des(&empty_bits());
    let ap = get_all_possible(&bd, TetrColr::Yellow);
    assert_eq!(ap.len(), 36);
    assert_eq!((ap[0].rot_idx, ap[0].pos_idx), (0, 0));
    assert_eq!((ap[8].rot_idx, ap[8].pos_idx), (0, 8));
    assert_eq!((ap[9].rot_idx, ap[9].pos_idx), (1, 0));
    let lens: Vec<u32> = ap[3].cd.iter().map(|c| c.len).collect();
    assert_eq!(lens, vec![0, 0, 0, 2, 2, 0, 0, 0, 0, 0]);
}

#[test]
fn all_placements_of_i_on_empty_board() {
    let bd = bits2des(&empty_bits());
    let ap = get_all_possible(&bd, TetrColr::Cyan);
    // flat: columns 0 to 6; standing: columns 0 to 9; twice each
    assert_eq!(ap.len(), 34);
    assert_eq!((ap[7].rot_idx, ap[7].pos_idx), (1, 0));
    assert_eq!((ap[33].rot_idx, ap[33].pos_idx), (3, 9));
}

#[test]
fn no_placement_when_the_stack_is_too_high() {
    let mut bits = empty_bits();
    for y in 2..20 {
        for x in 0..10 {
            if x != 5 {
                bits[y][x] = true;
            }
        }
    }
    let bd = bits2des(&bits);
    let ap = get_all_possible(&bd, TetrColr::Yellow);
    assert!(ap.is_empty());
}

#[test]
fn best_on_empty_board_is_the_first_flat_placement() {
    let bd = bits2des(&empty_bits());
    assert_eq!(get_best(&bd, TetrColr::Yellow), (0, 0, false));
    assert_eq!(get_best(&bd, TetrColr::Cyan), (0, 0, false));
}

#[test]
fn best_fills_the_well() {
    // every column but 9 is two high: the standing I in column 9 clears two rows
    let mut bits = empty_bits();
    for x in 0..9 {
        bits[19][x] = true;
        bits[18][x] = true;
    }
    let bd = bits2des(&bits);
    assert_eq!(get_best(&bd, TetrColr::Cyan), (1, 9, false));
}

#[test]
fn best_avoids_holes() {
    // column 0 is one high: a flat O over columns 1 and 2 leaves no hole
    let mut bits = empty_bits();
    bits[19][0] = true;
    let bd = bits2des(&bits);
    let (rot, pos, may_swap) = get_best(&bd, TetrColr::Yellow);
    assert_eq!(rot, 0);
    assert_eq!(pos, 1);
    assert!(!may_swap);
}

#[test]
fn swap_is_suggested_when_holes_change() {
    // every other column is one high: each placement of O leaves a hole
    let mut bits = empty_bits();
    for x in 0..10 {
        bits[19][x] = x % 2 == 0;
    }
    let bd = bits2des(&bits);
    assert_eq!(get_best(&bd, TetrColr::Yellow), (0, 0, true));
    // S can lie without a hole: no swap
    let (_, _, may_swap) = get_best(&bd, TetrColr::Green);
    assert!(!may_swap);
}

#[test]
fn placement_text_names_rotation_and_column() {
    let bd = bits2des(&empty_bits());
    let ap = get_all_possible(&bd, TetrColr::Cyan);
    assert_eq!(ap[0].debug_text(), "PsbMap { rot: 0, pos: 0 }");
    assert_eq!(ap[33].debug_text(), "PsbMap { rot: 3, pos: 9 }");
}

#[test]
fn placements_on_a_board_of_nineteen_rows() {
    let bd = bits2des(&vec![vec![false; 10]; 19]);
    let ap = get_all_possible(&bd, TetrColr::Yellow);
    assert_eq!(ap.len(), 36);
    assert_eq!(get_best(&bd, TetrColr::Yellow), (0, 0, false));
}
