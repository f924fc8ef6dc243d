use tetrbot::colr::TetrColr;
use tetrbot::tetr::{get_clock_rot90, get_rot_ids, get_shape_col, get_start_pos};

#[test]
fn rotation_turns_clockwise() {
    let t = vec![vec![0, 1, 0], vec![1, 1, 1]];
    let r = get_clock_rot90(&t);
    assert_eq!(r, vec![vec![1, 0], vec![1, 1], vec![1, 0]]);
}

#[test]
fn four_rotations_give_the_shape_back() {
    let shapes = vec![
        vec![vec![0, 1, 0], vec![1, 1, 1]],
        vec![vec![1, 1, 0], vec![0, 1, 1]],
        vec![vec![1, 1, 1, 1]],
        vec![vec![1, 0, 0], vec![1, 1, 1]],
    ];
    for s in shapes {
        let mut r = s.clone();
        for _ in 0..4 {
            r = get_clock_rot90(&r);
        }
        assert_eq!(r, s);
    }
}

#[test]
fn shape_columns_from_the_bottom() {
    // T: every column rests on the bottom row.
    assert_eq!(get_shape_col(&vec![vec![0, 1, 0], vec![1, 1, 1]]), vec![(0, 1), (0, 2), (0, 1)]);
    // T turned a quarter: the second column starts one row up.
    assert_eq!(get_shape_col(&vec![vec![1, 0], vec![1, 1], vec![1, 0]]), vec![(0, 3), (1, 1)]);
    // Z: the left column starts one row up.
    assert_eq!(get_shape_col(&vec![vec![1, 1, 0], vec![0, 1, 1]]), vec![(1, 1), (0, 2), (0, 1)]);
    // I standing.
    assert_eq!(get_shape_col(&vec![vec![1], vec![1], vec![1], vec![1]]), vec![(0, 4)]);
}

#[test]
fn every_rotation_has_a_column_on_the_bottom_row() {
    let shapes = vec![
        vec![vec![0, 1, 0], vec![1, 1, 1]],
        vec![vec![1, 1, 0], vec![0, 1, 1]],
        vec![vec![1, 1, 1, 1]],
        vec![vec![1, 0, 0], vec![1, 1, 1]],
        vec![vec![0, 1, 1], vec![1, 1, 0]],
        vec![vec![0, 0, 1], vec![1, 1, 1]],
        vec![vec![1, 1], vec![1, 1]],
    ];
    for s in shapes {
        let mut sp = s.clone();
        for _ in 0..4 {
            let cols = get_shape_col(&sp);
            assert!(cols.iter().any(|c| c.0 == 0));
            sp = get_clock_rot90(&sp);
        }
    }
}

#[test]
fn start_positions() {
    assert_eq!(get_start_pos(TetrColr::Purple, 0), 3);
    assert_eq!(get_start_pos(TetrColr::Purple, 1), 4);
    assert_eq!(get_start_pos(TetrColr::Cyan, 1), 5);
    assert_eq!(get_start_pos(TetrColr::Cyan, 2), 3);
    assert_eq!(get_start_pos(TetrColr::Yellow, 3), 4);
}

#[test]
fn rotation_ids() {
    assert_eq!(get_rot_ids(TetrColr::Purple), vec![0, 1, 2, 3]);
    assert_eq!(get_rot_ids(TetrColr::Red), vec![0, 1]);
    assert_eq!(get_rot_ids(TetrColr::Cyan), vec![0, 1]);
    assert_eq!(get_rot_ids(TetrColr::Green), vec![0, 1]);
    assert_eq!(get_rot_ids(TetrColr::Orange), vec![0, 1, 2, 3]);
    assert_eq!(get_rot_ids(TetrColr::Yellow), vec![0]);
}
