use tetrbot::colr::TetrColr;
use tetrbot::des::bits2des;
use tetrbot::game::{move_keys, next_turn, GameKey};

use GameKey::{Down, End, Home, Left, Right, Space, Up};

fn empty_bits() -> Vec<Vec<bool>> {
    vec![vec![false; 10]; 20]
}

#[test]
fn keys_for_a_piece_dropped_where_it_starts() {
    assert_eq!(move_keys(TetrColr::Purple, 0, 3), vec![Space]);
    assert_eq!(move_keys(TetrColr::Purple, 2, 3), vec![End, Space]);
}

#[test]
fn keys_move_left_and_right_from_the_start_column() {
    assert_eq!(move_keys(TetrColr::Cyan, 1, 0), vec![Down, Left, Left, Left, Left, Left, Space]);
    assert_eq!(move_keys(TetrColr::Yellow, 0, 8), vec![Right, Right, Right, Right, Space]);
    assert_eq!(move_keys(TetrColr::Blue, 3, 0), vec![Up, Left, Left, Left, Space]);
    assert_eq!(move_keys(TetrColr::Red, 1, 6), vec![Down, Right, Right, Space]);
}

#[test]
fn turn_on_empty_board_drops_at_the_left() {
    let bd = bits2des(&empty_bits());
    let (keys, held) = next_turn(&bd, TetrColr::Yellow, false);
    assert_eq!(keys, vec![Left, Left, Left, Left, Space]);
    assert!(!held);
}

#[test]
fn turn_fills_the_well() {
    let mut bits = empty_bits();
    for x in 0..9 {
        bits[19][x] = true;
        bits[18][x] = true;
    }
    let bd = bits2des(&bits);
    let (keys, held) = next_turn(&bd, TetrColr::Cyan, false);
    assert_eq!(keys, vec![Down, Right, Right, Right, Right, Space]);
    assert!(!held);
}

#[test]
fn turn_holds_once_then_drops() {
    let mut bits = empty_bits();
    for x in 0..10 {
        bits[19][x] = x % 2 == 0;
    }
    let bd = bits2des(&bits);
    let (keys, held) = next_turn(&bd, TetrColr::Yellow, false);
    assert_eq!(keys, vec![Home]);
    assert!(held);
    let (keys, held) = next_turn(&bd, TetrColr::Yellow, true);
    assert_eq!(keys, vec![Left, Left, Left, Left, Space]);
    assert!(!held);
}
