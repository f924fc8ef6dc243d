//! One turn of play: from the board read off the screen to the keys to press.
use vstd::prelude::*;
use crate::colr::TetrColr;
use crate::des::BitsDes;
use crate::plan::{best_placement, get_best, plan_input, possible};
use crate::tetr::{get_start_pos, is_piece, lemma_start_columns, spec_start_pos};

verus! {

/// A key that the game is played with.
#[derive(Debug, PartialEq, Eq, Clone, Copy, Structural)]
pub enum GameKey {
    /// Holds the falling piece (swaps it with the held one).
    Home,
    /// Rotates the piece once clockwise.
    Down,
    /// Rotates the piece twice.
    End,
    /// Rotates the piece once counter-clockwise.
    Up,
    /// Moves the piece one column right.
    Right,
    /// Moves the piece one column left.
    Left,
    /// Drops the piece.
    Space,
}

/// The key that turns a piece from its start into rotation `rot`, if any.
pub open spec fn rot_keys(rot: int) -> Seq<GameKey> {
    if rot == 1 {
        seq![GameKey::Down]
    } else if rot == 2 {
        seq![GameKey::End]
    } else if rot == 3 {
        seq![GameKey::Up]
    } else {
        Seq::empty()
    }
}

/// The keys that move a piece `shift` columns to the right (to the left when negative).
pub open spec fn shift_keys(shift: int) -> Seq<GameKey> {
    if shift >= 0 {
        Seq::new(shift as nat, |k: int| GameKey::Right)
    } else {
        Seq::new((-shift) as nat, |k: int| GameKey::Left)
    }
}

/// The keys that drop the piece of colour `c` in rotation `rot` with its left column at `pos`:
/// rotate, move from the column it starts at, drop.
pub open spec fn drop_keys(c: TetrColr, rot: int, pos: int) -> Seq<GameKey> {
    rot_keys(rot) + shift_keys(pos - spec_start_pos(c)[rot]) + seq![GameKey::Space]
}

/// The keys that drop the piece of colour `c` in rotation `rot_idx` with its left column at
/// `pos_idx`.
pub fn move_keys(c: TetrColr, rot_idx: usize, pos_idx: usize) -> (r: Vec<GameKey>)
    requires
        is_piece(c),
        rot_idx < 4,
        pos_idx <= i32::MAX,
    ensures
        r@ == drop_keys(c, rot_idx as int, pos_idx as int),
{
    let mut keys: Vec<GameKey> = Vec::new();
    match rot_idx {
        0 => {},
        1 => keys.push(GameKey::Down),
        2 => keys.push(GameKey::End),
        _ => keys.push(GameKey::Up),
    }
    let ghost turn = keys@;
    assert(turn =~= rot_keys(rot_idx as int));
    let start_pos = get_start_pos(c, rot_idx);
    assert(0 <= start_pos <= 5) by {
        assert(spec_start_pos(c)[rot_idx as int] >= 3 && spec_start_pos(c)[rot_idx as int] <= 5);
    }
    let right_move: i32 = pos_idx as i32 - start_pos;
    let (key, steps): (GameKey, i32) = if right_move > 0 {
        (GameKey::Right, right_move)
    } else {
        (GameKey::Left, -right_move)
    };
    let mut k: i32 = 0;
    while k < steps
        invariant
            0 <= k <= steps,
            keys@ == turn + Seq::new(k as nat, |a: int| key),
        decreases steps - k,
    {
        keys.push(key);
        k = k + 1;
        assert(keys@ =~= turn + Seq::new(k as nat, |a: int| key));
    }
    assert(Seq::new(steps as nat, |a: int| key) =~= shift_keys(right_move as int));
    keys.push(GameKey::Space);
    keys
}

/// One turn: given the board and the colour of the falling piece, and whether the turn before
/// held the piece, returns the keys to press and whether this turn holds it. The piece is held
/// when the best placement changes the number of holes and the turn before did not hold;
/// otherwise it is dropped at the best placement.
pub fn next_turn(bd: &BitsDes, next_colr: TetrColr, last_swap: bool) -> (r: (Vec<GameKey>, bool))
    requires
        plan_input(*bd, next_colr),
        bd.cd@.len() * bd.rd@.len() <= i32::MAX,
        bd.cd@.len() * bd.rd@.len() * bd.rd@.len() <= i32::MAX,
        is_piece(next_colr),
        possible(*bd, next_colr).len() > 0,
    ensures
        ({
            let (rot, pos, may_swap) = best_placement(*bd, next_colr);
            if may_swap && !last_swap {
                r.0@ == seq![GameKey::Home] && r.1
            } else {
                r.0@ == drop_keys(next_colr, rot, pos) && !r.1
            }
        }),
{
    let (rot_idx, pos_idx, may_swap) = get_best(bd, next_colr);
    if may_swap && !last_swap {
        let mut keys: Vec<GameKey> = Vec::new();
        keys.push(GameKey::Home);
        proof {
            assert(keys@ =~= seq![GameKey::Home]);
        }
        (keys, true)
    } else {
        proof {
            crate::plan::lemma_best_placement_bounds(*bd, next_colr);
        }
        (move_keys(next_colr, rot_idx, pos_idx), false)
    }
}

/// The keys that drop a piece: the key for its turn, then one key per column between the column
/// where the piece appears (3, or 4 after one quarter turn; the I piece 3 lying and 5 standing;
/// the O piece 4) and the target column, all towards the target, then the drop key.
pub proof fn lemma_drop_keys_moves(c: TetrColr, r: int, p: int)
    requires
        is_piece(c),
        0 <= r < 4,
    ensures
        ({
            let start = if c == TetrColr::Cyan {
                if r % 2 == 0 { 3int } else { 5int }
            } else if c == TetrColr::Yellow {
                4int
            } else if r == 1 {
                4int
            } else {
                3int
            };
            let keys = drop_keys(c, r, p);
            let turn = if r == 0 { 0int } else { 1int };
            let moves = if p >= start { p - start } else { start - p };
            &&& keys.len() == turn + moves + 1
            &&& r == 1 ==> keys[0] == GameKey::Down
            &&& r == 2 ==> keys[0] == GameKey::End
            &&& r == 3 ==> keys[0] == GameKey::Up
            &&& forall|k: int| turn <= k < turn + moves ==> #[trigger] keys[k] == (if p >= start {
                GameKey::Right
            } else {
                GameKey::Left
            })
            &&& keys[keys.len() - 1] == GameKey::Space
        }),
{
    lemma_start_columns(c, r);
}

} // verus!
