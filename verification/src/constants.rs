//! Dimensions of the playfield that the bot reads and plans on.
use vstd::prelude::*;

verus! {

/// Number of columns of the playfield.
pub const XCNT: u32 = 10;

/// Number of rows of the playfield.
pub const YCNT: u32 = 20;

/// Number of rows at the top of the playfield where the falling piece appears.
pub const TOP_LINE: usize = 2;

} // verus!
