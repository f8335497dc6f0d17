//! What is kept of a rendered match.

use vstd::prelude::*;

verus! {

/// A picture of a match with the counters of its board.
#[derive(Clone, Debug)]
pub struct GameData {
    /// The bytes of the picture file.
    pub image_data: Vec<u8>,
    /// The number of actions of the match.
    pub total_actions: u8,
    /// The number of opened cells.
    pub opened_fields: u8,
    /// The number of cells that are not opened.
    pub closed_fields: u8,
    /// The number of cells.
    pub total_fields: u8,
    /// The number of mines.
    pub mine_count: u8,
}

} // verus!
