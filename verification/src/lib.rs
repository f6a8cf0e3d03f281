//! Deterministic card-sheet production: a recursive markup model with a
//! flattener, integer geometry for sheet and card sizes, pagination with
//! canonical artifact naming, and a device-pool arbiter model.
use vstd::prelude::*;

pub mod artifact;
pub mod error;
pub mod export;
pub mod import_csv;
pub mod dimensions;
pub mod markup;
pub mod pool;
pub mod tts;
pub mod xml;

verus! {

/// Logical resolution of the drawing coordinate space; card drawing code
/// always targets this grid regardless of the final pixel size.
pub const BASE_RESOLUTION: u32 = 4096;

/// Number of card rows on one sheet.
pub const ROWS: u32 = 7;

/// Number of card columns on one sheet.
pub const COLUMNS: u32 = 10;

/// Which face of a card an artifact shows.
#[derive(Clone, Copy, Debug, PartialEq, Eq, Structural)]
pub enum Side {
    Front,
    Back,
}

/// The back of a card can be the same across a deck (`Shared`) or each card
/// can have its own one (`Unique`).
#[derive(Clone, Copy, Debug, PartialEq, Eq, Structural)]
pub enum Backside {
    Shared,
    Unique,
}

impl Default for Backside {
    /// Backs are shared unless a deck says otherwise.
    fn default() -> (r: Self)
        ensures
            r == Backside::Shared,
    {
        Backside::Shared
    }
}

} // verus!
