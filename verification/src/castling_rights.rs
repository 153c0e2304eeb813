//! Castling rights, kept as four bits of a byte.
use vstd::prelude::*;

verus! {

/// The bits of a castling-rights byte.
pub struct CastlingRights;

impl CastlingRights {
    pub const NONE: u8 = 0u8;
    pub const WHITEKINGSIDE: u8 = 1u8;
    pub const WHITEQUEENSIDE: u8 = 2u8;
    pub const BLACKKINGSIDE: u8 = 4u8;
    pub const BLACKQUEENSIDE: u8 = 8u8;
    pub const ALL: u8 = 15u8;
}

} // verus!
