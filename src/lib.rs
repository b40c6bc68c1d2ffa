//! Reading of KIWAD game-asset archives: the header and entry table are
//! decoded from an in-memory buffer, and each entry's payload is resolved
//! (and inflated where it is stored compressed).

pub mod format;
pub mod payload;
pub mod wad;
pub mod library;
