//! Encrypted, slot-based save files for GameMaker games.
//!
//! The library owns the binary layout of a `.gmsv` slot file, the way a
//! passphrase and a JSON document become such a file and back, the naming of
//! slot files, and the small amount of state the native extension keeps.
//! Reading and writing files is left to the caller.

pub mod error;
pub mod bytes_le;
pub mod format;
pub mod crypto;
pub mod text;
pub mod slots;
pub mod save;
pub mod state;

pub use error::{Result, SaveError};
pub use save::{SaveManager, SlotMeta};
