//! Lokal: the core of a local-first password manager.
//!
//! Everything that decides or computes is here and verified: encryption and the
//! file format, the vault and its entries, making and assessing passwords,
//! naming and rotating backups, and what the user interface may ask for. The
//! program around it touches the disk, the clock and the screen.

pub mod backup;
pub mod calendar;
pub mod clock;
pub mod crypto;
pub mod draws;
pub mod error;
pub mod format;
pub mod generator;
pub mod model;
pub mod persist;
pub mod reading;
pub mod secret;
pub mod shell;
pub mod strength;
pub mod text;
pub mod vault;

pub use error::Error;
pub use model::{Category, Entry, EntryId, VaultData, VaultSettings};
pub use secret::{Key32, Secret};
pub use strength::{assess, Assessment, Strength};
pub use vault::Vault;
