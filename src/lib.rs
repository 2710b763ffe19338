//! Binary data-interchange types for a handheld game console: application
//! metadata, badges, boards and scores, settings, play statistics, and the
//! messages of the serial and inter-chip links, together with the validation
//! rules for the text they carry.
//!
//! Every type encodes into a caller-supplied buffer, reports the exact size
//! of its encoding beforehand, and decodes back from a byte buffer.

use vstd::prelude::*;

pub mod badges;
pub mod boards;
pub mod items;
pub mod laws;
pub mod meta;
pub mod scores;
pub mod serial;
pub mod settings;
pub mod spi;
pub mod stats;
pub mod validators;
pub mod wire;

pub use badges::{Badge, BadgeValidationError, Badges};
pub use boards::{Board, BoardValidationError, Boards};
pub use meta::{Meta, ShortMeta};
pub use scores::{BoardScores, FriendScore, Friends, Scores};
pub use settings::Settings;
pub use stats::{BadgeProgress, Stats};
pub use validators::{validate_id, validate_name, validate_path_part, ValidationError};
pub use wire::{DecodeError, Encode, EncodeError};

