//! Extraction of firmware from Android vendor partitions: what a device
//! configuration asks for, which partition a name stands for, what is copied
//! where, and what is recorded of it.
//!
//! The library decides and its callers act: a [`process::Session`] says what is
//! to be done next and takes in what came of it, and so does a
//! [`mount::Mounting`]. Everything is stated over mathematical values, to which
//! `deep_view` and `@` lead.

pub mod conduct;
pub mod config;
pub mod error;
pub mod kernel;
pub mod ledger;
pub mod mount;
pub mod mountinfo;
pub mod number;
pub mod partition;
pub mod path;
pub mod process;
pub mod settings;
pub mod slot;
pub mod squash;
pub mod status;
pub mod text;

pub use config::{bundled_config, BundledConfig, Config};
pub use partition::{dynpart_paths, select_partition_path};
pub use process::process;
pub use slot::{detect_active_slot, Slot};
pub use status::{FileFailure, PartitionStatus, Status};
