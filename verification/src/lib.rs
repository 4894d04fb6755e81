//! A filesystem-free engine for recursively changing permission bits.
//!
//! The crate decides; its caller performs. Every filesystem access is described
//! by a [`Job`] that the caller carries out, in any order and on as many threads
//! as it likes, answering each with an [`Event`]. All decisions (which entries are
//! entered, when a directory's own bits may be written, which failure ends the
//! run) are taken here and proved against the model in each module.
pub mod aggregate;
pub mod consistency;
pub mod entry;
pub mod error;
pub mod laws;
pub mod mode;
pub mod model;
pub mod ops;
pub mod path;
pub mod protocol;
pub mod traversal;

pub use crate::entry::EntryKind;
pub use crate::error::{Context, Error, IoFailure, IoKind, ModeParseError, Operation};
pub use crate::mode::ChmodMode;
pub use crate::ops::{chmod, chmod_file, chmod_impl, ChmodOp};
pub use crate::protocol::{Action, Child, Event, Job, Progress, Reply};
pub use crate::traversal::Traversal;
