//! A growable slot table keyed by a caller-supplied index function.

pub mod iter;
pub mod laws;
pub mod layout;
pub mod table;

pub use crate::iter::{IntoIter, Iter};
pub use crate::layout::Entry;
pub use crate::table::{FnMap, InsertError, DEFAULT_MAX_SLOTS};
