pub mod discover;
pub mod events;
pub mod generic;
pub mod json;
pub mod layout;
pub mod strutil;
pub mod typed;

pub use crate::generic::Strip;

use vstd::prelude::*;

verus! {

/// Configuration consumed by the dump pipeline: where to write, which strip
/// operations to apply to object representations, and whether to escape
/// unsafe characters in object names when building paths.
pub struct Opts {
    /// Path dump should be written to
    pub out: String,
    /// Strips certain data from dumped object representations
    pub strip: Vec<crate::generic::Strip>,
    /// Escape some chars in names
    pub escape_paths: bool,
}

} // verus!
