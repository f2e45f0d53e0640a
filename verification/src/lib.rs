//! RZX archive library: the `.rzx` container format, its header and metadata
//! encodings, the compression and encryption pipeline applied to each file,
//! and the rules that pick algorithms and validate archives.
pub mod cli;
pub mod formats;
pub mod rzx_core;

use vstd::prelude::*;

verus! {

} // verus!
