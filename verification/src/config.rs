//! Startup configuration: the optional name of the file to open.

use vstd::prelude::*;

verus! {

/// What the editor is asked to open; `None` means an empty buffer.
pub struct Config {
    pub fname: Option<String>,
}

} // verus!
