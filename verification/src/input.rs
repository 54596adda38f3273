//! Where the fonts to load come from.

use vstd::prelude::*;

verus! {

/// The kind of input the fonts are read from.
#[derive(Debug, Clone, Copy, PartialEq, Eq)]
pub enum InputSource {
    Directory,
    Archive,
}

impl InputSource {
    /// The name of the kind, as reports show it.
    pub fn as_str(self) -> (r: &'static str)
        ensures
            r@ == match self {
                InputSource::Directory => "directory"@,
                InputSource::Archive => "archive"@,
            },
    {
        match self {
            InputSource::Directory => "directory",
            InputSource::Archive => "archive",
        }
    }
}

} // verus!
