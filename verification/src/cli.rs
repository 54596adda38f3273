//! The options of the font loader.

use vstd::prelude::*;

verus! {

/// Temporarily load fonts from a directory or archive.
#[derive(Debug, Clone)]
pub struct Cli {
    /// Directory or archive to scan; the current directory when absent.
    pub input: Option<String>,
    /// Scan only the top level of the input directory or extracted archive.
    pub no_recursive: bool,
    /// Unload at once after loading instead of waiting for Enter or Ctrl+C.
    pub no_hold: bool,
    /// Keep the temporary extraction directory when the input is an archive.
    pub keep_extracted: bool,
    /// Print the load report as JSON.
    pub json: bool,
}

impl Cli {
    /// The input to scan: the one given, or the current directory.
    pub fn input_path(&self) -> (r: String)
        ensures
            r@ == match self.input {
                Some(p) => p@,
                None => "."@,
            },
    {
        match &self.input {
            Some(p) => p.clone(),
            None => {
                let mut r = String::new();
                r.push('.');
                proof {
                    reveal_strlit(".");
                    assert(r@ =~= "."@);
                }
                r
            },
        }
    }
}

} // verus!
