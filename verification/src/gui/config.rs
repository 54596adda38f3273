//! The settings of the loader window.

use vstd::prelude::*;

use crate::text::{is_separator, push_str, trim_seq, trim_string};

verus! {

/// The window's settings, as stored next to the executable.
#[derive(Debug, Clone)]
pub struct GuiConfig {
    pub font_root: String,
    pub auto_index_on_startup: bool,
    pub auto_load_startup_subtitles: bool,
    pub avoid_system_fonts: bool,
}

impl Default for GuiConfig {
    /// No font directory set (the executable's directory is used), and every
    /// automatic step switched on.
    fn default() -> (r: Self)
        ensures
            r.font_root@ == Seq::<char>::empty(),
            r.auto_index_on_startup,
            r.auto_load_startup_subtitles,
            r.avoid_system_fonts,
    {
        GuiConfig {
            font_root: String::new(),
            auto_index_on_startup: true,
            auto_load_startup_subtitles: true,
            avoid_system_fonts: true,
        }
    }
}

/// The font directory a configuration names, given the executable's directory.
pub open spec fn font_root_of(font_root: Seq<char>, exe_dir: Seq<char>) -> Seq<char> {
    if trim_seq(font_root).len() == 0 {
        exe_dir
    } else {
        trim_seq(font_root)
    }
}

impl GuiConfig {
    /// The font directory: the configured one without surrounding white
    /// space, or the executable's directory when none is configured.
    pub fn resolved_font_root(&self, exe_dir: &str) -> (r: String)
        ensures
            r@ == font_root_of(self.font_root@, exe_dir@),
    {
        let trimmed = trim_string(self.font_root.as_str());
        if trimmed.as_str().is_empty() {
            let mut r = String::new();
            push_str(&mut r, exe_dir);
            proof {
                assert(Seq::<char>::empty() + exe_dir@ =~= exe_dir@);
            }
            r
        } else {
            trimmed
        }
    }
}

/// `dir` ends where a file name can follow directly: it is empty, ends in a
/// separator, or is a bare drive such as `C:`.
pub open spec fn ends_open(dir: Seq<char>) -> bool {
    ||| dir.len() == 0
    ||| is_separator(dir.last())
    ||| (dir.len() == 2 && dir[1] == ':' && (('a' <= dir[0] && dir[0] <= 'z') || ('A' <= dir[0] && dir[0] <= 'Z')))
}

/// A relative file name joined to a directory, as `Path::join` does on Windows.
pub open spec fn join_path(dir: Seq<char>, name: Seq<char>) -> Seq<char> {
    if ends_open(dir) {
        dir + name
    } else {
        dir + seq!['\\'] + name
    }
}

/// Joins the relative file name `name` to the directory `dir`.
pub fn join_file_name(dir: &str, name: &str) -> (r: String)
    ensures
        r@ == join_path(dir@, name@),
{
    let cs = crate::text::chars_of(dir);
    let n = cs.len();
    let open = n == 0 || cs[n - 1] == '/' || cs[n - 1] == '\\' || (n == 2 && cs[1] == ':' && (
    ('a' <= cs[0] && cs[0] <= 'z') || ('A' <= cs[0] && cs[0] <= 'Z')));
    let mut r = String::new();
    push_str(&mut r, dir);
    if !open {
        r.push('\\');
    }
    push_str(&mut r, name);
    proof {
        assert(r@ =~= join_path(dir@, name@));
    }
    r
}

} // verus!
