//! The work the window hands to a background thread, what comes back, and
//! the decisions taken along the way.

use vstd::prelude::*;

use crate::font::index::{font_key_of, normalize_font_name, ScanSummary};
use crate::gui::view_model::SubtitleLoadView;
use crate::name_set::{contains_string, string_views};
use crate::session::FontSession;
use crate::text::{
    chars_of, decimal, eq_ignore_ascii_case, eq_ignore_ascii_case_seq, path_eq, path_equal,
    push_decimal, push_str,
};

verus! {

/// What an existing font index was found to be.
#[derive(Debug, Clone)]
pub enum FontIndexInspection {
    /// The index is bound to the configured font directory.
    Ready(ScanSummary),
    /// The index is bound to another font directory.
    RootMismatch { indexed_root: String, configured_root: String },
    /// There is no index.
    MissingMetadata,
    /// The index was written in an older layout.
    OutdatedSchema { schema_version: u32 },
}

/// Work for the background thread.
#[derive(Debug)]
pub enum GuiTask {
    EnsureIndexOnStartup { font_root: String, db_path: String },
    UpdateIndex { font_root: String, db_path: String },
    SwitchFontRoot { old_session: FontSession, font_root: String, db_path: String },
    LoadSubtitleInputs {
        inputs: Vec<String>,
        font_root: String,
        db_path: String,
        avoid_system_fonts: bool,
        current_session: FontSession,
    },
    UnloadFonts { session: FontSession },
}

/// What the background thread reports back.
#[derive(Debug)]
pub enum GuiEvent {
    IndexReady { summary: ScanSummary },
    IndexUnavailable { inspection: FontIndexInspection },
    IndexFailed { error: String },
    FontRootSwitched { summary: ScanSummary, session: FontSession, unloaded_count: usize },
    FontsLoaded { view: SubtitleLoadView, session: FontSession },
    FontsUnloaded { session: FontSession, unloaded_count: usize },
    Error(String),
}

impl GuiTask {
    /// Does the task build or update the index?
    pub fn is_index_task(&self) -> (r: bool)
        ensures
            r == (self is EnsureIndexOnStartup || self is UpdateIndex || self is SwitchFontRoot),
    {
        match self {
            GuiTask::EnsureIndexOnStartup { .. } => true,
            GuiTask::UpdateIndex { .. } => true,
            GuiTask::SwitchFontRoot { .. } => true,
            _ => false,
        }
    }
}

/// The event that reports a failed task: an index failure for the tasks that
/// build or update the index, a general error for the others.
pub fn failure_event(is_index_task: bool, error: String) -> (e: GuiEvent)
    ensures
        is_index_task ==> e == (GuiEvent::IndexFailed { error }),
        !is_index_task ==> e == GuiEvent::Error(error),
{
    if is_index_task {
        GuiEvent::IndexFailed { error }
    } else {
        GuiEvent::Error(error)
    }
}

/// What the startup check does with the index it found.
#[derive(Debug)]
pub enum StartupStep {
    /// The index already serves the configured font directory.
    Ready(ScanSummary),
    /// The index is missing or bound elsewhere: build it for the configured directory.
    Rebuild,
    /// The index cannot be used as it is and is not rebuilt on its own.
    Unavailable(FontIndexInspection),
}

/// At startup an index bound to the configured directory is used as it is;
/// a missing index, or one bound to another directory, is rebuilt; one in
/// an older layout is reported and left alone.
pub fn startup_step(inspection: FontIndexInspection) -> (s: StartupStep)
    ensures
        match inspection {
            FontIndexInspection::Ready(summary) => s == StartupStep::Ready(summary),
            FontIndexInspection::RootMismatch { .. } => s is Rebuild,
            FontIndexInspection::MissingMetadata => s is Rebuild,
            FontIndexInspection::OutdatedSchema { .. } => s == StartupStep::Unavailable(inspection),
        },
{
    match inspection {
        FontIndexInspection::Ready(summary) => StartupStep::Ready(summary),
        FontIndexInspection::RootMismatch { .. } => StartupStep::Rebuild,
        FontIndexInspection::MissingMetadata => StartupStep::Rebuild,
        FontIndexInspection::OutdatedSchema { schema_version } => StartupStep::Unavailable(
            FontIndexInspection::OutdatedSchema { schema_version },
        ),
    }
}

/// The event that reports how the startup check ended: a ready index, or
/// the state that keeps it from being used.
pub fn startup_event(outcome: FontIndexInspection) -> (e: GuiEvent)
    ensures
        match outcome {
            FontIndexInspection::Ready(summary) => e == (GuiEvent::IndexReady { summary }),
            _ => e == (GuiEvent::IndexUnavailable { inspection: outcome }),
        },
{
    match outcome {
        FontIndexInspection::Ready(summary) => GuiEvent::IndexReady { summary },
        other => GuiEvent::IndexUnavailable { inspection: other },
    }
}

/// How an update of the index proceeds.
#[derive(Debug, Clone, Copy, PartialEq, Eq)]
pub enum IndexRefresh {
    /// Rescan the directory the index is already bound to, keeping unchanged files.
    UpdateBound,
    /// Build the index afresh for the configured directory.
    Rebuild,
}

/// An update rescans in place when the index is bound to the configured
/// directory (the same directory by `paths_equal`), and rebuilds otherwise,
/// also when the index is bound to no directory.
pub fn index_refresh(active_root: Option<String>, font_root: &str) -> (r: IndexRefresh)
    ensures
        (r == IndexRefresh::UpdateBound) == (active_root is Some && (path_eq(active_root->0@, font_root@)
            || eq_ignore_ascii_case_seq(active_root->0@, font_root@))),
{
    match active_root {
        Some(root) => {
            if paths_equal(root.as_str(), font_root) {
                IndexRefresh::UpdateBound
            } else {
                IndexRefresh::Rebuild
            }
        },
        None => IndexRefresh::Rebuild,
    }
}

/// Why subtitles cannot be loaded against an index in this state, if they cannot.
pub open spec fn load_block_of(inspection: FontIndexInspection) -> Option<Seq<char>> {
    match inspection {
        FontIndexInspection::Ready(_) => None,
        FontIndexInspection::RootMismatch { indexed_root, configured_root } => Some(
            "font index is bound to "@ + indexed_root@ + "; build the index for "@ + configured_root@
                + " before loading subtitles"@,
        ),
        FontIndexInspection::MissingMetadata => Some(
            "font index is missing; build the index before loading subtitles"@,
        ),
        FontIndexInspection::OutdatedSchema { schema_version } => Some(
            "font index schema version "@ + decimal(schema_version as nat)
                + " is outdated; rebuild the index before loading subtitles"@,
        ),
    }
}

/// Subtitles can be loaded only against an index bound to the configured
/// font directory; otherwise the message says what to do first.
pub fn ensure_index_can_load(inspection: &FontIndexInspection) -> (r: Result<(), String>)
    ensures
        match load_block_of(*inspection) {
            None => r is Ok,
            Some(m) => r is Err && r->Err_0@ == m,
        },
{
    match inspection {
        FontIndexInspection::Ready(_) => Ok(()),
        FontIndexInspection::RootMismatch { indexed_root, configured_root } => {
            let mut m = String::new();
            push_str(&mut m, "font index is bound to ");
            push_str(&mut m, indexed_root.as_str());
            push_str(&mut m, "; build the index for ");
            push_str(&mut m, configured_root.as_str());
            push_str(&mut m, " before loading subtitles");
            proof {
                assert(m@ =~= "font index is bound to "@ + indexed_root@ + "; build the index for "@
                    + configured_root@ + " before loading subtitles"@);
            }
            Err(m)
        },
        FontIndexInspection::MissingMetadata => {
            let mut m = String::new();
            push_str(&mut m, "font index is missing; build the index before loading subtitles");
            proof {
                assert(m@ =~= "font index is missing; build the index before loading subtitles"@);
            }
            Err(m)
        },
        FontIndexInspection::OutdatedSchema { schema_version } => Err(outdated_schema_message(*schema_version)),
    }
}

/// The message for an index written in an older layout.
pub fn outdated_schema_message(schema_version: u32) -> (m: String)
    ensures
        m@ == "font index schema version "@ + decimal(schema_version as nat)
            + " is outdated; rebuild the index before loading subtitles"@,
{
    let mut m = String::new();
    push_str(&mut m, "font index schema version ");
    push_decimal(&mut m, schema_version as u64);
    push_str(&mut m, " is outdated; rebuild the index before loading subtitles");
    proof {
        assert(m@ =~= "font index schema version "@ + decimal(schema_version as nat)
            + " is outdated; rebuild the index before loading subtitles"@);
    }
    m
}

/// Two font directories are the same when their paths name the same
/// components, or their texts agree but for ASCII case.
pub fn paths_equal(left: &str, right: &str) -> (r: bool)
    ensures
        r == (path_eq(left@, right@) || eq_ignore_ascii_case_seq(left@, right@)),
{
    let l = chars_of(left);
    let r = chars_of(right);
    path_equal(l.as_slice(), r.as_slice()) || eq_ignore_ascii_case(left, right)
}

/// The required names whose lookup key is among the system fonts' keys.
pub open spec fn is_system_alias(name: Seq<char>, system_keys: Seq<String>) -> bool {
    string_views(system_keys).contains(font_key_of(name))
}

/// The names of `names` that satisfy (`keep`) or fail (`!keep`) the system test.
pub open spec fn names_where(names: Seq<String>, system_keys: Seq<String>, keep: bool) -> Seq<String>
    decreases names.len(),
{
    if names.len() == 0 {
        seq![]
    } else if is_system_alias(names.last()@, system_keys) == keep {
        names_where(names.drop_last(), system_keys, keep).push(names.last())
    } else {
        names_where(names.drop_last(), system_keys, keep)
    }
}

/// Every required name is either left to the system fonts or loaded from
/// the font directory, never both: the system ones are those whose lookup
/// key is a system key.
pub proof fn lemma_split_partition(names: Seq<String>, system_keys: Seq<String>)
    ensures
        names_where(names, system_keys, true).len() + names_where(names, system_keys, false).len() == names.len(),
        forall|i: int| 0 <= i < names_where(names, system_keys, true).len() ==> is_system_alias(
            (#[trigger] names_where(names, system_keys, true)[i])@,
            system_keys,
        ),
        forall|i: int| 0 <= i < names_where(names, system_keys, false).len() ==> !is_system_alias(
            (#[trigger] names_where(names, system_keys, false)[i])@,
            system_keys,
        ),
    decreases names.len(),
{
    if names.len() > 0 {
        lemma_split_partition(names.drop_last(), system_keys);
        let t = names_where(names.drop_last(), system_keys, true);
        let f = names_where(names.drop_last(), system_keys, false);
        if is_system_alias(names.last()@, system_keys) {
            assert forall|i: int| 0 <= i < names_where(names, system_keys, true).len() implies is_system_alias(
                (#[trigger] names_where(names, system_keys, true)[i])@,
                system_keys,
            ) by {
                if i < t.len() {
                    assert(names_where(names, system_keys, true)[i] == t[i]);
                }
            }
        } else {
            assert forall|i: int| 0 <= i < names_where(names, system_keys, false).len() implies !is_system_alias(
                (#[trigger] names_where(names, system_keys, false)[i])@,
                system_keys,
            ) by {
                if i < f.len() {
                    assert(names_where(names, system_keys, false)[i] == f[i]);
                }
            }
        }
    }
}

/// Splits the required font names into those an installed system font
/// already provides (their lookup key is one of `system_keys`) and those to
/// load from the font directory, both in the order given. When system fonts
/// are not to be avoided, every name is loaded from the font directory.
pub fn split_system_aliases(required: &Vec<String>, system_keys: &Vec<String>, avoid_system_fonts: bool) -> (r: (Vec<String>, Vec<String>))
    ensures
        avoid_system_fonts ==> r.0@ == names_where(required@, system_keys@, true),
        avoid_system_fonts ==> r.1@ == names_where(required@, system_keys@, false),
        !avoid_system_fonts ==> r.0@ == Seq::<String>::empty(),
        !avoid_system_fonts ==> r.1@ == required@,
{
    let mut system: Vec<String> = Vec::new();
    let mut local: Vec<String> = Vec::new();
    let mut i: usize = 0;
    proof {
        assert(required@.take(0) =~= Seq::<String>::empty());
    }
    while i < required.len()
        invariant
            i <= required@.len(),
            avoid_system_fonts ==> system@ == names_where(required@.take(i as int), system_keys@, true),
            avoid_system_fonts ==> local@ == names_where(required@.take(i as int), system_keys@, false),
            !avoid_system_fonts ==> system@ == Seq::<String>::empty(),
            !avoid_system_fonts ==> local@ == required@.take(i as int),
        decreases required.len() - i,
    {
        let name = required[i].clone();
        proof {
            assert(required@.take(i + 1).drop_last() =~= required@.take(i as int));
            assert(required@.take(i + 1).last() == required@[i as int]);
            assert(required@.take(i + 1) =~= required@.take(i as int).push(name));
        }
        if avoid_system_fonts {
            let key = normalize_font_name(name.as_str());
            if contains_string(system_keys, &key) {
                system.push(name);
            } else {
                local.push(name);
            }
        } else {
            local.push(name);
        }
        i += 1;
    }
    proof {
        assert(required@.take(required@.len() as int) =~= required@);
    }
    (system, local)
}

} // verus!
