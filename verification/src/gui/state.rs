//! The state of the loader window and how each report of the background
//! thread changes it.

use vstd::prelude::*;

use crate::font::index::ScanSummary;
use crate::gui::config::{font_root_of, join_file_name, join_path, GuiConfig};
use crate::gui::view_model::{render_view, same_load_view, SubtitleLoadView};
use crate::report::bool_text;
use crate::gui::worker::{load_block_of, outdated_schema_message, FontIndexInspection, GuiEvent, GuiTask};
use crate::session::FontSession;
use crate::text::{decimal, push_decimal, push_str};

verus! {

/// The window's state.
#[derive(Debug)]
pub struct AppState {
    pub config: GuiConfig,
    pub config_path: String,
    pub exe_dir: String,
    pub font_root: String,
    pub db_path: String,
    pub index_status: IndexStatus,
    pub load_status: LoadStatus,
    pub last_subtitle_inputs: Vec<String>,
    pub last_view: Option<SubtitleLoadView>,
    pub font_session: Option<FontSession>,
    pub is_busy: bool,
}

/// Where the font index stands.
#[derive(Debug, Clone)]
pub enum IndexStatus {
    Unknown,
    DisabledByConfig,
    Missing,
    Building,
    Ready { font_root: String, scanned_files: usize, indexed_files: usize },
    Updating,
    Failed(String),
}

/// Where the loading of subtitle fonts stands.
#[derive(Debug, Clone)]
pub enum LoadStatus {
    Idle,
    AnalyzingSubtitles,
    ResolvingFonts,
    LoadingFonts,
    Loaded(SubtitleLoadView),
    Failed(String),
}

/// The file name of the font index, next to the executable.
pub open spec fn index_file_name() -> Seq<char> {
    "font_index.redb"@
}

impl AppState {
    /// The state at start-up: the font directory from the configuration, the
    /// index next to the executable, nothing known and nothing loaded yet.
    pub fn new(config: GuiConfig, config_path: String, exe_dir: String) -> (r: Self)
        ensures
            r.config == config,
            r.config_path == config_path,
            r.exe_dir == exe_dir,
            r.font_root@ == font_root_of(config.font_root@, exe_dir@),
            r.db_path@ == join_path(exe_dir@, index_file_name()),
            r.index_status is Unknown,
            r.load_status is Idle,
            r.last_subtitle_inputs@ == Seq::<String>::empty(),
            r.last_view is None,
            r.font_session is Some && r.font_session->0@ == Seq::<(Seq<char>, i32)>::empty(),
            !r.is_busy,
    {
        let font_root = config.resolved_font_root(exe_dir.as_str());
        let db_path = join_file_name(exe_dir.as_str(), "font_index.redb");
        AppState {
            config,
            config_path,
            exe_dir,
            font_root,
            db_path,
            index_status: IndexStatus::Unknown,
            load_status: LoadStatus::Idle,
            last_subtitle_inputs: Vec::new(),
            last_view: None,
            font_session: Some(FontSession::new()),
            is_busy: false,
        }
    }

    /// How many fonts the current session has loaded.
    pub fn loaded_font_count(&self) -> (r: usize)
        ensures
            r == match self.font_session {
                Some(s) => s@.len(),
                None => 0,
            },
    {
        match &self.font_session {
            Some(session) => session.loaded_count(),
            None => 0,
        }
    }
}

/// The text of a literal, as a `String`.
fn text_of(s: &str) -> (r: String)
    ensures
        r@ == s@,
{
    let mut r = String::new();
    push_str(&mut r, s);
    proof {
        assert(Seq::<char>::empty() + s@ =~= s@);
    }
    r
}

pub open spec fn index_status_text(s: IndexStatus) -> Seq<char> {
    match s {
        IndexStatus::Unknown => "Index status: unknown"@,
        IndexStatus::DisabledByConfig => "Index status: startup indexing disabled"@,
        IndexStatus::Missing => "Index status: missing or bound to another font directory"@,
        IndexStatus::Building => "Index status: rebuilding"@,
        IndexStatus::Ready { font_root, scanned_files, indexed_files } => "Index ready: "@ + decimal(
            scanned_files as nat,
        ) + " available file(s), "@ + decimal(indexed_files as nat) + " indexed file(s) under "@
            + font_root@,
        IndexStatus::Updating => "Index status: updating"@,
        IndexStatus::Failed(error) => "Index failed: "@ + error@,
    }
}

/// `s` is the status an inspection gives: ready with what the index holds,
/// missing when there is no index or it is bound elsewhere, failed with the
/// reason when it is outdated.
pub open spec fn shows_inspection(s: IndexStatus, i: FontIndexInspection) -> bool {
    match i {
        FontIndexInspection::Ready(summary) => s == (IndexStatus::Ready {
            font_root: summary.root,
            scanned_files: summary.scanned_files,
            indexed_files: summary.indexed_files,
        }),
        FontIndexInspection::RootMismatch { .. } => s is Missing,
        FontIndexInspection::MissingMetadata => s is Missing,
        FontIndexInspection::OutdatedSchema { .. } => s is Failed && Some(s->Failed_0@) == load_block_of(i),
    }
}

impl IndexStatus {
    /// The index is ready with what a scan found.
    pub fn from_summary(summary: &ScanSummary) -> (r: Self)
        ensures
            r == (IndexStatus::Ready {
                font_root: summary.root,
                scanned_files: summary.scanned_files,
                indexed_files: summary.indexed_files,
            }),
    {
        IndexStatus::Ready {
            font_root: summary.root.clone(),
            scanned_files: summary.scanned_files,
            indexed_files: summary.indexed_files,
        }
    }

    /// The status an inspection of an existing index gives: ready when the
    /// index is bound to the configured directory, missing when there is
    /// none or it is bound elsewhere, and failed, with the reason, when it
    /// is outdated.
    pub fn from_inspection(inspection: FontIndexInspection) -> (r: Self)
        ensures
            shows_inspection(r, inspection),
    {
        match inspection {
            FontIndexInspection::Ready(summary) => IndexStatus::from_summary(&summary),
            FontIndexInspection::RootMismatch { .. } => IndexStatus::Missing,
            FontIndexInspection::MissingMetadata => IndexStatus::Missing,
            FontIndexInspection::OutdatedSchema { schema_version } => IndexStatus::Failed(
                outdated_schema_message(schema_version),
            ),
        }
    }

    pub fn is_ready(&self) -> (r: bool)
        ensures
            r == (*self is Ready),
    {
        match self {
            IndexStatus::Ready { .. } => true,
            _ => false,
        }
    }

    /// One line telling where the index stands.
    pub fn status_text(&self) -> (r: String)
        ensures
            r@ == index_status_text(*self),
    {
        match self {
            IndexStatus::Unknown => text_of("Index status: unknown"),
            IndexStatus::DisabledByConfig => text_of("Index status: startup indexing disabled"),
            IndexStatus::Missing => text_of("Index status: missing or bound to another font directory"),
            IndexStatus::Building => text_of("Index status: rebuilding"),
            IndexStatus::Ready { font_root, scanned_files, indexed_files } => {
                let mut r = String::new();
                push_str(&mut r, "Index ready: ");
                push_decimal(&mut r, *scanned_files as u64);
                push_str(&mut r, " available file(s), ");
                push_decimal(&mut r, *indexed_files as u64);
                push_str(&mut r, " indexed file(s) under ");
                push_str(&mut r, font_root.as_str());
                proof {
                    assert(r@ =~= index_status_text(*self));
                }
                r
            },
            IndexStatus::Updating => text_of("Index status: updating"),
            IndexStatus::Failed(error) => {
                let mut r = String::new();
                push_str(&mut r, "Index failed: ");
                push_str(&mut r, error.as_str());
                proof {
                    assert(r@ =~= index_status_text(*self));
                }
                r
            },
        }
    }
}

pub open spec fn load_status_text(s: LoadStatus) -> Seq<char> {
    match s {
        LoadStatus::Idle => "Load status: idle"@,
        LoadStatus::AnalyzingSubtitles => "Load status: analyzing subtitles"@,
        LoadStatus::ResolvingFonts => "Load status: resolving fonts"@,
        LoadStatus::LoadingFonts => "Load status: loading fonts"@,
        LoadStatus::Loaded(view) => "Load complete: "@ + decimal(view.loaded_local_font_count as nat)
            + " local, "@ + decimal(view.skipped_system_alias_count as nat) + " system skipped, "@
            + decimal(view.missing_alias_count as nat) + " missing, "@ + decimal(
            view.declared_but_unused_alias_count as nat,
        ) + " declared unused"@,
        LoadStatus::Failed(error) => "Load failed: "@ + error@,
    }
}

impl LoadStatus {
    /// One line telling where loading stands.
    pub fn status_text(&self) -> (r: String)
        ensures
            r@ == load_status_text(*self),
    {
        match self {
            LoadStatus::Idle => text_of("Load status: idle"),
            LoadStatus::AnalyzingSubtitles => text_of("Load status: analyzing subtitles"),
            LoadStatus::ResolvingFonts => text_of("Load status: resolving fonts"),
            LoadStatus::LoadingFonts => text_of("Load status: loading fonts"),
            LoadStatus::Loaded(view) => {
                let mut r = String::new();
                push_str(&mut r, "Load complete: ");
                push_decimal(&mut r, view.loaded_local_font_count as u64);
                push_str(&mut r, " local, ");
                push_decimal(&mut r, view.skipped_system_alias_count as u64);
                push_str(&mut r, " system skipped, ");
                push_decimal(&mut r, view.missing_alias_count as u64);
                push_str(&mut r, " missing, ");
                push_decimal(&mut r, view.declared_but_unused_alias_count as u64);
                push_str(&mut r, " declared unused");
                proof {
                    assert(r@ =~= load_status_text(*self));
                }
                r
            },
            LoadStatus::Failed(error) => {
                let mut r = String::new();
                push_str(&mut r, "Load failed: ");
                push_str(&mut r, error.as_str());
                proof {
                    assert(r@ =~= load_status_text(*self));
                }
                r
            },
        }
    }
}

/// What the window does besides changing its state after an event.
pub struct EventEffects {
    /// New text for the report box.
    pub report_text: Option<String>,
    /// A message to show in a dialog.
    pub message: Option<String>,
    /// Subtitles to load next.
    pub auto_load: Option<Vec<String>>,
}

/// What the state keeps through every event: the settings and paths, and
/// the inputs of the last load.
pub open spec fn keeps_settings(a: AppState, b: AppState) -> bool {
    &&& a.config == b.config
    &&& a.config_path == b.config_path
    &&& a.exe_dir == b.exe_dir
    &&& a.font_root == b.font_root
    &&& a.db_path == b.db_path
    &&& a.last_subtitle_inputs == b.last_subtitle_inputs
}

/// The subtitles to load once the index is ready at start-up: those given on
/// the command line, if the configuration asks for it and there are any.
pub open spec fn startup_load(config: GuiConfig, startup_inputs: Option<Vec<String>>) -> Option<Vec<String>> {
    match startup_inputs {
        Some(inputs) => if config.auto_load_startup_subtitles && inputs@.len() > 0 {
            Some(inputs)
        } else {
            None
        },
        None => None,
    }
}

pub open spec fn no_effects(fx: EventEffects) -> bool {
    fx.report_text is None && fx.message is None && fx.auto_load is None
}

impl AppState {
    /// Takes in what the background thread reported. The window is no longer
    /// busy; the statuses, the font session and the last view change as the
    /// event says, and the result tells what to show and what to start next.
    pub fn apply_event(&mut self, event: GuiEvent, startup_inputs: Option<Vec<String>>) -> (fx: EventEffects)
        ensures
            !final(self).is_busy,
            keeps_settings(*final(self), *old(self)),
            match event {
                GuiEvent::IndexReady { summary } => {
                    &&& final(self).index_status == (IndexStatus::Ready {
                        font_root: summary.root,
                        scanned_files: summary.scanned_files,
                        indexed_files: summary.indexed_files,
                    })
                    &&& final(self).load_status is Idle
                    &&& final(self).font_session == old(self).font_session
                    &&& final(self).last_view == old(self).last_view
                    &&& fx.report_text is None && fx.message is None
                    &&& fx.auto_load == startup_load(old(self).config, startup_inputs)
                },
                GuiEvent::IndexFailed { error } => {
                    &&& final(self).index_status == IndexStatus::Failed(error)
                    &&& final(self).load_status == old(self).load_status
                    &&& final(self).font_session == old(self).font_session
                    &&& final(self).last_view == old(self).last_view
                    &&& no_effects(fx)
                },
                GuiEvent::IndexUnavailable { inspection } => {
                    &&& shows_inspection(final(self).index_status, inspection)
                    &&& final(self).load_status == old(self).load_status
                    &&& final(self).font_session == old(self).font_session
                    &&& final(self).last_view == old(self).last_view
                    &&& no_effects(fx)
                },
                GuiEvent::FontRootSwitched { summary, session, unloaded_count } => {
                    &&& final(self).index_status == (IndexStatus::Ready {
                        font_root: summary.root,
                        scanned_files: summary.scanned_files,
                        indexed_files: summary.indexed_files,
                    })
                    &&& final(self).load_status is Idle
                    &&& final(self).font_session == Some(session)
                    &&& final(self).last_view == old(self).last_view
                    &&& fx.report_text is Some && fx.report_text->0@ == "Font directory switched.\r\nUnloaded fonts: "@
                        + decimal(unloaded_count as nat)
                    &&& fx.message is None && fx.auto_load is None
                },
                GuiEvent::FontsLoaded { view, session } => {
                    &&& final(self).index_status == old(self).index_status
                    &&& final(self).load_status == LoadStatus::Loaded(view)
                    &&& final(self).font_session == Some(session)
                    &&& final(self).last_view is Some && same_load_view(final(self).last_view->0, view)
                    &&& fx.report_text is Some && fx.report_text->0@ == render_view(view)
                    &&& fx.message is None && fx.auto_load is None
                },
                GuiEvent::FontsUnloaded { session, unloaded_count } => {
                    &&& final(self).index_status == old(self).index_status
                    &&& final(self).load_status is Idle
                    &&& final(self).font_session == Some(session)
                    &&& final(self).last_view == old(self).last_view
                    &&& fx.report_text is Some && fx.report_text->0@ == "Unloaded fonts: "@ + decimal(
                        unloaded_count as nat,
                    )
                    &&& fx.message is None && fx.auto_load is None
                },
                GuiEvent::Error(error) => {
                    &&& (old(self).index_status is Building || old(self).index_status is Updating)
                        ==> final(self).index_status == IndexStatus::Failed(error)
                    &&& !(old(self).index_status is Building || old(self).index_status is Updating)
                        ==> final(self).index_status == old(self).index_status
                    &&& final(self).load_status == LoadStatus::Failed(error)
                    &&& old(self).font_session is Some ==> final(self).font_session == old(self).font_session
                    &&& old(self).font_session is None ==> final(self).font_session is Some
                        && final(self).font_session->0@ == Seq::<(Seq<char>, i32)>::empty()
                    &&& final(self).last_view == old(self).last_view
                    &&& fx.message == Some(error)
                    &&& fx.report_text is None && fx.auto_load is None
                },
            },
    {
        self.is_busy = false;
        match event {
            GuiEvent::IndexReady { summary } => {
                self.index_status = IndexStatus::from_summary(&summary);
                self.load_status = LoadStatus::Idle;
                let auto_load = match startup_inputs {
                    Some(inputs) => if self.config.auto_load_startup_subtitles && inputs.len() > 0 {
                        Some(inputs)
                    } else {
                        None
                    },
                    None => None,
                };
                EventEffects { report_text: None, message: None, auto_load }
            },
            GuiEvent::IndexFailed { error } => {
                self.index_status = IndexStatus::Failed(error);
                EventEffects { report_text: None, message: None, auto_load: None }
            },
            GuiEvent::IndexUnavailable { inspection } => {
                self.index_status = IndexStatus::from_inspection(inspection);
                EventEffects { report_text: None, message: None, auto_load: None }
            },
            GuiEvent::FontRootSwitched { summary, session, unloaded_count } => {
                self.font_session = Some(session);
                self.index_status = IndexStatus::from_summary(&summary);
                self.load_status = LoadStatus::Idle;
                let mut text = String::new();
                push_str(&mut text, "Font directory switched.\r\nUnloaded fonts: ");
                push_decimal(&mut text, unloaded_count as u64);
                proof {
                    assert(text@ =~= "Font directory switched.\r\nUnloaded fonts: "@ + decimal(
                        unloaded_count as nat,
                    ));
                }
                EventEffects { report_text: Some(text), message: None, auto_load: None }
            },
            GuiEvent::FontsLoaded { view, session } => {
                let rendered = view.render_text();
                self.font_session = Some(session);
                self.last_view = Some(view.copy());
                self.load_status = LoadStatus::Loaded(view);
                EventEffects { report_text: Some(rendered), message: None, auto_load: None }
            },
            GuiEvent::FontsUnloaded { session, unloaded_count } => {
                self.font_session = Some(session);
                self.load_status = LoadStatus::Idle;
                let mut text = String::new();
                push_str(&mut text, "Unloaded fonts: ");
                push_decimal(&mut text, unloaded_count as u64);
                proof {
                    assert(text@ =~= "Unloaded fonts: "@ + decimal(unloaded_count as nat));
                }
                EventEffects { report_text: Some(text), message: None, auto_load: None }
            },
            GuiEvent::Error(error) => {
                let rebuilding = match self.index_status {
                    IndexStatus::Building => true,
                    IndexStatus::Updating => true,
                    _ => false,
                };
                if rebuilding {
                    self.index_status = IndexStatus::Failed(error.clone());
                }
                self.load_status = LoadStatus::Failed(error.clone());
                if self.font_session.is_none() {
                    self.font_session = Some(FontSession::new());
                }
                EventEffects { report_text: None, message: Some(error), auto_load: None }
            },
        }
    }

    /// Subtitles given at start-up are loaded at once when the configuration
    /// asks for it, the index is ready and there are any.
    pub fn should_auto_load_startup(&self, startup_inputs: &Vec<String>) -> (r: bool)
        ensures
            r == (self.config.auto_load_startup_subtitles && self.index_status is Ready
                && startup_inputs@.len() > 0),
    {
        self.config.auto_load_startup_subtitles && self.index_status.is_ready()
            && startup_inputs.len() > 0
    }

    /// The task that makes sure, at start-up, that the index is bound to the
    /// font directory.
    pub fn startup_index_task(&self) -> (t: GuiTask)
        ensures
            t == (GuiTask::EnsureIndexOnStartup { font_root: self.font_root, db_path: self.db_path }),
    {
        GuiTask::EnsureIndexOnStartup { font_root: self.font_root.clone(), db_path: self.db_path.clone() }
    }

    /// The task that brings the index up to date with the font directory.
    pub fn update_task(&self) -> (t: GuiTask)
        ensures
            t == (GuiTask::UpdateIndex { font_root: self.font_root, db_path: self.db_path }),
    {
        GuiTask::UpdateIndex { font_root: self.font_root.clone(), db_path: self.db_path.clone() }
    }

    /// Whether fonts of a subtitle load are loaded now: the session holds at
    /// least one font. While they are, the load button unloads them.
    pub fn has_active_load(&self) -> (r: bool)
        ensures
            r == (match self.font_session {
                Some(s) => s@.len() > 0,
                None => false,
            }),
    {
        self.loaded_font_count() > 0
    }

    /// Files dropped on the window are taken only when nothing is running and
    /// no fonts of an earlier load are loaded.
    pub fn accepts_dropped_files(&self) -> (r: bool)
        ensures
            r == (!self.is_busy && !(match self.font_session {
                Some(s) => s@.len() > 0,
                None => false,
            })),
    {
        !self.is_busy && !self.has_active_load()
    }

    /// Starts unloading the loaded fonts, unless something is running or
    /// nothing is loaded (then nothing changes and there is no task). The
    /// session goes to the task, the window is busy and the load status idle.
    pub fn begin_unload(&mut self) -> (t: Option<GuiTask>)
        ensures
            (old(self).is_busy || !(match old(self).font_session {
                Some(s) => s@.len() > 0,
                None => false,
            })) ==> t is None && *final(self) == *old(self),
            !(old(self).is_busy || !(match old(self).font_session {
                Some(s) => s@.len() > 0,
                None => false,
            })) ==> {
                &&& final(self).is_busy
                &&& final(self).load_status is Idle
                &&& final(self).font_session is None
                &&& keeps_settings(*final(self), *old(self))
                &&& final(self).index_status == old(self).index_status
                &&& final(self).last_view == old(self).last_view
                &&& final(self).last_subtitle_inputs == old(self).last_subtitle_inputs
                &&& t matches Some(GuiTask::UnloadFonts { session }) && old(self).font_session == Some(session)
            },
    {
        if self.is_busy || !self.has_active_load() {
            return None;
        }
        self.is_busy = true;
        self.load_status = LoadStatus::Idle;
        match self.font_session.take() {
            Some(session) => Some(GuiTask::UnloadFonts { session }),
            None => Some(GuiTask::UnloadFonts { session: FontSession::new() }),
        }
    }

    /// Marks the start of an index task: the index status shows what the
    /// task does, and the window is busy until the task reports back.
    pub fn begin_index_task(&mut self, status: IndexStatus)
        ensures
            final(self).index_status == status,
            final(self).is_busy,
            keeps_settings(*final(self), *old(self)),
            final(self).load_status == old(self).load_status,
            final(self).font_session == old(self).font_session,
            final(self).last_view == old(self).last_view,
    {
        self.index_status = status;
        self.is_busy = true;
    }

    /// Points the window, and its configuration, at another font directory
    /// (the configuration is saved before the switch begins).
    pub fn set_font_root(&mut self, new_root: String)
        ensures
            final(self).font_root == new_root,
            final(self).config.font_root == new_root,
            final(self).config.auto_index_on_startup == old(self).config.auto_index_on_startup,
            final(self).config.auto_load_startup_subtitles == old(self).config.auto_load_startup_subtitles,
            final(self).config.avoid_system_fonts == old(self).config.avoid_system_fonts,
            final(self).config_path == old(self).config_path,
            final(self).exe_dir == old(self).exe_dir,
            final(self).db_path == old(self).db_path,
            final(self).index_status == old(self).index_status,
            final(self).load_status == old(self).load_status,
            final(self).font_session == old(self).font_session,
            final(self).last_view == old(self).last_view,
            final(self).last_subtitle_inputs == old(self).last_subtitle_inputs,
            final(self).is_busy == old(self).is_busy,
    {
        self.config.font_root = new_root.clone();
        self.font_root = new_root;
    }

    /// Starts switching to the font directory already set: the last load is
    /// forgotten, the index is rebuilt, and the current session is handed to
    /// the task (which unloads its fonts) in exchange for none.
    pub fn begin_font_root_switch(&mut self) -> (t: GuiTask)
        ensures
            final(self).last_view is None,
            final(self).last_subtitle_inputs@ == Seq::<String>::empty(),
            final(self).index_status is Building,
            final(self).load_status is Idle,
            final(self).is_busy,
            final(self).font_session is None,
            final(self).config == old(self).config,
            final(self).font_root == old(self).font_root,
            final(self).db_path == old(self).db_path,
            match t {
                GuiTask::SwitchFontRoot { old_session, font_root, db_path } => {
                    &&& font_root == old(self).font_root
                    &&& db_path == old(self).db_path
                    &&& old(self).font_session matches Some(s) ==> old_session == s
                    &&& old(self).font_session is None ==> old_session@ == Seq::<(Seq<char>, i32)>::empty()
                },
                _ => false,
            },
    {
        self.last_view = None;
        self.last_subtitle_inputs = Vec::new();
        self.index_status = IndexStatus::Building;
        self.load_status = LoadStatus::Idle;
        self.is_busy = true;
        let old_session = match self.font_session.take() {
            Some(session) => session,
            None => FontSession::new(),
        };
        GuiTask::SwitchFontRoot {
            old_session,
            font_root: self.font_root.clone(),
            db_path: self.db_path.clone(),
        }
    }

    /// The status panel: the index and load statuses, the session's font
    /// count, the executable's directory and the automatic steps configured.
    pub fn status_panel_text(&self) -> (r: String)
        ensures
            r@ == index_status_text(self.index_status) + "\r\n"@ + load_status_text(self.load_status)
                + "\r\nLoaded session fonts: "@ + decimal(
                match self.font_session {
                    Some(s) => s@.len(),
                    None => 0,
                },
            ) + "\r\nExecutable directory: "@ + self.exe_dir@ + "\r\nConfig: auto_index_on_startup="@
                + bool_text(self.config.auto_index_on_startup) + ", auto_load_startup_subtitles="@
                + bool_text(self.config.auto_load_startup_subtitles) + ", avoid_system_fonts="@
                + bool_text(self.config.avoid_system_fonts),
    {
        let mut r = String::new();
        let index = self.index_status.status_text();
        push_str(&mut r, index.as_str());
        push_str(&mut r, "\r\n");
        let load = self.load_status.status_text();
        push_str(&mut r, load.as_str());
        push_str(&mut r, "\r\nLoaded session fonts: ");
        push_decimal(&mut r, self.loaded_font_count() as u64);
        push_str(&mut r, "\r\nExecutable directory: ");
        push_str(&mut r, self.exe_dir.as_str());
        push_str(&mut r, "\r\nConfig: auto_index_on_startup=");
        push_bool(&mut r, self.config.auto_index_on_startup);
        push_str(&mut r, ", auto_load_startup_subtitles=");
        push_bool(&mut r, self.config.auto_load_startup_subtitles);
        push_str(&mut r, ", avoid_system_fonts=");
        push_bool(&mut r, self.config.avoid_system_fonts);
        r
    }
}

fn push_bool(r: &mut String, b: bool)
    ensures
        final(r)@ == old(r)@ + bool_text(b),
{
    if b {
        push_str(r, "true");
    } else {
        push_str(r, "false");
    }
}

} // verus!
