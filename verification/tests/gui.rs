use sub_font_loader::font::index::{font_match_from_row, resolve_required_fonts, FontMatch, ScanSummary};
use sub_font_loader::font::names::{FontAlias, FontFaceAnalysis, FontFileAnalysis};
use sub_font_loader::gui::config::{join_file_name, GuiConfig};
use sub_font_loader::gui::state::{AppState, IndexStatus, LoadStatus};
use sub_font_loader::gui::system_fonts::add_alias_keys;
use sub_font_loader::gui::view_model::SubtitleLoadView;
use sub_font_loader::gui::worker::{
    ensure_index_can_load, failure_event, index_refresh, paths_equal, split_system_aliases,
    startup_event, startup_step, FontIndexInspection, GuiEvent, GuiTask, IndexRefresh, StartupStep,
};
use sub_font_loader::input::InputSource;
use sub_font_loader::cli::Cli;
use sub_font_loader::session::FontSession;

fn summary(root: &str, scanned: usize, indexed: usize) -> ScanSummary {
    ScanSummary {
        root: root.to_string(),
        scanned_files: scanned,
        indexed_files: indexed,
        skipped_unchanged_files: 0,
        failed_files: 0,
        unavailable_files: 0,
    }
}

fn config(font_root: &str) -> GuiConfig {
    GuiConfig {
        font_root: font_root.to_string(),
        auto_index_on_startup: true,
        auto_load_startup_subtitles: true,
        avoid_system_fonts: true,
    }
}

#[test]
fn default_config_switches_everything_on() {
    let c = GuiConfig::default();
    assert_eq!(c.font_root, "");
    assert!(c.auto_index_on_startup && c.auto_load_startup_subtitles && c.avoid_system_fonts);
}

#[test]
fn font_root_falls_back_to_the_executable_directory() {
    assert_eq!(config("  D:\\Fonts \t").resolved_font_root("C:\\app"), "D:\\Fonts");
    assert_eq!(config("   ").resolved_font_root("C:\\app"), "C:\\app");
    assert_eq!(config("").resolved_font_root(""), "");
}

#[test]
fn file_names_join_like_windows_paths() {
    assert_eq!(join_file_name("C:\\app", "font_index.redb"), "C:\\app\\font_index.redb");
    assert_eq!(join_file_name("C:\\app\\", "x"), "C:\\app\\x");
    assert_eq!(join_file_name("C:/app/", "x"), "C:/app/x");
    assert_eq!(join_file_name("C:", "x"), "C:x");
    assert_eq!(join_file_name("", "x"), "x");
}

#[test]
fn new_state_starts_idle() {
    let state = AppState::new(config(""), "C:\\app\\config.toml".to_string(), "C:\\app".to_string());
    assert_eq!(state.font_root, "C:\\app");
    assert_eq!(state.db_path, "C:\\app\\font_index.redb");
    assert!(matches!(state.index_status, IndexStatus::Unknown));
    assert!(matches!(state.load_status, LoadStatus::Idle));
    assert_eq!(state.loaded_font_count(), 0);
    assert!(state.last_view.is_none());
    assert!(!state.is_busy);
}

#[test]
fn index_status_texts() {
    assert_eq!(IndexStatus::Unknown.status_text(), "Index status: unknown");
    assert_eq!(IndexStatus::DisabledByConfig.status_text(), "Index status: startup indexing disabled");
    assert_eq!(
        IndexStatus::Missing.status_text(),
        "Index status: missing or bound to another font directory"
    );
    assert_eq!(IndexStatus::Building.status_text(), "Index status: rebuilding");
    assert_eq!(IndexStatus::Updating.status_text(), "Index status: updating");
    assert_eq!(IndexStatus::Failed("boom".to_string()).status_text(), "Index failed: boom");
    let ready = IndexStatus::from_summary(&summary("D:\\Fonts", 12, 10));
    assert!(ready.is_ready());
    assert!(!IndexStatus::Building.is_ready());
    assert_eq!(
        ready.status_text(),
        "Index ready: 12 available file(s), 10 indexed file(s) under D:\\Fonts"
    );
}

#[test]
fn inspections_give_statuses_and_load_blocks() {
    let ready = FontIndexInspection::Ready(summary("D:\\Fonts", 1, 1));
    assert!(ensure_index_can_load(&ready).is_ok());
    assert!(IndexStatus::from_inspection(ready).is_ready());
    let mismatch = FontIndexInspection::RootMismatch {
        indexed_root: "D:\\Old".to_string(),
        configured_root: "D:\\New".to_string(),
    };
    assert_eq!(
        ensure_index_can_load(&mismatch),
        Err("font index is bound to D:\\Old; build the index for D:\\New before loading subtitles".to_string())
    );
    assert!(matches!(IndexStatus::from_inspection(mismatch), IndexStatus::Missing));
    assert_eq!(
        ensure_index_can_load(&FontIndexInspection::MissingMetadata),
        Err("font index is missing; build the index before loading subtitles".to_string())
    );
    let outdated = FontIndexInspection::OutdatedSchema { schema_version: 3 };
    assert_eq!(
        ensure_index_can_load(&outdated),
        Err("font index schema version 3 is outdated; rebuild the index before loading subtitles".to_string())
    );
    assert_eq!(
        IndexStatus::from_inspection(outdated).status_text(),
        "Index failed: font index schema version 3 is outdated; rebuild the index before loading subtitles"
    );
}

#[test]
fn directories_compare_by_components_or_ascii_case() {
    assert!(paths_equal("D:\\Fonts", "d:\\fonts"));
    assert!(paths_equal("D:\\Fonts\\A", "D:/Fonts/A"));
    assert!(!paths_equal("D:\\Fonts", "D:\\Fonts2"));
}

#[test]
fn system_aliases_are_split_off_when_avoided() {
    let required = vec!["Arial".to_string(), "Noto Sans".to_string(), "@SimSun".to_string()];
    let keys = vec!["arial".to_string(), "simsun".to_string()];
    let (system, local) = split_system_aliases(&required, &keys, true);
    assert_eq!(system, vec!["Arial", "@SimSun"]);
    assert_eq!(local, vec!["Noto Sans"]);
    let (system, local) = split_system_aliases(&required, &keys, false);
    assert!(system.is_empty());
    assert_eq!(local, required);
}

#[test]
fn system_alias_keys_are_collected_once() {
    let analysis = FontFileAnalysis {
        path: "C:\\Windows\\Fonts\\arial.ttf".to_string(),
        faces: vec![FontFaceAnalysis {
            face_index: 0,
            family_name: Some("Arial".to_string()),
            subfamily_name: None,
            full_name: None,
            postscript_name: None,
            weight_class: Some(400),
            is_italic: false,
            aliases: vec![
                FontAlias { name_id: 1, platform_id: "Windows".to_string(), encoding_id: 1, language_id: 1033, value: "Arial".to_string() },
                FontAlias { name_id: 4, platform_id: "Windows".to_string(), encoding_id: 1, language_id: 1033, value: "ARIAL".to_string() },
                FontAlias { name_id: 6, platform_id: "Windows".to_string(), encoding_id: 1, language_id: 1033, value: "@".to_string() },
                FontAlias { name_id: 6, platform_id: "Windows".to_string(), encoding_id: 1, language_id: 1033, value: "ArialMT".to_string() },
            ],
        }],
    };
    let mut keys = vec!["tahoma".to_string()];
    add_alias_keys(&mut keys, &analysis);
    assert_eq!(keys, vec!["tahoma", "arial", "arialmt"]);
}

#[test]
fn failures_are_reported_by_kind_of_task() {
    let index_task = GuiTask::UpdateIndex { font_root: "a".to_string(), db_path: "b".to_string() };
    let unload_task = GuiTask::UnloadFonts { session: FontSession::new() };
    assert!(index_task.is_index_task());
    assert!(!unload_task.is_index_task());
    assert!(matches!(failure_event(true, "x".to_string()), GuiEvent::IndexFailed { error } if error == "x"));
    assert!(matches!(failure_event(false, "y".to_string()), GuiEvent::Error(e) if e == "y"));
}

fn font_match(name: &str, alias: &str, kind: &str, path: &str, face: i64) -> FontMatch {
    font_match_from_row(
        name.to_string(),
        alias.to_string(),
        kind.to_string(),
        path.to_string(),
        path.to_string(),
        face,
        (None, None, None, None),
        None,
        0,
    )
}

fn sample_view() -> SubtitleLoadView {
    let report = resolve_required_fonts(vec![
        ("Zeta".to_string(), vec![font_match("Zeta", "zeta", "family", "F:\\b.ttf", 0)]),
        ("Alpha".to_string(), vec![
            font_match("Alpha", "alpha", "full_name", "F:\\b.ttf", 1),
            font_match("Alpha", "alpha", "family", "F:\\a.ttc", 2),
        ]),
        ("Missing One".to_string(), vec![]),
    ]);
    let mut session = FontSession::new();
    let load = session.load_fonts(vec![("F:\\a.ttc".to_string(), 1), ("F:\\b.ttf".to_string(), 0)]);
    SubtitleLoadView::from_resolve_report(
        2,
        5,
        vec!["Unused Font".to_string()],
        vec!["Arial".to_string(), "SimSun".to_string()],
        report,
        &load,
    )
}

#[test]
fn load_view_groups_matches_by_file() {
    let view = sample_view();
    assert_eq!(view.subtitle_count, 2);
    assert_eq!(view.required_alias_count, 5);
    assert_eq!(view.skipped_system_alias_count, 2);
    assert_eq!(view.missing_alias_count, 1);
    assert_eq!(view.declared_but_unused_alias_count, 1);
    assert_eq!(view.loaded_local_font_count, 1);
    let paths: Vec<&str> = view.local_groups.iter().map(|g| g.font_path.as_str()).collect();
    assert_eq!(paths, vec!["F:\\a.ttc", "F:\\b.ttf"]);
    assert!(view.local_groups[0].loaded);
    assert_eq!(view.local_groups[0].load_error, None);
    assert!(!view.local_groups[1].loaded);
    assert_eq!(
        view.local_groups[1].load_error.as_deref(),
        Some("failed to add font resource: F:\\b.ttf")
    );
    let names: Vec<&str> =
        view.local_groups[1].aliases.iter().map(|a| a.requested_name.as_str()).collect();
    assert_eq!(names, vec!["Alpha", "Zeta"]);
    assert_eq!(view.missing_aliases, vec!["Missing One"]);
}

#[test]
fn load_view_renders_as_text() {
    let text = sample_view().render_text();
    let expected = [
        "Loaded local fonts: 1",
        "Skipped system fonts: 2",
        "Missing fonts: 1",
        "Subtitle files: 2",
        "Required aliases: 5",
        "",
        "[LOCAL LOADED] F:\\a.ttc",
        "  - Requested: Alpha",
        "    Matched alias: alpha",
        "    Alias kind: family",
        "    Face index: 2",
        "",
        "[LOCAL LOAD FAILED] F:\\b.ttf",
        "  Error: failed to add font resource: F:\\b.ttf",
        "  - Requested: Alpha",
        "    Matched alias: alpha",
        "    Alias kind: full_name",
        "    Face index: 1",
        "  - Requested: Zeta",
        "    Matched alias: zeta",
        "    Alias kind: family",
        "    Face index: 0",
        "",
        "[SYSTEM SKIPPED]",
        "  - Arial",
        "  - SimSun",
        "",
        "[MISSING]",
        "  - Missing One",
        "",
    ]
    .join("\n");
    assert_eq!(text, expected);
}

#[test]
fn load_status_texts() {
    assert_eq!(LoadStatus::Idle.status_text(), "Load status: idle");
    assert_eq!(LoadStatus::AnalyzingSubtitles.status_text(), "Load status: analyzing subtitles");
    assert_eq!(LoadStatus::ResolvingFonts.status_text(), "Load status: resolving fonts");
    assert_eq!(LoadStatus::LoadingFonts.status_text(), "Load status: loading fonts");
    assert_eq!(LoadStatus::Failed("nope".to_string()).status_text(), "Load failed: nope");
    assert_eq!(
        LoadStatus::Loaded(sample_view()).status_text(),
        "Load complete: 1 local, 2 system skipped, 1 missing, 1 declared unused"
    );
}

#[test]
fn events_update_the_state() {
    let mut state = AppState::new(config(""), "cfg".to_string(), "C:\\app".to_string());
    state.is_busy = true;
    let fx = state.apply_event(
        GuiEvent::IndexReady { summary: summary("C:\\app", 3, 2) },
        Some(vec!["ep1.ass".to_string()]),
    );
    assert!(!state.is_busy);
    assert!(state.index_status.is_ready());
    assert_eq!(fx.auto_load, Some(vec!["ep1.ass".to_string()]));
    assert!(fx.report_text.is_none() && fx.message.is_none());

    let fx = state.apply_event(GuiEvent::IndexReady { summary: summary("C:\\app", 3, 2) }, Some(vec![]));
    assert_eq!(fx.auto_load, None);

    let mut session = FontSession::new();
    session.load_fonts(vec![("F:\\a.ttc".to_string(), 1)]);
    let fx = state.apply_event(GuiEvent::FontsLoaded { view: sample_view(), session }, None);
    assert_eq!(state.loaded_font_count(), 1);
    assert_eq!(fx.report_text, Some(sample_view().render_text()));
    assert!(matches!(state.load_status, LoadStatus::Loaded(_)));
    assert_eq!(state.last_view.as_ref().map(|v| v.render_text()), Some(sample_view().render_text()));

    let fx = state.apply_event(GuiEvent::FontsUnloaded { session: FontSession::new(), unloaded_count: 1 }, None);
    assert_eq!(fx.report_text.as_deref(), Some("Unloaded fonts: 1"));
    assert!(matches!(state.load_status, LoadStatus::Idle));

    state.index_status = IndexStatus::Updating;
    state.font_session = None;
    let fx = state.apply_event(GuiEvent::Error("disk full".to_string()), None);
    assert_eq!(fx.message.as_deref(), Some("disk full"));
    assert_eq!(state.index_status.status_text(), "Index failed: disk full");
    assert_eq!(state.load_status.status_text(), "Load failed: disk full");
    assert_eq!(state.loaded_font_count(), 0);
    assert!(state.font_session.is_some());

    let fx = state.apply_event(
        GuiEvent::FontRootSwitched { summary: summary("E:\\F", 0, 0), session: FontSession::new(), unloaded_count: 4 },
        None,
    );
    assert_eq!(fx.report_text.as_deref(), Some("Font directory switched.\r\nUnloaded fonts: 4"));

    state.apply_event(GuiEvent::IndexFailed { error: "bad".to_string() }, None);
    assert_eq!(state.index_status.status_text(), "Index failed: bad");
    state.apply_event(GuiEvent::IndexUnavailable { inspection: FontIndexInspection::MissingMetadata }, None);
    assert!(matches!(state.index_status, IndexStatus::Missing));
}

#[test]
fn status_panel_lists_state_and_settings() {
    let state = AppState::new(config(""), "cfg".to_string(), "C:\\app".to_string());
    assert_eq!(
        state.status_panel_text(),
        "Index status: unknown\r\nLoad status: idle\r\nLoaded session fonts: 0\r\nExecutable directory: C:\\app\r\nConfig: auto_index_on_startup=true, auto_load_startup_subtitles=true, avoid_system_fonts=true"
    );
}

#[test]
fn input_sources_and_options() {
    assert_eq!(InputSource::Directory.as_str(), "directory");
    assert_eq!(InputSource::Archive.as_str(), "archive");
    let cli = Cli { input: None, no_recursive: false, no_hold: true, keep_extracted: false, json: true };
    assert_eq!(cli.input_path(), ".");
    let cli = Cli { input: Some("fonts.zip".to_string()), ..cli };
    assert_eq!(cli.input_path(), "fonts.zip");
}

#[test]
fn startup_decisions_and_tasks() {
    let mut state = AppState::new(config(""), "cfg".to_string(), "C:\\app".to_string());
    let inputs = vec!["ep1.ass".to_string()];
    assert!(!state.should_auto_load_startup(&inputs));
    state.index_status = IndexStatus::from_summary(&summary("C:\\app", 1, 1));
    assert!(state.should_auto_load_startup(&inputs));
    assert!(!state.should_auto_load_startup(&Vec::new()));
    state.config.auto_load_startup_subtitles = false;
    assert!(!state.should_auto_load_startup(&inputs));
    assert!(matches!(
        state.startup_index_task(),
        GuiTask::EnsureIndexOnStartup { font_root, db_path }
            if font_root == "C:\\app" && db_path == "C:\\app\\font_index.redb"
    ));
    assert!(matches!(
        state.update_task(),
        GuiTask::UpdateIndex { font_root, .. } if font_root == "C:\\app"
    ));
}

#[test]
fn switching_the_font_directory() {
    let mut state = AppState::new(config(""), "cfg".to_string(), "C:\\app".to_string());
    state.begin_index_task(IndexStatus::Updating);
    assert!(state.is_busy);
    assert_eq!(state.index_status.status_text(), "Index status: updating");
    state.is_busy = false;
    state.set_font_root("D:\\Fonts".to_string());
    assert_eq!(state.font_root, "D:\\Fonts");
    assert_eq!(state.config.font_root, "D:\\Fonts");
    state.last_subtitle_inputs = vec!["a.ass".to_string()];
    let task = state.begin_font_root_switch();
    assert!(state.is_busy);
    assert!(state.font_session.is_none());
    assert!(state.last_subtitle_inputs.is_empty());
    assert!(matches!(state.index_status, IndexStatus::Building));
    assert!(matches!(
        task,
        GuiTask::SwitchFontRoot { font_root, db_path, .. }
            if font_root == "D:\\Fonts" && db_path == "C:\\app\\font_index.redb"
    ));
    assert!(state.begin_font_root_switch().is_index_task());
}

#[test]
fn startup_step_uses_rebuilds_or_reports_the_index() {
    match startup_step(FontIndexInspection::Ready(summary("C:\\Fonts", 3, 3))) {
        StartupStep::Ready(s) => assert_eq!(s.scanned_files, 3),
        other => panic!("unexpected {other:?}"),
    }
    assert!(matches!(startup_step(FontIndexInspection::MissingMetadata), StartupStep::Rebuild));
    assert!(matches!(
        startup_step(FontIndexInspection::RootMismatch {
            indexed_root: "C:\\Old".to_string(),
            configured_root: "C:\\New".to_string(),
        }),
        StartupStep::Rebuild
    ));
    assert!(matches!(
        startup_step(FontIndexInspection::OutdatedSchema { schema_version: 2 }),
        StartupStep::Unavailable(FontIndexInspection::OutdatedSchema { schema_version: 2 })
    ));
}

#[test]
fn startup_event_reports_ready_or_unavailable_index() {
    assert!(matches!(
        startup_event(FontIndexInspection::Ready(summary("D:\\Fonts", 1, 1))),
        GuiEvent::IndexReady { .. }
    ));
    assert!(matches!(
        startup_event(FontIndexInspection::OutdatedSchema { schema_version: 1 }),
        GuiEvent::IndexUnavailable { inspection: FontIndexInspection::OutdatedSchema { schema_version: 1 } }
    ));
}

#[test]
fn index_refresh_updates_in_place_only_for_the_bound_directory() {
    assert_eq!(index_refresh(Some("C:\\Fonts".to_string()), "c:\\fonts"), IndexRefresh::UpdateBound);
    assert_eq!(index_refresh(Some("C:\\Fonts".to_string()), "C:/Fonts"), IndexRefresh::UpdateBound);
    assert_eq!(index_refresh(Some("C:\\Other".to_string()), "C:\\Fonts"), IndexRefresh::Rebuild);
    assert_eq!(index_refresh(None, "C:\\Fonts"), IndexRefresh::Rebuild);
}

#[test]
fn paths_equal_ignores_repeated_trailing_and_dot_separators() {
    assert!(paths_equal("C:\\Fonts\\", "C:\\Fonts"));
    assert!(paths_equal("C:\\Fonts\\\\A", "C:/Fonts/A"));
    assert!(paths_equal("C:\\Fonts\\.\\A", "C:\\Fonts\\A"));
    assert!(!paths_equal("\\Fonts", "Fonts"));
    assert!(!paths_equal("C:\\Fonts\\..\\A", "C:\\A"));
}

#[test]
fn drops_and_the_load_button_follow_the_session() {
    let mut state = AppState::new(config(""), "cfg".to_string(), "C:\\app".to_string());
    assert!(!state.has_active_load());
    assert!(state.accepts_dropped_files());
    assert!(state.begin_unload().is_none());
    assert!(!state.is_busy);

    let mut session = FontSession::new();
    session.load_fonts(vec![("C:\\f\\a.ttf".to_string(), 1)]);
    state.font_session = Some(session);
    assert!(state.has_active_load());
    assert!(!state.accepts_dropped_files());

    state.is_busy = true;
    assert!(state.begin_unload().is_none());
    state.is_busy = false;

    match state.begin_unload() {
        Some(GuiTask::UnloadFonts { session }) => assert_eq!(session.loaded_count(), 1),
        other => panic!("unexpected {other:?}"),
    }
    assert!(state.is_busy);
    assert!(state.font_session.is_none());
    assert!(matches!(state.load_status, LoadStatus::Idle));
    assert!(!state.accepts_dropped_files());
}
