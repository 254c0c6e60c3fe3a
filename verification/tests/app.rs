use valheim_mods_tui::app::{ago, Action, App, InstallRun, Key, KeyPress, Modal, Msg};
use valheim_mods_tui::config::Layout;
use valheim_mods_tui::thunderstore::Mod;
use valheim_mods_tui::view::{help_lines, Detail, Piece, CONFIRM_TITLE, HELP_TITLE, LOADING_NOTE};

fn piece_text(p: &Piece) -> String {
    match p {
        Piece::Text { text, .. } => text.clone(),
        Piece::Downloads { count, .. } => format!("{count} ↓"),
        Piece::Size { bytes, .. } => format!("{} KB", bytes / 1024),
    }
}

fn line_text(line: &[Piece]) -> String {
    line.iter().map(piece_text).collect()
}

/// Everything the screen would show, top to bottom, as plain text.
fn screen(app: &App) -> String {
    let mut out = vec![line_text(&app.header())];
    if app.loading {
        out.push(LOADING_NOTE.to_string());
    } else {
        out.extend(app.list_lines().iter().map(|l| line_text(l)));
    }
    match app.detail() {
        Detail::Note(s) => out.push(s),
        Detail::Lines(ls) => out.extend(ls.iter().map(|l| line_text(l))),
    }
    out.push(line_text(&app.status_line()));
    out.push(line_text(&app.keys_line()));
    match &app.modal {
        Modal::Help => {
            out.push(HELP_TITLE.to_string());
            out.extend(help_lines().iter().map(|l| line_text(l)));
        }
        Modal::Confirm { plan, missing } => {
            out.push(CONFIRM_TITLE.to_string());
            out.extend(app.confirm_lines(plan, missing, false).iter().map(|l| line_text(l)));
        }
        Modal::Closed => {}
    }
    out.join("\n")
}

fn m(full_name: &str, deps: &[&str], downloads: u64) -> Mod {
    let (owner, name) = full_name.split_once('-').unwrap();
    Mod {
        full_name: full_name.into(),
        name: name.into(),
        owner: owner.into(),
        description: format!("{name} does a thing"),
        version: "1.0.0".into(),
        download_url: String::new(),
        package_url: String::new(),
        downloads,
        rating: 10,
        file_size: 2048,
        date_updated: "2026-09-12T00:00:00Z".into(),
        categories: vec!["Mods".into()],
        dependencies: deps.iter().map(|d| format!("{d}-1.0.0")).collect(),
        deprecated: false,
    }
}

fn app() -> App {
    let mut app = App::blank(None, "unset".into());
    app.handle_msg(
        Msg::Catalog(Ok(vec![
            m("Dev-Torchless", &["Dev-Corelib"], 900),
            m("Dev-Corelib", &[], 500),
            m("Dev-Bigpack", &["Dev-Corelib", "Dev-Ghost"], 100),
        ])),
        None,
    );
    app
}

fn key(code: Key) -> KeyPress {
    KeyPress { code, ctrl: false }
}

fn name_at(app: &App, row: usize) -> String {
    app.index.get(app.rows[row].mod_idx.unwrap()).full_name.clone()
}

#[test]
fn the_list_renders_mods_sorted_by_downloads() {
    let app = app();
    let out = screen(&app);
    assert!(out.contains("Torchless"), "mod names must be listed:\n{out}");
    assert!(out.contains("Valheim 1.0 Mods"));
    assert!(out.contains("3 mods"));
    let torch = out.find("Torchless").unwrap();
    let core = out.find("Corelib").unwrap();
    assert!(torch < core, "higher-download mods sort first");
}

#[test]
fn arrow_keys_and_hjkl_move_the_same_cursor() {
    let mut app = app();
    assert_eq!(app.cursor, 0);
    app.on_key(key(Key::Char('j')));
    assert_eq!(app.cursor, 1);
    app.on_key(key(Key::Down));
    assert_eq!(app.cursor, 2);
    app.on_key(key(Key::Char('k')));
    assert_eq!(app.cursor, 1);
    app.on_key(key(Key::Up));
    assert_eq!(app.cursor, 0);
    // The cursor must not run off either end of the list.
    app.on_key(key(Key::Char('k')));
    assert_eq!(app.cursor, 0);
    app.on_key(key(Key::Char('G')));
    assert_eq!(app.cursor, app.rows.len() - 1);
    app.on_key(key(Key::Char('j')));
    assert_eq!(app.cursor, app.rows.len() - 1);
}

#[test]
fn paging_moves_by_the_viewport_and_stops_at_the_ends() {
    let mut app = app();
    app.page = 4;
    app.on_key(KeyPress { code: Key::Char('d'), ctrl: true });
    assert_eq!(app.cursor, 2);
    app.on_key(key(Key::PageUp));
    assert_eq!(app.cursor, 0);
    app.on_key(key(Key::PageDown));
    assert_eq!(app.cursor, 2);
    app.on_key(key(Key::Home));
    assert_eq!(app.cursor, 0);
    app.on_key(key(Key::End));
    assert_eq!(app.cursor, 2);
    app.on_key(KeyPress { code: Key::Char('u'), ctrl: true });
    assert_eq!(app.cursor, 0);
}

#[test]
fn l_expands_the_dependency_tree_and_h_collapses_it() {
    let mut app = app();
    let before = app.rows.len();

    app.on_key(key(Key::Char('l')));
    assert_eq!(app.rows.len(), before + 1, "the dependency should appear");
    assert_eq!(app.rows[1].depth, 1);
    let out = screen(&app);
    assert!(out.contains("└─"), "tree connector expected:\n{out}");
    assert!(out.contains("▾"), "expanded marker expected");

    app.on_key(key(Key::Char('h')));
    assert_eq!(app.rows.len(), before, "the subtree should collapse again");
}

#[test]
fn tab_toggles_the_subtree() {
    let mut app = app();
    let before = app.rows.len();
    app.on_key(key(Key::Tab));
    assert_eq!(app.rows.len(), before + 1);
    app.on_key(key(Key::Tab));
    assert_eq!(app.rows.len(), before);
}

#[test]
fn h_walks_up_to_the_parent_when_already_collapsed() {
    let mut app = app();
    app.on_key(key(Key::Char('l'))); // expand root
    app.on_key(key(Key::Char('j'))); // step onto the dependency
    assert_eq!(app.cursor, 1);
    app.on_key(key(Key::Char('h')));
    assert_eq!(app.cursor, 0, "h on a leaf returns to its parent");
}

#[test]
fn l_on_an_open_row_steps_onto_its_first_dependency() {
    let mut app = app();
    app.on_key(key(Key::Char('l')));
    app.on_key(key(Key::Char('l')));
    assert_eq!(app.cursor, 1);
}

#[test]
fn space_toggles_selection_and_shows_a_checkbox() {
    let mut app = app();
    app.on_key(key(Key::Char(' ')));
    assert!(app.selected.contains("Dev-Torchless"));
    assert_eq!(app.status, "selected Torchless (1 total)");

    let out = screen(&app);
    assert!(out.contains("[x]"), "selected rows show a filled box:\n{out}");
    assert!(out.contains("1 selected"));

    app.on_key(key(Key::Char(' ')));
    assert!(app.selected.is_empty());
    assert_eq!(app.status, "deselected Torchless");
}

#[test]
fn c_clears_the_whole_selection() {
    let mut app = app();
    app.on_key(key(Key::Char(' ')));
    app.on_key(key(Key::Char('j')));
    app.on_key(key(Key::Char(' ')));
    assert_eq!(app.selected.len(), 2);
    app.on_key(key(Key::Char('c')));
    assert!(app.selected.is_empty());
    assert_eq!(app.status, "selection cleared");
}

#[test]
fn selection_follows_the_mod_across_the_tree() {
    let mut app = app();
    // Select Corelib as a nested dependency of Torchless.
    app.on_key(key(Key::Char('l')));
    app.on_key(key(Key::Char('j')));
    app.on_key(key(Key::Char(' ')));
    assert!(app.selected.contains("Dev-Corelib"));

    // Its own root row must now read as selected too.
    app.on_key(key(Key::Char('h')));
    app.on_key(key(Key::Char('h')));
    let root_row = app
        .rows
        .iter()
        .position(|r| r.mod_idx.map(|i| app.index.get(i).full_name == "Dev-Corelib").unwrap_or(false))
        .unwrap();
    assert!(app.selected.contains(&app.index.get(app.rows[root_row].mod_idx.unwrap()).full_name));
}

#[test]
fn enter_opens_a_confirmation_listing_dependencies() {
    let mut app = app();
    // An install directory is required before anything can be written.
    app.on_key(key(Key::Enter));
    assert!(matches!(app.modal, Modal::Closed));
    assert!(app.status.contains("--install-dir"), "got: {}", app.status);

    app.layout = Some(Layout::resolve("/tmp/vmt-ui").unwrap());

    app.on_key(key(Key::Char(' '))); // select Torchless
    app.on_key(key(Key::Enter));

    match &app.modal {
        Modal::Confirm { plan, .. } => {
            let names: Vec<&str> = plan.iter().map(|&i| app.index.get(i).full_name.as_str()).collect();
            assert_eq!(names, ["Dev-Corelib", "Dev-Torchless"]);
        }
        _ => panic!("enter should raise a confirmation"),
    }

    let out = screen(&app);
    assert!(out.contains("confirm install"), "{out}");
    assert!(out.contains("2 mods"));

    // Any key other than enter/y backs out without installing.
    let action = app.on_key(key(Key::Char('n')));
    assert!(matches!(action, Action::Nothing));
    assert!(matches!(app.modal, Modal::Closed));
    assert!(!app.busy);
}

#[test]
fn y_confirms_and_hands_over_the_plan() {
    let mut app = app();
    app.layout = Some(Layout::resolve("/tmp/vmt-ui").unwrap());
    app.on_key(key(Key::Enter)); // the mod under the cursor, with nothing selected
    match app.on_key(key(Key::Char('y'))) {
        Action::Install { plan } => {
            let names: Vec<&str> = plan.iter().map(|&i| app.index.get(i).full_name.as_str()).collect();
            assert_eq!(names, ["Dev-Corelib", "Dev-Torchless"]);
        }
        _ => panic!("y should start the install"),
    }
    assert!(app.busy);
    assert!(matches!(app.modal, Modal::Closed));
    // While busy, enter does not raise another confirmation.
    app.on_key(key(Key::Enter));
    assert!(matches!(app.modal, Modal::Closed));
}

#[test]
fn unpublished_dependencies_are_shown_but_not_selectable() {
    let mut app = app();
    app.on_key(key(Key::Char('G'))); // Bigpack, lowest downloads
    app.on_key(key(Key::Char('l')));
    app.on_key(key(Key::Char('j')));
    app.on_key(key(Key::Char('j'))); // onto Dev-Ghost
    assert!(app.current().unwrap().mod_idx.is_none());
    assert_eq!(app.current().unwrap().missing.as_deref(), Some("Dev-Ghost-1.0.0"));

    app.on_key(key(Key::Char(' ')));
    assert!(app.selected.is_empty());
    assert!(app.status.contains("not published"), "got: {}", app.status);

    let out = screen(&app);
    assert!(out.contains("not on Thunderstore"), "{out}");
}

#[test]
fn search_filters_the_list_and_escape_restores_it() {
    let mut app = app();
    let all = app.rows.len();

    app.on_key(key(Key::Char('/')));
    for c in "torch".chars() {
        app.on_key(key(Key::Char(c)));
    }
    assert_eq!(app.rows.len(), 1);
    let out = screen(&app);
    assert!(out.contains("search"), "{out}");

    app.on_key(key(Key::Esc));
    assert_eq!(app.rows.len(), all);
    assert!(!app.searching);
}

#[test]
fn backspace_widens_the_search_again() {
    let mut app = app();
    app.on_key(key(Key::Char('/')));
    for c in "torchx".chars() {
        app.on_key(key(Key::Char(c)));
    }
    assert_eq!(app.rows.len(), 0);
    app.on_key(key(Key::Backspace));
    assert_eq!(app.query, "torch");
    assert_eq!(app.rows.len(), 1);
    app.on_key(key(Key::Enter));
    assert!(!app.searching);
    assert_eq!(app.rows.len(), 1, "enter keeps the search applied");
}

#[test]
fn typing_in_search_never_triggers_an_install() {
    let mut app = app();
    app.on_key(key(Key::Char('/')));
    // 'q' would quit and ' ' would select outside of search mode.
    for c in "q f s".chars() {
        app.on_key(key(Key::Char(c)));
    }
    assert!(!app.quit);
    assert!(app.selected.is_empty());
    assert_eq!(app.query, "q f s");
}

#[test]
fn the_help_modal_opens_and_any_key_closes_it() {
    let mut app = app();
    app.on_key(key(Key::Char('?')));
    let out = screen(&app);
    assert!(out.contains("keys"), "{out}");
    assert!(out.contains("space"));
    app.on_key(key(Key::Char('x')));
    assert!(matches!(app.modal, Modal::Closed));
    assert!(!app.quit, "the closing key does nothing else");
}

#[test]
fn the_filter_cycles_through_every_compatibility_view() {
    let mut app = app();
    let mut seen = Vec::new();
    for _ in 0..4 {
        seen.push(app.filter.label());
        app.on_key(key(Key::Char('f')));
    }
    assert_eq!(seen, ["1.0 ready", "tagged only", "updated only", "all mods"]);
    assert_eq!(app.filter.label(), "1.0 ready", "the cycle must return home");
}

#[test]
fn the_sort_cycles_and_is_announced() {
    let mut app = app();
    app.on_key(key(Key::Char('s')));
    assert!(app.status.starts_with("sorted by "), "{}", app.status);
    assert_eq!(app.cursor, 0);
}

#[test]
fn q_and_ctrl_c_quit() {
    let mut app = app();
    app.on_key(key(Key::Char('q')));
    assert!(app.quit);
    let mut app2 = self::app();
    app2.on_key(KeyPress { code: Key::Char('c'), ctrl: true });
    assert!(app2.quit);
}

#[test]
fn refresh_asks_for_a_forced_fetch_once() {
    let mut app = app();
    assert!(matches!(app.on_key(key(Key::Char('r'))), Action::Load { force: true }));
    assert!(app.loading);
    assert_eq!(app.status, "refreshing catalogue…");
    // Ignored while a fetch is already in flight.
    assert!(matches!(app.on_key(key(Key::Char('r'))), Action::Nothing));
}

#[test]
fn a_narrow_terminal_still_renders() {
    let mut app = app();
    app.page = 1;
    let _ = screen(&app);
    app.on_key(key(Key::Char('?')));
    let _ = screen(&app);
}

#[test]
fn an_empty_catalogue_renders_without_panicking() {
    let mut app = App::blank(None, "unset".into());
    app.handle_msg(Msg::Catalog(Ok(vec![])), None);
    let out = screen(&app);
    assert!(out.contains("0 mods"), "{out}");
    // Navigation and selection on an empty list must be harmless.
    app.on_key(key(Key::Char('j')));
    app.on_key(key(Key::Char(' ')));
    app.on_key(key(Key::Enter));
    assert!(!app.quit);
}

#[test]
fn a_failed_catalogue_fetch_is_surfaced_not_swallowed() {
    let mut app = App::blank(None, "unset".into());
    app.handle_msg(Msg::Catalog(Err("connection refused".into())), None);
    assert!(!app.loading);
    let out = screen(&app);
    assert!(out.contains("connection refused"), "{out}");
}

#[test]
fn the_ready_status_counts_roots_and_the_catalogue_age() {
    let mut app = App::blank(None, "unset".into());
    app.handle_msg(Msg::Catalog(Ok(vec![m("Dev-A", &[], 1), m("Dev-B", &[], 2)])), Some(120));
    assert_eq!(app.status, "2 mods ready for Valheim 1.0 (of 2 published)  ·  catalogue 2m old");
}

#[test]
fn the_log_keeps_only_the_latest_lines() {
    let mut app = app();
    for n in 0..205 {
        app.handle_msg(Msg::Log(format!("line {n}")), None);
    }
    assert_eq!(app.log.len(), 200);
    assert_eq!(app.log[0], "line 5");
    assert_eq!(app.status, "line 204");
}

#[test]
fn install_outcomes_end_the_busy_state() {
    let mut app = app();
    app.busy = true;
    app.handle_msg(Msg::InstallDone(Err("disk full".into())), None);
    assert!(!app.busy);
    assert_eq!(app.status, "install failed: disk full");
    assert_eq!(app.log.last().map(String::as_str), Some("install failed: disk full"));
    app.handle_msg(Msg::InstallDone(Ok("done".into())), None);
    assert_eq!(app.status, "done");
}

#[test]
fn the_catalogue_age_reads_naturally() {
    assert_eq!(ago(0), "just fetched");
    assert_eq!(ago(90), "just fetched");
    assert_eq!(ago(91), "1m old");
    assert_eq!(ago(3599), "59m old");
    assert_eq!(ago(7200), "2h old");
}

#[test]
fn an_install_run_reports_progress_and_a_summary() {
    let mut run = InstallRun::new(2);
    assert_eq!(run.announce(0, "Dev-Core"), "[1/2] Dev-Core");
    assert_eq!(run.record("Core", "1.0.0", 3, 0), "  installed Core 1.0.0 (3 files)");
    assert_eq!(run.failure("Dev-Lib", "timed out"), "Dev-Lib — timed out (1 of 2 installed)");
    run.record("Lib", "2.0.0", 1, 2);
    assert_eq!(
        run.summary("/srv/BepInEx/plugins"),
        "installed 2 mods into /srv/BepInEx/plugins, kept 2 existing config files — restart the server to load them"
    );
    let fresh = InstallRun::new(0);
    assert_eq!(fresh.summary("p"), "installed 0 mods into p — restart the server to load them");
}

#[test]
fn a_new_app_starts_by_loading_the_catalogue() {
    let (app, action) = App::new(None, String::new());
    assert!(matches!(action, Action::Load { force: false }));
    assert!(app.loading);
    assert_eq!(app.status, "loading catalogue from Thunderstore…");
}

#[test]
fn a_new_catalogue_leaves_an_open_confirmation_open() {
    let mut app = app();
    app.layout = Some(Layout::resolve("/tmp/vmt-ui").unwrap());
    app.on_key(key(Key::Enter));
    assert!(matches!(app.modal, Modal::Confirm { .. }));
    app.handle_msg(Msg::Catalog(Ok(vec![m("Dev-Solo", &[], 1)])), None);
    assert!(matches!(app.modal, Modal::Confirm { .. }));
    assert!(!app.loading);
    assert_eq!(app.index.mods.len(), 1);
}

#[test]
fn a_catalogue_that_still_holds_the_plan_keeps_the_confirmation() {
    let mut app = app();
    app.layout = Some(Layout::resolve("/tmp/vmt-ui").unwrap());
    app.on_key(key(Key::Enter));
    app.handle_msg(
        Msg::Catalog(Ok(vec![
            m("Dev-Torchless", &["Dev-Corelib"], 900),
            m("Dev-Corelib", &[], 500),
            m("Dev-Bigpack", &["Dev-Corelib", "Dev-Ghost"], 100),
        ])),
        None,
    );
    assert!(matches!(app.modal, Modal::Confirm { .. }));
}

#[test]
fn space_twice_gives_the_selection_back() {
    let mut app = app();
    assert_eq!(app.selected.len(), 0);
    app.on_key(key(Key::Char(' ')));
    assert_eq!(app.selected.len(), 1);
    assert!(app.selected.contains("Dev-Torchless"));
    app.on_key(key(Key::Char(' ')));
    assert_eq!(app.selected.len(), 0);
    assert!(!app.selected.contains("Dev-Torchless"));
}
