use valheim_mods_tui::app::{App, Msg};
use valheim_mods_tui::config::Layout;
use valheim_mods_tui::thunderstore::Mod;
use valheim_mods_tui::view::{centered, help_lines, plural, Area, Detail, Piece, Tone};

fn m(full_name: &str, deps: &[&str], downloads: u64) -> Mod {
    let (owner, name) = full_name.split_once('-').unwrap();
    Mod {
        full_name: full_name.into(),
        name: name.into(),
        owner: owner.into(),
        description: format!("{name} does a thing"),
        version: "1.0.0".into(),
        download_url: String::new(),
        package_url: String::new(),
        downloads,
        rating: -3,
        file_size: 2048,
        date_updated: "2026-09-12T08:30:00Z".into(),
        categories: vec!["Mods".into(), "Tools".into()],
        dependencies: deps.iter().map(|d| format!("{d}-1.0.0")).collect(),
        deprecated: false,
    }
}

fn app(mods: Vec<Mod>) -> App {
    let mut app = App::blank(None, "unset".into());
    app.handle_msg(Msg::Catalog(Ok(mods)), None);
    app
}

fn texts(line: &[Piece]) -> Vec<String> {
    line.iter()
        .map(|p| match p {
            Piece::Text { text, .. } => text.clone(),
            Piece::Downloads { count, .. } => format!("<{count} downloads>"),
            Piece::Size { bytes, .. } => format!("<{bytes} bytes>"),
        })
        .collect()
}

fn joined(line: &[Piece]) -> String {
    texts(line).concat()
}

#[test]
fn the_header_counts_roots_and_selection() {
    let a = app(vec![m("Dev-A", &["Dev-B"], 1), m("Dev-B", &[], 2)]);
    assert_eq!(
        joined(&a.header()),
        " Valheim 1.0 Mods  2 mods  ·  filter 1.0 ready  ·  sort downloads  ·  0 selected"
    );
    assert!(matches!(a.header()[8], Piece::Text { tone: Tone::Dim, .. }));
}

#[test]
fn a_root_line_shows_box_marker_name_version_downloads_and_signal() {
    let a = app(vec![m("Dev-A", &["Dev-Ghost"], 1234)]);
    let lines = a.list_lines();
    assert_eq!(
        texts(&lines[0]),
        ["[ ] ", "", "▸ ", "A", " 1.0.0", "  ", "<1234 downloads>", "  updated"]
    );
}

#[test]
fn a_missing_dependency_line_is_flagged() {
    let mut a = app(vec![m("Dev-A", &["Dev-Ghost"], 1)]);
    a.on_key(valheim_mods_tui::app::KeyPress { code: valheim_mods_tui::app::Key::Char('l'), ctrl: false });
    let lines = a.list_lines();
    assert_eq!(joined(&lines[1]), "[!] └─   Dev-Ghost-1.0.0  not on Thunderstore");
}

#[test]
fn the_details_list_the_fields_and_dependencies() {
    let a = app(vec![m("Dev-A", &["Dev-B", "Dev-Ghost"], 7), m("Dev-B", &[], 1)]);
    let lines = match a.detail() {
        Detail::Lines(ls) => ls,
        Detail::Note(n) => panic!("expected details, got {n}"),
    };
    let text: Vec<String> = lines.iter().map(|l| joined(l)).collect();
    assert_eq!(text[0], "A");
    assert_eq!(text[1], "by Dev  ·  v1.0.0");
    assert_eq!(text[5], "updated     2026-09-12");
    assert_eq!(text[6], "downloads   <7 downloads>");
    assert_eq!(text[7], "rating      -3");
    assert_eq!(text[8], "size        <2048 bytes>");
    assert_eq!(text[9], "1.0 signal  updated");
    assert_eq!(text[10], "categories  Mods, Tools");
    assert_eq!(text[12], "dependencies (2)");
    assert_eq!(text[13], "  • Dev-B 1.0.0");
    assert_eq!(text[14], "  • Dev-Ghost 1.0.0");
    assert!(matches!(lines[14][1], Piece::Text { tone: Tone::Warn, .. }), "unpublished dependencies stand out");
}

#[test]
fn long_dependency_lists_are_cut_short() {
    let deps: Vec<String> = (0..20).map(|i| format!("Dev-D{i}")).collect();
    let dep_refs: Vec<&str> = deps.iter().map(String::as_str).collect();
    let a = app(vec![m("Dev-A", &dep_refs, 1)]);
    let lines = match a.detail() {
        Detail::Lines(ls) => ls,
        Detail::Note(_) => panic!("expected details"),
    };
    assert_eq!(joined(lines.last().unwrap()), "  … and 6 more");
}

#[test]
fn an_empty_list_has_nothing_to_detail() {
    let a = app(vec![]);
    assert!(matches!(a.detail(), Detail::Note(n) if n == "\n  nothing here"));
}

#[test]
fn the_confirmation_counts_choices_and_dependencies() {
    let mut a = app(vec![m("Dev-A", &["Dev-B", "Dev-Ghost"], 2), m("Dev-B", &[], 1)]);
    a.layout = Some(Layout::resolve("/srv/valheim").unwrap());
    let lines = a.confirm_lines(&[1, 0], &["Dev-Ghost-1.0.0".to_string()], false);
    let text: Vec<String> = lines.iter().map(|l| joined(l)).collect();
    assert_eq!(text[1], "  installing 2 mods (1 chosen + 1 dependency)");
    assert_eq!(text[3], "  into  /srv/valheim/BepInEx/plugins");
    assert_eq!(text[5], "    • Dev-B 1.0.0");
    assert_eq!(text[6], "    • Dev-A 1.0.0");
    assert_eq!(text[8], "  note: no BepInEx directory here yet — it will be created.");
    assert_eq!(text[10], "  1 dependency is not on Thunderstore, and will be skipped:");
    assert_eq!(text[11], "    ! Dev-Ghost-1.0.0");
    assert_eq!(text[13], "  enter/y  install     any other key  cancel");
    assert_eq!(text.len(), 14);
}

#[test]
fn the_help_lists_every_key() {
    let lines = help_lines();
    assert_eq!(lines.len(), 16);
    assert_eq!(joined(&lines[6]), "  space             select or deselect the mod");
    assert_eq!(joined(&lines[15]), "  press any key to close");
}

#[test]
fn boxes_are_centred_with_a_margin() {
    let area = Area { x: 0, y: 0, width: 110, height: 30 };
    assert_eq!(centered(area, 66, 17), Area { x: 22, y: 6, width: 66, height: 17 });
    let narrow = Area { x: 0, y: 0, width: 40, height: 12 };
    assert_eq!(centered(narrow, 66, 17), Area { x: 2, y: 2, width: 36, height: 8 });
    let tiny = Area { x: 1, y: 1, width: 3, height: 2 };
    assert_eq!(centered(tiny, 10, 10), Area { x: 2, y: 2, width: 0, height: 0 });
}

#[test]
fn counts_take_the_right_noun() {
    assert_eq!(plural(1, "dependency", "dependencies"), "1 dependency");
    assert_eq!(plural(0, "dependency", "dependencies"), "0 dependencies");
    assert_eq!(plural(3, "dependency is", "dependencies are"), "3 dependencies are");
}
