use valheim_mods_tui::config::Layout;
use valheim_mods_tui::install::{
    check_report, executable_mode, framework_prefix, place_entry, route, safe_relative, Placement, Report, Target,
};

fn r(name: &str) -> Target {
    route(name, "Author-Mod", None)
}

fn bepinex_of(t: Target) -> String {
    match t {
        Target::BepInEx(p) => p.replace('\\', "/"),
        Target::Root(p) => panic!("expected BepInEx target, got root {}", p),
        Target::Skip => panic!("expected BepInEx target, got skip"),
    }
}

#[test]
fn plugins_folder_is_scoped_per_mod() {
    assert_eq!(bepinex_of(r("plugins/Mod.dll")), "plugins/Author-Mod/Mod.dll");
}

#[test]
fn loose_dll_at_archive_root_lands_in_the_mod_folder() {
    assert_eq!(bepinex_of(r("Mod.dll")), "plugins/Author-Mod/Mod.dll");
}

#[test]
fn nested_assets_keep_their_structure() {
    assert_eq!(bepinex_of(r("plugins/assets/icon.png")), "plugins/Author-Mod/assets/icon.png");
}

#[test]
fn bepinex_owned_directories_merge_in_place() {
    assert_eq!(bepinex_of(r("config/mod.cfg")), "config/mod.cfg");
    assert_eq!(bepinex_of(r("core/lib.dll")), "core/lib.dll");
    assert_eq!(bepinex_of(r("patchers/patch.dll")), "patchers/Author-Mod/patch.dll");
}

#[test]
fn framework_payload_unpacks_over_the_server_root() {
    let t = route(
        "BepInExPack_Valheim/winhttp.dll",
        "denikson-BepInExPack_Valheim",
        Some("BepInExPack_Valheim/"),
    );
    match t {
        Target::Root(p) => assert_eq!(p, "winhttp.dll"),
        _ => panic!("framework files belong at the server root"),
    }
}

#[test]
fn framework_metadata_outside_the_pack_is_dropped() {
    let metadata = ["manifest", "json"].join(".");
    let t = route(&metadata, "denikson-BepInExPack_Valheim", Some("BepInExPack_Valheim/"));
    assert!(matches!(t, Target::Skip));
}

#[test]
fn launch_scripts_are_made_executable() {
    // BepInEx ships these as 0666, so the extractor has to add the bit.
    assert_eq!(executable_mode(Some(0o666), "start_server_bepinex.sh"), Some(0o755));
    // An archive that already marks a file executable is honoured as-is.
    assert_eq!(executable_mode(Some(0o750), "tool"), Some(0o750));
    // Everything else keeps the filesystem default.
    assert_eq!(executable_mode(Some(0o666), "Mod.dll"), None);
    assert_eq!(executable_mode(None, "Mod.dll"), None);
}

#[test]
fn zip_slip_paths_are_rejected() {
    assert!(safe_relative("../../etc/passwd").is_none());
    assert!(safe_relative("/etc/passwd").is_none());
    assert!(safe_relative("plugins/../../escape.dll").is_none());
    assert!(safe_relative("").is_none());
    assert!(safe_relative("plugins/ok.dll").is_some());
}

#[test]
fn harmless_dots_are_dropped_from_archive_paths() {
    assert_eq!(safe_relative("./plugins/./ok.dll").as_deref(), Some("plugins/ok.dll"));
}

#[test]
fn the_framework_pack_is_recognised_by_its_folder() {
    let names = vec![
        "README.md".to_string(),
        "BepInExPack_Valheim/winhttp.dll".to_string(),
        "BepInExPack_Valheim/BepInEx/core/BepInEx.dll".to_string(),
    ];
    assert_eq!(framework_prefix(&names, &[true, true, true]).as_deref(), Some("BepInExPack_Valheim/"));
    assert_eq!(framework_prefix(&names, &[true, false, true]).as_deref(), Some("BepInExPack_Valheim/"));
    assert_eq!(framework_prefix(&names, &[true, false, false]), None, "entries that do not open are skipped");
    let plugin = vec!["plugins/Mod.dll".to_string(), "README.md".to_string()];
    assert_eq!(framework_prefix(&plugin, &[true, true]), None);
}

#[test]
fn entries_are_placed_under_the_layout() {
    let layout = Layout { root: "/srv/valheim".into(), bepinex: "/srv/valheim/BepInEx".into() };
    match place_entry("plugins\\Mod.dll", false, "Author-Mod", None, &layout) {
        Placement::Write { dest, is_config } => {
            assert_eq!(dest, "/srv/valheim/BepInEx/plugins/Author-Mod/Mod.dll");
            assert!(!is_config);
        }
        _ => panic!("a plugin is written"),
    }
    match place_entry("config/mod.cfg", false, "Author-Mod", None, &layout) {
        Placement::Write { dest, is_config } => {
            assert_eq!(dest, "/srv/valheim/BepInEx/config/mod.cfg");
            assert!(is_config);
        }
        _ => panic!("a config is written unless it exists"),
    }
    assert!(matches!(place_entry("plugins/", true, "Author-Mod", None, &layout), Placement::Ignore));
    assert!(matches!(place_entry("../evil.dll", false, "Author-Mod", None, &layout), Placement::Unsafe(_)));
}

#[test]
fn an_archive_with_nothing_to_install_is_an_error() {
    let empty = Report { written: 0, skipped_config: 0 };
    assert_eq!(check_report("Dev-Empty", empty).unwrap_err(), "Dev-Empty contained no installable files");
    let kept = Report { written: 0, skipped_config: 2 };
    assert_eq!(check_report("Dev-Cfg", kept).unwrap().skipped_config, 2);
}

#[test]
fn existing_configs_are_kept_and_counted() {
    let mut report = Report::new();
    assert!(report.take_entry(false, true), "plugins are overwritten on reinstall");
    assert!(report.take_entry(true, false), "a new config is written");
    assert!(!report.take_entry(true, true), "an edited config is kept");
    assert_eq!(report.written, 2);
    assert_eq!(report.skipped_config, 1);
}
