use valheim_mods_tui::detect::{
    candidate_roots, classify, library_file, parse_library_folders, rank_installs, steam_roots, Install, Os, Probe,
};

fn probe(is_dir: bool, has_bepinex: bool, present: &[&str]) -> Probe {
    Probe { is_dir, has_bepinex, present: present.iter().map(|s| s.to_string()).collect() }
}

#[test]
fn a_dedicated_server_directory_is_recognised() {
    let found = classify("/srv/server", &probe(true, false, &["valheim_server.x86_64"])).unwrap();
    assert_eq!(found.label, "dedicated server");
    assert!(!found.has_bepinex);

    assert!(classify("/srv/server", &probe(true, true, &["valheim_server.x86_64"])).unwrap().has_bepinex);
}

#[test]
fn a_game_install_is_recognised() {
    assert_eq!(classify("/srv/game", &probe(true, false, &["valheim_Data"])).unwrap().label, "game install");
}

#[test]
fn a_bare_bepinex_folder_still_counts_as_a_target() {
    let found = classify("/srv/bare", &probe(true, true, &[])).unwrap();
    assert_eq!(found.label, "BepInEx directory");
    assert!(found.has_bepinex);
    assert_eq!(found.path, "/srv/bare");
}

#[test]
fn an_unrelated_directory_is_not_a_valheim_install() {
    assert!(classify("/srv/empty", &probe(true, false, &[])).is_none());
    assert!(classify("/srv/empty", &probe(true, false, &["readme.txt"])).is_none());
    assert!(classify("/srv/empty/missing", &probe(false, false, &[])).is_none());
}

#[test]
fn the_most_specific_marker_names_the_install() {
    let both = probe(true, false, &["valheim.exe", "valheim_server.exe"]);
    assert_eq!(classify("/srv/x", &both).unwrap().label, "dedicated server");
}

#[test]
fn each_platform_looks_where_that_platform_keeps_steam() {
    let home = "/home/me";
    let linux = candidate_roots(home, Os::Linux, &[]);
    assert!(linux.iter().any(|p| p.contains(".steam/steam/steamapps/common/Valheim")));
    assert!(linux.iter().any(|p| p.contains(".local/share/Steam/steamapps/common/Valheim")));
    assert!(linux.iter().any(|p| p == "/opt/valheim"));
    assert!(linux.iter().any(|p| p.contains("Valheim dedicated server")));

    let mac = candidate_roots(home, Os::Mac, &[]);
    assert!(mac.iter().any(|p| p.contains("Library/Application Support/Steam/steamapps/common/Valheim")));

    let windows = candidate_roots(home, Os::Windows, &[]);
    assert!(windows.iter().any(|p| p.contains("Program Files (x86)")));
    assert!(windows.iter().any(|p| p.contains("Valheim")));

    // Linux server conventions must not leak onto the other platforms.
    assert!(!mac.iter().any(|p| p == "/opt/valheim"));
    assert!(!windows.iter().any(|p| p == "/opt/valheim"));
}

#[test]
fn extra_libraries_are_searched_too() {
    let extra = vec!["/mnt/games/SteamLibrary".to_string()];
    let roots = candidate_roots("/home/me", Os::Linux, &extra);
    assert!(roots.iter().any(|p| p == "/mnt/games/SteamLibrary/steamapps/common/Valheim"));
    assert_eq!(roots.last().map(String::as_str), Some("/home/me/valheim-server"));
    // Neighbouring repeats are dropped.
    assert!(roots.windows(2).all(|w| w[0] != w[1]));
}

#[test]
fn steam_keeps_its_library_list_under_steamapps() {
    assert_eq!(steam_roots("/home/me", Os::Mac), ["/home/me/Library/Application Support/Steam"]);
    assert_eq!(library_file("/home/me/.steam/steam"), "/home/me/.steam/steam/steamapps/libraryfolders.vdf");
}

#[test]
fn steam_libraries_on_other_drives_are_read_from_the_vdf() {
    let vdf = r#"
"libraryfolders"
{
    "0"
    {
        "path"		"C:\\Program Files (x86)\\Steam"
        "label"		""
    }
    "1"
    {
        "path"		"D:\\SteamLibrary"
    }
}
"#;
    let paths = parse_library_folders(vdf);
    assert_eq!(paths.len(), 2);
    assert!(paths[1].contains("SteamLibrary"));
    // The label field must not be mistaken for a path.
    assert!(!paths.iter().any(|p| p.is_empty()));
    // Escaped backslashes are unescaped.
    assert_eq!(paths[0], "C:\\Program Files (x86)\\Steam");
}

#[test]
fn a_missing_or_junk_vdf_yields_nothing() {
    assert!(parse_library_folders("not a vdf at all").is_empty());
    assert!(parse_library_folders("").is_empty());
}

fn install(path: &str, has_bepinex: bool) -> Install {
    Install { path: path.into(), label: "game install".into(), has_bepinex }
}

#[test]
fn installs_with_bepinex_come_first_then_by_path() {
    let ranked = rank_installs(vec![
        install("/srv/b", false),
        install("/srv/z", true),
        install("/srv/a", false),
        install("/srv/c", true),
        install("/srv/a/", false),
    ]);
    let paths: Vec<&str> = ranked.iter().map(|i| i.path.as_str()).collect();
    // "/srv/a/" names the same directory as "/srv/a", so only the first stays.
    assert_eq!(paths, ["/srv/c", "/srv/z", "/srv/a", "/srv/b"]);
    assert!(rank_installs(Vec::new()).is_empty());
}

#[test]
fn installs_with_equal_keys_keep_the_order_found() {
    let ranked = rank_installs(vec![
        Install { path: "/srv/v".into(), label: "dedicated server".into(), has_bepinex: true },
        Install { path: "/srv/v/".into(), label: "game install".into(), has_bepinex: true },
    ]);
    assert_eq!(ranked.len(), 1);
    assert_eq!(ranked[0].label, "dedicated server");
    let ranked = rank_installs(vec![
        Install { path: "/srv/v/".into(), label: "game install".into(), has_bepinex: true },
        Install { path: "/srv/v".into(), label: "dedicated server".into(), has_bepinex: true },
    ]);
    assert_eq!(ranked[0].label, "game install");
}
