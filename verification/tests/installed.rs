use valheim_mods_tui::installed::{scanned_dir, strip_bom, Found, Installed, SCANNED_COUNT};

fn at(location: &str, version: Option<&str>) -> Installed {
    Installed { version: version.map(str::to_string), location: location.to_string() }
}

#[test]
fn mods_are_found_with_their_versions() {
    let mut found = Found::new();
    assert!(found.add("ValheimModding-Jotunn".into(), at("plugins", Some("2.30.0"))));
    assert!(found.add("Someone-NoManifest".into(), at("plugins", None)));
    assert!(found.add("ASharpPen-This_Goes_Here".into(), at("patchers", None)));

    assert_eq!(found.get("ValheimModding-Jotunn").unwrap().version.as_deref(), Some("2.30.0"));
    assert_eq!(found.get("ValheimModding-Jotunn").unwrap().location, "plugins");
    assert_eq!(found.get("ASharpPen-This_Goes_Here").unwrap().location, "patchers");
    assert!(found.contains_key("Someone-NoManifest"));
    assert_eq!(found.get("Someone-NoManifest").unwrap().version, None);
    assert!(!found.contains_key("stray.dll"), "files are not mods");
    assert_eq!(found.len(), 3);
}

#[test]
fn the_first_find_of_a_name_is_kept() {
    let mut found = Found::new();
    assert!(found.add("Dev-Both".into(), at("plugins", Some("1.0.0"))));
    assert!(!found.add("Dev-Both".into(), at("patchers", Some("9.9.9"))));
    assert_eq!(found.get("Dev-Both").unwrap().location, "plugins");
    assert_eq!(found.len(), 1);
}

#[test]
fn a_manifest_with_a_utf8_bom_still_yields_its_version() {
    let mut bytes = vec![0xEF, 0xBB, 0xBF];
    bytes.extend_from_slice(br#"{"name":"Bommed","version_number":"1.4.2"}"#);
    let clean = strip_bom(&bytes);
    assert_eq!(clean, br#"{"name":"Bommed","version_number":"1.4.2"}"#);
    let value: serde_json::Value = serde_json::from_slice(&clean).unwrap();
    assert_eq!(value["version_number"], "1.4.2");
    // Text without a mark is left as it is.
    assert_eq!(strip_bom(b"{}"), b"{}");
    assert_eq!(strip_bom(&[0xEF, 0xBB]), [0xEF, 0xBB]);
}

#[test]
fn an_install_that_does_not_exist_yet_scans_clean() {
    assert!(Found::new().is_empty());
}

#[test]
fn plugins_are_scanned_before_patchers() {
    let dirs: Vec<&str> = (0..SCANNED_COUNT).map(scanned_dir).collect();
    assert_eq!(dirs, ["plugins", "patchers", "monomod"]);
}

#[test]
fn bepinex_itself_counts_as_installed() {
    let mut found = Found::new();
    assert!(!found.contains_key("denikson-BepInExPack_Valheim"));
    found.add("denikson-BepInExPack_Valheim".into(), at("core", None));
    assert!(found.contains_key("denikson-BepInExPack_Valheim"));
    assert_eq!(found.get("denikson-BepInExPack_Valheim").unwrap().location, "core");
}
