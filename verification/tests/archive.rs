use std::io::Write;
use valheim_mods_tui::archive::{extract, ArchiveError};
use valheim_mods_tui::config::Layout;
use valheim_mods_tui::install::Placement;

fn zip_of(entries: &[(&str, &[u8])]) -> Vec<u8> {
    let mut w = zip::ZipWriter::new(std::io::Cursor::new(Vec::new()));
    let opts = zip::write::SimpleFileOptions::default().unix_permissions(0o644);
    for (name, data) in entries {
        if name.ends_with('/') {
            w.add_directory(*name, opts).unwrap();
        } else {
            w.start_file(*name, opts).unwrap();
            w.write_all(data).unwrap();
        }
    }
    w.finish().unwrap().into_inner()
}

fn layout() -> Layout {
    Layout { root: "/srv/valheim".into(), bepinex: "/srv/valheim/BepInEx".into() }
}

#[test]
fn entries_are_read_in_archive_order_with_their_destinations() {
    let bytes = zip_of(&[
        ("plugins/", b""),
        ("plugins/Mod.dll", b"dll"),
        ("README.md", b"readme"),
        ("config/mod.cfg", b"cfg"),
        ("../evil.dll", b"evil"),
    ]);
    let mut package = extract(bytes, "Author-Mod", &layout()).unwrap();
    let items = package.entries();
    assert_eq!(items.len(), 5);
    assert!(matches!(items[0].placement, Placement::Ignore), "directories are not written");
    match &items[1].placement {
        Placement::Write { dest, is_config } => {
            assert_eq!(dest, "/srv/valheim/BepInEx/plugins/Author-Mod/Mod.dll");
            assert!(!is_config);
        }
        _ => panic!("the plugin is written"),
    }
    match &items[3].placement {
        Placement::Write { dest, is_config } => {
            assert_eq!(dest, "/srv/valheim/BepInEx/config/mod.cfg");
            assert!(is_config);
        }
        _ => panic!("the config is written unless it exists"),
    }
    assert!(matches!(&items[4].placement, Placement::Unsafe(n) if n == "../evil.dll"));
    assert_eq!(package.open_entry(1).unwrap().map(|m| m & 0o777), Some(0o644));
    assert_eq!(package.read(1).unwrap(), b"dll");
    assert_eq!(package.read(3).unwrap(), b"cfg");
    assert_eq!(package.read(2).unwrap(), b"readme");
}

#[test]
fn the_bepinex_pack_unpacks_over_the_root() {
    let bytes = zip_of(&[
        ("icon.png", b"png"),
        ("BepInExPack_Valheim/winhttp.dll", b"w"),
        ("BepInExPack_Valheim/BepInEx/core/BepInEx.dll", b"b"),
    ]);
    let package = extract(bytes, "denikson-BepInExPack_Valheim", &layout()).unwrap();
    let items = package.entries();
    assert!(matches!(items[0].placement, Placement::Ignore), "metadata outside the pack is dropped");
    match &items[1].placement {
        Placement::Write { dest, .. } => assert_eq!(dest, "/srv/valheim/winhttp.dll"),
        _ => panic!("framework files belong at the server root"),
    }
    match &items[2].placement {
        Placement::Write { dest, .. } => assert_eq!(dest, "/srv/valheim/BepInEx/core/BepInEx.dll"),
        _ => panic!("the core assembly lands under BepInEx"),
    }
}

#[test]
fn a_download_that_is_not_a_zip_is_refused() {
    let err = match extract(b"<!DOCTYPE html>".to_vec(), "Author-Mod", &layout()) {
        Err(e) => e,
        Ok(_) => panic!("an HTML page is not an archive"),
    };
    assert!(matches!(err, ArchiveError::NotZip { .. }));
    assert!(err.message().starts_with("Author-Mod is not a readable zip archive: "), "{}", err.message());
}
