use valheim_mods_tui::config::{Config, Layout, LayoutError};

#[test]
fn every_spelling_of_the_install_path_resolves() {
    let root = Layout::resolve("/srv/valheim").unwrap();
    assert_eq!(root.root, "/srv/valheim");
    assert_eq!(root.bepinex, "/srv/valheim/BepInEx");
    assert_eq!(root.plugins(), "/srv/valheim/BepInEx/plugins");

    let bepinex = Layout::resolve("/srv/valheim/BepInEx").unwrap();
    assert_eq!(bepinex.root, "/srv/valheim");
    assert_eq!(bepinex.bepinex, "/srv/valheim/BepInEx");

    let plugins = Layout::resolve("/srv/valheim/BepInEx/Plugins").unwrap();
    assert_eq!(plugins.root, "/srv/valheim");
    assert_eq!(plugins.bepinex, "/srv/valheim/BepInEx");
}

#[test]
fn a_relative_plugins_name_resolves_against_the_empty_path() {
    // "plugins" has the empty path above it, which then names the BepInEx directory.
    let l = Layout::resolve("plugins").unwrap();
    assert_eq!(l.bepinex, "");
    assert_eq!(l.root, "");
    assert_eq!(Layout::resolve("/").unwrap().bepinex, "/BepInEx");
    assert_eq!(LayoutError::PluginsWithoutParent.message(), "plugins directory has no parent");
}

#[test]
fn command_line_values_become_the_new_defaults() {
    let mut cfg = Config::default();
    assert!(!cfg.apply_overrides(None, None, None, None));
    assert!(cfg.apply_overrides(Some("/srv/valheim".into()), None, Some("valheim".into()), None));
    assert_eq!(cfg.install_dir.as_deref(), Some("/srv/valheim"));
    assert_eq!(cfg.compose_service.as_deref(), Some("valheim"));
    assert_eq!(cfg.update_source, None);
    assert!(cfg.apply_overrides(None, Some("/srv/.env".into()), None, Some("me/repo".into())));
    assert_eq!(cfg.install_dir.as_deref(), Some("/srv/valheim"), "earlier values are kept");
    assert_eq!(cfg.compose_file.as_deref(), Some("/srv/.env"));
    assert_eq!(cfg.update_source.as_deref(), Some("me/repo"));
}
