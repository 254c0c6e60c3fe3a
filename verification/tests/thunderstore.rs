use valheim_mods_tui::thunderstore::{
    cache_age_at, cache_is_fresh, catalogue, Mod, Package, PackageVersion, CACHE_FORMAT, CACHE_TTL_SECS, V1_CATEGORY,
};

fn package(full_name: &str, version: Option<&str>) -> Package {
    let (owner, name) = full_name.split_once('-').unwrap();
    Package {
        full_name: full_name.into(),
        name: name.into(),
        owner: owner.into(),
        package_url: format!("https://thunderstore.io/c/valheim/p/{owner}/{name}/"),
        date_updated: "2026-09-12T00:00:00Z".into(),
        rating_score: 7,
        is_deprecated: false,
        categories: vec!["Mods".into()],
        latest: version.map(|v| PackageVersion {
            description: format!("{name} does a thing"),
            version_number: v.into(),
            dependencies: vec!["Dev-Core-1.0.0".into()],
            download_url: format!("https://thunderstore.io/package/download/{owner}/{name}/{v}/"),
            downloads: 42,
            file_size: 2048,
        }),
    }
}

fn m(date: &str, categories: &[&str], deprecated: bool) -> Mod {
    Mod {
        full_name: "Dev-Mod".into(),
        name: "Mod".into(),
        owner: "Dev".into(),
        description: String::new(),
        version: "1.0.0".into(),
        download_url: String::new(),
        package_url: String::new(),
        downloads: 0,
        rating: 0,
        file_size: 0,
        date_updated: date.into(),
        categories: categories.iter().map(|c| c.to_string()).collect(),
        dependencies: vec![],
        deprecated,
    }
}

#[test]
fn the_catalogue_keeps_published_packages_sorted_by_name() {
    let raw = vec![
        package("Zed-Last", Some("1.0.0")),
        package("Dev-Unpublished", None),
        package("Abe-First", Some("2.1.0")),
        package("Mia-Middle", Some("0.3.0")),
    ];
    let mods = catalogue(raw);
    let names: Vec<&str> = mods.iter().map(|m| m.full_name.as_str()).collect();
    assert_eq!(names, ["Abe-First", "Mia-Middle", "Zed-Last"]);
    let first = &mods[0];
    assert_eq!(first.name, "First");
    assert_eq!(first.owner, "Abe");
    assert_eq!(first.version, "2.1.0");
    assert_eq!(first.description, "First does a thing");
    assert_eq!(first.downloads, 42);
    assert_eq!(first.rating, 7);
    assert_eq!(first.file_size, 2048);
    assert_eq!(first.dependencies, ["Dev-Core-1.0.0"]);
    assert_eq!(first.download_url, "https://thunderstore.io/package/download/Abe/First/2.1.0/");
}

#[test]
fn equal_names_keep_their_list_order() {
    let mut a = package("Dev-Same", Some("1.0.0"));
    a.rating_score = 1;
    let mut b = package("Dev-Same", Some("2.0.0"));
    b.rating_score = 2;
    let mods = catalogue(vec![a, package("Abe-Other", Some("1.0.0")), b]);
    assert_eq!(mods.len(), 3);
    assert_eq!(mods[1].version, "1.0.0");
    assert_eq!(mods[2].version, "2.0.0");
}

#[test]
fn an_empty_package_list_gives_an_empty_catalogue() {
    assert!(catalogue(Vec::new()).is_empty());
    assert!(catalogue(vec![package("Dev-None", None)]).is_empty());
}

#[test]
fn the_signals_explain_why_a_mod_qualifies() {
    let both = m("2026-09-10T00:00:00Z", &[V1_CATEGORY], false);
    assert!(both.tagged_for_v1() && both.updated_since_v1() && both.supports_v1());
    assert_eq!(both.signal(), "tagged + updated");

    let tagged = m("2025-01-01T00:00:00Z", &[V1_CATEGORY], false);
    assert_eq!(tagged.signal(), "tagged");
    assert!(tagged.supports_v1());

    // The launch day itself counts as updated.
    let updated = m("2026-09-09", &["Mods"], false);
    assert_eq!(updated.signal(), "updated");

    let stale = m("2025-01-01T00:00:00Z", &[], false);
    assert_eq!(stale.signal(), "-");
    assert!(!stale.supports_v1());

    let dead = m("2026-09-10T00:00:00Z", &[V1_CATEGORY], true);
    assert!(!dead.supports_v1());
}

#[test]
fn a_cache_is_used_while_it_is_young() {
    assert_eq!(cache_age_at(1_000, 1_500), 500);
    assert_eq!(cache_age_at(2_000, 1_500), 0, "a clock that went back gives age zero");
    assert!(cache_is_fresh(CACHE_FORMAT, 1_000, 1_000 + CACHE_TTL_SECS));
    assert!(!cache_is_fresh(CACHE_FORMAT, 1_000, 1_001 + CACHE_TTL_SECS));
    assert!(!cache_is_fresh(CACHE_FORMAT + 1, 1_000, 1_000));
}
