use valheim_mods_tui::index::{Filter, Index, Sort};
use valheim_mods_tui::keyset::KeySet;
use valheim_mods_tui::rows::build_rows;
use valheim_mods_tui::thunderstore::{Mod, V1_CATEGORY};

fn m(full_name: &str, deps: &[&str]) -> Mod {
    let (owner, name) = full_name.split_once('-').unwrap();
    Mod {
        full_name: full_name.into(),
        name: name.into(),
        owner: owner.into(),
        description: String::new(),
        version: "1.0.0".into(),
        download_url: String::new(),
        package_url: String::new(),
        downloads: 0,
        rating: 0,
        file_size: 0,
        date_updated: "2026-09-10T00:00:00Z".into(),
        categories: vec![],
        dependencies: deps.iter().map(|d| format!("{d}-1.0.0")).collect(),
        deprecated: false,
    }
}

fn index() -> Index {
    Index::new(vec![
        m("Dev-App", &["Dev-Lib", "Dev-Ghost"]),
        m("Dev-Lib", &["Dev-Core"]),
        m("Dev-Core", &[]),
    ])
}

fn keys(names: &[&str]) -> KeySet {
    let mut set = KeySet::new();
    for n in names {
        set.insert(n.to_string());
    }
    set
}

#[test]
fn dependency_key_strips_the_version() {
    assert_eq!(Index::dep_key("Author-Mod-1.2.3"), "Author-Mod");
    assert_eq!(Index::dep_version("Author-Mod-1.2.3"), "1.2.3");
}

#[test]
fn hyphenated_owner_names_still_resolve() {
    // A few Thunderstore owners contain a hyphen; package names never do,
    // so splitting once from the right stays correct.
    assert_eq!(Index::dep_key("Some-Team-CoolMod-0.1.0"), "Some-Team-CoolMod");
}

#[test]
fn a_dependency_without_a_version_keeps_its_name() {
    assert_eq!(Index::dep_key("NoDashes"), "NoDashes");
    assert_eq!(Index::dep_version("NoDashes"), "");
}

#[test]
fn install_plan_lists_dependencies_before_dependents() {
    let idx = index();
    let app = idx.lookup("Dev-App").unwrap();
    let (plan, missing) = idx.install_plan(&[app]);
    let names: Vec<&str> = plan.iter().map(|&i| idx.get(i).full_name.as_str()).collect();

    assert_eq!(names, ["Dev-Core", "Dev-Lib", "Dev-App"]);
    assert_eq!(missing, ["Dev-Ghost-1.0.0"]);
}

#[test]
fn shared_dependencies_are_installed_once() {
    let idx = index();
    let both = vec![idx.lookup("Dev-App").unwrap(), idx.lookup("Dev-Lib").unwrap()];
    let (plan, _) = idx.install_plan(&both);
    assert_eq!(plan.len(), 3, "Dev-Core must not be queued twice");
}

#[test]
fn dependency_cycles_do_not_hang_the_planner() {
    let idx = Index::new(vec![m("Dev-A", &["Dev-B"]), m("Dev-B", &["Dev-A"])]);
    let (plan, _) = idx.install_plan(&[idx.lookup("Dev-A").unwrap()]);
    assert_eq!(plan.len(), 2);
}

#[test]
fn missing_dependencies_are_listed_once_and_sorted() {
    let idx = Index::new(vec![
        m("Dev-A", &["Zed-Gone", "Dev-B", "Abe-Gone"]),
        m("Dev-B", &["Zed-Gone"]),
    ]);
    let (plan, missing) = idx.install_plan(&[0, 1]);
    assert_eq!(plan, [1, 0]);
    assert_eq!(missing, ["Abe-Gone-1.0.0", "Zed-Gone-1.0.0"]);
}

#[test]
fn the_last_mod_of_a_name_is_the_one_found() {
    let idx = Index::new(vec![m("Dev-A", &[]), m("Dev-A", &[]), m("Dev-B", &[])]);
    assert_eq!(idx.lookup("Dev-A"), Some(1));
    assert_eq!(idx.lookup("Dev-C"), None);
}

#[test]
fn collapsed_roots_render_one_row_each() {
    let idx = index();
    let roots = idx.roots(Filter::All, "", Sort::Name);
    let rows = build_rows(&idx, &roots, &KeySet::new());
    assert_eq!(rows.len(), 3);
    assert!(rows.iter().all(|r| r.depth == 0));
}

#[test]
fn expanding_a_root_reveals_its_dependency_tree() {
    let idx = index();
    let roots = vec![idx.lookup("Dev-App").unwrap()];
    let open = keys(&["Dev-App", "Dev-App/Dev-Lib"]);

    let rows = build_rows(&idx, &roots, &open);
    let shape: Vec<(usize, String)> = rows
        .iter()
        .map(|r| {
            let label = match r.mod_idx {
                Some(i) => idx.get(i).full_name.clone(),
                None => r.missing.clone().unwrap(),
            };
            (r.depth, label)
        })
        .collect();

    assert_eq!(
        shape,
        vec![
            (0, "Dev-App".into()),
            (1, "Dev-Lib".into()),
            (2, "Dev-Core".into()),
            (1, "Dev-Ghost-1.0.0".into()),
        ]
    );
    // The unpublished dependency is shown but cannot be selected.
    assert!(rows[3].mod_idx.is_none());
}

#[test]
fn tree_prefixes_connect_branches() {
    let idx = index();
    let roots = vec![idx.lookup("Dev-App").unwrap()];
    let open = keys(&["Dev-App", "Dev-App/Dev-Lib"]);
    let rows = build_rows(&idx, &roots, &open);

    assert_eq!(rows[0].prefix, "");
    assert_eq!(rows[1].prefix, "├─ ");
    // Dev-Core sits under a non-final branch, so the rule continues.
    assert_eq!(rows[2].prefix, "│  └─ ");
    assert_eq!(rows[3].prefix, "└─ ");
}

#[test]
fn a_cyclic_branch_is_marked_and_not_re_expanded() {
    let idx = Index::new(vec![m("Dev-A", &["Dev-B"]), m("Dev-B", &["Dev-A"])]);
    let roots = vec![idx.lookup("Dev-A").unwrap()];
    let open = keys(&["Dev-A", "Dev-A/Dev-B", "Dev-A/Dev-B/Dev-A"]);
    let rows = build_rows(&idx, &roots, &open);

    assert_eq!(rows.len(), 3);
    assert!(rows[2].cycle, "the repeated node must be flagged");
    assert!(!rows[2].has_children, "and must not expand further");
}

#[test]
fn the_v1_filter_keeps_only_maintained_mods_with_a_signal() {
    let mut tagged = m("Dev-Tagged", &[]);
    tagged.date_updated = "2024-01-01T00:00:00Z".into();
    tagged.categories = vec![V1_CATEGORY.into()];

    let mut old = m("Dev-Old", &[]);
    old.date_updated = "2024-01-01T00:00:00Z".into();

    let mut dead = m("Dev-Dead", &[]);
    dead.deprecated = true;

    // m() defaults to a post-launch date, so this one qualifies on recency.
    let fresh = m("Dev-Fresh", &[]);

    let idx = Index::new(vec![tagged, old, dead, fresh]);
    let kept: Vec<&str> = idx
        .roots(Filter::V1Ready, "", Sort::Name)
        .iter()
        .map(|&i| idx.get(i).full_name.as_str())
        .collect();

    assert_eq!(kept, ["Dev-Fresh", "Dev-Tagged"]);
    assert_eq!(idx.roots(Filter::All, "", Sort::Name).len(), 4);
}

#[test]
fn search_matches_name_owner_and_description() {
    let mut m1 = m("Dev-Torches", &[]);
    m1.description = "keeps the night lit".into();
    let idx = Index::new(vec![m1, m("Other-Boats", &[])]);

    assert_eq!(idx.roots(Filter::All, "torch", Sort::Name).len(), 1);
    assert_eq!(idx.roots(Filter::All, "night", Sort::Name).len(), 1);
    assert_eq!(idx.roots(Filter::All, "dev", Sort::Name).len(), 1);
    assert_eq!(idx.roots(Filter::All, "nothing", Sort::Name).len(), 0);
}

#[test]
fn sorting_orders_by_the_chosen_key() {
    let mut a = m("Dev-Alpha", &[]);
    a.downloads = 10;
    a.rating = 5;
    a.date_updated = "2026-09-11T00:00:00Z".into();
    let mut b = m("Dev-beta", &[]);
    b.downloads = 30;
    b.rating = 1;
    b.date_updated = "2026-09-12T00:00:00Z".into();
    let mut c = m("Dev-Gamma", &[]);
    c.downloads = 20;
    c.rating = 9;
    c.date_updated = "2026-09-10T00:00:00Z".into();
    let idx = Index::new(vec![a, b, c]);
    assert_eq!(idx.roots(Filter::All, "", Sort::Downloads), [1, 2, 0]);
    assert_eq!(idx.roots(Filter::All, "", Sort::Rating), [2, 0, 1]);
    assert_eq!(idx.roots(Filter::All, "", Sort::Updated), [1, 0, 2]);
    // Names sort without regard to case.
    assert_eq!(idx.roots(Filter::All, "", Sort::Name), [0, 1, 2]);
}

#[test]
fn the_filters_and_sorts_cycle_home() {
    let mut f = Filter::V1Ready;
    let mut s = Sort::Downloads;
    for _ in 0..4 {
        f = f.next();
        s = s.next();
    }
    assert_eq!(f.label(), Filter::V1Ready.label());
    assert_eq!(s.label(), Sort::Downloads.label());
}

#[test]
fn a_narrower_search_keeps_a_subset_and_sorts_keep_the_members() {
    let mut m1 = m("Dev-Torches", &[]);
    m1.description = "keeps the night lit".into();
    let idx = Index::new(vec![m1, m("Dev-Torchless", &[]), m("Other-Boats", &[])]);
    let wide = idx.roots(Filter::All, "torch", Sort::Name);
    let narrow = idx.roots(Filter::All, "torches", Sort::Name);
    assert_eq!(wide.len(), 2);
    assert_eq!(narrow.len(), 1);
    assert!(narrow.iter().all(|i| wide.contains(i)));
    let mut by_name = idx.roots(Filter::All, "", Sort::Name);
    let mut by_downloads = idx.roots(Filter::All, "", Sort::Downloads);
    by_name.sort();
    by_downloads.sort();
    assert_eq!(by_name, by_downloads);
}

#[test]
fn a_cycle_elsewhere_in_the_catalogue_leaves_the_order_alone() {
    let idx = Index::new(vec![
        m("Dev-X", &["Dev-Y"]),
        m("Dev-Y", &["Dev-X"]),
        m("Dev-App", &["Dev-Lib"]),
        m("Dev-Lib", &["Dev-Core"]),
        m("Dev-Core", &[]),
    ]);
    let (plan, missing) = idx.install_plan(&[idx.lookup("Dev-App").unwrap()]);
    let names: Vec<&str> = plan.iter().map(|&i| idx.get(i).full_name.as_str()).collect();
    assert_eq!(names, ["Dev-Core", "Dev-Lib", "Dev-App"]);
    assert!(missing.is_empty());
}
