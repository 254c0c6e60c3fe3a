use valheim_mods_tui::detect::Os;
use valheim_mods_tui::update::{
    asset_for_target, choose_release, is_newer, looks_like_executable, not_executable_message, parse_source, staged_path,
    unconfigured_hint, ReleaseChoice, Source,
};

/// The triple of the machine these tests run on.
const TARGET: &str = "x86_64-unknown-linux-gnu";

#[test]
fn sources_are_recognised_by_shape() {
    assert_eq!(
        parse_source("landsprutte/valheim-mods-tui").unwrap(),
        Source::GitHub("landsprutte/valheim-mods-tui".into())
    );
    assert_eq!(
        parse_source("https://files.example/vmt").unwrap(),
        Source::Url("https://files.example/vmt".into())
    );
    assert!(parse_source("not a source").is_err());
    assert!(parse_source("too/many/parts").is_err());
}

#[test]
fn a_rejected_source_says_what_was_given() {
    let err = parse_source("  not a source ").unwrap_err();
    assert_eq!(err.raw, "not a source");
    assert_eq!(err.message(), "update source must be a URL or a GitHub \"owner/repo\", got \"not a source\"");
}

#[test]
fn version_comparison_only_moves_forward() {
    assert!(is_newer("0.1.0", "0.2.0"));
    assert!(is_newer("0.1.0", "v0.1.1"));
    assert!(is_newer("0.9.0", "0.10.0"), "numeric, not lexical");
    assert!(!is_newer("0.2.0", "0.1.0"));
    assert!(!is_newer("0.1.0", "0.1.0"));
    assert!(!is_newer("0.1.0", "v0.1.0"), "a v prefix is not a new version");
}

#[test]
fn the_asset_matching_this_platform_is_chosen() {
    let assets = vec![
        ("vmt-aarch64-unknown-linux-musl".to_string(), "a".to_string()),
        ("vmt-x86_64-unknown-linux-musl".to_string(), "b".to_string()),
        ("vmt-aarch64-apple-darwin".to_string(), "c".to_string()),
    ];
    assert_eq!(asset_for_target(&assets, "x86_64-unknown-linux-musl").unwrap().1, "b");
    assert_eq!(asset_for_target(&assets, "aarch64-apple-darwin").unwrap().1, "c");
    // A gnu build still matches the musl asset for the same arch and OS.
    assert_eq!(asset_for_target(&assets, "aarch64-unknown-linux-gnu").unwrap().1, "a");
}

/// Each release asset is named "valheim-mods-tui-<triple>"; if that naming
/// drifts, --update silently stops finding builds.
#[test]
fn release_workflow_asset_names_resolve() {
    let published: Vec<(String, String)> = ["x86_64-unknown-linux-musl", "aarch64-unknown-linux-musl", "aarch64-apple-darwin"]
        .iter()
        .map(|t| (format!("valheim-mods-tui-{t}"), format!("url/{t}")))
        .collect();

    for t in ["x86_64-unknown-linux-musl", "aarch64-unknown-linux-musl", "aarch64-apple-darwin"] {
        let hit = asset_for_target(&published, t).unwrap_or_else(|| panic!("no asset resolved for {t}"));
        assert_eq!(hit.0, format!("valheim-mods-tui-{t}"));
    }
    // The triple this build targets must resolve too.
    assert!(
        asset_for_target(&published, TARGET).is_some(),
        "no release asset would match this build's target {TARGET}"
    );
}

#[test]
fn an_arch_mismatch_is_never_accepted() {
    let only_x86 = vec![("vmt-x86_64-unknown-linux-musl".to_string(), "b".to_string())];
    assert!(asset_for_target(&only_x86, "aarch64-unknown-linux-musl").is_none());
}

#[test]
fn non_executable_downloads_are_rejected() {
    assert!(!looks_like_executable(Os::Linux, b"<!DOCTYPE html><html>rate limited"));
    assert!(!looks_like_executable(Os::Linux, b""));
    assert!(!looks_like_executable(Os::Linux, b"\x7fEL"));
    assert!(looks_like_executable(Os::Linux, b"\x7fELF\x02\x01\x01"));
    assert!(looks_like_executable(Os::Mac, &[0xcf, 0xfa, 0xed, 0xfe, 0x0c]));
    // A binary for the wrong platform must not pass either.
    assert!(!looks_like_executable(Os::Linux, &[0xcf, 0xfa, 0xed, 0xfe, 0x0c]));
}

#[test]
fn the_unconfigured_hint_names_this_build() {
    let hint = unconfigured_hint("0.3.1", TARGET);
    assert!(hint.starts_with("no update source configured."));
    assert!(hint.contains("--update-source <owner/repo>"));
    assert!(hint.ends_with("This build is 0.3.1 for x86_64-unknown-linux-gnu."), "{hint}");
}

#[test]
fn a_release_is_only_taken_when_newer_or_forced() {
    let assets = vec![("vmt-x86_64-unknown-linux-musl".to_string(), "url/x86".to_string())];
    assert!(matches!(choose_release("0.2.0", "v0.2.0", &assets, TARGET, false), ReleaseChoice::UpToDate));
    assert!(matches!(choose_release("0.2.0", "v0.2.0", &assets, TARGET, true), ReleaseChoice::Download(u) if u == "url/x86"));
    assert!(matches!(choose_release("0.1.0", "v0.2.0", &assets, TARGET, false), ReleaseChoice::Download(_)));
    match choose_release("0.1.0", "v0.2.0", &assets, "aarch64-apple-darwin", false) {
        ReleaseChoice::NoAsset(m) => assert_eq!(
            m,
            "release v0.2.0 has no asset for aarch64-apple-darwin; available: vmt-x86_64-unknown-linux-musl"
        ),
        other => panic!("expected no asset, got {other:?}"),
    }
    match choose_release("0.1.0", "v0.2.0", &[], TARGET, false) {
        ReleaseChoice::NoAsset(m) => assert!(m.ends_with("available: none"), "{m}"),
        other => panic!("expected no asset, got {other:?}"),
    }
}

#[test]
fn a_new_binary_is_staged_beside_the_old_one() {
    assert_eq!(staged_path("/usr/local/bin/vmt").as_deref(), Some("/usr/local/bin/.vmt.update"));
    assert_eq!(staged_path("/"), None);
    assert_eq!(
        not_executable_message(TARGET, 33),
        "that download is not an executable for x86_64-unknown-linux-gnu (33 bytes) — check the update source"
    );
}

#[test]
fn unparseable_versions_fall_back_to_different_means_newer() {
    assert!(is_newer("nightly", "dev"));
    assert!(is_newer("dev", "nightly"));
    assert!(!is_newer("nightly", "nightly"));
    assert!(is_newer("1.2.3", "1.2.3-beta"));
    assert!(is_newer("1.2.3-beta", "1.2.3"));
    assert!(!is_newer("v1.x", "v1.x"));
}
