use valheim_mods_tui::compose::{backup_path, discover, edit_text, kind_of, update_compose, update_env, Kind};

fn vars() -> Vec<(&'static str, String)> {
    vec![
        ("MODS", "A-B-1.0.0,C-D-2.0.0".to_string()),
        ("BEPINEXPACK_VERSION", "5.4.2350".to_string()),
    ]
}

#[test]
fn env_files_get_keys_replaced_not_duplicated() {
    let src = "SERVER_NAME=mine\nMODS=old-1.0.0\nPASSWORD=secret\n";
    let out = update_env(src, &vars());
    assert!(out.contains("MODS=A-B-1.0.0,C-D-2.0.0"));
    assert!(!out.contains("old-1.0.0"));
    assert_eq!(out.matches("MODS=").count(), 1);
    // Unrelated settings survive untouched.
    assert!(out.contains("SERVER_NAME=mine"));
    assert!(out.contains("PASSWORD=secret"));
    // A key that was absent is appended.
    assert!(out.contains("BEPINEXPACK_VERSION=5.4.2350"));
}

#[test]
fn a_commented_assignment_is_not_treated_as_the_value() {
    let src = "# MODS=do-not-touch\nSERVER_NAME=mine\n";
    let out = update_env(src, &[("MODS", "new-1.0.0".into())]);
    assert!(out.contains("# MODS=do-not-touch"), "comment must survive");
    assert!(out.contains("\nMODS=new-1.0.0"));
}

#[test]
fn compose_mapping_style_is_updated_in_place() {
    let src = "\
services:
  valheim:
    image: indifferentbroccoli/valheim-server-docker
    environment:
      SERVER_NAME: \"mine\"
      MODS: \"stale-0.0.1\"
    volumes:
      - ./valheim/server-files:/valheim
";
    let out = update_compose(src, Some("valheim"), &vars()).unwrap();
    assert!(out.contains("      MODS: \"A-B-1.0.0,C-D-2.0.0\""), "{out}");
    assert!(!out.contains("stale-0.0.1"));
    assert!(out.contains("      BEPINEXPACK_VERSION: \"5.4.2350\""), "{out}");
    // The rest of the document is untouched, volumes included.
    assert!(out.contains("      SERVER_NAME: \"mine\""));
    assert!(out.contains("      - ./valheim/server-files:/valheim"));
    assert_eq!(out.matches("MODS").count(), 1);
}

#[test]
fn compose_list_style_keeps_its_own_style() {
    let src = "\
services:
  valheim:
    environment:
      - SERVER_NAME=mine
      - MODS=stale
    ports:
      - 2456:2456/udp
";
    let out = update_compose(src, Some("valheim"), &vars()).unwrap();
    assert!(out.contains("      - MODS=A-B-1.0.0,C-D-2.0.0"), "{out}");
    assert!(out.contains("      - BEPINEXPACK_VERSION=5.4.2350"), "{out}");
    assert!(!out.contains("MODS: "), "mapping style must not be introduced");
    assert!(out.contains("      - 2456:2456/udp"));
}

#[test]
fn comments_and_blank_lines_survive_the_edit() {
    let src = "\
# my server
services:
  valheim:
    environment:
      # tuning
      SERVER_NAME: \"mine\"

    restart: unless-stopped
";
    let out = update_compose(src, Some("valheim"), &vars()).unwrap();
    assert!(out.contains("# my server"));
    assert!(out.contains("      # tuning"));
    assert!(out.contains("    restart: unless-stopped"));
    // The new key lands inside the block, above the blank line and the
    // sibling key that follows it.
    let mods = out.find("MODS").unwrap();
    assert!(mods < out.find("restart:").unwrap(), "leaked out of the block:\n{out}");
}

#[test]
fn a_missing_key_is_inserted_into_an_existing_block() {
    let src = "services:\n  valheim:\n    environment:\n      SERVER_NAME: \"mine\"\n";
    let out = update_compose(src, Some("valheim"), &vars()).unwrap();
    assert!(out.contains("      MODS: \"A-B-1.0.0,C-D-2.0.0\""), "{out}");
    assert!(out.contains("      SERVER_NAME: \"mine\""));
}

#[test]
fn the_right_service_is_edited_when_several_exist() {
    let src = "\
services:
  db:
    environment:
      MODS: \"not-this-one\"
  valheim:
    environment:
      MODS: \"this-one\"
";
    let out = update_compose(src, Some("valheim"), &[("MODS", "new".into())]).unwrap();
    assert!(out.contains("MODS: \"not-this-one\""), "db must be untouched:\n{out}");
    assert!(out.contains("MODS: \"new\""));
    assert!(!out.contains("\"this-one\""), "the valheim value should be gone:\n{out}");
}

#[test]
fn a_file_with_no_environment_block_is_refused() {
    let src = "services:\n  valheim:\n    image: x\n";
    let err = update_compose(src, Some("valheim"), &vars()).unwrap_err();
    let text = err.message();
    assert!(text.contains("no `environment:` block"), "{text}");
}

#[test]
fn an_unknown_service_is_refused_rather_than_guessed() {
    let src = "services:\n  valheim:\n    environment:\n      A: \"b\"\n";
    let err = update_compose(src, Some("other"), &vars()).unwrap_err();
    let text = err.message();
    assert!(text.contains("no service named"), "{text}");
}

#[test]
fn file_kind_follows_the_extension() {
    assert_eq!(kind_of("docker-compose.yml"), Kind::Compose);
    assert_eq!(kind_of("compose.yaml"), Kind::Compose);
    assert_eq!(kind_of(".env"), Kind::Env);
    assert_eq!(kind_of("stack.env"), Kind::Env);
}

#[test]
fn kind_follows_the_file_name_not_the_directory() {
    assert_eq!(kind_of("/srv/compose.yml/valheim.env"), Kind::Env);
    assert_eq!(kind_of("/srv/stack/DOCKER-COMPOSE.YML"), Kind::Compose);
}

#[test]
fn discovery_prefers_compose_files_over_env() {
    let files = vec![".env".to_string(), "compose.yaml".to_string(), "notes.txt".to_string()];
    assert_eq!(discover("/srv/valheim", &files).as_deref(), Some("/srv/valheim/compose.yaml"));
    let only_env = vec![".env".to_string()];
    assert_eq!(discover("/srv/valheim", &only_env).as_deref(), Some("/srv/valheim/.env"));
    assert_eq!(discover("/srv/valheim", &["readme".to_string()]), None);
}

#[test]
fn the_backup_keeps_the_extension() {
    assert_eq!(backup_path("/srv/docker-compose.yml"), "/srv/docker-compose.yml.bak");
    assert_eq!(backup_path("/srv/valheim/env"), "/srv/valheim/env.bak");
}

#[test]
fn edits_follow_the_file_kind() {
    let env = edit_text("/srv/.env", "A=1\n", None, &[("A", "2".into())]).unwrap();
    assert_eq!(env, "A=2\n");
    let compose = "services:\n  valheim:\n    environment:\n      A: \"1\"\n";
    let out = edit_text("/srv/compose.yml", compose, None, &[("A", "2".into())]).unwrap();
    assert!(out.contains("      A: \"2\""), "{out}");
    assert!(edit_text("/srv/compose.yml", "services:\n  x:\n    image: y\n", None, &[]).is_err());
}

#[test]
fn refusals_name_the_service_quoted() {
    let src = "services:\n  valheim:\n    environment:\n      A: \"b\"\n";
    let err = update_compose(src, Some("ot\"her"), &vars()).unwrap_err();
    assert_eq!(err.message(), "no service named \"ot\\\"her\" in that file");
    let bare = "services:\n  valheim:\n    image: x\n";
    let err = update_compose(bare, Some("valheim"), &vars()).unwrap_err();
    assert_eq!(err.message(), "service \"valheim\" has no `environment:` block — add one first");
}

#[test]
fn editing_an_env_file_twice_changes_nothing_more() {
    let src = "# MODS=x\nSERVER_NAME=mine\nMODS=old\n";
    let once = update_env(src, &vars());
    assert_eq!(update_env(&once, &vars()), once);
}

#[test]
fn editing_a_compose_file_twice_changes_nothing_more() {
    let src = "services:\n  valheim:\n    environment:\n      SERVER_NAME: \"mine\"\n    ports:\n      - 2456\n";
    let once = update_compose(src, Some("valheim"), &vars()).unwrap();
    assert_eq!(update_compose(&once, Some("valheim"), &vars()).unwrap(), once);
    let list = "services:\n  valheim:\n    environment:\n      - SERVER_NAME=mine\n\n";
    let once = update_compose(list, None, &vars()).unwrap();
    assert_eq!(update_compose(&once, None, &vars()).unwrap(), once);
}

#[test]
fn a_final_blank_line_survives_re_editing() {
    let src = "MODS=old\n\n";
    let once = update_env(src, &vars());
    assert_eq!(update_env(&once, &vars()), once);
    let src = "services:\n  valheim:\n    environment:\n      MODS: \"x\"\n\n";
    let once = update_compose(src, None, &vars()).unwrap();
    assert_eq!(update_compose(&once, None, &vars()).unwrap(), once);
}

#[test]
fn two_final_blank_lines_lose_one_on_each_edit() {
    let src = "MODS=old\nBEPINEXPACK_VERSION=1\n\n\n";
    let once = update_env(src, &vars());
    let twice = update_env(&once, &vars());
    assert_eq!(twice.len() + 1, once.len());
}
