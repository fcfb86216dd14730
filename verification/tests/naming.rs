use cxporter::naming::{
    exported_tool_base_name, sanitize_export_component, strip_export_prefix,
    unique_exported_tool_name, UsedNames,
};

#[test]
fn exported_tool_base_name_groups_codex_apps_by_connector() {
    assert_eq!(
        exported_tool_base_name("codex_apps", Some("GitHub"), "github_fetch_pr"),
        "codex_apps.github.fetch_pr"
    );
}

#[test]
fn exported_tool_base_name_sanitizes_connector_names() {
    assert_eq!(
        exported_tool_base_name("codex_apps", Some("Google Drive"), "google drive_search"),
        "codex_apps.google_drive.search"
    );
}

#[test]
fn exported_tool_base_name_keeps_registered_servers_flat() {
    assert_eq!(
        exported_tool_base_name("my-server", None, "lookup.item"),
        "my_server.lookup_item"
    );
}

#[test]
fn connector_without_letters_is_unnamed() {
    assert_eq!(exported_tool_base_name("s", Some("--"), "tool"), "s.unnamed.tool");
    assert_eq!(exported_tool_base_name("s", Some(""), "tool"), "s.unnamed.tool");
}

#[test]
fn components_are_sanitized() {
    assert_eq!(sanitize_export_component("Google  Drive!"), "google_drive");
    assert_eq!(sanitize_export_component("__A--b__"), "a_b");
    assert_eq!(sanitize_export_component(""), "unnamed");
    assert_eq!(sanitize_export_component("\u{e9}t\u{e9}"), "t");
    assert_eq!(sanitize_export_component("ABC xyz 019"), "abc_xyz_019");
}

#[test]
fn sanitizing_twice_changes_nothing() {
    for value in ["Google Drive", "a.b-c", "", "___", "x"] {
        let once = sanitize_export_component(value);
        assert_eq!(sanitize_export_component(&once), once);
    }
}

#[test]
fn prefixes_are_stripped_with_their_separator() {
    assert_eq!(strip_export_prefix("github_fetch_pr", "github"), "fetch_pr");
    assert_eq!(strip_export_prefix("github-fetch", "github"), "fetch");
    assert_eq!(strip_export_prefix("github_", "github"), "github_");
    assert_eq!(strip_export_prefix("github", "github"), "github");
    assert_eq!(strip_export_prefix("githubber", "github"), "githubber");
    assert_eq!(strip_export_prefix("other_tool", "github"), "other_tool");
}

#[test]
fn repeated_names_are_numbered() {
    let mut used = UsedNames::new();
    assert_eq!(unique_exported_tool_name("a.b", &mut used), "a.b");
    assert_eq!(unique_exported_tool_name("a.b", &mut used), "a.b.2");
    assert_eq!(unique_exported_tool_name("a.c", &mut used), "a.c");
    assert_eq!(unique_exported_tool_name("a.b", &mut used), "a.b.3");
}

#[test]
fn a_base_name_that_looks_numbered_repeats_a_name() {
    let mut used = UsedNames::new();
    assert_eq!(unique_exported_tool_name("a.b", &mut used), "a.b");
    assert_eq!(unique_exported_tool_name("a.b", &mut used), "a.b.2");
    assert_eq!(unique_exported_tool_name("a.b.2", &mut used), "a.b.2");
}

#[test]
fn connector_names_are_not_repeated() {
    assert_eq!(
        exported_tool_base_name("s", Some("Google Drive"), "Google Drive-search files"),
        "s.google_drive.search_files"
    );
    assert_eq!(exported_tool_base_name("s", Some("a"), "a_a_b"), "s.a.a_b");
}

#[test]
fn upper_and_lower_case_give_one_component() {
    assert_eq!(sanitize_export_component("FETCH pr"), sanitize_export_component("Fetch PR"));
}
