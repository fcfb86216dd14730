use cxporter::apps::{list_apps, metadata_string};
use cxporter::catalog::{tool_catalog_from_infos, Tool, ToolCatalog, ToolInfo};
use cxporter::json::{parse_json, Json};
use cxporter::listing::{
    auth_status_to_wire, contains_ignore_case, list_filters_match, list_servers, print_list_text,
    Detail, ListFilters, ListRow, McpAuthStatus, ServerReports,
};
use cxporter::servers::{select_servers, wanted_servers};

fn json(text: &str) -> Json {
    parse_json(text).unwrap()
}

fn info(server: &str, connector: Option<&str>, name: &str) -> ToolInfo {
    ToolInfo {
        server_name: server.to_string(),
        callable_name: format!("call_{name}"),
        connector_id: connector.map(|_| "id-1".to_string()),
        connector_name: connector.map(|text| text.to_string()),
        supports_parallel: false,
        tool: Tool {
            name: name.to_string(),
            definition: Json::Object(vec![("name".to_string(), Json::Text(name.to_string()))]),
        },
    }
}

fn catalog() -> ToolCatalog {
    tool_catalog_from_infos(vec![
        info("fake", None, "echo"),
        info("fake", None, "confluence_search"),
        info("codex_apps", Some("GitHub"), "github_fetch_pr"),
    ])
}

fn filters() -> ListFilters {
    ListFilters { connector: None, tool: None, name_contains: None }
}

fn reports() -> ServerReports {
    ServerReports {
        resources: vec![("fake".to_string(), vec![json("{\"uri\":\"r\"}")])],
        resource_templates: vec![("fake".to_string(), vec![json("{\"uri\":\"t\"}")])],
        auth_statuses: vec![("fake".to_string(), McpAuthStatus::OAuth)],
    }
}

fn names(list: &[&str]) -> Vec<String> {
    list.iter().map(|name| name.to_string()).collect()
}

#[test]
fn list_filters_tools_and_reports_exported_aliases() {
    let wanted = ListFilters { name_contains: Some("confluence".to_string()), ..filters() };
    let output = list_servers(&names(&["fake"]), &catalog(), Detail::Tools, &wanted, &reports());
    let tools = &output.statuses[0].tools;
    assert!(tools.iter().any(|(name, _)| name == "confluence_search"));
    assert!(!tools.iter().any(|(name, _)| name == "echo"));
    let aliases = &output.statuses[0].tool_aliases;
    assert_eq!(aliases.len(), 1);
    assert_eq!(aliases[0].0, "confluence_search");
    assert_eq!(aliases[0].1.exported_name, "fake.confluence_search");
}

#[test]
fn every_server_has_a_status() {
    let output = list_servers(
        &names(&["codex_apps", "fake"]),
        &catalog(),
        Detail::Full,
        &filters(),
        &reports(),
    );
    assert_eq!(output.statuses.len(), 2);
    assert_eq!(output.statuses[0].name, "codex_apps");
    assert_eq!(output.statuses[0].auth_status, "unsupported");
    assert!(output.statuses[0].resources.is_empty());
    assert_eq!(output.statuses[1].auth_status, "oAuth");
    assert_eq!(output.statuses[1].resources, vec![json("{\"uri\":\"r\"}")]);
    assert_eq!(output.statuses[1].resource_templates, vec![json("{\"uri\":\"t\"}")]);
    let tools: Vec<&str> =
        output.statuses[1].tools.iter().map(|(name, _)| name.as_str()).collect();
    assert_eq!(tools, vec!["confluence_search", "echo"]);
    assert_eq!(output.rows.len(), 3);
}

#[test]
fn tools_alone_bring_no_resources() {
    let output =
        list_servers(&names(&["fake"]), &catalog(), Detail::Tools, &filters(), &reports());
    assert!(output.statuses[0].resources.is_empty());
    assert!(output.statuses[0].resource_templates.is_empty());
}

#[test]
fn one_raw_name_is_listed_once() {
    let twice = tool_catalog_from_infos(vec![
        info("fake", Some("A"), "echo"),
        info("fake", Some("B"), "echo"),
    ]);
    let output = list_servers(&names(&["fake"]), &twice, Detail::Tools, &filters(), &reports());
    assert_eq!(output.statuses[0].tools.len(), 1);
    assert_eq!(output.statuses[0].tool_aliases[0].1.exported_name, "fake.b.echo");
    assert_eq!(output.rows.len(), 2);
}

#[test]
fn filters_look_at_connectors_tools_and_names() {
    let catalog = catalog();
    let github = &catalog.entries[0];
    let echo = &catalog.entries[2];
    assert_eq!(github.exported_tool, "codex_apps.github.fetch_pr");
    assert_eq!(echo.raw_tool, "echo");
    let by_connector = ListFilters { connector: Some("GITHUB".to_string()), ..filters() };
    assert!(list_filters_match(github, &by_connector));
    assert!(!list_filters_match(echo, &by_connector));
    let by_id = ListFilters { connector: Some("ID-1".to_string()), ..filters() };
    assert!(list_filters_match(github, &by_id));
    for name in ["github_fetch_pr", "codex_apps.github.fetch_pr", "call_github_fetch_pr"] {
        let by_tool = ListFilters { tool: Some(name.to_string()), ..filters() };
        assert!(list_filters_match(github, &by_tool));
        assert!(!list_filters_match(echo, &by_tool));
    }
    let upper = ListFilters { tool: Some("GITHUB_FETCH_PR".to_string()), ..filters() };
    assert!(!list_filters_match(github, &upper));
    let by_text = ListFilters { name_contains: Some("FETCH".to_string()), ..filters() };
    assert!(list_filters_match(github, &by_text));
    assert!(!list_filters_match(echo, &by_text));
    assert!(list_filters_match(echo, &filters()));
}

#[test]
fn case_is_ignored_in_any_script() {
    assert!(contains_ignore_case(Some("GitHub"), "HUB"));
    assert!(contains_ignore_case(Some("\u{c9}T\u{c9}"), "\u{e9}t"));
    assert!(contains_ignore_case(Some("x"), ""));
    assert!(!contains_ignore_case(Some("GitHub"), "lab"));
    assert!(!contains_ignore_case(None, ""));
}

#[test]
fn auth_statuses_have_names() {
    assert_eq!(auth_status_to_wire(McpAuthStatus::Unsupported), "unsupported");
    assert_eq!(auth_status_to_wire(McpAuthStatus::NotLoggedIn), "notLoggedIn");
    assert_eq!(auth_status_to_wire(McpAuthStatus::BearerToken), "bearerToken");
    assert_eq!(auth_status_to_wire(McpAuthStatus::OAuth), "oAuth");
}

#[test]
fn the_table_has_a_line_for_each_row() {
    let output =
        list_servers(&names(&["fake"]), &catalog(), Detail::Tools, &filters(), &reports());
    assert_eq!(
        print_list_text(&output.rows),
        "SERVER\tCONNECTOR\tRAW TOOL\tEXPORTED TOOL\n\
         codex_apps\tGitHub\tgithub_fetch_pr\tcodex_apps.github.fetch_pr\n\
         fake\t-\tconfluence_search\tfake.confluence_search\n\
         fake\t-\techo\tfake.echo\n"
    );
    let rows: Vec<ListRow> = Vec::new();
    assert_eq!(print_list_text(&rows), "SERVER\tCONNECTOR\tRAW TOOL\tEXPORTED TOOL\n");
}

#[test]
fn rows_fall_back_to_the_connector_id() {
    let mut tool = info("s", Some("A"), "t");
    tool.connector_name = None;
    let output = list_servers(
        &names(&["s"]),
        &tool_catalog_from_infos(vec![tool]),
        Detail::Tools,
        &filters(),
        &reports(),
    );
    assert_eq!(output.rows[0].connector.as_deref(), Some("id-1"));
}

#[test]
fn servers_are_selected_in_order() {
    let configured = names(&["b", "a", "c"]);
    assert_eq!(select_servers(&configured, &names(&[])).unwrap(), names(&["a", "b", "c"]));
    assert_eq!(select_servers(&configured, &names(&["c", "a", "c"])).unwrap(), names(&["a", "c"]));
    assert_eq!(
        select_servers(&configured, &names(&["a", "x"])).unwrap_err().message(),
        "unknown MCP server 'x'"
    );
    assert_eq!(wanted_servers(Some("a")), names(&["a"]));
    assert!(wanted_servers(None).is_empty());
}

#[test]
fn apps_are_found_in_metadata() {
    let tool = |name: &str, meta: &str| Tool {
        name: name.to_string(),
        definition: Json::Object(vec![("_meta".to_string(), json(meta))]),
    };
    let tools = vec![
        tool("z", "{\"connector_id\":\"2\"}"),
        tool("y", "{\"connector_id\":\"1\",\"connector_name\":\"GitHub\",\"connector_description\":\"d\",\"link_id\":\"l\"}"),
        tool("x", "{\"connector_id\":\"1\",\"connector_name\":\"Other\"}"),
        tool("y", "{\"connector_id\":\"1\"}"),
        tool("w", "{\"connector_id\":7}"),
        tool("v", "null"),
        Tool { name: "u".to_string(), definition: json("{}") },
    ];
    assert_eq!(metadata_string(&tools[1], "link_id").as_deref(), Some("l"));
    let apps = list_apps(&tools);
    assert_eq!(apps.len(), 2);
    assert_eq!(apps[0].id, "1");
    assert_eq!(apps[0].name, "GitHub");
    assert_eq!(apps[0].description.as_deref(), Some("d"));
    assert_eq!(apps[0].link_id.as_deref(), Some("l"));
    assert_eq!(apps[0].tools, names(&["x", "y"]));
    assert!(apps[0].is_accessible && apps[0].is_enabled);
    assert_eq!(apps[1].id, "2");
    assert_eq!(apps[1].name, "2");
    assert_eq!(apps[1].tools, names(&["z"]));
}

#[test]
fn case_is_ignored_on_both_sides() {
    let (front, needle, back) = ("Codex ", "Apps.GitHub", "-pr!");
    let whole = format!("{front}{needle}{back}");
    assert!(contains_ignore_case(Some(&whole), needle));
    assert!(contains_ignore_case(Some(&whole.to_ascii_uppercase()), needle));
    assert!(contains_ignore_case(Some(&whole), &needle.to_ascii_uppercase()));
    assert!(!contains_ignore_case(Some(&whole), "apps github"));
}
