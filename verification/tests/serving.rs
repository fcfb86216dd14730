use cxporter::catalog::{tool_catalog_from_infos, Tool, ToolInfo};
use cxporter::config::{
    apps_mcp_path_override, chatgpt_base_url, client_elicitation_capability, find_on_path,
    resolve_codex_self_exe, FeatureSetting,
};
use cxporter::json::{parse_json, Json};
use cxporter::plugins::{
    latest_version, locate_server, plugin_servers, resolve_path, server_definitions, servers_file, split_plugin_id,
    Plugin,
};
use cxporter::serve::{
    admit_call, build_exported_tool_index, get_info, get_tool, route_call, Capabilities,
    ServeFailure,
};

fn json(text: &str) -> Json {
    parse_json(text).unwrap()
}

fn info(name: &str, definition: &str) -> ToolInfo {
    ToolInfo {
        server_name: "fake".to_string(),
        callable_name: name.to_string(),
        connector_id: None,
        connector_name: None,
        supports_parallel: false,
        tool: Tool { name: name.to_string(), definition: json(definition) },
    }
}

#[test]
fn serve_exports_and_calls_configured_mcp_server_tools() {
    assert_eq!(get_info().name, "cxporter");
    assert_eq!(
        get_info().capabilities,
        Capabilities {
            tools: true,
            prompts: false,
            resources: false,
            logging: false,
            completions: false,
            tasks: false,
            extensions: false,
            experimental: false,
        }
    );
    let catalog = tool_catalog_from_infos(vec![info(
        "echo",
        "{\"name\":\"echo\",\"description\":\"Echo input\",\"inputSchema\":{\"type\":\"object\",\"properties\":{\"message\":{\"type\":\"string\"}},\"required\":[\"message\"]}}",
    )]);
    let index = build_exported_tool_index(&catalog);
    let tool_names: Vec<&str> = index.tools.iter().map(|tool| tool.name.as_str()).collect();
    assert_eq!(tool_names, vec!["fake.echo"]);
    let arguments = vec![("message".to_string(), Json::Text("hello from e2e".to_string()))];
    let call = route_call(&index, "fake.echo", Some(arguments), None).unwrap();
    assert_eq!(call.server, "fake");
    assert_eq!(call.tool, "echo");
    assert_eq!(call.arguments.member_text("message").as_deref(), Some("hello from e2e"));
    assert!(call.meta.is_none());
}

#[test]
fn exported_definitions_carry_the_exported_name() {
    let catalog = tool_catalog_from_infos(vec![
        info("b", "{\"name\":\"b\",\"description\":\"B\"}"),
        info("a", "{\"name\":\"a\"}"),
    ]);
    let index = build_exported_tool_index(&catalog);
    assert_eq!(index.tools[0].name, "fake.a");
    assert_eq!(index.tools[1].definition.member_text("name").as_deref(), Some("fake.b"));
    assert_eq!(index.tools[1].definition.member_text("description").as_deref(), Some("B"));
    assert_eq!(get_tool(&index, "fake.a").unwrap().name, "fake.a");
    assert!(get_tool(&index, "a").is_none());
}

#[test]
fn calls_that_cannot_be_routed_are_refused() {
    let index = build_exported_tool_index(&tool_catalog_from_infos(vec![info("a", "{}")]));
    let unknown = route_call(&index, "a", None, None).unwrap_err();
    assert!(unknown.is_invalid_params());
    assert_eq!(unknown.message(), "unknown cxporter-exported tool 'a'");
    let late = route_call(&index, "fake.a", None, None).unwrap();
    let stopping = admit_call(late, false).unwrap_err();
    assert!(!stopping.is_invalid_params());
    assert_eq!(stopping.message(), "cxporter MCP server is shutting down");
    let meta = vec![("progressToken".to_string(), Json::Bool(true))];
    let call = route_call(&index, "fake.a", None, Some(meta)).unwrap();
    let call = admit_call(call, true).unwrap();
    assert_eq!(call.arguments, json("{}"));
    assert_eq!(call.meta, Some(json("{\"progressToken\":true}")));
}

#[test]
fn failed_calls_are_described() {
    let failed = ServeFailure::CallFailed {
        server: "s".to_string(),
        tool: "t".to_string(),
        cause: "broken pipe".to_string(),
    };
    assert_eq!(failed.message(), "tool call failed for `s/t`: broken pipe");
    let encode = ServeFailure::ResultNotEncoded { cause: "x".to_string() };
    assert_eq!(encode.message(), "failed to serialize Codex tool result: x");
    let decode = ServeFailure::ResultNotDecoded { cause: "y".to_string() };
    assert_eq!(decode.message(), "failed to decode Codex tool result: y");
    assert!(!decode.is_invalid_params());
}

#[test]
fn the_program_presents_itself() {
    let info = get_info();
    assert_eq!(info.title, "cxporter");
    assert_eq!(
        info.description,
        "Proxy for Codex-authenticated MCP tools and codex_apps connectors."
    );
    assert!(info.instructions.ends_with("for example codex_apps.github.fetch_pr."));
}

fn fixture(enabled: bool, root: &str, server: &str, definition: &str) -> Plugin {
    let file = Json::Object(vec![(
        "mcpServers".to_string(),
        Json::Object(vec![(server.to_string(), json(definition))]),
    )]);
    Plugin { enabled, root: root.to_string(), servers: server_definitions(&file) }
}

#[test]
fn list_includes_enabled_plugin_mcp_server() {
    assert_eq!(
        split_plugin_id("fixture@local"),
        Some(("fixture".to_string(), "local".to_string()))
    );
    let manifest = json("{\"name\":\"fixture\",\"version\":\"0.1.0\",\"mcpServers\":\"./.mcp.json\"}");
    assert_eq!(servers_file(&manifest).as_deref(), Some("./.mcp.json"));
    let plugin = fixture(true, "/home/p", "plugin-fake", "{\"command\":\"/x.sh\",\"args\":[]}");
    let servers = plugin_servers(&Vec::new(), &vec![plugin]);
    assert_eq!(servers.len(), 1);
    assert_eq!(servers[0].0, "plugin-fake");
    assert_eq!(servers[0].1, json("{\"command\":\"/x.sh\",\"args\":[]}"));
}

#[test]
fn user_defined_mcp_server_shadows_plugin_mcp_server() {
    let plugin = fixture(true, "/home/p", "same-name", "{\"command\":\"/plugin.sh\"}");
    let servers = plugin_servers(&vec!["same-name".to_string()], &vec![plugin]);
    assert!(servers.is_empty());
}

#[test]
fn plugin_relative_cwd_is_resolved_from_plugin_root() {
    let plugin = fixture(
        true,
        "/home/plugins/cache/local/cwd-fixture/0.1.0",
        "cwd-plugin",
        "{\"command\":\"./fake_mcp_server.sh\",\"cwd\":\".\"}",
    );
    let servers = plugin_servers(&Vec::new(), &vec![plugin]);
    assert_eq!(
        servers[0].1,
        json("{\"command\":\"./fake_mcp_server.sh\",\"cwd\":\"/home/plugins/cache/local/cwd-fixture/0.1.0/.\"}")
    );
}

#[test]
fn disabled_plugins_bring_no_servers() {
    let off = fixture(false, "/p", "a", "{}");
    let on = fixture(true, "/q", "b", "{\"command\":\"first\"}");
    let again = fixture(true, "/r", "b", "{\"command\":\"second\"}");
    let servers = plugin_servers(&Vec::new(), &vec![off, on, again]);
    assert_eq!(servers.len(), 1);
    assert_eq!(servers[0].1.member_text("command").as_deref(), Some("first"));
}

#[test]
fn paths_are_joined() {
    assert_eq!(resolve_path("/a", "b/c"), "/a/b/c");
    assert_eq!(resolve_path("/a/", "b"), "/a/b");
    assert_eq!(resolve_path("/a", "/b"), "/b");
    assert_eq!(resolve_path("", "b"), "b");
    assert_eq!(locate_server(&json("{\"cwd\":null}"), "/a"), json("{\"cwd\":null}"));
    assert_eq!(locate_server(&json("{\"cwd\":\"/b\"}"), "/a"), json("{\"cwd\":\"/b\"}"));
}

#[test]
fn plugin_ids_are_taken_apart() {
    assert_eq!(split_plugin_id("a@b@c"), Some(("a@b".to_string(), "c".to_string())));
    assert_eq!(split_plugin_id("plain"), None);
    assert_eq!(split_plugin_id("@m"), Some(("".to_string(), "m".to_string())));
    assert!(server_definitions(&json("{\"mcpServers\":[]}")).is_empty());
}

#[test]
fn the_runtime_executable_is_picked_in_order() {
    assert_eq!(resolve_codex_self_exe(Some("env"), Some("path"), Some("own")), Some("env"));
    assert_eq!(resolve_codex_self_exe(None, Some("path"), Some("own")), Some("path"));
    assert_eq!(resolve_codex_self_exe(None, None, Some("own")), Some("own"));
    assert_eq!(resolve_codex_self_exe::<&str>(None, None, None), None);
    assert_eq!(find_on_path(vec![("a", false), ("b", true), ("c", true)]), Some("b"));
    assert_eq!(find_on_path(vec![("a", false)]), None);
}

#[test]
fn the_configuration_has_defaults() {
    assert_eq!(chatgpt_base_url(None), "https://chatgpt.com/backend-api/");
    assert_eq!(chatgpt_base_url(Some("http://x".to_string())), "http://x");
    assert_eq!(apps_mcp_path_override(None), None);
    assert_eq!(apps_mcp_path_override(Some(FeatureSetting::Enabled(true))), None);
    assert_eq!(
        apps_mcp_path_override(Some(FeatureSetting::Path(Some("/p".to_string())))).as_deref(),
        Some("/p")
    );
    let asks = client_elicitation_capability(true);
    assert!(asks.form && asks.url);
    let quiet = client_elicitation_capability(false);
    assert!(!quiet.form && !quiet.url);
}

#[test]
fn the_latest_version_is_picked_by_number() {
    let pick = |list: &[&str]| {
        latest_version(&list.iter().map(|version| version.to_string()).collect())
    };
    assert_eq!(pick(&["0.9.0", "0.10.0", "0.2.11"]).as_deref(), Some("0.10.0"));
    assert_eq!(pick(&["1.0", "1.0.0"]).as_deref(), Some("1.0.0"));
    assert_eq!(pick(&["1.0.0-rc1", "1.0.0"]).as_deref(), Some("1.0.0"));
    assert_eq!(pick(&["01.2", "1.2"]).as_deref(), Some("01.2"));
    assert_eq!(
        pick(&["2", "99999999999999999999999999", "100000000000000000000000000"]).as_deref(),
        Some("100000000000000000000000000")
    );
    assert_eq!(pick(&["local", "beta"]).as_deref(), Some("local"));
    assert_eq!(pick(&[]), None);
}

#[test]
fn tools_without_connectors_have_names_of_their_own() {
    let catalog = tool_catalog_from_infos(vec![
        info("a", "{}"),
        info("a!", "{}"),
        info("a.2", "{}"),
    ]);
    let mut names: Vec<String> =
        catalog.entries.iter().map(|entry| entry.exported_tool.clone()).collect();
    names.sort();
    assert_eq!(names, vec!["fake.a", "fake.a.2", "fake.a_2"]);
}
