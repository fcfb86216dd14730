use cxporter::arguments::{
    accept_arguments, default_arguments, parse_arguments_json, prepare_call, read_arguments,
    validate_required_arguments, ArgumentSource,
};
use cxporter::catalog::{
    resolve_tool_entry, tool_catalog_from_infos, tool_schema, tool_schema_value, Tool, ToolCatalog,
    ToolInfo,
};
use cxporter::failure::Failure;
use cxporter::json::{json_from_value, parse_json, Json};

fn json(text: &str) -> Json {
    parse_json(text).unwrap()
}

fn info(server: &str, name: &str, callable: &str, definition: &str) -> ToolInfo {
    ToolInfo {
        server_name: server.to_string(),
        callable_name: callable.to_string(),
        connector_id: None,
        connector_name: None,
        supports_parallel: false,
        tool: Tool { name: name.to_string(), definition: json(definition) },
    }
}

fn fake_catalog() -> ToolCatalog {
    tool_catalog_from_infos(vec![info(
        "fake",
        "echo",
        "mcp__fake__echo",
        "{\"name\":\"echo\",\"description\":\"Echo input\",\"inputSchema\":{\"type\":\"object\",\"properties\":{\"message\":{\"type\":\"string\"}},\"required\":[\"message\"]}}",
    )])
}

#[test]
fn call_reads_args_file_and_accepts_exported_tool_alias() {
    let source = read_arguments(None, Some("args.json")).unwrap();
    assert!(matches!(source, ArgumentSource::File(path) if path == "args.json"));
    let arguments = parse_arguments_json("{\"message\":\"from file\"}").unwrap();
    let catalog = fake_catalog();
    let entry = prepare_call(&catalog, "fake", "fake.echo", &arguments, true).unwrap();
    assert_eq!(entry.raw_tool, "echo");
    assert_eq!(arguments.member_text("message").unwrap(), "from file");
}

#[test]
fn call_reads_args_file_from_stdin() {
    let source = read_arguments(None, Some("-")).unwrap();
    assert!(matches!(source, ArgumentSource::Stdin));
    let arguments = parse_arguments_json("{\"message\":\"from stdin\"}").unwrap();
    let catalog = fake_catalog();
    let entry = prepare_call(&catalog, "fake", "echo", &arguments, true).unwrap();
    assert_eq!(entry.raw_tool, "echo");
}

#[test]
fn arguments_come_from_one_place() {
    assert!(matches!(
        read_arguments(Some("{}"), Some("f")),
        Err(Failure::ConflictingArguments)
    ));
    assert_eq!(
        Failure::ConflictingArguments.message(),
        "pass either ARGUMENTS_JSON or --args-file, not both"
    );
    assert!(matches!(
        read_arguments(Some("{\"a\":1}"), None),
        Ok(ArgumentSource::Inline(text)) if text == "{\"a\":1}"
    ));
    assert!(matches!(
        read_arguments(None, None),
        Ok(ArgumentSource::Inline(text)) if text == "{}"
    ));
}

#[test]
fn arguments_are_a_json_object() {
    assert_eq!(
        parse_arguments_json("[1]").unwrap_err().message(),
        "tool arguments must be a JSON object"
    );
    let message = parse_arguments_json("{\"a\"").unwrap_err().message();
    assert!(message.starts_with("tool arguments must be a JSON value: EOF while parsing"));
    assert_eq!(parse_arguments_json("{}").unwrap(), default_arguments());
    assert!(matches!(accept_arguments(Ok(Json::Null)), Err(Failure::ArgumentsNotObject)));
}

#[test]
fn json_is_taken_over_level_by_level() {
    let value: serde_json::Value =
        serde_json::from_str("{\"b\":[null,true,1.5,\"x\"],\"a\":{}}").unwrap();
    let json = json_from_value(value);
    assert_eq!(
        json,
        Json::Object(vec![
            ("a".to_string(), Json::Object(Vec::new())),
            (
                "b".to_string(),
                Json::Array(vec![
                    Json::Null,
                    Json::Bool(true),
                    Json::Number(serde_json::Number::from_f64(1.5).unwrap()),
                    Json::Text("x".to_string()),
                ])
            ),
        ])
    );
}

#[test]
fn setting_a_member_keeps_the_others() {
    let changed = json("{\"a\":1,\"b\":2}").with("b", Json::Null);
    assert_eq!(changed, json("{\"a\":1,\"b\":null}"));
    let added = json("{\"a\":1}").with("c", Json::Bool(true));
    assert_eq!(added.member("c"), Some(&Json::Bool(true)));
    assert_eq!(added.member("a"), json("{\"a\":1}").member("a"));
    assert_eq!(Json::Null.with("c", Json::Null), Json::Null);
}

#[test]
fn missing_properties_are_named() {
    let schema = json(
        "{\"properties\":{\"message\":{},\"count\":{}},\"required\":[\"message\",7,\"count\"]}",
    );
    let failure =
        validate_required_arguments("fake", "echo", &json("{\"count\":1,\"text\":2}"), &schema)
            .unwrap_err();
    assert_eq!(
        failure.message(),
        "arguments do not satisfy fake/echo input schema: missing required properties: message; \
         unknown provided properties: text; known properties: count, message; \
         inspect schema with: cxporter schema fake echo; bypass this local check with --no-preflight"
    );
}

#[test]
fn unknown_properties_alone_are_no_failure() {
    let schema = json("{\"properties\":{\"message\":{}},\"required\":[\"message\"]}");
    assert!(validate_required_arguments(
        "fake",
        "echo",
        &json("{\"message\":1,\"text\":2}"),
        &schema
    )
    .is_ok());
    assert!(validate_required_arguments("s", "t", &json("{}"), &json("{}")).is_ok());
    assert!(validate_required_arguments("s", "t", &json("{}"), &json("true")).is_ok());
}

#[test]
fn clauses_without_properties_are_left_out() {
    let failure =
        validate_required_arguments("s", "t", &json("{\"x\":1}"), &json("{\"required\":[\"a\"]}"))
            .unwrap_err();
    assert_eq!(
        failure.message(),
        "arguments do not satisfy s/t input schema: missing required properties: a; \
         inspect schema with: cxporter schema s t; bypass this local check with --no-preflight"
    );
}

#[test]
fn the_check_wants_an_object() {
    assert!(matches!(
        validate_required_arguments("s", "t", &Json::Null, &json("{}")),
        Err(Failure::ArgumentsNotObject)
    ));
}

#[test]
fn without_the_check_any_arguments_go_out() {
    let catalog = fake_catalog();
    assert!(prepare_call(&catalog, "fake", "echo", &json("{}"), false).is_ok());
    assert!(matches!(
        prepare_call(&catalog, "fake", "echo", &json("{}"), true),
        Err(Failure::MissingProperties { .. })
    ));
}

#[test]
fn tools_go_by_three_names() {
    let catalog = fake_catalog();
    for name in ["echo", "fake.echo", "mcp__fake__echo"] {
        assert_eq!(resolve_tool_entry(&catalog, "fake", name).unwrap().raw_tool, "echo");
    }
}

#[test]
fn unknown_tools_are_refused() {
    let catalog = fake_catalog();
    assert_eq!(
        resolve_tool_entry(&catalog, "fake", "nope").unwrap_err().message(),
        "unknown tool 'nope' on MCP server 'fake'; use `cxporter list --server fake \
         --name-contains nope` to inspect raw and exported names"
    );
    assert!(resolve_tool_entry(&catalog, "other", "echo").is_err());
}

#[test]
fn ambiguous_names_are_refused() {
    let catalog = tool_catalog_from_infos(vec![
        info("s", "b-c", "same", "{}"),
        info("s", "a", "same", "{}"),
    ]);
    assert_eq!(
        resolve_tool_entry(&catalog, "s", "same").unwrap_err().message(),
        "ambiguous tool alias 'same' on MCP server 's': raw=a exported=s.a; raw=b-c exported=s.b_c"
    );
}

#[test]
fn schemas_are_found_by_name() {
    let catalog = fake_catalog();
    let schema = tool_schema(&catalog, "fake", "fake.echo").unwrap();
    assert_eq!(schema.member_text("type").unwrap(), "object");
    let bare = Tool { name: "bare".to_string(), definition: json("{}") };
    assert_eq!(
        tool_schema_value(&bare).unwrap_err().message(),
        "tool 'bare' does not expose an inputSchema"
    );
}

#[test]
fn catalogs_are_sorted_and_numbered() {
    let catalog = tool_catalog_from_infos(vec![
        info("s", "b", "c1", "{}"),
        info("s", "a b", "c2", "{}"),
        info("s", "a-b", "c3", "{}"),
    ]);
    let names: Vec<(&str, &str)> = catalog
        .entries
        .iter()
        .map(|entry| (entry.raw_tool.as_str(), entry.exported_tool.as_str()))
        .collect();
    assert_eq!(names, vec![("a b", "s.a_b"), ("a-b", "s.a_b.2"), ("b", "s.b")]);
}
