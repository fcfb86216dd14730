use cxporter::batch::{
    batch_verdict, check_concurrency, check_parallel_calls, execute_batch_call,
    parse_batch_input_line, plan_batch, read_batch_items, settle_batch, BatchInput, BatchItem,
    BatchOutputLine, BatchPlan, BatchReport, ResolvedBatchCall, TaskOutcome, ToolResult,
};
use cxporter::catalog::{tool_catalog_from_infos, Tool, ToolCatalog, ToolInfo};
use cxporter::failure::Failure;
use cxporter::json::{parse_json, Json};

fn json(text: &str) -> Json {
    parse_json(text).unwrap()
}

fn info(name: &str, definition: &str) -> ToolInfo {
    ToolInfo {
        server_name: "fake".to_string(),
        callable_name: name.to_string(),
        connector_id: None,
        connector_name: None,
        supports_parallel: false,
        tool: Tool { name: name.to_string(), definition: json(definition) },
    }
}

fn catalog() -> ToolCatalog {
    tool_catalog_from_infos(vec![
        info(
            "echo",
            "{\"name\":\"echo\",\"inputSchema\":{\"type\":\"object\",\"properties\":{\"message\":{\"type\":\"string\"}},\"required\":[\"message\"]}}",
        ),
        info(
            "confluence_search",
            "{\"name\":\"confluence_search\",\"inputSchema\":{\"type\":\"object\",\"properties\":{\"query\":{\"type\":\"string\"}}},\"annotations\":{\"readOnlyHint\":true}}",
        ),
        info(
            "error_tool",
            "{\"name\":\"error_tool\",\"inputSchema\":{\"type\":\"object\",\"properties\":{}}}",
        ),
    ])
}

fn decode(text: &str) -> Result<BatchInput, String> {
    let value = parse_json(text)?;
    let tool = value.member_text("tool").ok_or_else(|| "missing field `tool`".to_string())?;
    let arguments = match value.member("arguments") {
        Some(arguments) => arguments.clone(),
        None => json("{}"),
    };
    Ok(BatchInput { tool, arguments })
}

fn plan(input: &str) -> BatchPlan {
    let lines: Vec<String> = input.lines().map(|line| line.to_string()).collect();
    let items: Vec<BatchItem> = read_batch_items(lines)
        .into_iter()
        .map(|line| BatchItem {
            line: line.line,
            request: parse_batch_input_line(decode(&line.text)),
        })
        .collect();
    plan_batch(&catalog(), "fake", items, true)
}

fn finish(calls: Vec<ResolvedBatchCall>) -> Vec<TaskOutcome> {
    calls
        .into_iter()
        .rev()
        .map(|call| {
            let is_error = call.raw_tool == "error_tool";
            let result = ToolResult { is_error: Some(is_error), value: json("{\"content\":[]}") };
            TaskOutcome::Finished(execute_batch_call("fake", call, Ok(result), 1))
        })
        .collect()
}

#[test]
fn batch_outputs_jsonl_and_continues_after_failures() {
    let plan = plan(
        "{\"tool\":\"echo\",\"arguments\":{\"message\":\"ok\"}}\n{\"tool\":\"error_tool\",\"arguments\":{}}\n{\"tool\":\"echo\",\"arguments\":{}}\nnot json\n",
    );
    let tasks = finish(plan.calls);
    let report: BatchReport = settle_batch("fake", plan.outputs, tasks);
    let lines: &Vec<BatchOutputLine> = &report.lines;
    assert_eq!(lines.len(), 4);
    assert_eq!(lines[0].line, 1);
    assert_eq!(lines[0].success, true);
    assert_eq!(lines[1].line, 2);
    assert_eq!(lines[1].success, false);
    assert_eq!(lines[1].error.as_deref(), Some("tool returned isError=true"));
    assert_eq!(lines[2].line, 3);
    assert_eq!(lines[2].success, false);
    assert!(lines[2].error.as_deref().unwrap().contains("missing required properties"));
    assert_eq!(lines[3].line, 4);
    assert_eq!(lines[3].success, false);
    assert!(lines[3].error.as_deref().unwrap().contains("invalid JSONL"));
    assert_eq!(lines[3].tool, "<invalid>");
    assert_eq!(report.failures, 3);
    assert_eq!(
        batch_verdict(report.failures).unwrap_err().message(),
        "batch completed with 3 failed line(s)"
    );
}

#[test]
fn batch_rejects_parallel_non_parallel_tools_without_force() {
    let plan = plan(
        "{\"tool\":\"echo\",\"arguments\":{\"message\":\"one\"}}\n{\"tool\":\"echo\",\"arguments\":{\"message\":\"two\"}}\n",
    );
    let failure = check_parallel_calls(2, false, &plan.calls).unwrap_err();
    assert!(failure.message().contains("do not advertise parallel call support"));
    assert!(failure.message().contains("raw=echo exported=fake.echo"));
    assert!(matches!(failure, Failure::NotParallel { tools } if tools.len() == 1));
    assert!(check_parallel_calls(1, false, &plan.calls).is_ok());
}

#[test]
fn batch_allows_force_parallel_for_non_parallel_tools() {
    let plan = plan(
        "{\"tool\":\"echo\",\"arguments\":{\"message\":\"one\"}}\n{\"tool\":\"echo\",\"arguments\":{\"message\":\"two\"}}\n",
    );
    assert!(check_parallel_calls(2, true, &plan.calls).is_ok());
    let report = settle_batch("fake", plan.outputs, finish(plan.calls));
    assert_eq!(report.lines.len(), 2);
    assert!(report.lines.iter().all(|line| line.success));
}

#[test]
fn batch_allows_parallel_read_only_tools() {
    let plan = plan(
        "{\"tool\":\"confluence_search\",\"arguments\":{\"query\":\"one\"}}\n{\"tool\":\"confluence_search\",\"arguments\":{\"query\":\"two\"}}\n",
    );
    assert!(check_parallel_calls(2, false, &plan.calls).is_ok());
    let report = settle_batch("fake", plan.outputs, finish(plan.calls));
    assert_eq!(report.lines.len(), 2);
    assert!(report.lines.iter().all(|line| line.success));
    assert!(batch_verdict(report.failures).is_ok());
}

#[test]
fn blank_lines_are_counted_and_skipped() {
    let lines = vec!["".to_string(), "a".to_string(), " \t\u{3000}".to_string(), "b".to_string()];
    let requests = read_batch_items(lines);
    let numbered: Vec<(usize, String)> =
        requests.into_iter().map(|request| (request.line, request.text)).collect();
    assert_eq!(numbered, vec![(2, "a".to_string()), (4, "b".to_string())]);
}

#[test]
fn a_concurrency_of_zero_is_refused() {
    assert_eq!(
        check_concurrency(0).unwrap_err().message(),
        "--concurrency must be greater than 0"
    );
    assert!(check_concurrency(1).is_ok());
}

#[test]
fn batch_arguments_are_an_object() {
    let request = parse_batch_input_line(Ok(BatchInput {
        tool: "echo".to_string(),
        arguments: Json::Null,
    }));
    assert_eq!(request.unwrap_err().message(), "batch arguments must be a JSON object");
    let broken = parse_batch_input_line(Err("expected value at line 1 column 1".to_string()));
    assert_eq!(
        broken.unwrap_err().message(),
        "invalid JSONL batch line: expected value at line 1 column 1"
    );
}

#[test]
fn failed_calls_name_their_line() {
    let mut plan = plan("\n{\"tool\":\"fake.echo\",\"arguments\":{\"message\":\"ok\"}}\n");
    let call = plan.calls.pop().unwrap();
    let output = execute_batch_call("fake", call, Err("temporary failure".to_string()), 3);
    assert_eq!(output.line, 2);
    assert_eq!(output.tool, "fake.echo");
    assert_eq!(output.raw_tool.as_deref(), Some("echo"));
    assert_eq!(output.attempts, 3);
    assert!(output.result.is_none());
    assert_eq!(
        output.error.as_deref(),
        Some("tool call failed for `echo` on line 2: temporary failure")
    );
}

#[test]
fn tasks_without_an_output_are_reported_first() {
    let mut plan = plan("{\"tool\":\"echo\",\"arguments\":{\"message\":\"ok\"}}\n{\"tool\":\"?\"}\n");
    let call = plan.calls.pop().unwrap();
    let result = ToolResult { is_error: None, value: Json::Null };
    let report = settle_batch(
        "fake",
        plan.outputs,
        vec![
            TaskOutcome::Finished(execute_batch_call("fake", call, Ok(result), 1)),
            TaskOutcome::Broken("panic".to_string()),
            TaskOutcome::Refused("batch semaphore closed: x".to_string()),
        ],
    );
    let lines: Vec<usize> = report.lines.iter().map(|line| line.line).collect();
    assert_eq!(lines, vec![0, 0, 1, 2]);
    assert_eq!(report.lines[0].error.as_deref(), Some("batch task failed: panic"));
    assert_eq!(report.lines[1].error.as_deref(), Some("batch semaphore closed: x"));
    assert_eq!(report.lines[0].tool, "<internal>");
    assert!(report.lines[2].success);
    assert!(report.lines[3].error.as_deref().unwrap().starts_with("unknown tool '?'"));
    assert_eq!(report.failures, 3);
}

#[test]
fn blank_lines_are_white_space_of_any_kind() {
    for code in 0..=0x10ffffu32 {
        if let Some(character) = char::from_u32(code) {
            let lines = vec![character.to_string()];
            assert_eq!(read_batch_items(lines).is_empty(), character.is_whitespace());
        }
    }
}
