//! Batches of tool calls: one request per line in, one result per line out.

use crate::arguments::{call_entry, check_view, law_calls_that_go_out, prepare_call};
use crate::catalog::{resolution, EntryView, ToolCatalog};
use crate::failure::{text_pairs, Failure, FailureView};
use crate::json::{Json, JsonView};
use crate::sort::{
    law_sort_in_order, law_sort_keeps_items, law_sort_keeps_ties, lemma_filter_none,
    lemma_filter_push, lemma_mapped_multiset, lemma_same_distinct, lemma_sort_mapped, rank,
    sorted_by, stable_sort, tied_with, Ranked,
};
use crate::text::{blank, decimal, decimal_text, is_blank, optional_text, same_text, texts};
use vstd::prelude::*;
use vstd::seq_lib::{lemma_multiset_commutative, lemma_sorted_unique};
use vstd::string::*;

verus! {

/// A line of a batch's input, with its number.
#[derive(Debug)]
pub struct BatchLine {
    pub line: usize,
    pub text: String,
}

/// What batch lines stand for: numbers and texts.
pub open spec fn line_views(lines: Seq<BatchLine>) -> Seq<(nat, Seq<char>)> {
    Seq::new(lines.len(), |i: int| (lines[i].line as nat, lines[i].text@))
}

/// The lines that hold a request: those that are not blank, numbered from one.
pub open spec fn request_lines(lines: Seq<Seq<char>>) -> Seq<(nat, Seq<char>)>
    decreases lines.len(),
{
    if lines.len() == 0 {
        Seq::empty()
    } else {
        let front = request_lines(lines.drop_last());
        if blank(lines.last()) {
            front
        } else {
            front.push((lines.len(), lines.last()))
        }
    }
}

/// Numbers the lines of a batch's input and leaves out the blank ones.
pub fn read_batch_items(lines: Vec<String>) -> (requests: Vec<BatchLine>)
    ensures
        line_views(requests@) == request_lines(texts(lines@)),
{
    let mut requests: Vec<BatchLine> = Vec::new();
    let ghost source = texts(lines@);
    let ghost strings = lines@;
    let total: usize = lines.len();
    let mut number: usize = 0;
    assert(line_views(requests@) =~= request_lines(source.take(0)));
    for text in it: lines
        invariant
            it.seq() == strings,
            source == texts(strings),
            strings.len() == total,
            number == it.index(),
            line_views(requests@) == request_lines(source.take(number as int)),
    {
        let ghost upto = source.take(number + 1);
        assert(upto.drop_last() =~= source.take(number as int));
        assert(upto.last() == text@);
        number += 1;
        if !is_blank(text.as_str()) {
            let ghost earlier = line_views(requests@);
            requests.push(BatchLine { line: number, text });
            assert(line_views(requests@) =~= earlier.push((number as nat, text@)));
        }
    }
    assert(source.take(source.len() as int) =~= source);
    requests
}

/// A request of a batch.
#[derive(Debug)]
pub struct BatchInput {
    pub tool: String,
    pub arguments: Json,
}

/// What a `BatchInput` stands for.
pub struct InputView {
    pub tool: Seq<char>,
    pub arguments: JsonView,
}

impl View for BatchInput {
    type V = InputView;

    open spec fn view(&self) -> InputView {
        InputView { tool: self.tool@, arguments: self.arguments@ }
    }
}

/// What a decoded line stands for.
pub open spec fn decoded_view(decoded: Result<BatchInput, String>) -> Result<
    InputView,
    Seq<char>,
> {
    match decoded {
        Ok(input) => Ok(input@),
        Err(cause) => Err(cause@),
    }
}

/// What a request stands for.
pub open spec fn request_view(request: Result<BatchInput, Failure>) -> Result<
    InputView,
    FailureView,
> {
    match request {
        Ok(input) => Ok(input@),
        Err(failure) => Err(failure@),
    }
}

/// The request of a decoded line: its arguments must be an object.
pub open spec fn request_of(decoded: Result<InputView, Seq<char>>) -> Result<
    InputView,
    FailureView,
> {
    match decoded {
        Err(cause) => Err(FailureView::InvalidBatchLine { cause }),
        Ok(input) => if input.arguments is Object {
            Ok(input)
        } else {
            Err(FailureView::BatchArgumentsNotObject)
        },
    }
}

/// Takes a decoded line as a request.
pub fn parse_batch_input_line(decoded: Result<BatchInput, String>) -> (request: Result<
    BatchInput,
    Failure,
>)
    ensures
        request_view(request) == request_of(decoded_view(decoded)),
{
    match decoded {
        Err(cause) => Err(Failure::InvalidBatchLine { cause }),
        Ok(input) => {
            if input.arguments.is_object() {
                Ok(input)
            } else {
                Err(Failure::BatchArgumentsNotObject)
            }
        }
    }
}

/// A request of a batch, or what is wrong with it, with the number of its line.
#[derive(Debug)]
pub struct BatchItem {
    pub line: usize,
    pub request: Result<BatchInput, Failure>,
}

/// What a `BatchItem` stands for.
pub struct ItemView {
    pub line: nat,
    pub request: Result<InputView, FailureView>,
}

impl View for BatchItem {
    type V = ItemView;

    open spec fn view(&self) -> ItemView {
        ItemView { line: self.line as nat, request: request_view(self.request) }
    }
}

/// The views of items.
pub open spec fn item_views(items: Seq<BatchItem>) -> Seq<ItemView> {
    Seq::new(items.len(), |i: int| items[i]@)
}

/// A call that a batch makes.
#[derive(Debug)]
pub struct ResolvedBatchCall {
    pub line: usize,
    pub requested_tool: String,
    pub raw_tool: String,
    pub exported_tool: String,
    pub parallel: bool,
    pub arguments: Json,
}

/// What a `ResolvedBatchCall` stands for.
pub struct CallView {
    pub line: nat,
    pub requested_tool: Seq<char>,
    pub raw_tool: Seq<char>,
    pub exported_tool: Seq<char>,
    pub parallel: bool,
    pub arguments: JsonView,
}

impl View for ResolvedBatchCall {
    type V = CallView;

    open spec fn view(&self) -> CallView {
        CallView {
            line: self.line as nat,
            requested_tool: self.requested_tool@,
            raw_tool: self.raw_tool@,
            exported_tool: self.exported_tool@,
            parallel: self.parallel,
            arguments: self.arguments@,
        }
    }
}

/// The views of calls.
pub open spec fn call_views(calls: Seq<ResolvedBatchCall>) -> Seq<CallView> {
    Seq::new(calls.len(), |i: int| calls[i]@)
}

/// The call of a request, or why it is refused.
pub open spec fn resolved_call(
    entries: Seq<EntryView>,
    server: Seq<char>,
    line: nat,
    request: InputView,
    preflight: bool,
) -> Result<CallView, FailureView> {
    match call_entry(entries, server, request.tool, request.arguments, preflight) {
        Err(failure) => Err(failure),
        Ok(entry) => Ok(
            CallView {
                line,
                requested_tool: request.tool,
                raw_tool: entry.raw_tool,
                exported_tool: entry.exported_tool,
                parallel: entry.parallel,
                arguments: request.arguments,
            },
        ),
    }
}

/// What the result of resolving a request stands for.
pub open spec fn resolved_view(result: Result<ResolvedBatchCall, Failure>) -> Result<
    CallView,
    FailureView,
> {
    match result {
        Ok(call) => Ok(call@),
        Err(failure) => Err(failure@),
    }
}

/// Resolves a request into a call.
pub fn resolve_batch_call(
    catalog: &ToolCatalog,
    server: &str,
    line: usize,
    request: BatchInput,
    preflight: bool,
) -> (result: Result<ResolvedBatchCall, Failure>)
    ensures
        resolved_view(result) == resolved_call(catalog@, server@, line as nat, request@, preflight),
        result matches Ok(call) ==> call.line == line && call.requested_tool@ == request.tool@
            && call.arguments@ == request.arguments@,
{
    match prepare_call(catalog, server, request.tool.as_str(), &request.arguments, preflight) {
        Err(failure) => Err(failure),
        Ok(entry) => Ok(
            ResolvedBatchCall {
                line,
                requested_tool: request.tool,
                raw_tool: entry.raw_tool.clone(),
                exported_tool: entry.exported_tool.clone(),
                parallel: entry.parallel,
                arguments: request.arguments,
            },
        ),
    }
}

/// The result of one line of a batch.
#[derive(Debug)]
pub struct BatchOutputLine {
    pub line: usize,
    pub server: String,
    pub tool: String,
    pub raw_tool: Option<String>,
    pub success: bool,
    pub attempts: u32,
    pub result: Option<Json>,
    pub error: Option<String>,
}

/// What a `BatchOutputLine` stands for.
pub struct OutputView {
    pub line: nat,
    pub server: Seq<char>,
    pub tool: Seq<char>,
    pub raw_tool: Option<Seq<char>>,
    pub success: bool,
    pub attempts: nat,
    pub result: Option<JsonView>,
    pub error: Option<Seq<char>>,
}

impl View for BatchOutputLine {
    type V = OutputView;

    open spec fn view(&self) -> OutputView {
        OutputView {
            line: self.line as nat,
            server: self.server@,
            tool: self.tool@,
            raw_tool: optional_text(self.raw_tool),
            success: self.success,
            attempts: self.attempts as nat,
            result: match self.result {
                Some(result) => Some(result@),
                None => None,
            },
            error: optional_text(self.error),
        }
    }
}

/// The views of output lines.
pub open spec fn output_views(outputs: Seq<BatchOutputLine>) -> Seq<OutputView> {
    Seq::new(outputs.len(), |i: int| outputs[i]@)
}

/// The output of a line that made no call.
pub open spec fn refused_output(
    line: nat,
    server: Seq<char>,
    tool: Seq<char>,
    error: Seq<char>,
) -> OutputView {
    OutputView {
        line,
        server,
        tool,
        raw_tool: None,
        success: false,
        attempts: 0,
        result: None,
        error: Some(error),
    }
}

/// Makes the output of a line that made no call.
fn refused_line(line: usize, server: &str, tool: String, error: String) -> (output: BatchOutputLine)
    ensures
        output@ == refused_output(line as nat, server@, tool@, error@),
{
    BatchOutputLine {
        line,
        server: server.to_owned(),
        tool,
        raw_tool: None,
        success: false,
        attempts: 0,
        result: None,
        error: Some(error),
    }
}

/// What becomes of an item: a call, or the output of a line that makes none.
pub open spec fn item_plan(
    entries: Seq<EntryView>,
    server: Seq<char>,
    item: ItemView,
    preflight: bool,
) -> Result<CallView, OutputView> {
    match item.request {
        Err(failure) => Err(refused_output(item.line, server, "<invalid>"@, failure.text())),
        Ok(request) => match resolved_call(entries, server, item.line, request, preflight) {
            Err(failure) => Err(refused_output(item.line, server, request.tool, failure.text())),
            Ok(call) => Ok(call),
        },
    }
}

/// The calls of a batch, in the order of its items.
pub open spec fn planned_calls(
    entries: Seq<EntryView>,
    server: Seq<char>,
    items: Seq<ItemView>,
    preflight: bool,
) -> Seq<CallView>
    decreases items.len(),
{
    if items.len() == 0 {
        Seq::empty()
    } else {
        let front = planned_calls(entries, server, items.drop_last(), preflight);
        match item_plan(entries, server, items.last(), preflight) {
            Ok(call) => front.push(call),
            Err(_) => front,
        }
    }
}

/// The outputs of the items of a batch that make no call, in order.
pub open spec fn refused_outputs(
    entries: Seq<EntryView>,
    server: Seq<char>,
    items: Seq<ItemView>,
    preflight: bool,
) -> Seq<OutputView>
    decreases items.len(),
{
    if items.len() == 0 {
        Seq::empty()
    } else {
        let front = refused_outputs(entries, server, items.drop_last(), preflight);
        match item_plan(entries, server, items.last(), preflight) {
            Ok(_) => front,
            Err(output) => front.push(output),
        }
    }
}

/// What a batch is to do: the outputs that are settled already, and the calls to make.
#[derive(Debug)]
pub struct BatchPlan {
    pub outputs: Vec<BatchOutputLine>,
    pub calls: Vec<ResolvedBatchCall>,
}

/// Plans a batch. An item that makes no call does not keep the others from theirs.
pub fn plan_batch(
    catalog: &ToolCatalog,
    server: &str,
    items: Vec<BatchItem>,
    preflight: bool,
) -> (plan: BatchPlan)
    ensures
        call_views(plan.calls@) == planned_calls(
            catalog@,
            server@,
            item_views(items@),
            preflight,
        ),
        output_views(plan.outputs@) == refused_outputs(
            catalog@,
            server@,
            item_views(items@),
            preflight,
        ),
{
    let mut outputs: Vec<BatchOutputLine> = Vec::new();
    let mut calls: Vec<ResolvedBatchCall> = Vec::new();
    let ghost source = items@;
    let ghost views = item_views(items@);
    proof {
        assert(call_views(calls@) =~= planned_calls(catalog@, server@, views.take(0), preflight));
        assert(output_views(outputs@) =~= refused_outputs(
            catalog@,
            server@,
            views.take(0),
            preflight,
        ));
    }
    for item in it: items
        invariant
            it.seq() == source,
            views == item_views(source),
            call_views(calls@) == planned_calls(
                catalog@,
                server@,
                views.take(it.index() as int),
                preflight,
            ),
            output_views(outputs@) == refused_outputs(
                catalog@,
                server@,
                views.take(it.index() as int),
                preflight,
            ),
    {
        let ghost upto = views.take(it.index() + 1);
        assert(upto.drop_last() =~= views.take(it.index() as int));
        assert(upto.last() == item@);
        let ghost earlier_outputs = output_views(outputs@);
        let ghost earlier_calls = call_views(calls@);
        let line: usize = item.line;
        match item.request {
            Ok(request) => {
                let requested_tool: String = request.tool.clone();
                match resolve_batch_call(catalog, server, line, request, preflight) {
                    Ok(call) => {
                        calls.push(call);
                        assert(call_views(calls@) =~= earlier_calls.push(call@));
                    }
                    Err(failure) => {
                        let output: BatchOutputLine = refused_line(
                            line,
                            server,
                            requested_tool,
                            failure.message(),
                        );
                        outputs.push(output);
                        assert(output_views(outputs@) =~= earlier_outputs.push(output@));
                    }
                }
            }
            Err(failure) => {
                let output: BatchOutputLine = refused_line(
                    line,
                    server,
                    "<invalid>".to_owned(),
                    failure.message(),
                );
                outputs.push(output);
                assert(output_views(outputs@) =~= earlier_outputs.push(output@));
            }
        }
    }
    assert(views.take(views.len() as int) =~= views);
    BatchPlan { outputs, calls }
}

/// The tools of the calls that do not advertise parallel calls, by raw and exported
/// name, each once.
pub open spec fn serial_tools(calls: Seq<CallView>) -> Seq<(Seq<char>, Seq<char>)>
    decreases calls.len(),
{
    if calls.len() == 0 {
        Seq::empty()
    } else {
        let front = serial_tools(calls.drop_last());
        let names = (calls.last().raw_tool, calls.last().exported_tool);
        if calls.last().parallel || front.contains(names) {
            front
        } else {
            front.push(names)
        }
    }
}

/// Whether a pair of names is in the list.
fn contains_pair(pairs: &Vec<(String, String)>, raw: &str, exported: &str) -> (answer: bool)
    ensures
        answer == text_pairs(pairs@).contains((raw@, exported@)),
{
    let mut i: usize = 0;
    while i < pairs.len()
        invariant
            i <= pairs.len(),
            forall|j: int| 0 <= j < i ==> #[trigger] text_pairs(pairs@)[j] != (raw@, exported@),
        decreases pairs.len() - i,
    {
        if same_text(pairs[i].0.as_str(), raw) && same_text(pairs[i].1.as_str(), exported) {
            assert(text_pairs(pairs@)[i as int] == (raw@, exported@));
            return true;
        }
        i += 1;
    }
    false
}

/// Collects the tools that do not advertise parallel calls.
fn list_serial_tools(calls: &Vec<ResolvedBatchCall>) -> (tools: Vec<(String, String)>)
    ensures
        text_pairs(tools@) == serial_tools(call_views(calls@)),
{
    let mut tools: Vec<(String, String)> = Vec::new();
    let ghost views = call_views(calls@);
    assert(text_pairs(tools@) =~= serial_tools(views.take(0)));
    let mut i: usize = 0;
    while i < calls.len()
        invariant
            i <= calls.len(),
            views == call_views(calls@),
            text_pairs(tools@) == serial_tools(views.take(i as int)),
        decreases calls.len() - i,
    {
        let call: &ResolvedBatchCall = &calls[i];
        let ghost upto = views.take(i + 1);
        assert(upto.drop_last() =~= views.take(i as int));
        assert(upto.last() == call@);
        if !call.parallel && !contains_pair(
            &tools,
            call.raw_tool.as_str(),
            call.exported_tool.as_str(),
        ) {
            let ghost earlier = text_pairs(tools@);
            tools.push((call.raw_tool.clone(), call.exported_tool.clone()));
            assert(text_pairs(tools@) =~= earlier.push((call.raw_tool@, call.exported_tool@)));
        }
        i += 1;
    }
    assert(views.take(views.len() as int) =~= views);
    tools
}

/// Whether a batch may run with this concurrency at all.
pub open spec fn concurrency_allowed(concurrency: nat) -> Result<(), FailureView> {
    if concurrency == 0 {
        Err(FailureView::ZeroConcurrency)
    } else {
        Ok(())
    }
}

/// Refuses a concurrency of zero.
pub fn check_concurrency(concurrency: usize) -> (result: Result<(), Failure>)
    ensures
        check_view(result) == concurrency_allowed(concurrency as nat),
{
    if concurrency == 0 {
        Err(Failure::ZeroConcurrency)
    } else {
        Ok(())
    }
}

/// Whether these calls may run with this concurrency: more than one at a time only if
/// all tools advertise it, or if it is forced.
pub open spec fn parallel_allowed(
    concurrency: nat,
    force_parallel: bool,
    calls: Seq<CallView>,
) -> Result<(), FailureView> {
    if concurrency > 1 && !force_parallel && serial_tools(calls).len() > 0 {
        Err(FailureView::NotParallel { tools: serial_tools(calls) })
    } else {
        Ok(())
    }
}

/// Refuses to run calls side by side whose tools do not advertise it.
pub fn check_parallel_calls(
    concurrency: usize,
    force_parallel: bool,
    calls: &Vec<ResolvedBatchCall>,
) -> (result: Result<(), Failure>)
    ensures
        check_view(result) == parallel_allowed(
            concurrency as nat,
            force_parallel,
            call_views(calls@),
        ),
{
    if concurrency > 1 && !force_parallel {
        let tools: Vec<(String, String)> = list_serial_tools(calls);
        assert(text_pairs(tools@).len() == tools@.len());
        if tools.len() > 0 {
            return Err(Failure::NotParallel { tools });
        }
    }
    Ok(())
}

/// What a tool returned: whether it says that it failed, and its whole result.
#[derive(Debug)]
pub struct ToolResult {
    pub is_error: Option<bool>,
    pub value: Json,
}

/// What a `ToolResult` stands for.
pub struct ResultView {
    pub is_error: Option<bool>,
    pub value: JsonView,
}

impl View for ToolResult {
    type V = ResultView;

    open spec fn view(&self) -> ResultView {
        ResultView { is_error: self.is_error, value: self.value@ }
    }
}

/// What the outcome of a call stands for.
pub open spec fn outcome_view(outcome: Result<ToolResult, String>) -> Result<
    ResultView,
    Seq<char>,
> {
    match outcome {
        Ok(result) => Ok(result@),
        Err(error) => Err(error@),
    }
}

/// What is said of a call that failed for good.
pub open spec fn call_failure(raw_tool: Seq<char>, line: nat, error: Seq<char>) -> Seq<char> {
    "tool call failed for `"@ + raw_tool + "` on line "@ + decimal(line) + ": "@ + error
}

/// The output of a call: it succeeds if the tool returned, and did not say that it
/// failed.
pub open spec fn call_output(
    server: Seq<char>,
    call: CallView,
    outcome: Result<ResultView, Seq<char>>,
    attempts: nat,
) -> OutputView {
    let failed = match outcome {
        Ok(result) => result.is_error == Some(true),
        Err(_) => true,
    };
    OutputView {
        line: call.line,
        server,
        tool: call.requested_tool,
        raw_tool: Some(call.raw_tool),
        success: !failed,
        attempts,
        result: match outcome {
            Ok(result) => Some(result.value),
            Err(_) => None,
        },
        error: if !failed {
            None
        } else {
            match outcome {
                Ok(_) => Some("tool returned isError=true"@),
                Err(error) => Some(call_failure(call.raw_tool, call.line, error)),
            }
        },
    }
}

/// Makes the output of a call from its outcome and the number of attempts.
pub fn execute_batch_call(
    server: &str,
    call: ResolvedBatchCall,
    outcome: Result<ToolResult, String>,
    attempts: u32,
) -> (output: BatchOutputLine)
    ensures
        output@ == call_output(server@, call@, outcome_view(outcome), attempts as nat),
        output.line == call.line,
        output.attempts == attempts,
        output.success <==> (outcome matches Ok(result) && result.is_error != Some(true)),
{
    match outcome {
        Ok(result) => {
            let failed: bool = match result.is_error {
                Some(answer) => answer,
                None => false,
            };
            let error: Option<String> = if failed {
                Some("tool returned isError=true".to_owned())
            } else {
                None
            };
            BatchOutputLine {
                line: call.line,
                server: server.to_owned(),
                tool: call.requested_tool,
                raw_tool: Some(call.raw_tool),
                success: !failed,
                attempts,
                result: Some(result.value),
                error,
            }
        }
        Err(error) => {
            let mut message: String = "tool call failed for `".to_owned();
            message.append(call.raw_tool.as_str());
            message.append("` on line ");
            message.append(decimal_text(call.line).as_str());
            message.append(": ");
            message.append(error.as_str());
            BatchOutputLine {
                line: call.line,
                server: server.to_owned(),
                tool: call.requested_tool,
                raw_tool: Some(call.raw_tool),
                success: false,
                attempts,
                result: None,
                error: Some(message),
            }
        }
    }
}

/// How the task of a call ended: with an output, with an error of its own, or without
/// coming to an end.
#[derive(Debug)]
pub enum TaskOutcome {
    Finished(BatchOutputLine),
    Refused(String),
    Broken(String),
}

/// What a `TaskOutcome` stands for.
pub enum TaskView {
    Finished(OutputView),
    Refused(Seq<char>),
    Broken(Seq<char>),
}

impl View for TaskOutcome {
    type V = TaskView;

    open spec fn view(&self) -> TaskView {
        match self {
            TaskOutcome::Finished(output) => TaskView::Finished(output@),
            TaskOutcome::Refused(error) => TaskView::Refused(error@),
            TaskOutcome::Broken(error) => TaskView::Broken(error@),
        }
    }
}

/// The views of task outcomes.
pub open spec fn task_views(tasks: Seq<TaskOutcome>) -> Seq<TaskView> {
    Seq::new(tasks.len(), |i: int| tasks[i]@)
}

/// The output of a task. One that ended without an output of its own is reported on
/// line zero.
pub open spec fn task_output(server: Seq<char>, task: TaskView) -> OutputView {
    match task {
        TaskView::Finished(output) => output,
        TaskView::Refused(error) => refused_output(0, server, "<internal>"@, error),
        TaskView::Broken(error) => refused_output(
            0,
            server,
            "<internal>"@,
            "batch task failed: "@ + error,
        ),
    }
}

/// The outputs of tasks.
pub open spec fn task_outputs(server: Seq<char>, tasks: Seq<TaskView>) -> Seq<OutputView> {
    Seq::new(tasks.len(), |i: int| task_output(server, tasks[i]))
}

/// Outputs are ordered by their lines.
pub open spec fn by_line() -> spec_fn(OutputView, OutputView) -> bool {
    |left: OutputView, right: OutputView| left.line < right.line
}

impl Ranked for BatchOutputLine {
    open spec fn ranks_before(self, other: Self) -> bool {
        self.line < other.line
    }

    fn is_ranked_before(&self, other: &Self) -> (answer: bool) {
        self.line < other.line
    }
}

/// The outputs of a batch: those settled before any call, and those of the tasks as
/// they came in, in the order of the lines.
pub open spec fn batch_lines(
    server: Seq<char>,
    settled: Seq<OutputView>,
    tasks: Seq<TaskView>,
) -> Seq<OutputView> {
    sorted_by(settled + task_outputs(server, tasks), by_line())
}

/// An output that reports a failure.
pub open spec fn failing() -> spec_fn(OutputView) -> bool {
    |output: OutputView| !output.success
}

/// How many of the outputs report a failure.
pub open spec fn failure_count(outputs: Seq<OutputView>) -> nat {
    outputs.filter(failing()).len()
}

/// The outputs of a batch, and how many of them report a failure.
#[derive(Debug)]
pub struct BatchReport {
    pub lines: Vec<BatchOutputLine>,
    pub failures: usize,
}

/// Counts the outputs that report a failure.
fn count_failures(outputs: &Vec<BatchOutputLine>) -> (count: usize)
    ensures
        count == failure_count(output_views(outputs@)),
{
    let ghost views = output_views(outputs@);
    let mut count: usize = 0;
    let mut i: usize = 0;
    proof {
        lemma_filter_none(views.take(0), failing());
    }
    while i < outputs.len()
        invariant
            i <= outputs.len(),
            count <= i,
            views == output_views(outputs@),
            count == failure_count(views.take(i as int)),
        decreases outputs.len() - i,
    {
        proof {
            lemma_filter_push(views.take(i as int), views[i as int], failing());
            assert(views.take(i + 1) =~= views.take(i as int).push(views[i as int]));
        }
        if !outputs[i].success {
            count += 1;
        }
        i += 1;
    }
    assert(views.take(views.len() as int) =~= views);
    count
}

/// Puts the outputs of a batch together.
pub fn settle_batch(
    server: &str,
    settled: Vec<BatchOutputLine>,
    tasks: Vec<TaskOutcome>,
) -> (report: BatchReport)
    ensures
        output_views(report.lines@) == batch_lines(
            server@,
            output_views(settled@),
            task_views(tasks@),
        ),
        report.failures == failure_count(output_views(report.lines@)),
{
    let ghost first = output_views(settled@);
    let ghost came = task_views(tasks@);
    let ghost source = tasks@;
    let mut outputs: Vec<BatchOutputLine> = settled;
    assert(output_views(outputs@) =~= first + task_outputs(server@, came.take(0)));
    for task in it: tasks
        invariant
            it.seq() == source,
            came == task_views(source),
            output_views(outputs@) == first + task_outputs(server@, came.take(it.index() as int)),
    {
        let ghost earlier = output_views(outputs@);
        let ghost at = it.index() as int;
        let output: BatchOutputLine = match task {
            TaskOutcome::Finished(output) => output,
            TaskOutcome::Refused(error) => refused_line(0, server, "<internal>".to_owned(), error),
            TaskOutcome::Broken(error) => {
                let mut message: String = "batch task failed: ".to_owned();
                message.append(error.as_str());
                refused_line(0, server, "<internal>".to_owned(), message)
            }
        };
        proof {
            assert(came[at] == task@);
            assert(output@ == task_output(server@, came[at]));
            assert(task_outputs(server@, came.take(at + 1)) =~= task_outputs(
                server@,
                came.take(at),
            ).push(output@));
        }
        outputs.push(output);
        assert(output_views(outputs@) =~= earlier.push(output@));
    }
    assert(came.take(came.len() as int) =~= came);
    let ghost unsorted = outputs@;
    let lines: Vec<BatchOutputLine> = stable_sort(outputs);
    proof {
        let view_of = |output: BatchOutputLine| output@;
        assert(unsorted.map_values(view_of) =~= output_views(unsorted));
        lemma_sort_mapped(unsorted, rank::<BatchOutputLine>(), view_of, by_line());
        assert(lines@.map_values(view_of) =~= output_views(lines@));
    }
    let failures: usize = count_failures(&lines);
    BatchReport { lines, failures }
}

/// Whether a batch as a whole succeeded.
pub open spec fn verdict(failures: nat) -> Result<(), FailureView> {
    if failures > 0 {
        Err(FailureView::BatchFailed { count: failures })
    } else {
        Ok(())
    }
}

/// The end of a batch: it fails if any of its lines did.
pub fn batch_verdict(failures: usize) -> (result: Result<(), Failure>)
    ensures
        check_view(result) == verdict(failures as nat),
{
    if failures > 0 {
        Err(Failure::BatchFailed { count: failures })
    } else {
        Ok(())
    }
}

/// Every line that is not blank becomes a request, under its number, and the requests
/// stand in the order of their numbers.
pub proof fn law_requests_numbered(lines: Seq<Seq<char>>)
    ensures
        forall|k: int|
            0 <= k < lines.len() && !blank(#[trigger] lines[k]) ==> request_lines(lines).contains(
                ((k + 1) as nat, lines[k]),
            ),
        forall|i: int|
            0 <= i < request_lines(lines).len() ==> {
                let (number, text) = #[trigger] request_lines(lines)[i];
                1 <= number <= lines.len() && text == lines[number - 1] && !blank(text)
            },
        forall|i: int, j: int|
            0 <= i < j < request_lines(lines).len() ==> (#[trigger] request_lines(lines)[i]).0 < (
            #[trigger] request_lines(lines)[j]).0,
    decreases lines.len(),
{
    if lines.len() > 0 {
        let front = lines.drop_last();
        let earlier = request_lines(front);
        let all = request_lines(lines);
        law_requests_numbered(front);
        assert forall|i: int| 0 <= i < all.len() implies {
            let (number, text) = #[trigger] all[i];
            1 <= number <= lines.len() && text == lines[number - 1] && !blank(text)
        } by {
            if i < earlier.len() {
                assert(all[i] == earlier[i]);
                assert(front[earlier[i].0 - 1] == lines[earlier[i].0 - 1]);
            }
        }
        assert forall|i: int, j: int| 0 <= i < j < all.len() implies (#[trigger] all[i]).0 < (
        #[trigger] all[j]).0 by {
            assert(all[i] == earlier[i]);
            if j < earlier.len() {
                assert(all[j] == earlier[j]);
            }
        }
        assert forall|k: int| 0 <= k < lines.len() && !blank(#[trigger] lines[k]) implies all.contains(
            ((k + 1) as nat, lines[k]),
        ) by {
            if k < front.len() {
                assert(front[k] == lines[k]);
                let i = choose|i: int|
                    0 <= i < earlier.len() && earlier[i] == (((k + 1) as nat, lines[k]));
                assert(all[i] == earlier[i]);
            } else {
                assert(all[all.len() - 1] == (((k + 1) as nat, lines[k])));
            }
        }
    }
}

/// A failure does not keep other items from their calls: each item of a batch has its
/// call or its output, whatever becomes of the others, and there is nothing else.
pub proof fn law_batch_goes_on(
    entries: Seq<EntryView>,
    server: Seq<char>,
    items: Seq<ItemView>,
    preflight: bool,
)
    ensures
        planned_calls(entries, server, items, preflight).len() + refused_outputs(
            entries,
            server,
            items,
            preflight,
        ).len() == items.len(),
        forall|i: int|
            0 <= i < items.len() ==> match item_plan(entries, server, #[trigger] items[i], preflight) {
                Ok(call) => planned_calls(entries, server, items, preflight).contains(call),
                Err(output) => refused_outputs(entries, server, items, preflight).contains(output),
            },
    decreases items.len(),
{
    if items.len() > 0 {
        let front = items.drop_last();
        law_batch_goes_on(entries, server, front, preflight);
        let earlier_calls = planned_calls(entries, server, front, preflight);
        let earlier_outputs = refused_outputs(entries, server, front, preflight);
        let calls = planned_calls(entries, server, items, preflight);
        let outputs = refused_outputs(entries, server, items, preflight);
        assert forall|i: int| 0 <= i < items.len() implies match item_plan(
            entries,
            server,
            #[trigger] items[i],
            preflight,
        ) {
            Ok(call) => calls.contains(call),
            Err(output) => outputs.contains(output),
        } by {
            let plan = item_plan(entries, server, items[i], preflight);
            if i < front.len() {
                assert(front[i] == items[i]);
                match plan {
                    Ok(call) => {
                        let at = choose|at: int|
                            0 <= at < earlier_calls.len() && earlier_calls[at] == call;
                        assert(calls[at] == call);
                    },
                    Err(output) => {
                        let at = choose|at: int|
                            0 <= at < earlier_outputs.len() && earlier_outputs[at] == output;
                        assert(outputs[at] == output);
                    },
                }
            } else {
                match plan {
                    Ok(call) => {
                        assert(calls[calls.len() - 1] == call);
                    },
                    Err(output) => {
                        assert(outputs[outputs.len() - 1] == output);
                    },
                }
            }
        }
    }
}

/// More than one call at a time is refused exactly if it is not forced and some tool
/// does not advertise it.
pub proof fn law_parallel_policy(concurrency: nat, force_parallel: bool, calls: Seq<CallView>)
    ensures
        parallel_allowed(concurrency, force_parallel, calls) is Err <==> concurrency > 1
            && !force_parallel && exists|i: int|
            0 <= i < calls.len() && !(#[trigger] calls[i]).parallel,
{
    lemma_serial_tools(calls);
}

proof fn lemma_serial_tools(calls: Seq<CallView>)
    ensures
        serial_tools(calls).len() > 0 <==> exists|i: int|
            0 <= i < calls.len() && !(#[trigger] calls[i]).parallel,
    decreases calls.len(),
{
    if calls.len() > 0 {
        let front = calls.drop_last();
        lemma_serial_tools(front);
        if exists|i: int| 0 <= i < calls.len() && !(#[trigger] calls[i]).parallel {
            let i = choose|i: int| 0 <= i < calls.len() && !(#[trigger] calls[i]).parallel;
            if i < front.len() {
                assert(front[i] == calls[i]);
            }
        }
        if exists|i: int| 0 <= i < front.len() && !(#[trigger] front[i]).parallel {
            let i = choose|i: int| 0 <= i < front.len() && !(#[trigger] front[i]).parallel;
            assert(front[i] == calls[i]);
        }
    }
}

/// A batch fails exactly if one of its lines does.
pub proof fn law_batch_verdict(outputs: Seq<OutputView>)
    ensures
        verdict(failure_count(outputs)) is Err <==> exists|i: int|
            0 <= i < outputs.len() && !(#[trigger] outputs[i]).success,
{
    if exists|i: int| 0 <= i < outputs.len() && !(#[trigger] outputs[i]).success {
        let i = choose|i: int| 0 <= i < outputs.len() && !(#[trigger] outputs[i]).success;
        outputs.lemma_filter_contains(failing(), i);
    } else {
        lemma_filter_none(outputs, failing());
    }
}

/// The lines of outputs.
pub open spec fn output_numbers(outputs: Seq<OutputView>) -> Seq<nat> {
    outputs.map_values(|output: OutputView| output.line)
}

/// The lines of calls.
pub open spec fn call_numbers(calls: Seq<CallView>) -> Seq<nat> {
    calls.map_values(|call: CallView| call.line)
}

/// The lines of items.
pub open spec fn item_numbers(items: Seq<ItemView>) -> Seq<nat> {
    items.map_values(|item: ItemView| item.line)
}

/// Each number is above those that stand ahead of it.
pub open spec fn increasing(numbers: Seq<nat>) -> bool {
    forall|i: int, j: int|
        0 <= i < j < numbers.len() ==> (#[trigger] numbers[i]) < (#[trigger] numbers[j])
}

/// One output per item, in the order of the items: where the items are numbered upwards
/// and each call ended with an output for its line, in whatever order they did, the
/// lines of the outputs are those of the items.
pub proof fn law_one_output_per_item(
    entries: Seq<EntryView>,
    server: Seq<char>,
    items: Seq<ItemView>,
    preflight: bool,
    tasks: Seq<TaskView>,
)
    requires
        increasing(item_numbers(items)),
        output_numbers(task_outputs(server, tasks)).to_multiset() == call_numbers(
            planned_calls(entries, server, items, preflight),
        ).to_multiset(),
    ensures
        output_numbers(
            batch_lines(server, refused_outputs(entries, server, items, preflight), tasks),
        ) == item_numbers(items),
{
    let settled = refused_outputs(entries, server, items, preflight);
    let came = task_outputs(server, tasks);
    let line_of = |output: OutputView| output.line;
    let below = |a: nat, b: nat| a < b;
    let at_most = |a: nat, b: nat| a <= b;
    let numbers = output_numbers(settled + came);
    let report = output_numbers(batch_lines(server, settled, tasks));
    lemma_sort_mapped(settled + came, by_line(), line_of, below);
    assert(report =~= sorted_by(numbers, below));
    assert(numbers =~= output_numbers(settled) + output_numbers(came));
    law_sort_keeps_items(numbers, below);
    law_sort_in_order(numbers, below);
    lemma_multiset_commutative(output_numbers(settled), output_numbers(came));
    lemma_plan_numbers(entries, server, items, preflight);
    assert(vstd::relations::sorted_by(report, at_most)) by {
        assert forall|i: int, j: int| 0 <= i < j < report.len() implies #[trigger] at_most(
            report[i],
            report[j],
        ) by {
            assert(!below(report[j], report[i]));
        }
    }
    assert(vstd::relations::sorted_by(item_numbers(items), at_most));
    lemma_sorted_unique(report, item_numbers(items), at_most);
}

/// The items' lines go to the outputs that are settled and to the calls.
proof fn lemma_plan_numbers(
    entries: Seq<EntryView>,
    server: Seq<char>,
    items: Seq<ItemView>,
    preflight: bool,
)
    ensures
        output_numbers(refused_outputs(entries, server, items, preflight)).to_multiset().add(
            call_numbers(planned_calls(entries, server, items, preflight)).to_multiset(),
        ) == item_numbers(items).to_multiset(),
    decreases items.len(),
{
    broadcast use vstd::seq_lib::group_to_multiset_ensures;

    let outputs = refused_outputs(entries, server, items, preflight);
    let calls = planned_calls(entries, server, items, preflight);
    if items.len() == 0 {
        assert(output_numbers(outputs) =~= Seq::empty());
        assert(call_numbers(calls) =~= Seq::empty());
        assert(item_numbers(items) =~= Seq::empty());
        assert(output_numbers(outputs).to_multiset().add(call_numbers(calls).to_multiset())
            =~= item_numbers(items).to_multiset());
    } else {
        let front = items.drop_last();
        let number = items.last().line;
        lemma_plan_numbers(entries, server, front, preflight);
        let earlier_outputs = refused_outputs(entries, server, front, preflight);
        let earlier_calls = planned_calls(entries, server, front, preflight);
        assert(item_numbers(items) =~= item_numbers(front).push(number));
        match item_plan(entries, server, items.last(), preflight) {
            Ok(call) => {
                assert(call_numbers(calls) =~= call_numbers(earlier_calls).push(number));
            },
            Err(output) => {
                assert(output_numbers(outputs) =~= output_numbers(earlier_outputs).push(number));
            },
        }
        assert(output_numbers(outputs).to_multiset().add(call_numbers(calls).to_multiset())
            =~= output_numbers(earlier_outputs).to_multiset().add(
            call_numbers(earlier_calls).to_multiset(),
        ).insert(number));
    }
}

/// The order in which calls come to an end does not show: where no two outputs are for
/// one line, any order gives the same report.
pub proof fn law_report_ignores_arrival(
    server: Seq<char>,
    settled: Seq<OutputView>,
    tasks: Seq<TaskView>,
    others: Seq<TaskView>,
)
    requires
        tasks.to_multiset() == others.to_multiset(),
        output_numbers(settled + task_outputs(server, tasks)).no_duplicates(),
    ensures
        batch_lines(server, settled, tasks) == batch_lines(server, settled, others),
{
    let output_of = |task: TaskView| task_output(server, task);
    assert(task_outputs(server, tasks) =~= tasks.map_values(output_of));
    assert(task_outputs(server, others) =~= others.map_values(output_of));
    lemma_mapped_multiset(tasks, others, output_of);
    let these = settled + task_outputs(server, tasks);
    let those = settled + task_outputs(server, others);
    lemma_multiset_commutative(settled, task_outputs(server, tasks));
    lemma_multiset_commutative(settled, task_outputs(server, others));
    let left = batch_lines(server, settled, tasks);
    let right = batch_lines(server, settled, others);
    law_sort_keeps_items(these, by_line());
    law_sort_keeps_items(those, by_line());
    law_sort_in_order(these, by_line());
    law_sort_in_order(those, by_line());
    let line_of = |output: OutputView| output.line;
    lemma_mapped_multiset(these, left, line_of);
    lemma_mapped_multiset(these, right, line_of);
    lemma_same_distinct(output_numbers(these), output_numbers(left));
    lemma_same_distinct(output_numbers(these), output_numbers(right));
    assert forall|i: int, j: int| 0 <= i < j < left.len() implies (#[trigger] left[i]).line < (
    #[trigger] left[j]).line by {
        assert(!by_line()(left[j], left[i]));
        assert(output_numbers(left)[i] != output_numbers(left)[j]);
    }
    assert forall|i: int, j: int| 0 <= i < j < right.len() implies (#[trigger] right[i]).line < (
    #[trigger] right[j]).line by {
        assert(!by_line()(right[j], right[i]));
        assert(output_numbers(right)[i] != output_numbers(right)[j]);
    }
    lemma_ordered_unique(left, right);
}

/// Two lists of the same outputs are equal where both are ordered by strictly growing
/// lines.
proof fn lemma_ordered_unique(left: Seq<OutputView>, right: Seq<OutputView>)
    requires
        left.to_multiset() == right.to_multiset(),
        forall|i: int, j: int|
            0 <= i < j < left.len() ==> (#[trigger] left[i]).line < (#[trigger] left[j]).line,
        forall|i: int, j: int|
            0 <= i < j < right.len() ==> (#[trigger] right[i]).line < (#[trigger] right[j]).line,
    ensures
        left == right,
    decreases left.len(),
{
    broadcast use vstd::seq_lib::group_to_multiset_ensures;

    assert(left.to_multiset().len() == left.len());
    assert(right.to_multiset().len() == right.len());
    if left.len() == 0 {
        assert(left =~= right);
    } else {
        assert(left.contains(left.last()));
        assert(right.contains(right.last()));
        assert(right.to_multiset().count(left.last()) > 0);
        assert(left.to_multiset().count(right.last()) > 0);
        let i = choose|i: int| 0 <= i < left.len() && left[i] == right.last();
        let j = choose|j: int| 0 <= j < right.len() && right[j] == left.last();
        assert(left.last() == right.last());
        let front = left.drop_last();
        let other = right.drop_last();
        assert(left =~= front.push(left.last()));
        assert(right =~= other.push(right.last()));
        assert(front.to_multiset() =~= left.to_multiset().remove(left.last()));
        assert(other.to_multiset() =~= right.to_multiset().remove(right.last()));
        lemma_ordered_unique(front, other);
    }
}

/// What the values of a batch stand for are their fields, each its own.
pub proof fn law_batch_views(
    line: BatchLine,
    input: BatchInput,
    item: BatchItem,
    call: ResolvedBatchCall,
    output: BatchOutputLine,
    result: ToolResult,
)
    ensures
        line_views(seq![line]) == seq![(line.line as nat, line.text@)],
        input@.tool == input.tool@,
        input@.arguments == input.arguments@,
        item@.line == item.line,
        item.request matches Ok(request) ==> item@.request == Ok::<InputView, FailureView>(
            request@,
        ),
        item.request matches Err(failure) ==> item@.request == Err::<InputView, FailureView>(
            failure@,
        ),
        call@.line == call.line,
        call@.requested_tool == call.requested_tool@,
        call@.raw_tool == call.raw_tool@,
        call@.exported_tool == call.exported_tool@,
        call@.parallel == call.parallel,
        call@.arguments == call.arguments@,
        output@.line == output.line,
        output@.server == output.server@,
        output@.tool == output.tool@,
        output@.raw_tool == optional_text(output.raw_tool),
        output@.success == output.success,
        output@.attempts == output.attempts,
        output.result matches Some(value) ==> output@.result == Some(value@),
        output.result is None ==> output@.result is None,
        output@.error == optional_text(output.error),
        result@.is_error == result.is_error,
        result@.value == result.value@,
{
    assert(line_views(seq![line]) =~= seq![(line.line as nat, line.text@)]);
}

/// A decoded line is a request, as it is, if its arguments are an object; else it is refused
/// for that, and a line that could not be decoded for the reason of that.
pub proof fn law_request(input: InputView, cause: Seq<char>)
    ensures
        input.arguments is Object ==> request_of(Ok(input)) == Ok::<InputView, FailureView>(input),
        input.arguments !is Object ==> request_of(Ok(input)) == Err::<InputView, FailureView>(
            FailureView::BatchArgumentsNotObject,
        ),
        request_of(Err(cause)) == Err::<InputView, FailureView>(
            FailureView::InvalidBatchLine { cause },
        ),
{
}

/// An item becomes a call exactly if it holds a request whose call may go out, and that call
/// has the item's line, the tool and the arguments of the request, and the names of the tool
/// that it goes to.
pub proof fn law_planned_call(
    entries: Seq<EntryView>,
    server: Seq<char>,
    item: ItemView,
    preflight: bool,
)
    ensures
        match item.request {
            Err(_) => item_plan(entries, server, item, preflight) is Err,
            Ok(request) => match call_entry(
                entries,
                server,
                request.tool,
                request.arguments,
                preflight,
            ) {
                Err(_) => item_plan(entries, server, item, preflight) is Err,
                Ok(entry) => {
                    &&& item_plan(entries, server, item, preflight) matches Ok(call)
                    &&& call.line == item.line
                    &&& call.requested_tool == request.tool
                    &&& call.arguments == request.arguments
                    &&& call.raw_tool == entry.raw_tool
                    &&& call.exported_tool == entry.exported_tool
                    &&& call.parallel == entry.parallel
                },
            },
        },
{
}

/// An item that becomes no call has an output for its line that reports the failure, with
/// no attempt and no result: of a request that was refused under the tool that it asked for,
/// of a line that holds none as invalid.
pub proof fn law_refused_item(
    entries: Seq<EntryView>,
    server: Seq<char>,
    item: ItemView,
    preflight: bool,
    output: OutputView,
)
    requires
        item_plan(entries, server, item, preflight) == Err::<CallView, OutputView>(output),
    ensures
        output.line == item.line,
        output.server == server,
        !output.success,
        output.attempts == 0,
        output.raw_tool is None,
        output.result is None,
        match item.request {
            Err(failure) => output.tool == "<invalid>"@ && output.error == Some(failure.text()),
            Ok(request) => output.tool == request.tool && (call_entry(
                entries,
                server,
                request.tool,
                request.arguments,
                preflight,
            ) matches Err(failure) && output.error == Some(failure.text())),
        },
{
}

/// The calls of a batch are those that its items become, and the settled outputs those of
/// the other items, both in the order of the items.
pub proof fn law_plan_in_order(
    entries: Seq<EntryView>,
    server: Seq<char>,
    items: Seq<ItemView>,
    preflight: bool,
)
    ensures
        planned_calls(entries, server, items, preflight) == items.filter(
            |item: ItemView| item_plan(entries, server, item, preflight) is Ok,
        ).map_values(|item: ItemView| item_plan(entries, server, item, preflight)->Ok_0),
        refused_outputs(entries, server, items, preflight) == items.filter(
            |item: ItemView| item_plan(entries, server, item, preflight) is Err,
        ).map_values(|item: ItemView| item_plan(entries, server, item, preflight)->Err_0),
    decreases items.len(),
{
    let becomes = |item: ItemView| item_plan(entries, server, item, preflight) is Ok;
    let fails = |item: ItemView| item_plan(entries, server, item, preflight) is Err;
    let call_of = |item: ItemView| item_plan(entries, server, item, preflight)->Ok_0;
    let output_of = |item: ItemView| item_plan(entries, server, item, preflight)->Err_0;
    if items.len() == 0 {
        lemma_filter_none(items, becomes);
        lemma_filter_none(items, fails);
    } else {
        let front = items.drop_last();
        law_plan_in_order(entries, server, front, preflight);
        lemma_filter_push(front, items.last(), becomes);
        lemma_filter_push(front, items.last(), fails);
        assert(front.push(items.last()) =~= items);
    }
    assert(planned_calls(entries, server, items, preflight) =~= items.filter(becomes).map_values(
        call_of,
    ));
    assert(refused_outputs(entries, server, items, preflight) =~= items.filter(fails).map_values(
        output_of,
    ));
}

/// The output of a call is for the call's line and tool. It reports success exactly if the
/// tool returned a result that does not say that it is an error; it holds the result
/// whenever there is one, and else says what went wrong, on which line and with which tool.
pub proof fn law_call_output(
    server: Seq<char>,
    call: CallView,
    result: ResultView,
    error: Seq<char>,
    attempts: nat,
)
    ensures
        ({
            let output = call_output(server, call, Ok(result), attempts);
            &&& output.line == call.line
            &&& output.server == server
            &&& output.tool == call.requested_tool
            &&& output.raw_tool == Some(call.raw_tool)
            &&& output.attempts == attempts
            &&& output.success == (result.is_error != Some(true))
            &&& output.result == Some(result.value)
            &&& result.is_error != Some(true) ==> output.error is None
            &&& result.is_error == Some(true) ==> output.error == Some(
                "tool returned isError=true"@,
            )
        }),
        ({
            let output = call_output(server, call, Err(error), attempts);
            &&& output.line == call.line
            &&& output.server == server
            &&& output.tool == call.requested_tool
            &&& output.raw_tool == Some(call.raw_tool)
            &&& output.attempts == attempts
            &&& !output.success
            &&& output.result is None
            &&& output.error == Some(
                "tool call failed for `"@ + call.raw_tool + "` on line "@ + decimal(call.line)
                    + ": "@ + error,
            )
        }),
{
}

/// The output of a task that came to its end is that of its call; any other is a failure on
/// line zero that says what went wrong.
pub proof fn law_task_output(server: Seq<char>, finished: OutputView, error: Seq<char>)
    ensures
        task_output(server, TaskView::Finished(finished)) == finished,
        forall|task: TaskView|
            task == TaskView::Refused(error) || task == TaskView::Broken(error) ==> {
                let output = #[trigger] task_output(server, task);
                &&& output.line == 0
                &&& output.server == server
                &&& output.tool == "<internal>"@
                &&& output.raw_tool is None
                &&& !output.success
                &&& output.attempts == 0
                &&& output.result is None
            },
        task_output(server, TaskView::Refused(error)).error == Some(error),
        task_output(server, TaskView::Broken(error)).error == Some(
            "batch task failed: "@ + error,
        ),
{
}

/// A report holds every settled output and the output of every task, none besides, by
/// growing lines, and those for one line as they came.
pub proof fn law_report(
    server: Seq<char>,
    settled: Seq<OutputView>,
    tasks: Seq<TaskView>,
    number: nat,
)
    ensures
        ({
            let came = settled + tasks.map_values(|task: TaskView| task_output(server, task));
            let report = batch_lines(server, settled, tasks);
            &&& report.to_multiset() == came.to_multiset()
            &&& forall|i: int, j: int|
                0 <= i < j < report.len() ==> (#[trigger] report[i]).line <= (
                #[trigger] report[j]).line
            &&& report.filter(|output: OutputView| output.line == number) == came.filter(
                |output: OutputView| output.line == number,
            )
        }),
{
    let came = settled + tasks.map_values(|task: TaskView| task_output(server, task));
    let report = batch_lines(server, settled, tasks);
    assert(came =~= settled + task_outputs(server, tasks));
    law_sort_keeps_items(came, by_line());
    law_sort_in_order(came, by_line());
    assert forall|i: int, j: int| 0 <= i < j < report.len() implies (#[trigger] report[i]).line <= (
    #[trigger] report[j]).line by {
        assert(!by_line()(report[j], report[i]));
    }
    let on_line = |output: OutputView| output.line == number;
    let one = refused_output(number, server, server, server);
    law_sort_keeps_ties(came, by_line(), one);
    assert(tied_with(one, by_line()) =~= on_line);
}

/// The failures that are counted are the outputs that do not report success, and the batch
/// as a whole fails, with their number, exactly if there are any.
pub proof fn law_failures_counted(outputs: Seq<OutputView>, count: nat)
    ensures
        failure_count(outputs) == outputs.filter(|output: OutputView| !output.success).len(),
        count > 0 ==> verdict(count) == Err::<(), FailureView>(FailureView::BatchFailed { count }),
        verdict(0) == Ok::<(), FailureView>(()),
{
    let test = |output: OutputView| !output.success;
    assert(test =~= failing());
}

/// A concurrency of zero is refused, and no other. Where calls are refused to run side by
/// side, the tools that are named are those of the calls that are not parallel, each once.
pub proof fn law_concurrency(concurrency: nat, calls: Seq<CallView>)
    ensures
        concurrency_allowed(0) == Err::<(), FailureView>(FailureView::ZeroConcurrency),
        concurrency > 0 ==> concurrency_allowed(concurrency) == Ok::<(), FailureView>(()),
        parallel_allowed(concurrency, false, calls) matches Err(failure) ==> {
            &&& failure matches FailureView::NotParallel { tools }
            &&& tools.no_duplicates()
            &&& forall|names: (Seq<char>, Seq<char>)|
                #[trigger] tools.contains(names) <==> exists|i: int|
                    0 <= i < calls.len() && !(#[trigger] calls[i]).parallel && names == (
                        calls[i].raw_tool,
                        calls[i].exported_tool,
                    )
        },
{
    lemma_serial_names(calls);
}

proof fn lemma_serial_names(calls: Seq<CallView>)
    ensures
        serial_tools(calls).no_duplicates(),
        forall|names: (Seq<char>, Seq<char>)|
            #[trigger] serial_tools(calls).contains(names) <==> exists|i: int|
                0 <= i < calls.len() && !(#[trigger] calls[i]).parallel && names == (
                    calls[i].raw_tool,
                    calls[i].exported_tool,
                ),
    decreases calls.len(),
{
    if calls.len() > 0 {
        let front = calls.drop_last();
        let earlier = serial_tools(front);
        let all = serial_tools(calls);
        let last = (calls.last().raw_tool, calls.last().exported_tool);
        lemma_serial_names(front);
        assert forall|names: (Seq<char>, Seq<char>)| #[trigger] all.contains(names) <==> exists|
            i: int,
        |
            0 <= i < calls.len() && !(#[trigger] calls[i]).parallel && names == (
                calls[i].raw_tool,
                calls[i].exported_tool,
            ) by {
            if all.contains(names) {
                if earlier.contains(names) {
                    let i = choose|i: int|
                        0 <= i < front.len() && !(#[trigger] front[i]).parallel && names == (
                            front[i].raw_tool,
                            front[i].exported_tool,
                        );
                    assert(calls[i] == front[i]);
                } else {
                    let k = choose|k: int| 0 <= k < all.len() && all[k] == names;
                    assert(k == earlier.len()) by {
                        if k < earlier.len() {
                            assert(earlier[k] == names);
                        }
                    }
                    assert(calls[calls.len() - 1] == calls.last());
                }
            }
            if exists|i: int|
                0 <= i < calls.len() && !(#[trigger] calls[i]).parallel && names == (
                    calls[i].raw_tool,
                    calls[i].exported_tool,
                ) {
                let i = choose|i: int|
                    0 <= i < calls.len() && !(#[trigger] calls[i]).parallel && names == (
                        calls[i].raw_tool,
                        calls[i].exported_tool,
                    );
                if i < front.len() {
                    assert(front[i] == calls[i]);
                    assert(earlier.contains(names));
                }
                if earlier.contains(names) {
                    let k = choose|k: int| 0 <= k < earlier.len() && earlier[k] == names;
                    assert(all[k] == names);
                } else {
                    assert(all[all.len() - 1] == names);
                }
            }
        }
        if all.len() > earlier.len() {
            assert forall|i: int, j: int| 0 <= i < j < all.len() implies all[i] != all[j] by {
                assert(all[i] == earlier[i]);
                if j < earlier.len() {
                    assert(all[j] == earlier[j]);
                } else if all[i] == all[j] {
                    assert(earlier.contains(last));
                }
            }
        }
    }
}

/// A request is resolved exactly if its call may go out, into a call with the line, the tool
/// and the arguments of the request and the names of the tool that it goes to; else the
/// reason is given.
pub proof fn law_resolved_call(
    entries: Seq<EntryView>,
    server: Seq<char>,
    line: nat,
    request: InputView,
    preflight: bool,
)
    ensures
        match call_entry(entries, server, request.tool, request.arguments, preflight) {
            Err(failure) => resolved_call(entries, server, line, request, preflight) == Err::<
                CallView,
                FailureView,
            >(failure),
            Ok(entry) => {
                &&& resolved_call(entries, server, line, request, preflight) matches Ok(call)
                &&& call.line == line
                &&& call.requested_tool == request.tool
                &&& call.arguments == request.arguments
                &&& call.raw_tool == entry.raw_tool
                &&& call.exported_tool == entry.exported_tool
                &&& call.parallel == entry.parallel
            },
        },
{
}

/// What the lists of a batch stand for are their items, each in its place.
pub proof fn law_batch_lists(
    lines: Seq<BatchLine>,
    items: Seq<BatchItem>,
    calls: Seq<ResolvedBatchCall>,
    outputs: Seq<BatchOutputLine>,
    tasks: Seq<TaskOutcome>,
    at: int,
)
    ensures
        line_views(lines).len() == lines.len(),
        0 <= at < lines.len() ==> line_views(lines)[at] == (lines[at].line as nat, lines[at].text@),
        item_views(items).len() == items.len(),
        0 <= at < items.len() ==> item_views(items)[at] == items[at]@,
        call_views(calls).len() == calls.len(),
        0 <= at < calls.len() ==> call_views(calls)[at] == calls[at]@,
        output_views(outputs).len() == outputs.len(),
        0 <= at < outputs.len() ==> output_views(outputs)[at] == outputs[at]@,
        task_views(tasks).len() == tasks.len(),
        0 <= at < tasks.len() ==> task_views(tasks)[at] == tasks[at]@,
{
}

/// What a result of a batch stands for is that result.
pub proof fn law_batch_results(
    input: BatchInput,
    call: ResolvedBatchCall,
    output: BatchOutputLine,
    result: ToolResult,
    text: String,
    failure: Failure,
)
    ensures
        decoded_view(Ok(input)) == Ok::<InputView, Seq<char>>(input@),
        decoded_view(Err(text)) == Err::<InputView, Seq<char>>(text@),
        request_view(Ok(input)) == Ok::<InputView, FailureView>(input@),
        request_view(Err(failure)) == Err::<InputView, FailureView>(failure@),
        resolved_view(Ok(call)) == Ok::<CallView, FailureView>(call@),
        resolved_view(Err(failure)) == Err::<CallView, FailureView>(failure@),
        outcome_view(Ok(result)) == Ok::<ResultView, Seq<char>>(result@),
        outcome_view(Err(text)) == Err::<ResultView, Seq<char>>(text@),
        TaskOutcome::Finished(output)@ == TaskView::Finished(output@),
        TaskOutcome::Refused(text)@ == TaskView::Refused(text@),
        TaskOutcome::Broken(text)@ == TaskView::Broken(text@),
{
}

/// One more call adds its tool to those that cannot run side by side, behind the others,
/// exactly if the tool is not parallel and no earlier call that is not has its names.
pub proof fn law_serial_tools_in_order(calls: Seq<CallView>, call: CallView)
    ensures
        serial_tools(Seq::empty()).len() == 0,
        serial_tools(calls.push(call)) == if call.parallel || exists|i: int|
            0 <= i < calls.len() && !(#[trigger] calls[i]).parallel && calls[i].raw_tool
                == call.raw_tool && calls[i].exported_tool == call.exported_tool {
            serial_tools(calls)
        } else {
            serial_tools(calls).push((call.raw_tool, call.exported_tool))
        },
{
    let names = (call.raw_tool, call.exported_tool);
    assert(calls.push(call).drop_last() =~= calls);
    lemma_serial_names(calls);
    if exists|i: int|
        0 <= i < calls.len() && !(#[trigger] calls[i]).parallel && calls[i].raw_tool
            == call.raw_tool && calls[i].exported_tool == call.exported_tool {
        let i = choose|i: int|
            0 <= i < calls.len() && !(#[trigger] calls[i]).parallel && calls[i].raw_tool
                == call.raw_tool && calls[i].exported_tool == call.exported_tool;
        assert(serial_tools(calls).contains(names));
    }
    if serial_tools(calls).contains(names) {
        let i = choose|i: int|
            0 <= i < calls.len() && !(#[trigger] calls[i]).parallel && names == (
                calls[i].raw_tool,
                calls[i].exported_tool,
            );
        assert(calls[i].raw_tool == call.raw_tool);
    }
}

/// Every call of a batch is that of one of its items: it has the line of the item, asks for
/// the tool and carries the arguments of the item's request, and goes to the tool that the
/// name in the request stands for, by its raw name.
pub proof fn law_calls_carry_requests(
    entries: Seq<EntryView>,
    server: Seq<char>,
    items: Seq<ItemView>,
    preflight: bool,
    at: int,
)
    requires
        0 <= at < planned_calls(entries, server, items, preflight).len(),
    ensures
        exists|i: int|
            0 <= i < items.len() && ({
                let call = planned_calls(entries, server, items, preflight)[at];
                &&& (#[trigger] items[i]).request matches Ok(request)
                &&& call.line == items[i].line
                &&& call.requested_tool == request.tool
                &&& call.arguments == request.arguments
                &&& resolution(entries, server, request.tool) matches Ok(entry)
                &&& call.raw_tool == entry.raw_tool
                &&& call.exported_tool == entry.exported_tool
                &&& call.parallel == entry.parallel
            }),
    decreases items.len(),
{
    let front = items.drop_last();
    let earlier = planned_calls(entries, server, front, preflight);
    let call = planned_calls(entries, server, items, preflight)[at];
    if at < earlier.len() {
        law_calls_carry_requests(entries, server, front, preflight, at);
        let i = choose|i: int|
            0 <= i < front.len() && ({
                let call = earlier[at];
                &&& (#[trigger] front[i]).request matches Ok(request)
                &&& call.line == front[i].line
                &&& call.requested_tool == request.tool
                &&& call.arguments == request.arguments
                &&& resolution(entries, server, request.tool) matches Ok(entry)
                &&& call.raw_tool == entry.raw_tool
                &&& call.exported_tool == entry.exported_tool
                &&& call.parallel == entry.parallel
            });
        assert(items[i] == front[i]);
        assert(call == earlier[at]);
    } else {
        let item = items[items.len() - 1];
        let request = item.request->Ok_0;
        law_planned_call(entries, server, item, preflight);
        let entry = call_entry(entries, server, request.tool, request.arguments, preflight)->Ok_0;
        law_calls_that_go_out(
            entries,
            server,
            request.tool,
            request.arguments,
            preflight,
            entry,
        );
    }
}

} // verus!
