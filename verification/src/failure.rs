//! What can go wrong before a request leaves, and how it is told.

use crate::text::{decimal, decimal_text, join, joined, texts};
use vstd::prelude::*;
use vstd::string::*;

verus! {

/// A request that is refused before it is sent.
#[derive(Debug)]
pub enum Failure {
    /// No server of that name is configured.
    UnknownServer { server: String },
    /// No tool of the server has that name.
    UnknownTool { server: String, tool: String },
    /// Several tools of the server have that name; raw and exported name of each.
    AmbiguousTool { server: String, tool: String, candidates: Vec<(String, String)> },
    /// The tool's definition holds no input schema.
    MissingInputSchema { tool: String },
    /// The arguments are no JSON object.
    ArgumentsNotObject,
    /// The arguments lack properties that the input schema requires.
    MissingProperties {
        server: String,
        tool: String,
        missing: Vec<String>,
        unknown: Vec<String>,
        known: Vec<String>,
    },
    /// The arguments are no JSON at all.
    ArgumentsNotJson { cause: String },
    /// Arguments were given both on the command line and in a file.
    ConflictingArguments,
    /// A line of a batch does not hold a request.
    InvalidBatchLine { cause: String },
    /// The arguments of a batch line are no JSON object.
    BatchArgumentsNotObject,
    /// A batch was to run with no calls at a time.
    ZeroConcurrency,
    /// A batch was to run several calls at a time with tools that do not support it; raw
    /// and exported name of each.
    NotParallel { tools: Vec<(String, String)> },
    /// Lines of a batch failed.
    BatchFailed { count: usize },
}

/// What a `Failure` stands for.
pub enum FailureView {
    UnknownServer { server: Seq<char> },
    UnknownTool { server: Seq<char>, tool: Seq<char> },
    AmbiguousTool {
        server: Seq<char>,
        tool: Seq<char>,
        candidates: Seq<(Seq<char>, Seq<char>)>,
    },
    MissingInputSchema { tool: Seq<char> },
    ArgumentsNotObject,
    MissingProperties {
        server: Seq<char>,
        tool: Seq<char>,
        missing: Seq<Seq<char>>,
        unknown: Seq<Seq<char>>,
        known: Seq<Seq<char>>,
    },
    ArgumentsNotJson { cause: Seq<char> },
    ConflictingArguments,
    InvalidBatchLine { cause: Seq<char> },
    BatchArgumentsNotObject,
    ZeroConcurrency,
    NotParallel { tools: Seq<(Seq<char>, Seq<char>)> },
    BatchFailed { count: nat },
}

/// The texts of pairs of strings.
pub open spec fn text_pairs(pairs: Seq<(String, String)>) -> Seq<(Seq<char>, Seq<char>)> {
    Seq::new(pairs.len(), |i: int| (pairs[i].0@, pairs[i].1@))
}

impl View for Failure {
    type V = FailureView;

    open spec fn view(&self) -> FailureView {
        match self {
            Failure::UnknownServer { server } => FailureView::UnknownServer { server: server@ },
            Failure::UnknownTool { server, tool } => FailureView::UnknownTool {
                server: server@,
                tool: tool@,
            },
            Failure::AmbiguousTool { server, tool, candidates } => FailureView::AmbiguousTool {
                server: server@,
                tool: tool@,
                candidates: text_pairs(candidates@),
            },
            Failure::MissingInputSchema { tool } => FailureView::MissingInputSchema { tool: tool@ },
            Failure::ArgumentsNotObject => FailureView::ArgumentsNotObject,
            Failure::MissingProperties { server, tool, missing, unknown, known } =>
                FailureView::MissingProperties {
                server: server@,
                tool: tool@,
                missing: texts(missing@),
                unknown: texts(unknown@),
                known: texts(known@),
            },
            Failure::ArgumentsNotJson { cause } => FailureView::ArgumentsNotJson { cause: cause@ },
            Failure::ConflictingArguments => FailureView::ConflictingArguments,
            Failure::InvalidBatchLine { cause } => FailureView::InvalidBatchLine { cause: cause@ },
            Failure::BatchArgumentsNotObject => FailureView::BatchArgumentsNotObject,
            Failure::ZeroConcurrency => FailureView::ZeroConcurrency,
            Failure::NotParallel { tools } => FailureView::NotParallel {
                tools: text_pairs(tools@),
            },
            Failure::BatchFailed { count } => FailureView::BatchFailed { count: *count as nat },
        }
    }
}

/// A tool by its raw and its exported name.
pub open spec fn tool_label(names: (Seq<char>, Seq<char>)) -> Seq<char> {
    "raw="@ + names.0 + " exported="@ + names.1
}

/// Tools by their raw and exported names, one after another.
pub open spec fn tool_labels(tools: Seq<(Seq<char>, Seq<char>)>) -> Seq<char> {
    joined(Seq::new(tools.len(), |i: int| tool_label(tools[i])), "; "@)
}

/// The clause on a list of properties, left out where there are none.
pub open spec fn property_clause(lead: Seq<char>, properties: Seq<Seq<char>>) -> Seq<char> {
    if properties.len() == 0 {
        Seq::empty()
    } else {
        lead + joined(properties, ", "@)
    }
}

impl FailureView {
    /// The message.
    pub open spec fn text(self) -> Seq<char> {
        match self {
            FailureView::UnknownServer { server } => "unknown MCP server '"@ + server + "'"@,
            FailureView::UnknownTool { server, tool } => "unknown tool '"@ + tool
                + "' on MCP server '"@ + server + "'; use `cxporter list --server "@ + server
                + " --name-contains "@ + tool + "` to inspect raw and exported names"@,
            FailureView::AmbiguousTool { server, tool, candidates } => "ambiguous tool alias '"@
                + tool + "' on MCP server '"@ + server + "': "@ + tool_labels(candidates),
            FailureView::MissingInputSchema { tool } => "tool '"@ + tool
                + "' does not expose an inputSchema"@,
            FailureView::ArgumentsNotObject => "tool arguments must be a JSON object"@,
            FailureView::MissingProperties { server, tool, missing, unknown, known } =>
                "arguments do not satisfy "@ + server + "/"@ + tool
                + " input schema: missing required properties: "@ + joined(missing, ", "@)
                + property_clause("; unknown provided properties: "@, unknown) + property_clause(
                "; known properties: "@,
                known,
            ) + "; inspect schema with: cxporter schema "@ + server + " "@ + tool
                + "; bypass this local check with --no-preflight"@,
            FailureView::ArgumentsNotJson { cause } => "tool arguments must be a JSON value: "@
                + cause,
            FailureView::ConflictingArguments =>
                "pass either ARGUMENTS_JSON or --args-file, not both"@,
            FailureView::InvalidBatchLine { cause } => "invalid JSONL batch line: "@ + cause,
            FailureView::BatchArgumentsNotObject => "batch arguments must be a JSON object"@,
            FailureView::ZeroConcurrency => "--concurrency must be greater than 0"@,
            FailureView::NotParallel { tools } =>
                "--concurrency > 1 is refused: selected tools do not advertise parallel call support: "@
                + tool_labels(tools) + "; use --concurrency 1 or --force-parallel"@,
            FailureView::BatchFailed { count } => "batch completed with "@ + decimal(count)
                + " failed line(s)"@,
        }
    }
}

/// Writes tools by their raw and exported names.
fn tool_labels_text(tools: &Vec<(String, String)>) -> (text: String)
    ensures
        text@ == tool_labels(text_pairs(tools@)),
{
    let mut labels: Vec<String> = Vec::new();
    let mut i: usize = 0;
    while i < tools.len()
        invariant
            i <= tools.len(),
            labels@.len() == i,
            forall|j: int|
                0 <= j < i ==> (#[trigger] labels@[j])@ == tool_label(text_pairs(tools@)[j]),
        decreases tools.len() - i,
    {
        let mut label: String = "raw=".to_owned();
        label.append(tools[i].0.as_str());
        label.append(" exported=");
        label.append(tools[i].1.as_str());
        labels.push(label);
        i += 1;
    }
    assert(texts(labels@) =~= Seq::new(
        text_pairs(tools@).len(),
        |i: int| tool_label(text_pairs(tools@)[i]),
    ));
    join(&labels, "; ")
}

/// Writes the clause on a list of properties.
fn property_clause_text(lead: &str, properties: &Vec<String>) -> (text: String)
    ensures
        text@ == property_clause(lead@, texts(properties@)),
{
    if properties.len() == 0 {
        String::new()
    } else {
        let mut text: String = lead.to_owned();
        text.append(join(properties, ", ").as_str());
        text
    }
}

impl Failure {
    /// The message.
    pub fn message(&self) -> (message: String)
        ensures
            message@ == self@.text(),
    {
        match self {
            Failure::UnknownServer { server } => {
                let mut message: String = "unknown MCP server '".to_owned();
                message.append(server.as_str());
                message.append("'");
                message
            }
            Failure::UnknownTool { server, tool } => {
                let mut message: String = "unknown tool '".to_owned();
                message.append(tool.as_str());
                message.append("' on MCP server '");
                message.append(server.as_str());
                message.append("'; use `cxporter list --server ");
                message.append(server.as_str());
                message.append(" --name-contains ");
                message.append(tool.as_str());
                message.append("` to inspect raw and exported names");
                message
            }
            Failure::AmbiguousTool { server, tool, candidates } => {
                let mut message: String = "ambiguous tool alias '".to_owned();
                message.append(tool.as_str());
                message.append("' on MCP server '");
                message.append(server.as_str());
                message.append("': ");
                message.append(tool_labels_text(candidates).as_str());
                message
            }
            Failure::MissingInputSchema { tool } => {
                let mut message: String = "tool '".to_owned();
                message.append(tool.as_str());
                message.append("' does not expose an inputSchema");
                message
            }
            Failure::ArgumentsNotObject => "tool arguments must be a JSON object".to_owned(),
            Failure::MissingProperties { server, tool, missing, unknown, known } => {
                let mut message: String = "arguments do not satisfy ".to_owned();
                message.append(server.as_str());
                message.append("/");
                message.append(tool.as_str());
                message.append(" input schema: missing required properties: ");
                message.append(join(missing, ", ").as_str());
                message.append(
                    property_clause_text("; unknown provided properties: ", unknown).as_str(),
                );
                message.append(property_clause_text("; known properties: ", known).as_str());
                message.append("; inspect schema with: cxporter schema ");
                message.append(server.as_str());
                message.append(" ");
                message.append(tool.as_str());
                message.append("; bypass this local check with --no-preflight");
                message
            }
            Failure::ArgumentsNotJson { cause } => {
                let mut message: String = "tool arguments must be a JSON value: ".to_owned();
                message.append(cause.as_str());
                message
            }
            Failure::ConflictingArguments => {
                "pass either ARGUMENTS_JSON or --args-file, not both".to_owned()
            }
            Failure::InvalidBatchLine { cause } => {
                let mut message: String = "invalid JSONL batch line: ".to_owned();
                message.append(cause.as_str());
                message
            }
            Failure::BatchArgumentsNotObject => "batch arguments must be a JSON object".to_owned(),
            Failure::ZeroConcurrency => "--concurrency must be greater than 0".to_owned(),
            Failure::NotParallel { tools } => {
                let mut message: String =
                    "--concurrency > 1 is refused: selected tools do not advertise parallel call support: ".to_owned();
                message.append(tool_labels_text(tools).as_str());
                message.append("; use --concurrency 1 or --force-parallel");
                message
            }
            Failure::BatchFailed { count } => {
                let mut message: String = "batch completed with ".to_owned();
                message.append(decimal_text(*count).as_str());
                message.append(" failed line(s)");
                message
            }
        }
    }
}

/// The message of each refusal says what was refused and why, with the names that it is
/// about.
pub proof fn law_messages(failure: FailureView)
    ensures
        failure.text() == match failure {
            FailureView::UnknownServer { server } => "unknown MCP server '"@ + server + "'"@,
            FailureView::UnknownTool { server, tool } => "unknown tool '"@ + tool
                + "' on MCP server '"@ + server + "'; use `cxporter list --server "@ + server
                + " --name-contains "@ + tool + "` to inspect raw and exported names"@,
            FailureView::AmbiguousTool { server, tool, candidates } => "ambiguous tool alias '"@
                + tool + "' on MCP server '"@ + server + "': "@ + joined(
                candidates.map_values(
                    |names: (Seq<char>, Seq<char>)| "raw="@ + names.0 + " exported="@ + names.1,
                ),
                "; "@,
            ),
            FailureView::MissingInputSchema { tool } => "tool '"@ + tool
                + "' does not expose an inputSchema"@,
            FailureView::ArgumentsNotObject => "tool arguments must be a JSON object"@,
            FailureView::MissingProperties { server, tool, missing, unknown, known } => {
                let strange = if unknown.len() == 0 {
                    Seq::empty()
                } else {
                    "; unknown provided properties: "@ + joined(unknown, ", "@)
                };
                let named = if known.len() == 0 {
                    Seq::empty()
                } else {
                    "; known properties: "@ + joined(known, ", "@)
                };
                "arguments do not satisfy "@ + server + "/"@ + tool
                    + " input schema: missing required properties: "@ + joined(missing, ", "@)
                    + strange + named + "; inspect schema with: cxporter schema "@ + server + " "@
                    + tool + "; bypass this local check with --no-preflight"@
            },
            FailureView::ArgumentsNotJson { cause } => "tool arguments must be a JSON value: "@
                + cause,
            FailureView::ConflictingArguments =>
                "pass either ARGUMENTS_JSON or --args-file, not both"@,
            FailureView::InvalidBatchLine { cause } => "invalid JSONL batch line: "@ + cause,
            FailureView::BatchArgumentsNotObject => "batch arguments must be a JSON object"@,
            FailureView::ZeroConcurrency => "--concurrency must be greater than 0"@,
            FailureView::NotParallel { tools } =>
                "--concurrency > 1 is refused: selected tools do not advertise parallel call support: "@
                + joined(
                tools.map_values(
                    |names: (Seq<char>, Seq<char>)| "raw="@ + names.0 + " exported="@ + names.1,
                ),
                "; "@,
            ) + "; use --concurrency 1 or --force-parallel"@,
            FailureView::BatchFailed { count } => "batch completed with "@ + decimal(count)
                + " failed line(s)"@,
        },
{
    match failure {
        FailureView::AmbiguousTool { server, tool, candidates } => {
            lemma_labels(candidates);
        },
        FailureView::NotParallel { tools } => {
            lemma_labels(tools);
        },
        _ => {},
    }
}

proof fn lemma_labels(tools: Seq<(Seq<char>, Seq<char>)>)
    ensures
        tool_labels(tools) == joined(
            tools.map_values(
                |names: (Seq<char>, Seq<char>)| "raw="@ + names.0 + " exported="@ + names.1,
            ),
            "; "@,
        ),
{
    assert(Seq::new(tools.len(), |i: int| tool_label(tools[i])) =~= tools.map_values(
        |names: (Seq<char>, Seq<char>)| "raw="@ + names.0 + " exported="@ + names.1,
    ));
}

/// What pairs of strings stand for are their texts, each in its place.
pub proof fn law_text_pairs(pairs: Seq<(String, String)>, at: int)
    requires
        0 <= at < pairs.len(),
    ensures
        text_pairs(pairs).len() == pairs.len(),
        text_pairs(pairs)[at] == (pairs[at].0@, pairs[at].1@),
{
}

/// What a refusal stands for is the same refusal, of the same names and lists.
pub proof fn law_failure_view(failure: Failure)
    ensures
        match failure {
            Failure::UnknownServer { server } => failure@ matches FailureView::UnknownServer {
                server: name,
            } && name == server@,
            Failure::UnknownTool { server, tool } => failure@ matches FailureView::UnknownTool {
                server: name,
                tool: called,
            } && name == server@ && called == tool@,
            Failure::AmbiguousTool { server, tool, candidates } =>
                failure@ matches FailureView::AmbiguousTool {
                server: name,
                tool: called,
                candidates: found,
            } && name == server@ && called == tool@ && found == text_pairs(candidates@),
            Failure::MissingInputSchema { tool } =>
                failure@ matches FailureView::MissingInputSchema { tool: called } && called
                == tool@,
            Failure::ArgumentsNotObject => failure@ is ArgumentsNotObject,
            Failure::MissingProperties { server, tool, missing, unknown, known } =>
                failure@ matches FailureView::MissingProperties {
                server: name,
                tool: called,
                missing: lacks,
                unknown: strange,
                known: named,
            } && name == server@ && called == tool@ && lacks == texts(missing@) && strange == texts(
                unknown@,
            ) && named == texts(known@),
            Failure::ArgumentsNotJson { cause } => failure@ matches FailureView::ArgumentsNotJson {
                cause: reason,
            } && reason == cause@,
            Failure::ConflictingArguments => failure@ is ConflictingArguments,
            Failure::InvalidBatchLine { cause } => failure@ matches FailureView::InvalidBatchLine {
                cause: reason,
            } && reason == cause@,
            Failure::BatchArgumentsNotObject => failure@ is BatchArgumentsNotObject,
            Failure::ZeroConcurrency => failure@ is ZeroConcurrency,
            Failure::NotParallel { tools } => failure@ matches FailureView::NotParallel {
                tools: named,
            } && named == text_pairs(tools@),
            Failure::BatchFailed { count } => failure@ matches FailureView::BatchFailed {
                count: lines,
            } && lines == count,
        },
{
}

} // verus!
