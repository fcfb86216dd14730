//! The tools that the program offers as a server of its own: each under its exported
//! name, with the way back to the server and the tool that it stands for.

use crate::apps::tool_views;
use crate::catalog::{
    catalog_of, info_bases, law_catalog_names_distinct, names_of, EntryView, Tool, ToolCatalog,
    ToolCatalogEntry, ToolInfoView, ToolView,
};
use crate::json::{law_with_member, member_views, Json, JsonView};
use crate::naming::clashing;
use crate::sort::{
    in_order, law_sort_in_order, law_sort_keeps_items, lemma_mapped_multiset, lemma_sort_contains,
    lemma_sort_mapped, rank, sorted_by, stable_sort, strict_order, Ranked,
};
use crate::table::{
    find_row, found, gathered, keys, law_table, lemma_found_keys, lemma_found_values,
    lemma_gathered_values, put_row, rows, with_values,
};
use crate::text::{is_before, lemma_before_asymmetric, lemma_before_between, text_before};
use vstd::prelude::*;
use vstd::string::*;

verus! {

/// The server and the tool that an exported tool stands for.
#[derive(Debug)]
pub struct ExportedToolRoute {
    pub server: String,
    pub tool: String,
}

/// What an `ExportedToolRoute` stands for.
pub struct RouteView {
    pub server: Seq<char>,
    pub tool: Seq<char>,
}

impl View for ExportedToolRoute {
    type V = RouteView;

    open spec fn view(&self) -> RouteView {
        RouteView { server: self.server@, tool: self.tool@ }
    }
}

/// The tools that are offered: in order, by name, and with their routes.
#[derive(Debug)]
pub struct ExportedToolIndex {
    pub tools: Vec<Tool>,
    pub tools_by_name: Vec<(String, Tool)>,
    pub routes: Vec<(String, ExportedToolRoute)>,
}

/// What an `ExportedToolIndex` stands for.
pub struct IndexView {
    pub tools: Seq<ToolView>,
    pub tools_by_name: Seq<(Seq<char>, ToolView)>,
    pub routes: Seq<(Seq<char>, RouteView)>,
}

/// The views of tools under names.
pub open spec fn named_tool_views(tools: Seq<(String, Tool)>) -> Seq<(Seq<char>, ToolView)> {
    Seq::new(tools.len(), |i: int| (tools[i].0@, tools[i].1@))
}

/// The views of routes under names.
pub open spec fn named_route_views(routes: Seq<(String, ExportedToolRoute)>) -> Seq<
    (Seq<char>, RouteView),
> {
    Seq::new(routes.len(), |i: int| (routes[i].0@, routes[i].1@))
}

impl View for ExportedToolIndex {
    type V = IndexView;

    open spec fn view(&self) -> IndexView {
        IndexView {
            tools: tool_views(self.tools@),
            tools_by_name: named_tool_views(self.tools_by_name@),
            routes: named_route_views(self.routes@),
        }
    }
}

/// A tool under its exported name.
pub open spec fn exported_tool(entry: EntryView) -> ToolView {
    ToolView {
        name: entry.exported_tool,
        definition: entry.tool.definition.with("name"@, JsonView::Text(entry.exported_tool)),
    }
}

/// The way back from an exported tool.
pub open spec fn route_of(entry: EntryView) -> RouteView {
    RouteView { server: entry.server, tool: entry.raw_tool }
}

/// Tools are ordered by name.
pub open spec fn by_name() -> spec_fn(ToolView, ToolView) -> bool {
    |left: ToolView, right: ToolView| text_before(left.name, right.name)
}

/// The exported tools of entries.
pub open spec fn exported_tools(entries: Seq<EntryView>) -> Seq<ToolView> {
    Seq::new(entries.len(), |i: int| exported_tool(entries[i]))
}

/// The exported tools of entries under their names.
pub open spec fn named_tools(entries: Seq<EntryView>) -> Seq<(Seq<char>, ToolView)> {
    Seq::new(entries.len(), |i: int| (entries[i].exported_tool, exported_tool(entries[i])))
}

/// The routes of entries under their exported names.
pub open spec fn named_routes(entries: Seq<EntryView>) -> Seq<(Seq<char>, RouteView)> {
    Seq::new(entries.len(), |i: int| (entries[i].exported_tool, route_of(entries[i])))
}

/// The index of a catalog.
pub open spec fn index_of(entries: Seq<EntryView>) -> IndexView {
    IndexView {
        tools: sorted_by(exported_tools(entries), by_name()),
        tools_by_name: gathered(named_tools(entries)),
        routes: gathered(named_routes(entries)),
    }
}

impl Ranked for Tool {
    open spec fn ranks_before(self, other: Self) -> bool {
        text_before(self.name@, other.name@)
    }

    fn is_ranked_before(&self, other: &Self) -> (answer: bool) {
        is_before(self.name.as_str(), other.name.as_str())
    }
}

/// Copies a tool.
fn copy_tool(tool: &Tool) -> (copy: Tool)
    ensures
        copy@ == tool@,
{
    Tool { name: tool.name.clone(), definition: tool.definition.clone() }
}

/// Makes the index of a catalog.
pub fn build_exported_tool_index(catalog: &ToolCatalog) -> (index: ExportedToolIndex)
    ensures
        index@ == index_of(catalog@),
{
    let ghost entries = catalog@;
    let ghost tool_of = |tool: Tool| tool@;
    let ghost way_of = |route: ExportedToolRoute| route@;
    let mut tools: Vec<Tool> = Vec::new();
    let mut tools_by_name: Vec<(String, Tool)> = Vec::new();
    let mut routes: Vec<(String, ExportedToolRoute)> = Vec::new();
    let ghost mut tool_source: Seq<(Seq<char>, Tool)> = Seq::empty();
    let ghost mut route_source: Seq<(Seq<char>, ExportedToolRoute)> = Seq::empty();
    let mut i: usize = 0;
    proof {
        assert(tool_views(tools@) =~= exported_tools(entries.take(0)));
        assert(rows(tools_by_name@) =~= gathered(tool_source));
        assert(rows(routes@) =~= gathered(route_source));
        assert(with_values(tool_source, tool_of) =~= named_tools(entries.take(0)));
        assert(with_values(route_source, way_of) =~= named_routes(entries.take(0)));
    }
    while i < catalog.entries.len()
        invariant
            i <= catalog.entries.len(),
            entries == catalog@,
            forall|tool: Tool| #[trigger] tool_of(tool) == tool@,
            forall|route: ExportedToolRoute| #[trigger] way_of(route) == route@,
            tool_views(tools@) == exported_tools(entries.take(i as int)),
            rows(tools_by_name@) == gathered(tool_source),
            rows(routes@) == gathered(route_source),
            with_values(tool_source, tool_of) == named_tools(entries.take(i as int)),
            with_values(route_source, way_of) == named_routes(entries.take(i as int)),
        decreases catalog.entries.len() - i,
    {
        let entry: &ToolCatalogEntry = &catalog.entries[i];
        let name: String = entry.exported_tool.clone();
        let definition: Json = entry.tool.definition.clone().with("name", Json::Text(name.clone()));
        let tool: Tool = Tool { name, definition };
        let copy: Tool = copy_tool(&tool);
        let route: ExportedToolRoute = ExportedToolRoute {
            server: entry.server.clone(),
            tool: entry.raw_tool.clone(),
        };
        let tool_name: String = entry.exported_tool.clone();
        let route_name: String = entry.exported_tool.clone();
        let ghost earlier = tool_views(tools@);
        proof {
            let at = i as int;
            let more_tools = tool_source.push((tool_name@, copy));
            let more_routes = route_source.push((route_name@, route));
            assert(entries[at] == entry@);
            assert(tool@ == exported_tool(entries[at]));
            assert(route@ == route_of(entries[at]));
            assert(more_tools.drop_last() =~= tool_source);
            assert(more_routes.drop_last() =~= route_source);
            assert(with_values(more_tools, tool_of) =~= with_values(tool_source, tool_of).push(
                (entries[at].exported_tool, exported_tool(entries[at])),
            ));
            assert(with_values(more_routes, way_of) =~= with_values(route_source, way_of).push(
                (entries[at].exported_tool, route_of(entries[at])),
            ));
            assert(named_tools(entries.take(at + 1)) =~= named_tools(entries.take(at)).push(
                (entries[at].exported_tool, exported_tool(entries[at])),
            ));
            assert(named_routes(entries.take(at + 1)) =~= named_routes(entries.take(at)).push(
                (entries[at].exported_tool, route_of(entries[at])),
            ));
            assert(exported_tools(entries.take(at + 1)) =~= exported_tools(entries.take(at)).push(
                exported_tool(entries[at]),
            ));
            tool_source = more_tools;
            route_source = more_routes;
        }
        put_row(&mut routes, route_name, route);
        put_row(&mut tools_by_name, tool_name, copy);
        tools.push(tool);
        assert(tool_views(tools@) =~= earlier.push(tool@));
        i += 1;
    }
    let ghost unsorted = tools@;
    let sorted: Vec<Tool> = stable_sort(tools);
    proof {
        assert(entries.take(entries.len() as int) =~= entries);
        assert(unsorted.map_values(tool_of) =~= tool_views(unsorted));
        lemma_sort_mapped(unsorted, rank::<Tool>(), tool_of, by_name());
        assert(sorted@.map_values(tool_of) =~= tool_views(sorted@));
        lemma_gathered_values(tool_source, tool_of);
        lemma_gathered_values(route_source, way_of);
        assert(named_tool_views(tools_by_name@) =~= with_values(rows(tools_by_name@), tool_of));
        assert(named_route_views(routes@) =~= with_values(rows(routes@), way_of));
    }
    ExportedToolIndex { tools: sorted, tools_by_name, routes }
}

/// What an optional tool stands for.
pub open spec fn optional_tool(tool: Option<&Tool>) -> Option<ToolView> {
    match tool {
        Some(tool) => Some(tool@),
        None => None,
    }
}

/// Finds an offered tool by its name.
pub fn get_tool<'a>(index: &'a ExportedToolIndex, name: &str) -> (tool: Option<&'a Tool>)
    ensures
        optional_tool(tool) == found(index@.tools_by_name, name@),
{
    proof {
        let tool_of = |tool: Tool| tool@;
        lemma_found_values(rows(index.tools_by_name@), name@, tool_of);
        assert(with_values(rows(index.tools_by_name@), tool_of) =~= index@.tools_by_name);
    }
    find_row(&index.tools_by_name, name)
}

/// A reason for which an offered tool cannot be called.
#[derive(Debug)]
pub enum ServeFailure {
    UnknownTool { name: String },
    ShuttingDown,
    CallFailed { server: String, tool: String, cause: String },
    ResultNotEncoded { cause: String },
    ResultNotDecoded { cause: String },
}

/// What a `ServeFailure` stands for.
pub enum ServeFailureView {
    UnknownTool { name: Seq<char> },
    ShuttingDown,
    CallFailed { server: Seq<char>, tool: Seq<char>, cause: Seq<char> },
    ResultNotEncoded { cause: Seq<char> },
    ResultNotDecoded { cause: Seq<char> },
}

impl View for ServeFailure {
    type V = ServeFailureView;

    open spec fn view(&self) -> ServeFailureView {
        match self {
            ServeFailure::UnknownTool { name } => ServeFailureView::UnknownTool { name: name@ },
            ServeFailure::ShuttingDown => ServeFailureView::ShuttingDown,
            ServeFailure::CallFailed { server, tool, cause } => ServeFailureView::CallFailed {
                server: server@,
                tool: tool@,
                cause: cause@,
            },
            ServeFailure::ResultNotEncoded { cause } => ServeFailureView::ResultNotEncoded {
                cause: cause@,
            },
            ServeFailure::ResultNotDecoded { cause } => ServeFailureView::ResultNotDecoded {
                cause: cause@,
            },
        }
    }
}

impl ServeFailureView {
    /// The message.
    pub open spec fn text(self) -> Seq<char> {
        match self {
            ServeFailureView::UnknownTool { name } => "unknown cxporter-exported tool '"@ + name
                + "'"@,
            ServeFailureView::ShuttingDown => "cxporter MCP server is shutting down"@,
            ServeFailureView::CallFailed { server, tool, cause } => "tool call failed for `"@
                + server + "/"@ + tool + "`: "@ + cause,
            ServeFailureView::ResultNotEncoded { cause } =>
                "failed to serialize Codex tool result: "@ + cause,
            ServeFailureView::ResultNotDecoded { cause } => "failed to decode Codex tool result: "@
                + cause,
        }
    }

    /// Whether the caller is at fault: it named a tool that is not offered.
    pub open spec fn invalid_params(self) -> bool {
        self is UnknownTool
    }
}

impl ServeFailure {
    /// The message.
    pub fn message(&self) -> (message: String)
        ensures
            message@ == self@.text(),
    {
        match self {
            ServeFailure::UnknownTool { name } => {
                let mut message: String = "unknown cxporter-exported tool '".to_owned();
                message.append(name.as_str());
                message.append("'");
                message
            }
            ServeFailure::ShuttingDown => "cxporter MCP server is shutting down".to_owned(),
            ServeFailure::CallFailed { server, tool, cause } => {
                let mut message: String = "tool call failed for `".to_owned();
                message.append(server.as_str());
                message.append("/");
                message.append(tool.as_str());
                message.append("`: ");
                message.append(cause.as_str());
                message
            }
            ServeFailure::ResultNotEncoded { cause } => {
                let mut message: String = "failed to serialize Codex tool result: ".to_owned();
                message.append(cause.as_str());
                message
            }
            ServeFailure::ResultNotDecoded { cause } => {
                let mut message: String = "failed to decode Codex tool result: ".to_owned();
                message.append(cause.as_str());
                message
            }
        }
    }

    /// Whether the caller is at fault.
    pub fn is_invalid_params(&self) -> (answer: bool)
        ensures
            answer == self@.invalid_params(),
    {
        match self {
            ServeFailure::UnknownTool { .. } => true,
            _ => false,
        }
    }
}

/// A call of an offered tool as it goes out to the tool that it stands for.
#[derive(Debug)]
pub struct RoutedCall {
    pub server: String,
    pub tool: String,
    pub arguments: Json,
    pub meta: Option<Json>,
}

/// What a `RoutedCall` stands for.
pub struct RoutedView {
    pub server: Seq<char>,
    pub tool: Seq<char>,
    pub arguments: JsonView,
    pub meta: Option<JsonView>,
}

impl View for RoutedCall {
    type V = RoutedView;

    open spec fn view(&self) -> RoutedView {
        RoutedView {
            server: self.server@,
            tool: self.tool@,
            arguments: self.arguments@,
            meta: match self.meta {
                Some(meta) => Some(meta@),
                None => None,
            },
        }
    }
}

/// The arguments of a call: an object, empty where none are given.
pub open spec fn arguments_of(arguments: Option<Seq<(Seq<char>, JsonView)>>) -> JsonView {
    match arguments {
        Some(members) => JsonView::Object(members),
        None => JsonView::Object(Seq::empty()),
    }
}

/// The metadata of a call: an object, or nothing.
pub open spec fn meta_of(meta: Option<Seq<(Seq<char>, JsonView)>>) -> Option<JsonView> {
    match meta {
        Some(members) => Some(JsonView::Object(members)),
        None => None,
    }
}

/// What optional members stand for.
pub open spec fn optional_members(members: Option<Vec<(String, Json)>>) -> Option<
    Seq<(Seq<char>, JsonView)>,
> {
    match members {
        Some(members) => Some(member_views(members@)),
        None => None,
    }
}

/// Where a request to call an offered tool goes.
pub open spec fn routed(
    index: IndexView,
    name: Seq<char>,
    arguments: Option<Seq<(Seq<char>, JsonView)>>,
    meta: Option<Seq<(Seq<char>, JsonView)>>,
) -> Result<RoutedView, ServeFailureView> {
    match found(index.routes, name) {
        None => Err(ServeFailureView::UnknownTool { name }),
        Some(route) => Ok(
            RoutedView {
                server: route.server,
                tool: route.tool,
                arguments: arguments_of(arguments),
                meta: meta_of(meta),
            },
        ),
    }
}

/// What becomes of a routed request, while the program is running or when it is about to
/// stop.
pub open spec fn answered(
    request: Result<RoutedView, ServeFailureView>,
    running: bool,
) -> Result<RoutedView, ServeFailureView> {
    match request {
        Err(failure) => Err(failure),
        Ok(call) => if running {
            Ok(call)
        } else {
            Err(ServeFailureView::ShuttingDown)
        },
    }
}

/// What the result of routing stands for.
pub open spec fn routed_view(result: Result<RoutedCall, ServeFailure>) -> Result<
    RoutedView,
    ServeFailureView,
> {
    match result {
        Ok(call) => Ok(call@),
        Err(failure) => Err(failure@),
    }
}

/// Routes a request to call an offered tool.
pub fn route_call(
    index: &ExportedToolIndex,
    name: &str,
    arguments: Option<Vec<(String, Json)>>,
    meta: Option<Vec<(String, Json)>>,
) -> (result: Result<RoutedCall, ServeFailure>)
    ensures
        routed_view(result) == routed(
            index@,
            name@,
            optional_members(arguments),
            optional_members(meta),
        ),
{
    proof {
        let way_of = |route: ExportedToolRoute| route@;
        lemma_found_values(rows(index.routes@), name@, way_of);
        assert(with_values(rows(index.routes@), way_of) =~= index@.routes);
    }
    let route: &ExportedToolRoute = match find_row(&index.routes, name) {
        Some(route) => route,
        None => {
            return Err(ServeFailure::UnknownTool { name: name.to_owned() });
        }
    };
    let members: Vec<(String, Json)> = match arguments {
        Some(members) => members,
        None => Vec::new(),
    };
    let object: Json = Json::Object(members);
    assert(object@ == arguments_of(optional_members(arguments))) by {
        assert(object@->Object_0 =~= member_views(members@));
        assert(arguments is None ==> object@->Object_0 =~= Seq::empty());
    }
    let meta_object: Option<Json> = match meta {
        Some(members) => {
            let object: Json = Json::Object(members);
            assert(object@->Object_0 =~= member_views(members@));
            Some(object)
        }
        None => None,
    };
    Ok(
        RoutedCall {
            server: route.server.clone(),
            tool: route.tool.clone(),
            arguments: object,
            meta: meta_object,
        },
    )
}

/// Lets a routed call go out, while the program is running.
pub fn admit_call(call: RoutedCall, running: bool) -> (result: Result<RoutedCall, ServeFailure>)
    ensures
        routed_view(result) == answered(Ok(call@), running),
{
    if running {
        Ok(call)
    } else {
        Err(ServeFailure::ShuttingDown)
    }
}

/// What a server can announce to its clients.
#[derive(Clone, Copy, Debug, PartialEq, Eq, Structural)]
pub struct Capabilities {
    pub tools: bool,
    pub prompts: bool,
    pub resources: bool,
    pub logging: bool,
    pub completions: bool,
    pub tasks: bool,
    pub extensions: bool,
    pub experimental: bool,
}

/// How the program presents itself to its clients.
#[derive(Debug)]
pub struct ServerInfo {
    pub capabilities: Capabilities,
    pub name: &'static str,
    pub title: &'static str,
    pub description: &'static str,
    pub instructions: &'static str,
}

/// Presents the program: it announces tools and nothing else.
pub fn get_info() -> (info: ServerInfo)
    ensures
        info.capabilities == (Capabilities {
            tools: true,
            prompts: false,
            resources: false,
            logging: false,
            completions: false,
            tasks: false,
            extensions: false,
            experimental: false,
        }),
        info.name@ == "cxporter"@,
        info.title@ == "cxporter"@,
        info.description@
            == "Proxy for Codex-authenticated MCP tools and codex_apps connectors."@,
        info.instructions@
            == "Tools are exposed as <mcp_server>.<connector_or_namespace>.<tool>, for example codex_apps.github.fetch_pr."@,
{
    ServerInfo {
        capabilities: Capabilities {
            tools: true,
            prompts: false,
            resources: false,
            logging: false,
            completions: false,
            tasks: false,
            extensions: false,
            experimental: false,
        },
        name: "cxporter",
        title: "cxporter",
        description: "Proxy for Codex-authenticated MCP tools and codex_apps connectors.",
        instructions:
            "Tools are exposed as <mcp_server>.<connector_or_namespace>.<tool>, for example codex_apps.github.fetch_pr.",
    }
}

/// Every offered tool leads back to the tool that it stands for, as long as no two
/// tools are exported under one name.
pub proof fn law_exported_tools_route(entries: Seq<EntryView>, at: int)
    requires
        0 <= at < entries.len(),
        names_of(entries).no_duplicates(),
    ensures
        found(index_of(entries).routes, entries[at].exported_tool) == Some(route_of(entries[at])),
        found(index_of(entries).tools_by_name, entries[at].exported_tool) == Some(
            exported_tool(entries[at]),
        ),
{
    law_table(named_routes(entries));
    law_table(named_tools(entries));
    assert(keys(named_routes(entries)) =~= names_of(entries));
    assert(keys(named_tools(entries)) =~= names_of(entries));
    lemma_found_at(named_routes(entries), at);
    lemma_found_at(named_tools(entries), at);
}

/// Where no key stands twice, what is found for a key is the value beside it.
proof fn lemma_found_at<V>(pairs: Seq<(Seq<char>, V)>, at: int)
    requires
        0 <= at < pairs.len(),
        keys(pairs).no_duplicates(),
    ensures
        found(pairs, pairs[at].0) == Some(pairs[at].1),
    decreases pairs.len(),
{
    if at < pairs.len() - 1 {
        let front = pairs.drop_last();
        assert(keys(pairs)[at] != keys(pairs)[pairs.len() - 1]);
        assert forall|i: int, j: int| 0 <= i < front.len() && 0 <= j < front.len() && i
            != j implies keys(front)[i] != keys(front)[j] by {
            assert(keys(pairs)[i] != keys(pairs)[j]);
        }
        lemma_found_at(front, at);
    }
}

/// The tools that are reported are offered under the names of the catalog, each with the
/// way back to its own server and tool, unless the base names of two tools clash.
pub proof fn law_reported_tools_route(infos: Seq<ToolInfoView>, at: int)
    requires
        0 <= at < catalog_of(infos).len(),
        !clashing(info_bases(infos)),
    ensures
        found(index_of(catalog_of(infos)).routes, catalog_of(infos)[at].exported_tool) == Some(
            route_of(catalog_of(infos)[at]),
        ),
{
    law_catalog_names_distinct(infos);
    law_exported_tools_route(catalog_of(infos), at);
}

/// A call goes out exactly if the tool is offered and the program is running; a tool is
/// offered exactly if it can be looked up.
pub proof fn law_calls_of_offered_tools(
    entries: Seq<EntryView>,
    name: Seq<char>,
    arguments: Option<Seq<(Seq<char>, JsonView)>>,
    meta: Option<Seq<(Seq<char>, JsonView)>>,
    running: bool,
)
    ensures
        answered(routed(index_of(entries), name, arguments, meta), running) is Ok <==> running && names_of(
            entries,
        ).contains(name),
        found(index_of(entries).tools_by_name, name) is Some <==> names_of(entries).contains(name),
        answered(routed(index_of(entries), name, arguments, meta), running) matches Err(failure) ==> (
        failure.invalid_params() <==> !names_of(entries).contains(name)),
{
    law_table(named_routes(entries));
    law_table(named_tools(entries));
    assert(keys(named_routes(entries)) =~= names_of(entries));
    assert(keys(named_tools(entries)) =~= names_of(entries));
    assert(found(gathered(named_routes(entries)), name) == found(named_routes(entries), name));
    assert(found(gathered(named_tools(entries)), name) == found(named_tools(entries), name));
    lemma_found_keys(named_routes(entries), name);
    lemma_found_keys(named_tools(entries), name);
}

/// The offered tools stand in the order of their names, and none is lost or added.
pub proof fn law_offered_tools_in_order(entries: Seq<EntryView>)
    ensures
        in_order(index_of(entries).tools, by_name()),
        index_of(entries).tools.to_multiset() == exported_tools(entries).to_multiset(),
{
    assert forall|a: ToolView, b: ToolView| #[trigger] by_name()(a, b) implies !by_name()(b, a) by {
        lemma_before_asymmetric(a.name, b.name);
    }
    assert forall|a: ToolView, b: ToolView, c: ToolView|
        #[trigger] by_name()(a, c) implies #[trigger] by_name()(a, b) || by_name()(b, c) by {
        lemma_before_between(a.name, b.name, c.name);
    }
    assert(strict_order(by_name()));
    law_sort_in_order(exported_tools(entries), by_name());
    law_sort_keeps_items(exported_tools(entries), by_name());
}

/// An offered tool has its exported name, also in its definition, of which nothing else
/// changes; it leads back to the server that it is from and to the raw name that it has
/// there. This holds as long as no two tools are exported under one name.
pub proof fn law_offered_tool_leads_back(
    entries: Seq<EntryView>,
    at: int,
    arguments: Option<Seq<(Seq<char>, JsonView)>>,
    meta: Option<Seq<(Seq<char>, JsonView)>>,
    other: Seq<char>,
)
    requires
        0 <= at < entries.len(),
        names_of(entries).no_duplicates(),
    ensures
        ({
            let entry = entries[at];
            let name = entry.exported_tool;
            &&& found(index_of(entries).routes, name) matches Some(way)
            &&& way.server == entry.server
            &&& way.tool == entry.raw_tool
            &&& routed(index_of(entries), name, arguments, meta) matches Ok(call)
            &&& call.server == entry.server
            &&& call.tool == entry.raw_tool
            &&& found(index_of(entries).tools_by_name, name) matches Some(tool)
            &&& tool.name == name
            &&& tool.definition is Object == entry.tool.definition is Object
            &&& entry.tool.definition is Object ==> tool.definition.member("name"@) == Some(
                JsonView::Text(name),
            )
            &&& other != "name"@ ==> tool.definition.member(other) == entry.tool.definition.member(
                other,
            )
            &&& index_of(entries).tools.contains(tool)
        }),
{
    let entry = entries[at];
    law_exported_tools_route(entries, at);
    if entry.tool.definition is Object {
        law_with_member(
            entry.tool.definition->Object_0,
            "name"@,
            JsonView::Text(entry.exported_tool),
        );
    }
    lemma_sort_contains(exported_tools(entries), by_name(), exported_tool(entry));
    assert(exported_tools(entries)[at] == exported_tool(entry));
}

/// What goes out with a call are the arguments of the request, as an object, empty where
/// there are none, and its metadata, where there is any; a tool that is not offered is
/// unknown by the name that was asked for; and nothing goes out unless the program runs.
pub proof fn law_routed_call(
    index: IndexView,
    name: Seq<char>,
    arguments: Option<Seq<(Seq<char>, JsonView)>>,
    meta: Option<Seq<(Seq<char>, JsonView)>>,
)
    ensures
        match found(index.routes, name) {
            None => routed(index, name, arguments, meta) == Err::<RoutedView, ServeFailureView>(
                ServeFailureView::UnknownTool { name },
            ),
            Some(way) => {
                &&& routed(index, name, arguments, meta) matches Ok(call)
                &&& call.server == way.server
                &&& call.tool == way.tool
                &&& arguments matches Some(members) ==> call.arguments == JsonView::Object(members)
                &&& arguments is None ==> call.arguments == JsonView::Object(Seq::empty())
                &&& meta matches Some(members) ==> call.meta == Some(JsonView::Object(members))
                &&& meta is None ==> call.meta is None
                &&& answered(Ok(call), true) == Ok::<RoutedView, ServeFailureView>(call)
                &&& answered(Ok(call), false) == Err::<RoutedView, ServeFailureView>(
                    ServeFailureView::ShuttingDown,
                )
            },
        },
        forall|failure: ServeFailureView, running: bool|
            #[trigger] answered(Err(failure), running) == Err::<RoutedView, ServeFailureView>(
                failure,
            ),
{
}

/// The offered tools stand by growing names: none comes before one ahead of it; and as many
/// are offered as there are entries, under the exported names of the entries.
pub proof fn law_offered_names(entries: Seq<EntryView>)
    ensures
        ({
            let tools = index_of(entries).tools;
            &&& tools.len() == entries.len()
            &&& forall|i: int, j: int|
                0 <= i < j < tools.len() ==> !text_before(
                    (#[trigger] tools[j]).name,
                    (#[trigger] tools[i]).name,
                )
            &&& tools.map_values(|tool: ToolView| tool.name).to_multiset() == entries.map_values(
                |entry: EntryView| entry.exported_tool,
            ).to_multiset()
        }),
{
    let tools = index_of(entries).tools;
    law_offered_tools_in_order(entries);
    law_sort_keeps_items(exported_tools(entries), by_name());
    assert forall|i: int, j: int| 0 <= i < j < tools.len() implies !text_before(
        (#[trigger] tools[j]).name,
        (#[trigger] tools[i]).name,
    ) by {
        assert(!by_name()(tools[j], tools[i]));
    }
    let name_of = |tool: ToolView| tool.name;
    lemma_mapped_multiset(tools, exported_tools(entries), name_of);
    assert(exported_tools(entries).map_values(name_of) =~= entries.map_values(
        |entry: EntryView| entry.exported_tool,
    ));
}

/// The messages of failed calls say what failed, and the caller is at fault for an unknown
/// tool alone.
pub proof fn law_serve_messages(
    failure: ServeFailureView,
    name: Seq<char>,
    server: Seq<char>,
    tool: Seq<char>,
    cause: Seq<char>,
)
    ensures
        (ServeFailureView::UnknownTool { name }).text() == "unknown cxporter-exported tool '"@ + name
            + "'"@,
        ServeFailureView::ShuttingDown.text() == "cxporter MCP server is shutting down"@,
        (ServeFailureView::CallFailed { server, tool, cause }).text() == "tool call failed for `"@
            + server + "/"@ + tool + "`: "@ + cause,
        (ServeFailureView::ResultNotEncoded { cause }).text()
            == "failed to serialize Codex tool result: "@ + cause,
        (ServeFailureView::ResultNotDecoded { cause }).text()
            == "failed to decode Codex tool result: "@ + cause,
        failure.invalid_params() <==> failure is UnknownTool,
{
}

/// What the values of the server stand for are their fields, each its own.
pub proof fn law_serve_views(
    route: ExportedToolRoute,
    index: ExportedToolIndex,
    call: RoutedCall,
    at: int,
)
    ensures
        route@.server == route.server@,
        route@.tool == route.tool@,
        index@.tools == tool_views(index.tools@),
        index@.tools_by_name.len() == index.tools_by_name@.len(),
        0 <= at < index.tools_by_name@.len() ==> index@.tools_by_name[at] == (
            index.tools_by_name@[at].0@,
            index.tools_by_name@[at].1@,
        ),
        index@.routes.len() == index.routes@.len(),
        0 <= at < index.routes@.len() ==> index@.routes[at] == (
            index.routes@[at].0@,
            index.routes@[at].1@,
        ),
        call@.server == call.server@,
        call@.tool == call.tool@,
        call@.arguments == call.arguments@,
        call.meta matches Some(meta) ==> call@.meta == Some(meta@),
        call.meta is None ==> call@.meta is None,
{
}

/// What a refusal or a result of a call stands for is that refusal or that result.
pub proof fn law_serve_results(
    call: RoutedCall,
    failure: ServeFailure,
    tool: &Tool,
    members: Vec<(String, Json)>,
)
    ensures
        routed_view(Ok(call)) == Ok::<RoutedView, ServeFailureView>(call@),
        routed_view(Err(failure)) == Err::<RoutedView, ServeFailureView>(failure@),
        optional_tool(Some(tool)) == Some(tool@),
        optional_tool(None) is None,
        optional_members(Some(members)) == Some(member_views(members@)),
        optional_members(None) is None,
        match failure {
            ServeFailure::UnknownTool { name } => failure@ matches ServeFailureView::UnknownTool {
                name: asked,
            } && asked == name@,
            ServeFailure::ShuttingDown => failure@ is ShuttingDown,
            ServeFailure::CallFailed { server, tool, cause } =>
                failure@ matches ServeFailureView::CallFailed {
                server: at,
                tool: called,
                cause: reason,
            } && at == server@ && called == tool@ && reason == cause@,
            ServeFailure::ResultNotEncoded { cause } =>
                failure@ matches ServeFailureView::ResultNotEncoded { cause: reason } && reason
                == cause@,
            ServeFailure::ResultNotDecoded { cause } =>
                failure@ matches ServeFailureView::ResultNotDecoded { cause: reason } && reason
                == cause@,
        },
{
}

} // verus!
