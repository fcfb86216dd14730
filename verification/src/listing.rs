//! The listing of servers and their tools: filters, the status of each server, and the
//! table for people.

use crate::catalog::{EntryView, ToolCatalog, ToolCatalogEntry};
use crate::json::{json_views, member_views, Json, JsonView};
use crate::sort::{lemma_filter_none, lemma_filter_push, lemma_filter_step};
use crate::table::{
    find_row, found, gathered, keys, law_table, law_table_rows, lemma_found_values,
    lemma_gathered_values, put_row, rows, with_values,
};
use crate::text::{
    ascii, contains_text, fold_case, folded, law_occurs, lemma_lowered_raised, lowercase, lowered,
    lowered_text, occurs, occurs_at, optional_slice, optional_str, optional_text, raised_text,
    same_text, text_before, texts,
};
use vstd::prelude::*;
use vstd::string::*;

verus! {

/// Which tools to list.
#[derive(Debug)]
pub struct ListFilters {
    pub connector: Option<String>,
    pub tool: Option<String>,
    pub name_contains: Option<String>,
}

/// What `ListFilters` stand for.
pub struct FiltersView {
    pub connector: Option<Seq<char>>,
    pub tool: Option<Seq<char>>,
    pub name_contains: Option<Seq<char>>,
}

impl View for ListFilters {
    type V = FiltersView;

    open spec fn view(&self) -> FiltersView {
        FiltersView {
            connector: optional_text(self.connector),
            tool: optional_text(self.tool),
            name_contains: optional_text(self.name_contains),
        }
    }
}

/// There is a text, and it holds `needle`, upper and lower case taken as one.
pub open spec fn holds(haystack: Option<Seq<char>>, needle: Seq<char>) -> bool {
    match haystack {
        Some(text) => occurs(folded(text), folded(needle)),
        None => false,
    }
}

/// Whether there is a text that holds `needle`, upper and lower case taken as one.
pub fn contains_ignore_case(haystack: Option<&str>, needle: &str) -> (answer: bool)
    ensures
        answer == holds(optional_str(haystack), needle@),
{
    match haystack {
        Some(text) => contains_text(fold_case(text).as_str(), fold_case(needle).as_str()),
        None => false,
    }
}

/// Upper and lower case are taken as one, in the text and in what is looked for: for texts
/// of ASCII characters, either may be written in upper case.
pub proof fn law_case_is_ignored(haystack: Seq<char>, needle: Seq<char>)
    requires
        ascii(haystack),
        ascii(needle),
    ensures
        holds(Some(raised_text(haystack)), needle) == holds(Some(haystack), needle),
        holds(Some(haystack), raised_text(needle)) == holds(Some(haystack), needle),
{
    lemma_folded_raised(haystack);
    lemma_folded_raised(needle);
}

/// A text in upper case folds to the same.
proof fn lemma_folded_raised(text: Seq<char>)
    requires
        ascii(text),
    ensures
        folded(raised_text(text)) == folded(text),
{
    assert forall|i: int| 0 <= i < text.len() implies (#[trigger] raised_text(text)[i] as u32)
        < 128 && lowered(raised_text(text)[i]) == lowered(text[i]) by {
        assert((text[i] as u32) < 128);
        lemma_lowered_raised(text[i]);
    }
    assert(lowered_text(raised_text(text)) =~= lowered_text(text));
}

/// What stands in a text is found there, whatever stands around it, for texts of ASCII
/// characters.
pub proof fn law_part_is_found(front: Seq<char>, needle: Seq<char>, back: Seq<char>)
    requires
        ascii(front),
        ascii(needle),
        ascii(back),
    ensures
        holds(Some(front + needle + back), needle),
{
    let text = front + needle + back;
    assert forall|i: int| 0 <= i < text.len() implies (#[trigger] text[i] as u32) < 128 by {
        if i < front.len() {
            assert(text[i] == front[i]);
        } else if i < front.len() + needle.len() {
            assert(text[i] == needle[i - front.len()]);
        } else {
            assert(text[i] == back[i - front.len() - needle.len()]);
        }
    }
    let at = front.len() as int;
    assert(lowered_text(text).subrange(at, at + needle.len()) =~= lowered_text(needle));
    assert(occurs_at(folded(text), folded(needle), at));
}

/// The tool passes every filter that is set.
pub open spec fn passes(entry: EntryView, filters: FiltersView) -> bool {
    &&& filters.connector matches Some(connector) ==> holds(entry.connector_id, connector) || holds(
        entry.connector_name,
        connector,
    )
    &&& filters.tool matches Some(tool) ==> entry.raw_tool == tool || entry.exported_tool == tool
        || entry.callable_name == tool
    &&& filters.name_contains matches Some(needle) ==> holds(Some(entry.server), needle) || holds(
        Some(entry.raw_tool),
        needle,
    ) || holds(Some(entry.exported_tool), needle) || holds(Some(entry.callable_name), needle)
        || holds(entry.connector_id, needle) || holds(entry.connector_name, needle)
}

/// The tools that pass the filters.
pub open spec fn passing(filters: FiltersView) -> spec_fn(EntryView) -> bool {
    |entry: EntryView| passes(entry, filters)
}

/// Whether a tool passes the filters.
pub fn list_filters_match(entry: &ToolCatalogEntry, filters: &ListFilters) -> (answer: bool)
    ensures
        answer == passes(entry@, filters@),
{
    if let Some(connector) = &filters.connector {
        if !contains_ignore_case(optional_slice(&entry.connector_id), connector.as_str())
            && !contains_ignore_case(optional_slice(&entry.connector_name), connector.as_str()) {
            return false;
        }
    }
    if let Some(tool) = &filters.tool {
        if !same_text(entry.raw_tool.as_str(), tool.as_str()) && !same_text(
            entry.exported_tool.as_str(),
            tool.as_str(),
        ) && !same_text(entry.callable_name.as_str(), tool.as_str()) {
            return false;
        }
    }
    if let Some(needle) = &filters.name_contains {
        if !contains_ignore_case(Some(entry.server.as_str()), needle.as_str())
            && !contains_ignore_case(Some(entry.raw_tool.as_str()), needle.as_str())
            && !contains_ignore_case(Some(entry.exported_tool.as_str()), needle.as_str())
            && !contains_ignore_case(Some(entry.callable_name.as_str()), needle.as_str())
            && !contains_ignore_case(optional_slice(&entry.connector_id), needle.as_str())
            && !contains_ignore_case(optional_slice(&entry.connector_name), needle.as_str()) {
            return false;
        }
    }
    true
}

/// Whether to list everything that the servers report, or tools alone.
#[derive(Clone, Copy, Debug, PartialEq, Eq, Structural)]
pub enum Detail {
    Full,
    Tools,
}

/// How a server takes sign-ins.
#[derive(Clone, Copy, Debug, PartialEq, Eq, Structural)]
pub enum McpAuthStatus {
    Unsupported,
    NotLoggedIn,
    BearerToken,
    OAuth,
}

/// The name of a sign-in status in the listing.
pub open spec fn wire_name(status: McpAuthStatus) -> Seq<char> {
    match status {
        McpAuthStatus::Unsupported => "unsupported"@,
        McpAuthStatus::NotLoggedIn => "notLoggedIn"@,
        McpAuthStatus::BearerToken => "bearerToken"@,
        McpAuthStatus::OAuth => "oAuth"@,
    }
}

/// Names a sign-in status.
pub fn auth_status_to_wire(status: McpAuthStatus) -> (name: &'static str)
    ensures
        name@ == wire_name(status),
{
    match status {
        McpAuthStatus::Unsupported => "unsupported",
        McpAuthStatus::NotLoggedIn => "notLoggedIn",
        McpAuthStatus::BearerToken => "bearerToken",
        McpAuthStatus::OAuth => "oAuth",
    }
}

/// The other names of a tool, and its connector.
#[derive(Debug)]
pub struct ToolAlias {
    pub exported_name: String,
    pub callable_name: String,
    pub connector_id: Option<String>,
    pub connector_name: Option<String>,
}

/// What a `ToolAlias` stands for.
pub struct AliasView {
    pub exported_name: Seq<char>,
    pub callable_name: Seq<char>,
    pub connector_id: Option<Seq<char>>,
    pub connector_name: Option<Seq<char>>,
}

impl View for ToolAlias {
    type V = AliasView;

    open spec fn view(&self) -> AliasView {
        AliasView {
            exported_name: self.exported_name@,
            callable_name: self.callable_name@,
            connector_id: optional_text(self.connector_id),
            connector_name: optional_text(self.connector_name),
        }
    }
}

/// The views of rows of aliases.
pub open spec fn alias_views(aliases: Seq<(String, ToolAlias)>) -> Seq<(Seq<char>, AliasView)> {
    Seq::new(aliases.len(), |i: int| (aliases[i].0@, aliases[i].1@))
}

/// The alias of a catalog entry.
pub open spec fn alias_of(entry: EntryView) -> AliasView {
    AliasView {
        exported_name: entry.exported_tool,
        callable_name: entry.callable_name,
        connector_id: entry.connector_id,
        connector_name: entry.connector_name,
    }
}

/// The entries of a server.
pub open spec fn on_server(server: Seq<char>) -> spec_fn(EntryView) -> bool {
    |entry: EntryView| entry.server == server
}

/// The definitions of tools under their raw names.
pub open spec fn tool_pairs(entries: Seq<EntryView>) -> Seq<(Seq<char>, JsonView)> {
    Seq::new(entries.len(), |i: int| (entries[i].raw_tool, entries[i].tool.definition))
}

/// The aliases of tools under their raw names.
pub open spec fn alias_pairs(entries: Seq<EntryView>) -> Seq<(Seq<char>, AliasView)> {
    Seq::new(entries.len(), |i: int| (entries[i].raw_tool, alias_of(entries[i])))
}

/// A line of the listing for people.
#[derive(Debug)]
pub struct ListRow {
    pub server: String,
    pub raw_tool: String,
    pub exported_tool: String,
    pub connector: Option<String>,
}

/// What a `ListRow` stands for.
pub struct RowView {
    pub server: Seq<char>,
    pub raw_tool: Seq<char>,
    pub exported_tool: Seq<char>,
    pub connector: Option<Seq<char>>,
}

impl View for ListRow {
    type V = RowView;

    open spec fn view(&self) -> RowView {
        RowView {
            server: self.server@,
            raw_tool: self.raw_tool@,
            exported_tool: self.exported_tool@,
            connector: optional_text(self.connector),
        }
    }
}

/// The views of rows.
pub open spec fn row_views(rows: Seq<ListRow>) -> Seq<RowView> {
    Seq::new(rows.len(), |i: int| rows[i]@)
}

/// The row of an entry: its connector goes by its name or else by its id.
pub open spec fn row_of(entry: EntryView) -> RowView {
    RowView {
        server: entry.server,
        raw_tool: entry.raw_tool,
        exported_tool: entry.exported_tool,
        connector: if entry.connector_name is Some {
            entry.connector_name
        } else {
            entry.connector_id
        },
    }
}

/// The rows of entries.
pub open spec fn rows_of(entries: Seq<EntryView>) -> Seq<RowView> {
    Seq::new(entries.len(), |i: int| row_of(entries[i]))
}

/// What was learned of the servers besides their tools, by server name.
#[derive(Debug)]
pub struct ServerReports {
    pub resources: Vec<(String, Vec<Json>)>,
    pub resource_templates: Vec<(String, Vec<Json>)>,
    pub auth_statuses: Vec<(String, McpAuthStatus)>,
}

/// What `ServerReports` stand for.
pub struct ReportsView {
    pub resources: Seq<(Seq<char>, Seq<JsonView>)>,
    pub resource_templates: Seq<(Seq<char>, Seq<JsonView>)>,
    pub auth_statuses: Seq<(Seq<char>, McpAuthStatus)>,
}

/// The views of lists of values under names.
pub open spec fn list_views(lists: Seq<(String, Vec<Json>)>) -> Seq<(Seq<char>, Seq<JsonView>)> {
    Seq::new(lists.len(), |i: int| (lists[i].0@, json_views(lists[i].1@)))
}

impl View for ServerReports {
    type V = ReportsView;

    open spec fn view(&self) -> ReportsView {
        ReportsView {
            resources: list_views(self.resources@),
            resource_templates: list_views(self.resource_templates@),
            auth_statuses: rows(self.auth_statuses@),
        }
    }
}

/// The status of a server in the listing.
#[derive(Debug)]
pub struct ServerStatus {
    pub name: String,
    pub tools: Vec<(String, Json)>,
    pub tool_aliases: Vec<(String, ToolAlias)>,
    pub resources: Vec<Json>,
    pub resource_templates: Vec<Json>,
    pub auth_status: &'static str,
}

/// What a `ServerStatus` stands for.
pub struct StatusView {
    pub name: Seq<char>,
    pub tools: Seq<(Seq<char>, JsonView)>,
    pub tool_aliases: Seq<(Seq<char>, AliasView)>,
    pub resources: Seq<JsonView>,
    pub resource_templates: Seq<JsonView>,
    pub auth_status: Seq<char>,
}

impl View for ServerStatus {
    type V = StatusView;

    open spec fn view(&self) -> StatusView {
        StatusView {
            name: self.name@,
            tools: member_views(self.tools@),
            tool_aliases: alias_views(self.tool_aliases@),
            resources: json_views(self.resources@),
            resource_templates: json_views(self.resource_templates@),
            auth_status: self.auth_status@,
        }
    }
}

/// The views of statuses.
pub open spec fn status_views(statuses: Seq<ServerStatus>) -> Seq<StatusView> {
    Seq::new(statuses.len(), |i: int| statuses[i]@)
}

/// The list under a name, where everything is to be listed.
pub open spec fn reported(
    detail: Detail,
    lists: Seq<(Seq<char>, Seq<JsonView>)>,
    name: Seq<char>,
) -> Seq<JsonView> {
    match (detail, found(lists, name)) {
        (Detail::Full, Some(list)) => list,
        _ => Seq::empty(),
    }
}

/// The sign-in status under a name; one that is not known counts as unsupported.
pub open spec fn auth_status(
    statuses: Seq<(Seq<char>, McpAuthStatus)>,
    name: Seq<char>,
) -> McpAuthStatus {
    match found(statuses, name) {
        Some(status) => status,
        None => McpAuthStatus::Unsupported,
    }
}

/// The status of a server, with the selected tools.
pub open spec fn status_of(
    name: Seq<char>,
    selected: Seq<EntryView>,
    detail: Detail,
    reports: ReportsView,
) -> StatusView {
    let own = selected.filter(on_server(name));
    StatusView {
        name,
        tools: gathered(tool_pairs(own)),
        tool_aliases: gathered(alias_pairs(own)),
        resources: reported(detail, reports.resources, name),
        resource_templates: reported(detail, reports.resource_templates, name),
        auth_status: wire_name(auth_status(reports.auth_statuses, name)),
    }
}

/// The statuses of servers, one for each name.
pub open spec fn statuses_of(
    names: Seq<Seq<char>>,
    selected: Seq<EntryView>,
    detail: Detail,
    reports: ReportsView,
) -> Seq<StatusView> {
    Seq::new(names.len(), |i: int| status_of(names[i], selected, detail, reports))
}

/// A listing: the statuses for programs, and the rows for people.
#[derive(Debug)]
pub struct ListOutput {
    pub statuses: Vec<ServerStatus>,
    pub rows: Vec<ListRow>,
}

/// What references to entries stand for.
pub open spec fn entry_views(entries: Seq<&ToolCatalogEntry>) -> Seq<EntryView> {
    Seq::new(entries.len(), |i: int| entries[i]@)
}

/// Selects the tools that pass the filters.
fn select_entries<'a>(catalog: &'a ToolCatalog, filters: &ListFilters) -> (selected: Vec<
    &'a ToolCatalogEntry,
>)
    ensures
        entry_views(selected@) == catalog@.filter(passing(filters@)),
{
    let mut selected: Vec<&'a ToolCatalogEntry> = Vec::new();
    let mut i: usize = 0;
    proof {
        lemma_filter_none(catalog@.take(0), passing(filters@));
        assert(entry_views(selected@) =~= catalog@.take(0).filter(passing(filters@)));
    }
    while i < catalog.entries.len()
        invariant
            i <= catalog.entries.len(),
            entry_views(selected@) == catalog@.take(i as int).filter(passing(filters@)),
        decreases catalog.entries.len() - i,
    {
        let entry: &'a ToolCatalogEntry = &catalog.entries[i];
        let ghost earlier = entry_views(selected@);
        proof {
            lemma_filter_step(catalog@, i as int, passing(filters@));
        }
        if list_filters_match(entry, filters) {
            selected.push(entry);
            assert(entry_views(selected@) =~= earlier.push(entry@));
        }
        i += 1;
    }
    assert(catalog@.take(catalog@.len() as int) =~= catalog@);
    selected
}

/// Copies values.
fn copy_values(values: &Vec<Json>) -> (copies: Vec<Json>)
    ensures
        json_views(copies@) == json_views(values@),
{
    let mut copies: Vec<Json> = Vec::new();
    let mut i: usize = 0;
    while i < values.len()
        invariant
            i <= values.len(),
            copies@.len() == i,
            forall|j: int| 0 <= j < i ==> (#[trigger] copies@[j])@ == values@[j]@,
        decreases values.len() - i,
    {
        copies.push(values[i].clone());
        i += 1;
    }
    assert(json_views(copies@) =~= json_views(values@));
    copies
}

/// Copies the list under a name, where everything is to be listed.
fn report_for(detail: Detail, lists: &Vec<(String, Vec<Json>)>, name: &str) -> (list: Vec<Json>)
    ensures
        json_views(list@) == reported(detail, list_views(lists@), name@),
{
    let empty: Vec<Json> = Vec::new();
    assert(json_views(empty@) =~= Seq::empty());
    if detail != Detail::Full {
        return empty;
    }
    proof {
        let f = |list: Vec<Json>| json_views(list@);
        lemma_found_values(rows(lists@), name@, f);
        assert(with_values(rows(lists@), f) =~= list_views(lists@));
    }
    match find_row(lists, name) {
        Some(list) => copy_values(list),
        None => empty,
    }
}

/// Copies an optional text.
fn copy_text(text: &Option<String>) -> (copy: Option<String>)
    ensures
        optional_text(copy) == optional_text(*text),
{
    match text {
        Some(text) => Some(text.clone()),
        None => None,
    }
}

/// Makes the alias of an entry.
fn make_alias(entry: &ToolCatalogEntry) -> (alias: ToolAlias)
    ensures
        alias@ == alias_of(entry@),
{
    ToolAlias {
        exported_name: entry.exported_tool.clone(),
        callable_name: entry.callable_name.clone(),
        connector_id: copy_text(&entry.connector_id),
        connector_name: copy_text(&entry.connector_name),
    }
}

/// Makes the row of an entry.
fn make_row(entry: &ToolCatalogEntry) -> (row: ListRow)
    ensures
        row@ == row_of(entry@),
{
    let connector: Option<String> = match &entry.connector_name {
        Some(name) => Some(name.clone()),
        None => copy_text(&entry.connector_id),
    };
    ListRow {
        server: entry.server.clone(),
        raw_tool: entry.raw_tool.clone(),
        exported_tool: entry.exported_tool.clone(),
        connector,
    }
}

/// Gathers the tools of a server, and their aliases.
fn gather_tools(selected: &Vec<&ToolCatalogEntry>, name: &str) -> (gathering: (
    Vec<(String, Json)>,
    Vec<(String, ToolAlias)>,
))
    ensures
        member_views(gathering.0@) == gathered(
            tool_pairs(entry_views(selected@).filter(on_server(name@))),
        ),
        alias_views(gathering.1@) == gathered(
            alias_pairs(entry_views(selected@).filter(on_server(name@))),
        ),
{
    let mut tools: Vec<(String, Json)> = Vec::new();
    let mut aliases: Vec<(String, ToolAlias)> = Vec::new();
    let ghost views = entry_views(selected@);
    let ghost own = on_server(name@);
    let ghost mut tool_source: Seq<(Seq<char>, Json)> = Seq::empty();
    let ghost mut alias_source: Seq<(Seq<char>, ToolAlias)> = Seq::empty();
    let ghost json_of = |value: Json| value@;
    let ghost view_of = |alias: ToolAlias| alias@;
    let mut i: usize = 0;
    proof {
        lemma_filter_none(views.take(0), own);
        assert(rows(tools@) =~= gathered(tool_source));
        assert(rows(aliases@) =~= gathered(alias_source));
        assert(with_values(tool_source, json_of) =~= tool_pairs(views.take(0).filter(own)));
        assert(with_values(alias_source, view_of) =~= alias_pairs(views.take(0).filter(own)));
    }
    while i < selected.len()
        invariant
            i <= selected.len(),
            views == entry_views(selected@),
            own == on_server(name@),
            forall|value: Json| #[trigger] json_of(value) == value@,
            forall|alias: ToolAlias| #[trigger] view_of(alias) == alias@,
            rows(tools@) == gathered(tool_source),
            rows(aliases@) == gathered(alias_source),
            with_values(tool_source, json_of) == tool_pairs(views.take(i as int).filter(own)),
            with_values(alias_source, view_of) == alias_pairs(views.take(i as int).filter(own)),
        decreases selected.len() - i,
    {
        let entry: &ToolCatalogEntry = selected[i];
        let ghost earlier = views.take(i as int).filter(own);
        proof {
            lemma_filter_step(views, i as int, own);
        }
        if same_text(entry.server.as_str(), name) {
            let definition: Json = entry.tool.definition.clone();
            let alias: ToolAlias = make_alias(entry);
            let tool_name: String = entry.raw_tool.clone();
            let alias_name: String = entry.raw_tool.clone();
            proof {
                let more_tools = tool_source.push((tool_name@, definition));
                let more_aliases = alias_source.push((alias_name@, alias));
                assert(more_tools.drop_last() =~= tool_source);
                assert(more_aliases.drop_last() =~= alias_source);
                assert(with_values(more_tools, json_of) =~= with_values(tool_source, json_of).push(
                    (entry.raw_tool@, entry@.tool.definition),
                ));
                assert(with_values(more_aliases, view_of) =~= with_values(
                    alias_source,
                    view_of,
                ).push((entry.raw_tool@, alias_of(entry@))));
                assert(tool_pairs(earlier.push(entry@)) =~= tool_pairs(earlier).push(
                    (entry.raw_tool@, entry@.tool.definition),
                ));
                assert(alias_pairs(earlier.push(entry@)) =~= alias_pairs(earlier).push(
                    (entry.raw_tool@, alias_of(entry@)),
                ));
                tool_source = more_tools;
                alias_source = more_aliases;
            }
            put_row(&mut tools, tool_name, definition);
            put_row(&mut aliases, alias_name, alias);
        }
        i += 1;
    }
    proof {
        assert(views.take(views.len() as int) =~= views);
        lemma_gathered_values(tool_source, json_of);
        lemma_gathered_values(alias_source, view_of);
        assert(member_views(tools@) =~= with_values(rows(tools@), json_of));
        assert(alias_views(aliases@) =~= with_values(rows(aliases@), view_of));
    }
    (tools, aliases)
}

/// Lists servers and their tools.
pub fn list_servers(
    server_names: &Vec<String>,
    catalog: &ToolCatalog,
    detail: Detail,
    filters: &ListFilters,
    reports: &ServerReports,
) -> (output: ListOutput)
    ensures
        status_views(output.statuses@) == statuses_of(
            texts(server_names@),
            catalog@.filter(passing(filters@)),
            detail,
            reports@,
        ),
        row_views(output.rows@) == rows_of(catalog@.filter(passing(filters@))),
{
    let selected: Vec<&ToolCatalogEntry> = select_entries(catalog, filters);
    let ghost views = entry_views(selected@);
    let mut list_rows: Vec<ListRow> = Vec::new();
    let mut i: usize = 0;
    while i < selected.len()
        invariant
            i <= selected.len(),
            views == entry_views(selected@),
            list_rows@.len() == i,
            forall|j: int| 0 <= j < i ==> (#[trigger] list_rows@[j])@ == row_of(views[j]),
        decreases selected.len() - i,
    {
        let row: ListRow = make_row(selected[i]);
        list_rows.push(row);
        i += 1;
    }
    assert(row_views(list_rows@) =~= rows_of(views));
    let mut statuses: Vec<ServerStatus> = Vec::new();
    let mut k: usize = 0;
    while k < server_names.len()
        invariant
            k <= server_names.len(),
            views == entry_views(selected@),
            statuses@.len() == k,
            forall|j: int|
                0 <= j < k ==> (#[trigger] statuses@[j])@ == status_of(
                    texts(server_names@)[j],
                    views,
                    detail,
                    reports@,
                ),
        decreases server_names.len() - k,
    {
        let name: &str = server_names[k].as_str();
        let (tools, tool_aliases) = gather_tools(&selected, name);
        let auth: McpAuthStatus = match find_row(&reports.auth_statuses, name) {
            Some(status) => *status,
            None => McpAuthStatus::Unsupported,
        };
        let status: ServerStatus = ServerStatus {
            name: server_names[k].clone(),
            tools,
            tool_aliases,
            resources: report_for(detail, &reports.resources, name),
            resource_templates: report_for(detail, &reports.resource_templates, name),
            auth_status: auth_status_to_wire(auth),
        };
        assert(status@ == status_of(texts(server_names@)[k as int], views, detail, reports@));
        statuses.push(status);
        k += 1;
    }
    assert(status_views(statuses@) =~= statuses_of(texts(server_names@), views, detail, reports@));
    ListOutput { statuses, rows: list_rows }
}

/// A line of the table for people.
pub open spec fn row_text(row: RowView) -> Seq<char> {
    let connector = match row.connector {
        Some(connector) => connector,
        None => "-"@,
    };
    row.server + "\t"@ + connector + "\t"@ + row.raw_tool + "\t"@ + row.exported_tool + "\n"@
}

/// The table for people: a head line, and a line for each row.
pub open spec fn list_text(rows: Seq<RowView>) -> Seq<char>
    decreases rows.len(),
{
    if rows.len() == 0 {
        "SERVER\tCONNECTOR\tRAW TOOL\tEXPORTED TOOL\n"@
    } else {
        list_text(rows.drop_last()) + row_text(rows.last())
    }
}

/// Writes the table for people.
pub fn print_list_text(rows: &Vec<ListRow>) -> (text: String)
    ensures
        text@ == list_text(row_views(rows@)),
{
    let ghost views = row_views(rows@);
    let mut text: String = "SERVER\tCONNECTOR\tRAW TOOL\tEXPORTED TOOL\n".to_owned();
    let mut i: usize = 0;
    while i < rows.len()
        invariant
            i <= rows.len(),
            views == row_views(rows@),
            text@ == list_text(views.take(i as int)),
        decreases rows.len() - i,
    {
        let row: &ListRow = &rows[i];
        let ghost earlier = text@;
        text.append(row.server.as_str());
        text.append("\t");
        match &row.connector {
            Some(connector) => text.append(connector.as_str()),
            None => text.append("-"),
        }
        text.append("\t");
        text.append(row.raw_tool.as_str());
        text.append("\t");
        text.append(row.exported_tool.as_str());
        text.append("\n");
        proof {
            let upto = views.take(i + 1);
            assert(upto.drop_last() =~= views.take(i as int));
            assert(upto.last() == row@);
            assert(text@ =~= earlier + row_text(row@));
        }
        i += 1;
    }
    assert(views.take(views.len() as int) =~= views);
    text
}

/// Without filters, everything is listed.
pub proof fn law_no_filters_list_all(entries: Seq<EntryView>, filters: FiltersView)
    requires
        filters.connector is None,
        filters.tool is None,
        filters.name_contains is None,
    ensures
        entries.filter(passing(filters)) == entries,
    decreases entries.len(),
{
    if entries.len() == 0 {
        lemma_filter_none(entries, passing(filters));
        assert(entries.filter(passing(filters)) =~= entries);
    } else {
        let front = entries.drop_last();
        law_no_filters_list_all(front, filters);
        lemma_filter_push(front, entries.last(), passing(filters));
        assert(front.push(entries.last()) =~= entries);
    }
}

/// A tool is listed under its server and its raw name exactly if it passes the filters;
/// where several tools there have one raw name, one of them is.
pub proof fn law_listed_exactly(
    entries: Seq<EntryView>,
    filters: FiltersView,
    name: Seq<char>,
    raw_tool: Seq<char>,
    detail: Detail,
    reports: ReportsView,
)
    ensures
        ({
            let status = status_of(name, entries.filter(passing(filters)), detail, reports);
            &&& found(status.tools, raw_tool) is Some <==> exists|i: int|
                0 <= i < entries.len() && entries[i].server == name && entries[i].raw_tool
                    == raw_tool && passes(#[trigger] entries[i], filters)
            &&& found(status.tools, raw_tool) matches Some(definition) ==> exists|i: int|
                0 <= i < entries.len() && entries[i].server == name && entries[i].raw_tool
                    == raw_tool && passes(#[trigger] entries[i], filters)
                    && entries[i].tool.definition == definition && found(
                    status.tool_aliases,
                    raw_tool,
                ) == Some(alias_of(entries[i]))
        }),
{
    let selected = entries.filter(passing(filters));
    let own = selected.filter(on_server(name));
    law_table(tool_pairs(own));
    law_table(alias_pairs(own));
    lemma_found_pairs(own, raw_tool);
    if found(tool_pairs(own), raw_tool) is Some {
        let k = choose|k: int|
            0 <= k < own.len() && (#[trigger] own[k]).raw_tool == raw_tool && found(
                tool_pairs(own),
                raw_tool,
            ) == Some(own[k].tool.definition) && found(alias_pairs(own), raw_tool) == Some(
                alias_of(own[k]),
            );
        selected.lemma_filter_pred(on_server(name), k);
        assert(own.contains(own[k]));
        selected.lemma_filter_contains_rev(on_server(name), own[k]);
        let m = choose|m: int| 0 <= m < selected.len() && selected[m] == own[k];
        entries.lemma_filter_pred(passing(filters), m);
        assert(selected.contains(selected[m]));
        entries.lemma_filter_contains_rev(passing(filters), selected[m]);
        let i = choose|i: int| 0 <= i < entries.len() && entries[i] == selected[m];
        assert(passes(entries[i], filters));
    }
    if exists|i: int|
        0 <= i < entries.len() && entries[i].server == name && entries[i].raw_tool == raw_tool
            && passes(#[trigger] entries[i], filters) {
        let i = choose|i: int|
            0 <= i < entries.len() && entries[i].server == name && entries[i].raw_tool == raw_tool
                && passes(#[trigger] entries[i], filters);
        entries.lemma_filter_contains(passing(filters), i);
        let m = choose|m: int| 0 <= m < selected.len() && selected[m] == entries[i];
        selected.lemma_filter_contains(on_server(name), m);
        let k = choose|k: int| 0 <= k < own.len() && own[k] == entries[i];
        assert(own[k].raw_tool == raw_tool);
    }
}

/// What is found for a raw name is the definition and the alias of one entry, the last
/// with that name.
proof fn lemma_found_pairs(own: Seq<EntryView>, raw_tool: Seq<char>)
    ensures
        found(tool_pairs(own), raw_tool) is Some <==> exists|k: int|
            0 <= k < own.len() && (#[trigger] own[k]).raw_tool == raw_tool,
        found(tool_pairs(own), raw_tool) is Some ==> exists|k: int|
            0 <= k < own.len() && (#[trigger] own[k]).raw_tool == raw_tool && found(
                tool_pairs(own),
                raw_tool,
            ) == Some(own[k].tool.definition) && found(alias_pairs(own), raw_tool) == Some(
                alias_of(own[k]),
            ),
    decreases own.len(),
{
    if own.len() > 0 {
        let front = own.drop_last();
        lemma_found_pairs(front, raw_tool);
        assert(tool_pairs(own).drop_last() =~= tool_pairs(front));
        assert(alias_pairs(own).drop_last() =~= alias_pairs(front));
        if own.last().raw_tool == raw_tool {
            assert(own[own.len() - 1].raw_tool == raw_tool);
        } else {
            if found(tool_pairs(front), raw_tool) is Some {
                let k = choose|k: int|
                    0 <= k < front.len() && (#[trigger] front[k]).raw_tool == raw_tool && found(
                        tool_pairs(front),
                        raw_tool,
                    ) == Some(front[k].tool.definition) && found(alias_pairs(front), raw_tool)
                        == Some(alias_of(front[k]));
                assert(own[k] == front[k]);
            }
            if exists|k: int| 0 <= k < own.len() && (#[trigger] own[k]).raw_tool == raw_tool {
                let k = choose|k: int|
                    0 <= k < own.len() && (#[trigger] own[k]).raw_tool == raw_tool;
                assert(front[k] == own[k]);
            }
        }
    }
}

/// Every listed tool has its alias beside it: the tools and the aliases of a server are
/// listed under the same names, in the same order.
pub proof fn law_tools_have_aliases(
    name: Seq<char>,
    selected: Seq<EntryView>,
    detail: Detail,
    reports: ReportsView,
)
    ensures
        ({
            let status = status_of(name, selected, detail, reports);
            keys(status.tools) == keys(status.tool_aliases)
        }),
{
    let own = selected.filter(on_server(name));
    let no_json = |value: JsonView| ();
    let no_alias = |alias: AliasView| ();
    let tools = gathered(tool_pairs(own));
    let aliases = gathered(alias_pairs(own));
    lemma_gathered_values(tool_pairs(own), no_json);
    lemma_gathered_values(alias_pairs(own), no_alias);
    assert(with_values(tool_pairs(own), no_json) =~= with_values(alias_pairs(own), no_alias));
    assert(keys(tools) =~= keys(with_values(tools, no_json)));
    assert(keys(aliases) =~= keys(with_values(aliases, no_alias)));
}

/// Where tools alone are to be listed, no resources and no templates are.
pub proof fn law_tools_alone(name: Seq<char>, selected: Seq<EntryView>, reports: ReportsView)
    ensures
        status_of(name, selected, Detail::Tools, reports).resources.len() == 0,
        status_of(name, selected, Detail::Tools, reports).resource_templates.len() == 0,
{
}

/// A text holds another, case aside, exactly if that other stands in it once case is taken
/// out of both; where there is no text, nothing is held.
pub proof fn law_holds(text: Seq<char>, needle: Seq<char>)
    ensures
        holds(Some(text), needle) <==> exists|front: Seq<char>, back: Seq<char>|
            folded(text) == #[trigger] (front + folded(needle) + back),
        !holds(None, needle),
        ascii(text) ==> folded(text) == text.map_values(|character: char| lowered(character)),
        !ascii(text) ==> folded(text) == lowercase(text),
        ascii(text) <==> forall|i: int| 0 <= i < text.len() ==> ((#[trigger] text[i]) as u32) < 128,
{
    if ascii(text) {
        assert forall|i: int| 0 <= i < text.len() implies ((#[trigger] text[i]) as u32) < 128 by {
            assert((text[i] as u32) < 128);
        }
    }
    if forall|i: int| 0 <= i < text.len() ==> ((#[trigger] text[i]) as u32) < 128 {
        assert forall|i: int| 0 <= i < text.len() implies (#[trigger] text[i] as u32) < 128 by {
            assert(text[i] == text[i]);
        }
    }
    law_occurs(folded(text), folded(needle));
    if ascii(text) {
        assert(folded(text) =~= text.map_values(|character: char| lowered(character)));
    }
}

/// Filters combine by and: a tool passes a set of filters exactly if it passes each of them
/// alone. A connector is looked for in the connector's id and name, a tool is one that has
/// that name in one of three ways, a text is looked for in all six names; no filter lets
/// everything pass.
pub proof fn law_filters_combine(entry: EntryView, filters: FiltersView)
    ensures
        passes(entry, filters) == (passes(
            entry,
            (FiltersView { connector: filters.connector, tool: None, name_contains: None }),
        ) && passes(
            entry,
            (FiltersView { connector: None, tool: filters.tool, name_contains: None }),
        ) && passes(
            entry,
            (FiltersView { connector: None, tool: None, name_contains: filters.name_contains }),
        )),
        passes(entry, (FiltersView { connector: None, tool: None, name_contains: None })),
        filters.connector matches Some(connector) ==> passes(
            entry,
            (FiltersView { connector: filters.connector, tool: None, name_contains: None }),
        ) == (holds(entry.connector_id, connector) || holds(entry.connector_name, connector)),
        filters.tool matches Some(tool) ==> passes(
            entry,
            (FiltersView { connector: None, tool: filters.tool, name_contains: None }),
        ) == (tool == entry.raw_tool || tool == entry.exported_tool || tool
            == entry.callable_name),
        filters.name_contains matches Some(needle) ==> passes(
            entry,
            (FiltersView { connector: None, tool: None, name_contains: filters.name_contains }),
        ) == exists|i: int|
            0 <= i < 6 && holds(#[trigger] six_names(entry)[i], needle),
{
    let names = six_names(entry);
    assert(names[0] == Some(entry.server) && names[1] == Some(entry.raw_tool) && names[2] == Some(
        entry.exported_tool,
    ) && names[3] == Some(entry.callable_name) && names[4] == entry.connector_id && names[5]
        == entry.connector_name);
    if filters.name_contains is Some {
        let needle = filters.name_contains->Some_0;
        if exists|i: int| 0 <= i < 6 && holds(#[trigger] names[i], needle) {
            let i = choose|i: int| 0 <= i < 6 && holds(#[trigger] names[i], needle);
            assert(i == 0 || i == 1 || i == 2 || i == 3 || i == 4 || i == 5);
        }
    }
}

/// The names of a tool: those of its server, its own three, and those of its connector.
pub open spec fn six_names(entry: EntryView) -> Seq<Option<Seq<char>>> {
    seq![
        Some(entry.server),
        Some(entry.raw_tool),
        Some(entry.exported_tool),
        Some(entry.callable_name),
        entry.connector_id,
        entry.connector_name,
    ]
}

/// The rows of a listing are for its tools, in order, with their names, and with the name of
/// the connector, or else its id.
pub proof fn law_rows_of_tools(entries: Seq<EntryView>, at: int)
    requires
        0 <= at < entries.len(),
    ensures
        rows_of(entries).len() == entries.len(),
        rows_of(entries)[at].server == entries[at].server,
        rows_of(entries)[at].raw_tool == entries[at].raw_tool,
        rows_of(entries)[at].exported_tool == entries[at].exported_tool,
        entries[at].connector_name is Some ==> rows_of(entries)[at].connector
            == entries[at].connector_name,
        entries[at].connector_name is None ==> rows_of(entries)[at].connector
            == entries[at].connector_id,
{
}

/// An alias holds the other names of its tool and those of its connector.
pub proof fn law_alias(entry: EntryView)
    ensures
        alias_of(entry).exported_name == entry.exported_tool,
        alias_of(entry).callable_name == entry.callable_name,
        alias_of(entry).connector_id == entry.connector_id,
        alias_of(entry).connector_name == entry.connector_name,
{
}

/// There is one status for each server, in order, under its name. It holds what the server
/// reported under that name, where everything is to be listed, and its sign-in status,
/// which is `unsupported` where none is known; its tools stand by growing names.
pub proof fn law_statuses(
    names: Seq<Seq<char>>,
    selected: Seq<EntryView>,
    reports: ReportsView,
    at: int,
    detail: Detail,
)
    requires
        0 <= at < names.len(),
    ensures
        ({
            let statuses = statuses_of(names, selected, detail, reports);
            let status = statuses[at];
            let full = detail == Detail::Full;
            &&& statuses.len() == names.len()
            &&& status.name == names[at]
            &&& full ==> (found(reports.resources, names[at]) matches Some(list)
                ==> status.resources == list)
            &&& full ==> (found(reports.resource_templates, names[at]) matches Some(list)
                ==> status.resource_templates == list)
            &&& !full || found(reports.resources, names[at]) is None ==> status.resources.len() == 0
            &&& !full || found(reports.resource_templates, names[at]) is None
                ==> status.resource_templates.len() == 0
            &&& status.auth_status == match found(reports.auth_statuses, names[at]) {
                Some(McpAuthStatus::NotLoggedIn) => "notLoggedIn"@,
                Some(McpAuthStatus::BearerToken) => "bearerToken"@,
                Some(McpAuthStatus::OAuth) => "oAuth"@,
                _ => "unsupported"@,
            }
            &&& forall|i: int, j: int|
                0 <= i < j < status.tools.len() ==> text_before(
                    (#[trigger] status.tools[i]).0,
                    (#[trigger] status.tools[j]).0,
                )
        }),
{
    let own = selected.filter(on_server(names[at]));
    law_table_rows(tool_pairs(own), 0, names[at]);
}

/// The table for people has its head line, and then for each row the server, the connector
/// or `-`, the raw name and the exported name, with tabs between them.
pub proof fn law_list_text(rows: Seq<RowView>, row: RowView)
    ensures
        list_text(Seq::empty()) == "SERVER\tCONNECTOR\tRAW TOOL\tEXPORTED TOOL\n"@,
        row.connector matches Some(connector) ==> list_text(rows.push(row)) == list_text(rows)
            + row.server + "\t"@ + connector + "\t"@ + row.raw_tool + "\t"@ + row.exported_tool
            + "\n"@,
        row.connector is None ==> list_text(rows.push(row)) == list_text(rows) + row.server
            + "\t"@ + "-"@ + "\t"@ + row.raw_tool + "\t"@ + row.exported_tool + "\n"@,
{
    assert(rows.push(row).drop_last() =~= rows);
    let connector = match row.connector {
        Some(connector) => connector,
        None => "-"@,
    };
    assert(list_text(rows.push(row)) =~= list_text(rows) + row.server + "\t"@ + connector + "\t"@
        + row.raw_tool + "\t"@ + row.exported_tool + "\n"@);
}

/// The names of the sign-in statuses.
pub proof fn law_wire_names()
    ensures
        wire_name(McpAuthStatus::Unsupported) == "unsupported"@,
        wire_name(McpAuthStatus::NotLoggedIn) == "notLoggedIn"@,
        wire_name(McpAuthStatus::BearerToken) == "bearerToken"@,
        wire_name(McpAuthStatus::OAuth) == "oAuth"@,
{
}

/// What the values of a listing stand for are their fields, each its own.
pub proof fn law_listing_views(
    filters: ListFilters,
    alias: ToolAlias,
    row: ListRow,
    status: ServerStatus,
    reports: ServerReports,
)
    ensures
        filters@.connector == optional_text(filters.connector),
        filters@.tool == optional_text(filters.tool),
        filters@.name_contains == optional_text(filters.name_contains),
        alias@.exported_name == alias.exported_name@,
        alias@.callable_name == alias.callable_name@,
        alias@.connector_id == optional_text(alias.connector_id),
        alias@.connector_name == optional_text(alias.connector_name),
        row@.server == row.server@,
        row@.raw_tool == row.raw_tool@,
        row@.exported_tool == row.exported_tool@,
        row@.connector == optional_text(row.connector),
        status@.name == status.name@,
        status@.tools == member_views(status.tools@),
        status@.tool_aliases.len() == status.tool_aliases@.len(),
        forall|i: int|
            0 <= i < status.tool_aliases@.len() ==> #[trigger] status@.tool_aliases[i] == (
                status.tool_aliases@[i].0@,
                status.tool_aliases@[i].1@,
            ),
        status@.resources == json_views(status.resources@),
        status@.resource_templates == json_views(status.resource_templates@),
        status@.auth_status == status.auth_status@,
        reports@.resources == list_views(reports.resources@),
        reports@.resource_templates == list_views(reports.resource_templates@),
        reports@.auth_statuses == rows(reports.auth_statuses@),
{
}

/// The tools that are listed are those that pass the filters, in the order of the catalog.
pub proof fn law_listed_tools(entries: Seq<EntryView>, filters: FiltersView)
    ensures
        entries.filter(passing(filters)) == entries.filter(
            |entry: EntryView| passes(entry, filters),
        ),
{
    let test = |entry: EntryView| passes(entry, filters);
    assert(test =~= passing(filters));
}

/// Of several tools of a server with one raw name that pass the filters, the last one is
/// listed, with its alias beside it.
pub proof fn law_last_tool_is_listed(
    entries: Seq<EntryView>,
    filters: FiltersView,
    at: int,
    detail: Detail,
    reports: ReportsView,
)
    requires
        0 <= at < entries.len(),
        passes(entries[at], filters),
        forall|i: int|
            at < i < entries.len() && (#[trigger] entries[i]).server == entries[at].server
                && entries[i].raw_tool == entries[at].raw_tool ==> !passes(entries[i], filters),
    ensures
        ({
            let entry = entries[at];
            let status = status_of(
                entry.server,
                entries.filter(passing(filters)),
                detail,
                reports,
            );
            &&& found(status.tools, entry.raw_tool) == Some(entry.tool.definition)
            &&& found(status.tool_aliases, entry.raw_tool) matches Some(alias)
            &&& alias.exported_name == entry.exported_tool
            &&& alias.callable_name == entry.callable_name
            &&& alias.connector_id == entry.connector_id
            &&& alias.connector_name == entry.connector_name
        }),
{
    let own = entries.filter(passing(filters)).filter(on_server(entries[at].server));
    lemma_last_found(entries, filters, at);
    law_table(tool_pairs(own));
    law_table(alias_pairs(own));
    assert(found(gathered(tool_pairs(own)), entries[at].raw_tool) == found(
        tool_pairs(own),
        entries[at].raw_tool,
    ));
    assert(found(gathered(alias_pairs(own)), entries[at].raw_tool) == found(
        alias_pairs(own),
        entries[at].raw_tool,
    ));
}

proof fn lemma_last_found(entries: Seq<EntryView>, filters: FiltersView, at: int)
    requires
        0 <= at < entries.len(),
        passes(entries[at], filters),
        forall|i: int|
            at < i < entries.len() && (#[trigger] entries[i]).server == entries[at].server
                && entries[i].raw_tool == entries[at].raw_tool ==> !passes(entries[i], filters),
    ensures
        ({
            let own = entries.filter(passing(filters)).filter(on_server(entries[at].server));
            &&& found(tool_pairs(own), entries[at].raw_tool) == Some(entries[at].tool.definition)
            &&& found(alias_pairs(own), entries[at].raw_tool) == Some(alias_of(entries[at]))
        }),
    decreases entries.len(),
{
    let entry = entries[at];
    let test = on_server(entry.server);
    let front = entries.drop_last();
    let last = entries.last();
    let selected = front.filter(passing(filters));
    let earlier = selected.filter(test);
    let own = entries.filter(passing(filters)).filter(test);
    lemma_filter_push(front, last, passing(filters));
    assert(front.push(last) =~= entries);
    lemma_filter_push(selected, last, test);
    if passes(last, filters) && last.server == entry.server {
        assert(own =~= earlier.push(last));
        assert(tool_pairs(own).drop_last() =~= tool_pairs(earlier));
        assert(alias_pairs(own).drop_last() =~= alias_pairs(earlier));
        assert(tool_pairs(own).last() == (last.raw_tool, last.tool.definition));
        assert(alias_pairs(own).last() == (last.raw_tool, alias_of(last)));
    } else {
        assert(own =~= earlier);
    }
    if at < front.len() {
        assert(front[at] == entry);
        assert(entries[entries.len() - 1] == last);
        assert forall|i: int|
            at < i < front.len() && (#[trigger] front[i]).server == entry.server
                && front[i].raw_tool == entry.raw_tool implies !passes(front[i], filters) by {
            assert(front[i] == entries[i]);
        }
        lemma_last_found(front, filters, at);
    }
}

/// What the lists of a listing stand for are their items, each in its place.
pub proof fn law_listing_lists(
    rows: Seq<ListRow>,
    statuses: Seq<ServerStatus>,
    lists: Seq<(String, Vec<Json>)>,
    entries: Seq<&ToolCatalogEntry>,
    at: int,
)
    ensures
        row_views(rows).len() == rows.len(),
        0 <= at < rows.len() ==> row_views(rows)[at] == rows[at]@,
        status_views(statuses).len() == statuses.len(),
        0 <= at < statuses.len() ==> status_views(statuses)[at] == statuses[at]@,
        list_views(lists).len() == lists.len(),
        0 <= at < lists.len() ==> list_views(lists)[at] == (
            lists[at].0@,
            json_views(lists[at].1@),
        ),
        entry_views(entries).len() == entries.len(),
        0 <= at < entries.len() ==> entry_views(entries)[at] == entries[at]@,
{
}

} // verus!
