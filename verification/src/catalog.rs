//! The catalog of the tools that the servers offer: under which name each is exported,
//! and which tool a name stands for.

use crate::failure::{text_pairs, Failure, FailureView};
use crate::json::{lookup, Json, JsonView};
use crate::naming::{
    base_name, clashing, dots, exported_names, exported_tool_base_name, law_clashing_ignores_order,
    law_even_names_do_not_clash, law_exported_names, law_exported_names_distinct, lemma_base_dots,
    lemma_occurrences_bounded, numbered, occurrences, unique_exported_tool_name, UsedNames,
};
use crate::sort::{
    in_order, law_sort_in_order, law_sort_keeps_items, law_sort_keeps_ties, lemma_filter_one,
    lemma_filter_step, lemma_mapped_multiset, lemma_sort_contains, lemma_sort_mapped, rank,
    sorted_by, stable_sort, strict_order, tied_with, Ranked,
};
use crate::text::{
    decimal, is_before, lemma_before_asymmetric, lemma_before_between, lemma_before_irreflexive,
    lemma_before_total, optional_slice, optional_text, same_text, text_before,
};
use vstd::prelude::*;
use vstd::string::*;

verus! {

/// A tool as its server defines it: its name, and the whole definition as JSON.
#[derive(Debug)]
pub struct Tool {
    pub name: String,
    pub definition: Json,
}

/// What a `Tool` stands for.
pub struct ToolView {
    pub name: Seq<char>,
    pub definition: JsonView,
}

impl View for Tool {
    type V = ToolView;

    open spec fn view(&self) -> ToolView {
        ToolView { name: self.name@, definition: self.definition@ }
    }
}

/// A tool as the connection to its server reports it.
#[derive(Debug)]
pub struct ToolInfo {
    pub server_name: String,
    pub callable_name: String,
    pub connector_id: Option<String>,
    pub connector_name: Option<String>,
    pub supports_parallel: bool,
    pub tool: Tool,
}

/// What a `ToolInfo` stands for.
pub struct ToolInfoView {
    pub server_name: Seq<char>,
    pub callable_name: Seq<char>,
    pub connector_id: Option<Seq<char>>,
    pub connector_name: Option<Seq<char>>,
    pub supports_parallel: bool,
    pub tool: ToolView,
}

impl View for ToolInfo {
    type V = ToolInfoView;

    open spec fn view(&self) -> ToolInfoView {
        ToolInfoView {
            server_name: self.server_name@,
            callable_name: self.callable_name@,
            connector_id: optional_text(self.connector_id),
            connector_name: optional_text(self.connector_name),
            supports_parallel: self.supports_parallel,
            tool: self.tool@,
        }
    }
}

/// A tool with the names that it goes by.
#[derive(Debug)]
pub struct ToolCatalogEntry {
    pub server: String,
    pub raw_tool: String,
    pub exported_tool: String,
    pub callable_name: String,
    pub connector_id: Option<String>,
    pub connector_name: Option<String>,
    pub parallel: bool,
    pub tool: Tool,
}

/// What a `ToolCatalogEntry` stands for.
pub struct EntryView {
    pub server: Seq<char>,
    pub raw_tool: Seq<char>,
    pub exported_tool: Seq<char>,
    pub callable_name: Seq<char>,
    pub connector_id: Option<Seq<char>>,
    pub connector_name: Option<Seq<char>>,
    pub parallel: bool,
    pub tool: ToolView,
}

impl View for ToolCatalogEntry {
    type V = EntryView;

    open spec fn view(&self) -> EntryView {
        EntryView {
            server: self.server@,
            raw_tool: self.raw_tool@,
            exported_tool: self.exported_tool@,
            callable_name: self.callable_name@,
            connector_id: optional_text(self.connector_id),
            connector_name: optional_text(self.connector_name),
            parallel: self.parallel,
            tool: self.tool@,
        }
    }
}

/// The tools of the connected servers.
#[derive(Debug)]
pub struct ToolCatalog {
    pub entries: Vec<ToolCatalogEntry>,
}

impl View for ToolCatalog {
    type V = Seq<EntryView>;

    open spec fn view(&self) -> Seq<EntryView> {
        Seq::new(self.entries@.len(), |i: int| self.entries@[i]@)
    }
}

/// The views of reported tools.
pub open spec fn info_views(infos: Seq<ToolInfo>) -> Seq<ToolInfoView> {
    Seq::new(infos.len(), |i: int| infos[i]@)
}

/// The base name of a reported tool.
pub open spec fn info_base(info: ToolInfoView) -> Seq<char> {
    base_name(info.server_name, info.connector_name, info.tool.name)
}

/// The definition marks the tool as one that only reads.
pub open spec fn read_only(definition: JsonView) -> bool {
    match definition.member("annotations"@) {
        Some(annotations) => annotations.member("readOnlyHint"@) == Some(JsonView::Bool(true)),
        None => false,
    }
}

/// Calls of the tool may run at the same time: its server says so, or it only reads.
pub open spec fn parallel_tool(info: ToolInfoView) -> bool {
    info.supports_parallel || read_only(info.tool.definition)
}

/// The order of the catalog: by base name, then server, then raw name.
pub open spec fn tool_before(left: ToolInfoView, right: ToolInfoView) -> bool {
    ||| text_before(info_base(left), info_base(right))
    ||| info_base(left) == info_base(right) && text_before(left.server_name, right.server_name)
    ||| info_base(left) == info_base(right) && left.server_name == right.server_name
        && text_before(left.tool.name, right.tool.name)
}

/// The order of the catalog.
pub open spec fn tool_order() -> spec_fn(ToolInfoView, ToolInfoView) -> bool {
    |left: ToolInfoView, right: ToolInfoView| tool_before(left, right)
}

/// The base names of reported tools.
pub open spec fn info_bases(infos: Seq<ToolInfoView>) -> Seq<Seq<char>> {
    Seq::new(infos.len(), |i: int| info_base(infos[i]))
}

/// The entry of a reported tool under an exported name.
pub open spec fn entry_of(info: ToolInfoView, exported: Seq<char>) -> EntryView {
    EntryView {
        server: info.server_name,
        raw_tool: info.tool.name,
        exported_tool: exported,
        callable_name: info.callable_name,
        connector_id: info.connector_id,
        connector_name: info.connector_name,
        parallel: parallel_tool(info),
        tool: info.tool,
    }
}

/// The entries of tools that stand in catalog order.
pub open spec fn entries_of(sorted: Seq<ToolInfoView>) -> Seq<EntryView> {
    Seq::new(
        sorted.len(),
        |i: int| entry_of(sorted[i], exported_names(info_bases(sorted))[i]),
    )
}

/// The catalog of reported tools: in catalog order, each under its exported name.
pub open spec fn catalog_of(infos: Seq<ToolInfoView>) -> Seq<EntryView> {
    entries_of(sorted_by(infos, tool_order()))
}

/// Whether a definition marks the tool as one that only reads.
fn is_read_only(definition: &Json) -> (answer: bool)
    ensures
        answer == read_only(definition@),
{
    match definition.member("annotations") {
        Some(annotations) => match annotations.member("readOnlyHint") {
            Some(hint) => match hint {
                Json::Bool(value) => *value,
                _ => false,
            },
            None => false,
        },
        None => false,
    }
}

/// A reported tool with its base name.
struct NamedInfo {
    base: String,
    info: ToolInfo,
}

impl Ranked for NamedInfo {
    closed spec fn ranks_before(self, other: Self) -> bool {
        ||| text_before(self.base@, other.base@)
        ||| self.base@ == other.base@ && text_before(
            self.info.server_name@,
            other.info.server_name@,
        )
        ||| self.base@ == other.base@ && self.info.server_name@ == other.info.server_name@
            && text_before(self.info.tool.name@, other.info.tool.name@)
    }

    fn is_ranked_before(&self, other: &Self) -> (answer: bool) {
        if !same_text(self.base.as_str(), other.base.as_str()) {
            return is_before(self.base.as_str(), other.base.as_str());
        }
        proof {
            lemma_before_irreflexive(self.base@);
            lemma_before_irreflexive(self.info.server_name@);
        }
        if !same_text(self.info.server_name.as_str(), other.info.server_name.as_str()) {
            return is_before(self.info.server_name.as_str(), other.info.server_name.as_str());
        }
        is_before(self.info.tool.name.as_str(), other.info.tool.name.as_str())
    }
}

spec fn named_view(named: NamedInfo) -> ToolInfoView {
    named.info@
}

/// Makes the catalog of reported tools.
pub fn tool_catalog_from_infos(tool_infos: Vec<ToolInfo>) -> (catalog: ToolCatalog)
    ensures
        catalog@ == catalog_of(info_views(tool_infos@)),
{
    let ghost source = info_views(tool_infos@);
    let mut named: Vec<NamedInfo> = Vec::new();
    let ghost infos = tool_infos@;
    for info in it: tool_infos
        invariant
            it.seq() == infos,
            named@.len() == it.index(),
            forall|i: int|
                0 <= i < named@.len() ==> (#[trigger] named@[i]).info == infos[i] && named@[i].base@
                    == info_base(infos[i]@),
    {
        let base: String = exported_tool_base_name(
            info.server_name.as_str(),
            optional_slice(&info.connector_name),
            info.tool.name.as_str(),
        );
        named.push(NamedInfo { base, info });
    }
    let ghost view_of = |named: NamedInfo| named_view(named);
    let ghost unsorted = named@;
    let sorted: Vec<NamedInfo> = stable_sort(named);
    proof {
        assert(unsorted.map_values(view_of) =~= source);
        assert forall|a: NamedInfo, b: NamedInfo|
            unsorted.contains(a) && unsorted.contains(b) implies #[trigger] rank::<NamedInfo>()(a, b)
            == tool_order()(view_of(a), view_of(b)) by {
            let i = choose|i: int| 0 <= i < unsorted.len() && unsorted[i] == a;
            let j = choose|j: int| 0 <= j < unsorted.len() && unsorted[j] == b;
            assert(unsorted[i].base@ == info_base(unsorted[i].info@));
            assert(unsorted[j].base@ == info_base(unsorted[j].info@));
        }
        lemma_sort_mapped(unsorted, rank::<NamedInfo>(), view_of, tool_order());
        assert forall|i: int| 0 <= i < sorted@.len() implies (#[trigger] sorted@[i]).base@
            == info_base(sorted@[i].info@) by {
            assert(sorted@.contains(sorted@[i]));
            lemma_sort_contains(unsorted, rank::<NamedInfo>(), sorted@[i]);
            let k = choose|k: int| 0 <= k < unsorted.len() && unsorted[k] == sorted@[i];
            assert(unsorted[k].base@ == info_base(unsorted[k].info@));
        }
    }
    let ghost order = sorted@.map_values(view_of);
    let ghost bases = info_bases(order);
    let mut used: UsedNames = UsedNames::new();
    let mut entries: Vec<ToolCatalogEntry> = Vec::new();
    let ghost ranked = sorted@;
    let ghost total = sorted.len();
    assert(bases.take(0) =~= Seq::empty());
    for item in it: sorted
        invariant
            it.seq() == ranked,
            ranked.len() == total,
            order == ranked.map_values(view_of),
            bases == info_bases(order),
            forall|n: NamedInfo| #[trigger] view_of(n) == n.info@,
            forall|i: int|
                0 <= i < ranked.len() ==> (#[trigger] ranked[i]).base@ == info_base(ranked[i].info@),
            entries@.len() == it.index(),
            forall|name: Seq<char>|
                #[trigger] used.uses(name) == occurrences(bases.take(it.index() as int), name),
            forall|i: int|
                0 <= i < entries@.len() ==> (#[trigger] entries@[i])@ == entries_of(order)[i],
    {
        let ghost at = it.index() as int;
        proof {
            assert(item == ranked[at]);
            assert(bases[at] == item.base@);
            assert(bases.take(at + 1).drop_last() =~= bases.take(at));
            lemma_occurrences_bounded(bases.take(at), item.base@);
        }
        let exported_tool: String = unique_exported_tool_name(item.base.as_str(), &mut used);
        let info: ToolInfo = item.info;
        let parallel: bool = info.supports_parallel || is_read_only(&info.tool.definition);
        let entry: ToolCatalogEntry = ToolCatalogEntry {
            server: info.server_name,
            raw_tool: info.tool.name.clone(),
            exported_tool,
            callable_name: info.callable_name,
            connector_id: info.connector_id,
            connector_name: info.connector_name,
            parallel,
            tool: info.tool,
        };
        entries.push(entry);
        assert(entry@ == entries_of(order)[at]);
    }
    let catalog: ToolCatalog = ToolCatalog { entries };
    assert(catalog@ =~= entries_of(order));
    catalog
}

/// The entry goes by that name on that server.
pub open spec fn goes_by(entry: EntryView, server: Seq<char>, tool: Seq<char>) -> bool {
    entry.server == server && (entry.raw_tool == tool || entry.exported_tool == tool
        || entry.callable_name == tool)
}

/// The test whether an entry goes by a name on a server.
pub open spec fn going_by(server: Seq<char>, tool: Seq<char>) -> spec_fn(EntryView) -> bool {
    |entry: EntryView| goes_by(entry, server, tool)
}

/// The raw and exported names of entries.
pub open spec fn entry_names(entries: Seq<EntryView>) -> Seq<(Seq<char>, Seq<char>)> {
    Seq::new(entries.len(), |i: int| (entries[i].raw_tool, entries[i].exported_tool))
}

/// What a name stands for on a server: the one entry that goes by it, or why there is
/// not exactly one.
pub open spec fn resolution(
    entries: Seq<EntryView>,
    server: Seq<char>,
    tool: Seq<char>,
) -> Result<EntryView, FailureView> {
    let matches = entries.filter(going_by(server, tool));
    if matches.len() == 1 {
        Ok(matches[0])
    } else if matches.len() == 0 {
        Err(FailureView::UnknownTool { server, tool })
    } else {
        Err(FailureView::AmbiguousTool { server, tool, candidates: entry_names(matches) })
    }
}

/// What the result of a lookup stands for.
pub open spec fn resolution_view(result: Result<&ToolCatalogEntry, Failure>) -> Result<
    EntryView,
    FailureView,
> {
    match result {
        Ok(entry) => Ok(entry@),
        Err(failure) => Err(failure@),
    }
}

impl ToolCatalogEntry {
    /// Whether the entry goes by that name on that server.
    fn answers_to(&self, server: &str, tool: &str) -> (answer: bool)
        ensures
            answer == goes_by(self@, server@, tool@),
    {
        same_text(self.server.as_str(), server) && (same_text(self.raw_tool.as_str(), tool)
            || same_text(self.exported_tool.as_str(), tool) || same_text(
            self.callable_name.as_str(),
            tool,
        ))
    }
}

/// Finds the tool that a raw, exported or callable name stands for.
pub fn resolve_tool_entry<'a>(catalog: &'a ToolCatalog, server: &str, tool: &str) -> (result:
    Result<&'a ToolCatalogEntry, Failure>)
    ensures
        resolution_view(result) == resolution(catalog@, server@, tool@),
{
    let mut found: Vec<usize> = Vec::new();
    let mut candidates: Vec<(String, String)> = Vec::new();
    let ghost wanted = going_by(server@, tool@);
    let mut i: usize = 0;
    reveal(Seq::filter);
    while i < catalog.entries.len()
        invariant
            wanted == going_by(server@, tool@),
            i <= catalog.entries.len(),
            found@.len() == catalog@.take(i as int).filter(wanted).len(),
            forall|k: int|
                0 <= k < found@.len() ==> {
                    &&& (#[trigger] found@[k]) < catalog.entries.len()
                    &&& catalog@[found@[k] as int] == catalog@.take(i as int).filter(wanted)[k]
                },
            text_pairs(candidates@) == entry_names(catalog@.take(i as int).filter(wanted)),
        decreases catalog.entries.len() - i,
    {
        let entry: &ToolCatalogEntry = &catalog.entries[i];
        proof {
            lemma_filter_step(catalog@, i as int, wanted);
            assert(catalog@[i as int] == entry@);
        }
        let ghost earlier = candidates@;
        if entry.answers_to(server, tool) {
            found.push(i);
            candidates.push((entry.raw_tool.clone(), entry.exported_tool.clone()));
            assert(text_pairs(candidates@) =~= text_pairs(earlier).push(
                (entry@.raw_tool, entry@.exported_tool),
            ));
            assert(text_pairs(candidates@) =~= entry_names(
                catalog@.take(i as int).filter(wanted).push(entry@),
            ));
        }
        i += 1;
    }
    assert(catalog@.take(catalog@.len() as int) =~= catalog@);
    if found.len() == 1 {
        let at: usize = found[0];
        assert(catalog@[found@[0] as int] == catalog@.filter(wanted)[0]);
        Ok(&catalog.entries[at])
    } else if found.len() == 0 {
        Err(Failure::UnknownTool { server: server.to_owned(), tool: tool.to_owned() })
    } else {
        Err(
            Failure::AmbiguousTool {
                server: server.to_owned(),
                tool: tool.to_owned(),
                candidates,
            },
        )
    }
}

/// The input schema of a tool: the member `inputSchema` of its definition.
pub open spec fn schema_of(tool: ToolView) -> Result<JsonView, FailureView> {
    match tool.definition.member("inputSchema"@) {
        Some(schema) => Ok(schema),
        None => Err(FailureView::MissingInputSchema { tool: tool.name }),
    }
}

/// What the result of a schema query stands for.
pub open spec fn schema_view(result: Result<Json, Failure>) -> Result<JsonView, FailureView> {
    match result {
        Ok(schema) => Ok(schema@),
        Err(failure) => Err(failure@),
    }
}

/// Gives the input schema of a tool.
pub fn tool_schema_value(tool: &Tool) -> (result: Result<Json, Failure>)
    ensures
        schema_view(result) == schema_of(tool@),
{
    match tool.definition.member("inputSchema") {
        Some(schema) => Ok(schema.clone()),
        None => Err(Failure::MissingInputSchema { tool: tool.name.clone() }),
    }
}

/// The input schema of the tool that a name stands for.
pub open spec fn named_schema(
    entries: Seq<EntryView>,
    server: Seq<char>,
    tool: Seq<char>,
) -> Result<JsonView, FailureView> {
    match resolution(entries, server, tool) {
        Ok(entry) => schema_of(entry.tool),
        Err(failure) => Err(failure),
    }
}

/// Gives the input schema of the tool that a name stands for.
pub fn tool_schema(catalog: &ToolCatalog, server: &str, tool: &str) -> (result: Result<
    Json,
    Failure,
>)
    ensures
        schema_view(result) == named_schema(catalog@, server@, tool@),
{
    match resolve_tool_entry(catalog, server, tool) {
        Ok(entry) => tool_schema_value(&entry.tool),
        Err(failure) => Err(failure),
    }
}

/// The order of the catalog is a strict order.
pub proof fn lemma_tool_order()
    ensures
        strict_order(tool_order()),
{
    let before = tool_order();
    assert forall|a: ToolInfoView, b: ToolInfoView| #[trigger] before(a, b) implies !before(b, a) by {
        lemma_before_asymmetric(info_base(a), info_base(b));
        lemma_before_asymmetric(a.server_name, b.server_name);
        lemma_before_asymmetric(a.tool.name, b.tool.name);
    }
    assert forall|a: ToolInfoView, b: ToolInfoView, c: ToolInfoView| #[trigger]
        before(a, c) implies #[trigger] before(a, b) || before(b, c) by {
        lemma_before_between(info_base(a), info_base(b), info_base(c));
        lemma_before_between(a.server_name, b.server_name, c.server_name);
        lemma_before_between(a.tool.name, b.tool.name, c.tool.name);
        lemma_before_total(info_base(a), info_base(b));
        lemma_before_total(info_base(b), info_base(c));
        lemma_before_total(a.server_name, b.server_name);
        lemma_before_total(b.server_name, c.server_name);
        lemma_before_total(a.tool.name, b.tool.name);
        lemma_before_total(b.tool.name, c.tool.name);
        lemma_before_asymmetric(info_base(a), info_base(b));
        lemma_before_asymmetric(info_base(b), info_base(c));
        lemma_before_asymmetric(a.server_name, b.server_name);
        lemma_before_asymmetric(b.server_name, c.server_name);
    }
}

/// The catalog holds every reported tool once, with the data that was reported, and
/// stands in catalog order.
pub proof fn law_catalog_complete(infos: Seq<ToolInfoView>)
    ensures
        catalog_of(infos).len() == infos.len(),
        sorted_by(infos, tool_order()).to_multiset() == infos.to_multiset(),
        in_order(sorted_by(infos, tool_order()), tool_order()),
        forall|i: int|
            0 <= i < infos.len() ==> {
                let entry = #[trigger] catalog_of(infos)[i];
                entry == entry_of(sorted_by(infos, tool_order())[i], entry.exported_tool)
            },
{
    law_sort_keeps_items(infos, tool_order());
    lemma_tool_order();
    law_sort_in_order(infos, tool_order());
}

/// The exported names of a catalog.
pub open spec fn names_of(entries: Seq<EntryView>) -> Seq<Seq<char>> {
    Seq::new(entries.len(), |i: int| entries[i].exported_tool)
}

/// No two tools of a catalog have one exported name, unless a base name is another one
/// with a number behind it that is given out.
pub proof fn law_catalog_names_distinct(infos: Seq<ToolInfoView>)
    requires
        !clashing(info_bases(infos)),
    ensures
        names_of(catalog_of(infos)).no_duplicates(),
{
    let sorted = sorted_by(infos, tool_order());
    law_sort_keeps_items(infos, tool_order());
    let base = |info: ToolInfoView| info_base(info);
    assert(info_bases(infos) =~= infos.map_values(base));
    assert(info_bases(sorted) =~= sorted.map_values(base));
    lemma_mapped_multiset(sorted, infos, base);
    law_clashing_ignores_order(info_bases(sorted), info_bases(infos));
    law_exported_names_distinct(info_bases(sorted));
    assert(names_of(catalog_of(infos)) =~= exported_names(info_bases(sorted)));
}

/// The base names of tools do not clash where all the tools have a connector, or none of
/// them has one; so no two of them are exported under one name.
pub proof fn law_like_tools_do_not_clash(infos: Seq<ToolInfoView>)
    requires
        (forall|i: int| 0 <= i < infos.len() ==> (#[trigger] infos[i]).connector_name is Some) || (
        forall|i: int| 0 <= i < infos.len() ==> (#[trigger] infos[i]).connector_name is None),
    ensures
        !clashing(info_bases(infos)),
        names_of(catalog_of(infos)).no_duplicates(),
{
    let count = if infos.len() > 0 && infos[0].connector_name is Some {
        2nat
    } else {
        1nat
    };
    assert forall|i: int| 0 <= i < info_bases(infos).len() implies dots(
        #[trigger] info_bases(infos)[i],
    ) == count by {
        lemma_base_dots(infos[i].server_name, infos[i].connector_name, infos[i].tool.name);
    }
    law_even_names_do_not_clash(info_bases(infos), count);
    law_catalog_names_distinct(infos);
}

/// A name that only one tool of the server goes by stands for that tool, be it the raw,
/// the exported or the callable name.
pub proof fn law_single_name_resolves(
    entries: Seq<EntryView>,
    at: int,
    server: Seq<char>,
    tool: Seq<char>,
)
    requires
        0 <= at < entries.len(),
        goes_by(entries[at], server, tool),
        forall|i: int| 0 <= i < entries.len() && i != at ==> !goes_by(#[trigger] entries[i], server, tool),
    ensures
        resolution(entries, server, tool) == Ok::<EntryView, FailureView>(entries[at]),
{
    lemma_filter_one(entries, at, going_by(server, tool));
}

/// A tool that a name stands for is one of the catalog, of that server, and goes by
/// the name.
pub proof fn law_resolved_tool_goes_by_name(
    entries: Seq<EntryView>,
    server: Seq<char>,
    tool: Seq<char>,
)
    ensures
        resolution(entries, server, tool) matches Ok(entry) ==> entries.contains(entry) && goes_by(
            entry,
            server,
            tool,
        ),
{
    let matches = entries.filter(going_by(server, tool));
    if matches.len() == 1 {
        entries.lemma_filter_contains_rev(going_by(server, tool), matches[0]);
        entries.lemma_filter_pred(going_by(server, tool), 0);
    }
}

/// What a reported tool and an entry stand for are their fields, each its own.
pub proof fn law_catalog_views(tool: Tool, info: ToolInfo, entry: ToolCatalogEntry)
    ensures
        tool@.name == tool.name@,
        tool@.definition == tool.definition@,
        info@.server_name == info.server_name@,
        info@.callable_name == info.callable_name@,
        info@.connector_id == optional_text(info.connector_id),
        info@.connector_name == optional_text(info.connector_name),
        info@.supports_parallel == info.supports_parallel,
        info@.tool == info.tool@,
        entry@.server == entry.server@,
        entry@.raw_tool == entry.raw_tool@,
        entry@.exported_tool == entry.exported_tool@,
        entry@.callable_name == entry.callable_name@,
        entry@.connector_id == optional_text(entry.connector_id),
        entry@.connector_name == optional_text(entry.connector_name),
        entry@.parallel == entry.parallel,
        entry@.tool == entry.tool@,
{
}

/// A definition with an object of annotations that sets `readOnlyHint` to true.
pub open spec fn hints_read_only(definition: JsonView) -> bool {
    exists|members: Seq<(Seq<char>, JsonView)>, annotations: Seq<(Seq<char>, JsonView)>|
        definition == JsonView::Object(members) && #[trigger] lookup(members, "annotations"@)
            == Some(JsonView::Object(annotations)) && #[trigger] lookup(
            annotations,
            "readOnlyHint"@,
        ) == Some(JsonView::Bool(true))
}

/// Every entry of a catalog is a reported tool with all that was reported of it, under the
/// name that its server, its connector and its own name make; calls of it may run at the
/// same time exactly if its server says so or its definition says that it only reads.
pub proof fn law_entries_keep_reports(infos: Seq<ToolInfoView>, at: int)
    requires
        0 <= at < infos.len(),
    ensures
        catalog_of(infos).len() == infos.len(),
        exists|i: int|
            0 <= i < infos.len() && ({
                let info = #[trigger] infos[i];
                let entry = catalog_of(infos)[at];
                let base = base_name(info.server_name, info.connector_name, info.tool.name);
                &&& entry.server == info.server_name
                &&& entry.raw_tool == info.tool.name
                &&& entry.callable_name == info.callable_name
                &&& entry.connector_id == info.connector_id
                &&& entry.connector_name == info.connector_name
                &&& entry.tool.name == info.tool.name
                &&& entry.tool.definition == info.tool.definition
                &&& entry.parallel == (info.supports_parallel || hints_read_only(
                    info.tool.definition,
                ))
                &&& entry.exported_tool == base || exists|number: nat|
                    number >= 2 && entry.exported_tool == #[trigger] numbered(base, number)
            }),
{
    let sorted = sorted_by(infos, tool_order());
    law_sort_keeps_items(infos, tool_order());
    lemma_sort_contains(infos, tool_order(), sorted[at]);
    assert(sorted.len() == infos.len());
    assert(sorted.contains(sorted[at]));
    let i = choose|i: int| 0 <= i < infos.len() && infos[i] == sorted[at];
    let info = infos[i];
    lemma_read_only(info.tool.definition);
    let bases = info_bases(sorted);
    let number = occurrences(bases.take(at + 1), bases[at]);
    assert(bases.take(at + 1).last() == bases[at]);
    assert(number >= 1);
    assert(catalog_of(infos)[at].exported_tool == numbered(bases[at], number));
    assert(bases[at] == info_base(info));
}

proof fn lemma_read_only(definition: JsonView)
    ensures
        read_only(definition) == hints_read_only(definition),
{
    if read_only(definition) {
        let members = definition->Object_0;
        let annotations = lookup(members, "annotations"@)->Some_0->Object_0;
        assert(lookup(members, "annotations"@) == Some(JsonView::Object(annotations)));
        assert(lookup(annotations, "readOnlyHint"@) == Some(JsonView::Bool(true)));
    }
}

/// The names of a catalog's entries: an entry goes by its base name where no entry ahead of
/// it has that base name, and else has the number behind it that it has among them.
pub proof fn law_catalog_numbers_names(infos: Seq<ToolInfoView>, at: int)
    requires
        0 <= at < infos.len(),
    ensures
        ({
            let entries = catalog_of(infos);
            let bases = Seq::new(
                entries.len(),
                |i: int|
                    base_name(entries[i].server, entries[i].connector_name, entries[i].raw_tool),
            );
            let ahead = bases.take(at).to_multiset().count(bases[at]);
            entries[at].exported_tool == if ahead == 0 {
                bases[at]
            } else {
                bases[at] + "."@ + decimal(ahead + 1)
            }
        }),
{
    let sorted = sorted_by(infos, tool_order());
    law_sort_keeps_items(infos, tool_order());
    let entries = catalog_of(infos);
    let bases = Seq::new(
        entries.len(),
        |i: int| base_name(entries[i].server, entries[i].connector_name, entries[i].raw_tool),
    );
    assert(bases =~= info_bases(sorted));
    law_exported_names(info_bases(sorted), at);
}

/// A catalog stands in the order of base names, then of servers, then of raw names, and
/// every reported tool is in it as often as it was reported.
pub proof fn law_catalog_order(infos: Seq<ToolInfoView>, first: int, second: int)
    requires
        0 <= first < second < infos.len(),
    ensures
        ({
            let one = catalog_of(infos)[first];
            let other = catalog_of(infos)[second];
            let base = base_name(one.server, one.connector_name, one.raw_tool);
            let other_base = base_name(other.server, other.connector_name, other.raw_tool);
            ||| text_before(base, other_base)
            ||| base == other_base && text_before(one.server, other.server)
            ||| base == other_base && one.server == other.server && (text_before(
                one.raw_tool,
                other.raw_tool,
            ) || one.raw_tool == other.raw_tool)
        }),
        catalog_of(infos).map_values(
            |entry: EntryView|
                (
                    entry.server,
                    entry.callable_name,
                    entry.connector_id,
                    entry.connector_name,
                    entry.tool,
                ),
        ).to_multiset() == infos.map_values(
            |info: ToolInfoView|
                (
                    info.server_name,
                    info.callable_name,
                    info.connector_id,
                    info.connector_name,
                    info.tool,
                ),
        ).to_multiset(),
{
    let sorted = sorted_by(infos, tool_order());
    lemma_tool_order();
    law_sort_in_order(infos, tool_order());
    law_sort_keeps_items(infos, tool_order());
    let (a, b) = (sorted[first], sorted[second]);
    assert(!tool_order()(b, a));
    lemma_before_total(info_base(a), info_base(b));
    lemma_before_total(a.server_name, b.server_name);
    lemma_before_total(a.tool.name, b.tool.name);
    let reported = |info: ToolInfoView|
        (
            info.server_name,
            info.callable_name,
            info.connector_id,
            info.connector_name,
            info.tool,
        );
    lemma_mapped_multiset(sorted, infos, reported);
    assert(catalog_of(infos).map_values(
        |entry: EntryView|
            (
                entry.server,
                entry.callable_name,
                entry.connector_id,
                entry.connector_name,
                entry.tool,
            ),
    ) =~= sorted.map_values(reported));
}

/// A name stands for a tool exactly if one entry of the server, and no other, has it as its
/// raw, its exported or its callable name; a name that no entry has is unknown, and one that
/// several have is ambiguous, with those entries named in order.
pub proof fn law_resolution(entries: Seq<EntryView>, server: Seq<char>, tool: Seq<char>)
    ensures
        ({
            let named = entries.filter(
                |entry: EntryView|
                    entry.server == server && (tool == entry.raw_tool || tool
                        == entry.exported_tool || tool == entry.callable_name),
            );
            &&& named.len() == 1 ==> resolution(entries, server, tool) == Ok::<
                EntryView,
                FailureView,
            >(named[0])
            &&& named.len() == 0 ==> resolution(entries, server, tool) == Err::<
                EntryView,
                FailureView,
            >(FailureView::UnknownTool { server, tool })
            &&& named.len() > 1 ==> resolution(entries, server, tool) == Err::<
                EntryView,
                FailureView,
            >(
                FailureView::AmbiguousTool {
                    server,
                    tool,
                    candidates: named.map_values(
                        |entry: EntryView| (entry.raw_tool, entry.exported_tool),
                    ),
                },
            )
        }),
{
    let test = |entry: EntryView|
        entry.server == server && (tool == entry.raw_tool || tool == entry.exported_tool || tool
            == entry.callable_name);
    assert(test =~= going_by(server, tool));
    let named = entries.filter(test);
    assert(entry_names(named) =~= named.map_values(
        |entry: EntryView| (entry.raw_tool, entry.exported_tool),
    ));
}

/// The schema of a tool is what its definition holds under `inputSchema`; a tool whose
/// definition holds nothing there has none. The schema that is shown for a name is that of
/// the tool that the name stands for.
pub proof fn law_schema(
    tool: ToolView,
    members: Seq<(Seq<char>, JsonView)>,
    entries: Seq<EntryView>,
    server: Seq<char>,
    name: Seq<char>,
)
    ensures
        tool.definition == JsonView::Object(members) ==> match lookup(members, "inputSchema"@) {
            Some(schema) => schema_of(tool) == Ok::<JsonView, FailureView>(schema),
            None => schema_of(tool) == Err::<JsonView, FailureView>(
                FailureView::MissingInputSchema { tool: tool.name },
            ),
        },
        tool.definition !is Object ==> schema_of(tool) == Err::<JsonView, FailureView>(
            FailureView::MissingInputSchema { tool: tool.name },
        ),
        match resolution(entries, server, name) {
            Ok(entry) => named_schema(entries, server, name) == schema_of(entry.tool),
            Err(failure) => named_schema(entries, server, name) == Err::<JsonView, FailureView>(
                failure,
            ),
        },
{
}

/// Tools of one server with one raw name and one base name stand in the catalog in the
/// order in which they were reported.
pub proof fn law_catalog_keeps_ties(infos: Seq<ToolInfoView>, one: ToolInfoView)
    ensures
        ({
            let base = base_name(one.server_name, one.connector_name, one.tool.name);
            sorted_by(infos, tool_order()).filter(
                |info: ToolInfoView|
                    info.server_name == one.server_name && info.tool.name == one.tool.name
                        && base_name(info.server_name, info.connector_name, info.tool.name) == base,
            ) == infos.filter(
                |info: ToolInfoView|
                    info.server_name == one.server_name && info.tool.name == one.tool.name
                        && base_name(info.server_name, info.connector_name, info.tool.name) == base,
            )
        }),
        catalog_of(infos).len() == sorted_by(infos, tool_order()).len(),
        forall|i: int|
            0 <= i < catalog_of(infos).len() ==> {
                let entry = #[trigger] catalog_of(infos)[i];
                let info = sorted_by(infos, tool_order())[i];
                &&& entry.server == info.server_name
                &&& entry.callable_name == info.callable_name
                &&& entry.connector_id == info.connector_id
                &&& entry.connector_name == info.connector_name
                &&& entry.tool == info.tool
            },
{
    let base = base_name(one.server_name, one.connector_name, one.tool.name);
    let same = |info: ToolInfoView|
        info.server_name == one.server_name && info.tool.name == one.tool.name && base_name(
            info.server_name,
            info.connector_name,
            info.tool.name,
        ) == base;
    lemma_tool_order();
    law_sort_keeps_ties(infos, tool_order(), one);
    assert forall|info: ToolInfoView| same(info) == #[trigger] tied_with(one, tool_order())(
        info,
    ) by {
        lemma_before_total(info_base(info), base);
        lemma_before_total(info.server_name, one.server_name);
        lemma_before_total(info.tool.name, one.tool.name);
        lemma_before_irreflexive(base);
        lemma_before_irreflexive(one.server_name);
        lemma_before_irreflexive(one.tool.name);
    }
    assert(same =~= tied_with(one, tool_order()));
}

/// What lists of reported tools and of entries stand for are their items, each in its place,
/// and what a result stands for is that result.
pub proof fn law_catalog_lists(
    infos: Seq<ToolInfo>,
    catalog: ToolCatalog,
    at: int,
    entry: &ToolCatalogEntry,
    schema: Json,
    failure: Failure,
)
    ensures
        info_views(infos).len() == infos.len(),
        0 <= at < infos.len() ==> info_views(infos)[at] == infos[at]@,
        catalog@.len() == catalog.entries@.len(),
        0 <= at < catalog.entries@.len() ==> catalog@[at] == catalog.entries@[at]@,
        resolution_view(Ok(entry)) == Ok::<EntryView, FailureView>(entry@),
        resolution_view(Err(failure)) == Err::<EntryView, FailureView>(failure@),
        schema_view(Ok(schema)) == Ok::<JsonView, FailureView>(schema@),
        schema_view(Err(failure)) == Err::<JsonView, FailureView>(failure@),
{
}

} // verus!
