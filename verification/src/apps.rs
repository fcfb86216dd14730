//! The apps behind the tools: tools carry the connector that they belong to in their
//! metadata.

use crate::catalog::{Tool, ToolView};
use crate::sort::{lemma_filter_none, lemma_filter_step};
use crate::table::{law_sorted_distinct, sort_distinct, sorted_distinct};
use crate::text::{lemma_before_irreflexive, optional_text, same_text, text_before, texts};
use crate::json::{lookup, JsonView};
use vstd::prelude::*;
use vstd::string::*;

verus! {

/// An app, with the tools that belong to it.
#[derive(Debug)]
pub struct AppConnector {
    pub id: String,
    pub name: String,
    pub description: Option<String>,
    pub link_id: Option<String>,
    pub tools: Vec<String>,
    pub is_accessible: bool,
    pub is_enabled: bool,
}

/// What an `AppConnector` stands for.
pub struct AppView {
    pub id: Seq<char>,
    pub name: Seq<char>,
    pub description: Option<Seq<char>>,
    pub link_id: Option<Seq<char>>,
    pub tools: Seq<Seq<char>>,
    pub is_accessible: bool,
    pub is_enabled: bool,
}

impl View for AppConnector {
    type V = AppView;

    open spec fn view(&self) -> AppView {
        AppView {
            id: self.id@,
            name: self.name@,
            description: optional_text(self.description),
            link_id: optional_text(self.link_id),
            tools: texts(self.tools@),
            is_accessible: self.is_accessible,
            is_enabled: self.is_enabled,
        }
    }
}

/// The views of apps.
pub open spec fn app_views(apps: Seq<AppConnector>) -> Seq<AppView> {
    Seq::new(apps.len(), |i: int| apps[i]@)
}

/// The views of tools.
pub open spec fn tool_views(tools: Seq<Tool>) -> Seq<ToolView> {
    Seq::new(tools.len(), |i: int| tools[i]@)
}

/// A text in a tool's metadata.
pub open spec fn metadata(tool: ToolView, key: Seq<char>) -> Option<Seq<char>> {
    match tool.definition.member("_meta"@) {
        Some(members) => members.member_text(key),
        None => None,
    }
}

/// Reads a text in a tool's metadata.
pub fn metadata_string(tool: &Tool, key: &str) -> (text: Option<String>)
    ensures
        optional_text(text) == metadata(tool@, key@),
{
    match tool.definition.member("_meta") {
        Some(members) => members.member_text(key),
        None => None,
    }
}

/// The ids of the connectors that tools belong to, one for each tool that has one.
pub open spec fn connector_ids(tools: Seq<ToolView>) -> Seq<Seq<char>>
    decreases tools.len(),
{
    if tools.len() == 0 {
        Seq::empty()
    } else {
        let front = connector_ids(tools.drop_last());
        match metadata(tools.last(), "connector_id"@) {
            Some(id) => front.push(id),
            None => front,
        }
    }
}

/// The tools of a connector.
pub open spec fn of_connector(id: Seq<char>) -> spec_fn(ToolView) -> bool {
    |tool: ToolView| metadata(tool, "connector_id"@) == Some(id)
}

/// The names of tools.
pub open spec fn tool_names(tools: Seq<ToolView>) -> Seq<Seq<char>> {
    Seq::new(tools.len(), |i: int| tools[i].name)
}

/// An app as the first of its tools describes it: without a name it goes by its id.
pub open spec fn app_of(id: Seq<char>, own: Seq<ToolView>) -> AppView {
    AppView {
        id,
        name: match metadata(own[0], "connector_name"@) {
            Some(name) => name,
            None => id,
        },
        description: metadata(own[0], "connector_description"@),
        link_id: metadata(own[0], "link_id"@),
        tools: sorted_distinct(tool_names(own)),
        is_accessible: true,
        is_enabled: true,
    }
}

/// The apps behind tools, in the order of their ids.
pub open spec fn apps_of(tools: Seq<ToolView>) -> Seq<AppView> {
    let ids = sorted_distinct(connector_ids(tools));
    Seq::new(ids.len(), |i: int| app_of(ids[i], tools.filter(of_connector(ids[i]))))
}

/// Lists the ids of connectors.
fn list_connector_ids(tools: &Vec<Tool>) -> (ids: Vec<String>)
    ensures
        texts(ids@) == connector_ids(tool_views(tools@)),
{
    let ghost views = tool_views(tools@);
    let mut ids: Vec<String> = Vec::new();
    let mut i: usize = 0;
    assert(texts(ids@) =~= connector_ids(views.take(0)));
    while i < tools.len()
        invariant
            i <= tools.len(),
            views == tool_views(tools@),
            texts(ids@) == connector_ids(views.take(i as int)),
        decreases tools.len() - i,
    {
        let ghost upto = views.take(i + 1);
        let ghost earlier = texts(ids@);
        assert(upto.drop_last() =~= views.take(i as int));
        assert(upto.last() == tools@[i as int]@);
        if let Some(id) = metadata_string(&tools[i], "connector_id") {
            ids.push(id);
            assert(texts(ids@) =~= earlier.push(id@));
        }
        i += 1;
    }
    assert(views.take(views.len() as int) =~= views);
    ids
}

/// Finds the tools of a connector: where they stand, and their names.
fn find_own_tools(tools: &Vec<Tool>, id: &str) -> (own: (Vec<usize>, Vec<String>))
    ensures
        own.0@.len() == tool_views(tools@).filter(of_connector(id@)).len(),
        forall|i: int|
            0 <= i < own.0@.len() ==> (#[trigger] own.0@[i]) < tools@.len()
                && tools@[own.0@[i] as int]@ == tool_views(tools@).filter(of_connector(id@))[i],
        texts(own.1@) == tool_names(tool_views(tools@).filter(of_connector(id@))),
{
    let ghost views = tool_views(tools@);
    let ghost wanted = of_connector(id@);
    let mut places: Vec<usize> = Vec::new();
    let mut names: Vec<String> = Vec::new();
    let mut i: usize = 0;
    proof {
        lemma_filter_none(views.take(0), wanted);
        assert(texts(names@) =~= tool_names(views.take(0).filter(wanted)));
    }
    while i < tools.len()
        invariant
            i <= tools.len(),
            views == tool_views(tools@),
            wanted == of_connector(id@),
            places@.len() == views.take(i as int).filter(wanted).len(),
            forall|j: int|
                0 <= j < places@.len() ==> (#[trigger] places@[j]) < tools@.len()
                    && tools@[places@[j] as int]@ == views.take(i as int).filter(wanted)[j],
            texts(names@) == tool_names(views.take(i as int).filter(wanted)),
        decreases tools.len() - i,
    {
        let ghost earlier = views.take(i as int).filter(wanted);
        let ghost earlier_names = texts(names@);
        let tool: &Tool = &tools[i];
        proof {
            lemma_filter_step(views, i as int, wanted);
            assert(tool_names(earlier.push(tool@)) =~= tool_names(earlier).push(tool.name@));
        }
        let is_own: bool = match metadata_string(tool, "connector_id") {
            Some(own_id) => same_text(own_id.as_str(), id),
            None => false,
        };
        if is_own {
            places.push(i);
            let name: String = tool.name.clone();
            names.push(name);
            assert(texts(names@) =~= earlier_names.push(name@));
        }
        i += 1;
    }
    assert(views.take(views.len() as int) =~= views);
    (places, names)
}

/// Where an id is listed, some tool has it.
proof fn lemma_id_has_tool(tools: Seq<ToolView>, id: Seq<char>)
    ensures
        connector_ids(tools).contains(id) <==> tools.filter(of_connector(id)).len() > 0,
    decreases tools.len(),
{
    if tools.len() == 0 {
        lemma_filter_none(tools, of_connector(id));
    } else {
        let front = tools.drop_last();
        lemma_id_has_tool(front, id);
        assert(tools.take(tools.len() as int) =~= tools);
        assert(tools.take(tools.len() - 1) =~= front);
        lemma_filter_step(tools, tools.len() - 1, of_connector(id));
        let ids = connector_ids(tools);
        let earlier = connector_ids(front);
        if earlier.contains(id) {
            let i = choose|i: int| 0 <= i < earlier.len() && earlier[i] == id;
            assert(ids[i] == id);
        }
        if metadata(tools.last(), "connector_id"@) == Some(id) {
            assert(ids[ids.len() - 1] == id);
        } else if ids.contains(id) {
            let i = choose|i: int| 0 <= i < ids.len() && ids[i] == id;
            assert(earlier[i] == id);
        }
    }
}

/// Lists the apps behind tools.
pub fn list_apps(tools: &Vec<Tool>) -> (apps: Vec<AppConnector>)
    ensures
        app_views(apps@) == apps_of(tool_views(tools@)),
{
    let ghost views = tool_views(tools@);
    let ids: Vec<String> = sort_distinct(list_connector_ids(tools));
    let ghost listed = texts(ids@);
    let ghost source = ids@;
    let mut apps: Vec<AppConnector> = Vec::new();
    for id in it: ids
        invariant
            it.seq() == source,
            listed == texts(source),
            views == tool_views(tools@),
            listed == sorted_distinct(connector_ids(views)),
            apps@.len() == it.index(),
            forall|j: int| 0 <= j < apps@.len() ==> (#[trigger] apps@[j])@ == apps_of(views)[j],
    {
        let (places, names) = find_own_tools(tools, id.as_str());
        proof {
            assert(listed[it.index() as int] == id@);
            assert(listed.contains(id@));
            law_sorted_distinct(connector_ids(views));
            lemma_id_has_tool(views, id@);
        }
        let first: &Tool = &tools[places[0]];
        let name: String = match metadata_string(first, "connector_name") {
            Some(name) => name,
            None => id.clone(),
        };
        let app: AppConnector = AppConnector {
            name,
            description: metadata_string(first, "connector_description"),
            link_id: metadata_string(first, "link_id"),
            tools: sort_distinct(names),
            is_accessible: true,
            is_enabled: true,
            id,
        };
        assert(app@ == app_of(id@, views.filter(of_connector(id@))));
        apps.push(app);
    }
    assert(app_views(apps@) =~= apps_of(views));
    apps
}

/// Each tool with a connector stands under the app of that connector, and there is one
/// app for each connector.
pub proof fn law_apps_hold_tools(tools: Seq<ToolView>, at: int, id: Seq<char>)
    requires
        0 <= at < tools.len(),
        metadata(tools[at], "connector_id"@) == Some(id),
    ensures
        exists|i: int|
            0 <= i < apps_of(tools).len() && (#[trigger] apps_of(tools)[i]).id == id
                && apps_of(tools)[i].tools.contains(tools[at].name),
        forall|i: int, j: int|
            0 <= i < j < apps_of(tools).len() ==> (#[trigger] apps_of(tools)[i]).id != (
            #[trigger] apps_of(tools)[j]).id,
{
    let ids = sorted_distinct(connector_ids(tools));
    let own = tools.filter(of_connector(id));
    law_sorted_distinct(connector_ids(tools));
    tools.lemma_filter_contains(of_connector(id), at);
    lemma_id_has_tool(tools, id);
    assert(ids.contains(id));
    let i = choose|i: int| 0 <= i < ids.len() && ids[i] == id;
    law_sorted_distinct(tool_names(own));
    let k = choose|k: int| 0 <= k < own.len() && own[k] == tools[at];
    assert(tool_names(own)[k] == tools[at].name);
    assert(sorted_distinct(tool_names(own)).contains(tools[at].name));
    assert(apps_of(tools)[i].id == id);
    assert forall|i: int, j: int| 0 <= i < j < apps_of(tools).len() implies (#[trigger] apps_of(
        tools,
    )[i]).id != (#[trigger] apps_of(tools)[j]).id by {
        assert(text_before(ids[i], ids[j]));
        lemma_before_irreflexive(ids[i]);
    }
}

/// A text of a tool's metadata is the string under that key, in the object under `_meta` of
/// the tool's definition.
pub proof fn law_metadata(tool: ToolView, key: Seq<char>, text: Seq<char>)
    ensures
        metadata(tool, key) == Some(text) <==> {
            &&& tool.definition is Object
            &&& lookup(tool.definition->Object_0, "_meta"@) matches Some(JsonView::Object(meta))
            &&& lookup(meta, key) == Some(JsonView::Text(text))
        },
{
}

/// Apps stand by growing ids. An app is described by the first tool that has its id: by its
/// name, or else the id, its description and its link; and it holds the names of all tools
/// that have its id, by growing names, each once.
pub proof fn law_apps(tools: Seq<ToolView>, at: int)
    requires
        0 <= at < apps_of(tools).len(),
    ensures
        ({
            let app = apps_of(tools)[at];
            let own = tools.filter(
                |tool: ToolView| metadata(tool, "connector_id"@) == Some(app.id),
            );
            &&& own.len() > 0
            &&& metadata(own[0], "connector_name"@) matches Some(name) ==> app.name == name
            &&& metadata(own[0], "connector_name"@) is None ==> app.name == app.id
            &&& app.description == metadata(own[0], "connector_description"@)
            &&& app.link_id == metadata(own[0], "link_id"@)
            &&& app.is_accessible
            &&& app.is_enabled
            &&& forall|i: int, j: int|
                0 <= i < j < app.tools.len() ==> text_before(
                    #[trigger] app.tools[i],
                    #[trigger] app.tools[j],
                )
            &&& forall|name: Seq<char>|
                #[trigger] app.tools.contains(name) <==> exists|i: int|
                    0 <= i < own.len() && (#[trigger] own[i]).name == name
        }),
        forall|i: int, j: int|
            0 <= i < j < apps_of(tools).len() ==> text_before(
                (#[trigger] apps_of(tools)[i]).id,
                (#[trigger] apps_of(tools)[j]).id,
            ),
{
    let ids = sorted_distinct(connector_ids(tools));
    let app = apps_of(tools)[at];
    let test = |tool: ToolView| metadata(tool, "connector_id"@) == Some(app.id);
    assert(app.id == ids[at]);
    assert(test =~= of_connector(app.id));
    let own = tools.filter(test);
    law_sorted_distinct(connector_ids(tools));
    assert(ids.contains(ids[at]));
    lemma_id_has_tool(tools, app.id);
    law_sorted_distinct(tool_names(own));
    assert forall|name: Seq<char>| #[trigger] app.tools.contains(name) <==> exists|i: int|
        0 <= i < own.len() && (#[trigger] own[i]).name == name by {
        assert(sorted_distinct(tool_names(own)).contains(name) <==> tool_names(own).contains(name));
        if tool_names(own).contains(name) {
            let i = choose|i: int| 0 <= i < own.len() && tool_names(own)[i] == name;
            assert(own[i].name == name);
        }
        if exists|i: int| 0 <= i < own.len() && (#[trigger] own[i]).name == name {
            let i = choose|i: int| 0 <= i < own.len() && (#[trigger] own[i]).name == name;
            assert(tool_names(own)[i] == name);
        }
    }
    assert forall|i: int, j: int| 0 <= i < j < apps_of(tools).len() implies text_before(
        (#[trigger] apps_of(tools)[i]).id,
        (#[trigger] apps_of(tools)[j]).id,
    ) by {
        assert(text_before(ids[i], ids[j]));
    }
}

/// What an app and tools stand for are their fields, each its own.
pub proof fn law_app_views(app: AppConnector, tools: Seq<Tool>, at: int)
    requires
        0 <= at < tools.len(),
    ensures
        app@.id == app.id@,
        app@.name == app.name@,
        app@.description == optional_text(app.description),
        app@.link_id == optional_text(app.link_id),
        app@.tools == texts(app.tools@),
        app@.is_accessible == app.is_accessible,
        app@.is_enabled == app.is_enabled,
        tool_views(tools).len() == tools.len(),
        tool_views(tools)[at] == tools[at]@,
{
}

/// What a list of apps stands for are the apps, each in its place.
pub proof fn law_app_lists(apps: Seq<AppConnector>, at: int)
    ensures
        app_views(apps).len() == apps.len(),
        0 <= at < apps.len() ==> app_views(apps)[at] == apps[at]@,
{
}

} // verus!
