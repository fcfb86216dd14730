//! Tool arguments: where they come from, what they must be, and the local check against
//! the tool's input schema.

use crate::catalog::{
    resolution, resolution_view, resolve_tool_entry, schema_of, tool_schema_value, EntryView,
    ToolCatalog, ToolCatalogEntry,
};
use crate::failure::{Failure, FailureView};
use crate::json::{
    find_member, json_views, lemma_lookup_names, lookup, member_names, member_views, parse_json,
    parse_view, parsed, Json, JsonView,
};
use crate::sort::{lemma_filter_none, lemma_filter_push, lemma_filter_step};
use crate::text::{optional_str, same_text, texts};
use vstd::prelude::*;
use vstd::string::*;

verus! {

/// The texts among JSON values, in order.
pub open spec fn strings_among(items: Seq<JsonView>) -> Seq<Seq<char>>
    decreases items.len(),
{
    if items.len() == 0 {
        Seq::empty()
    } else {
        match items.last().text() {
            Some(text) => strings_among(items.drop_last()).push(text),
            None => strings_among(items.drop_last()),
        }
    }
}

/// The properties that an input schema requires: the strings in its `required` list.
pub open spec fn required_properties(schema: JsonView) -> Seq<Seq<char>> {
    match schema.member("required"@) {
        Some(list) => match list.items() {
            Some(items) => strings_among(items),
            None => Seq::empty(),
        },
        None => Seq::empty(),
    }
}

/// The properties that an input schema names in its `properties` object.
pub open spec fn known_properties(schema: JsonView) -> Seq<Seq<char>> {
    match schema.member("properties"@) {
        Some(properties) => match properties.members() {
            Some(members) => member_names(members),
            None => Seq::empty(),
        },
        None => Seq::empty(),
    }
}

/// The test whether arguments lack a property.
pub open spec fn lacking(arguments: Seq<(Seq<char>, JsonView)>) -> spec_fn(Seq<char>) -> bool {
    |property: Seq<char>| lookup(arguments, property) is None
}

/// The required properties that the arguments lack.
pub open spec fn missing_properties(
    arguments: Seq<(Seq<char>, JsonView)>,
    schema: JsonView,
) -> Seq<Seq<char>> {
    required_properties(schema).filter(lacking(arguments))
}

/// The test whether a list of names does not hold a name.
pub open spec fn outside_of(names: Seq<Seq<char>>) -> spec_fn(Seq<char>) -> bool {
    |name: Seq<char>| !names.contains(name)
}

/// The provided properties that the schema does not name, where it names any.
pub open spec fn unknown_properties(
    arguments: Seq<(Seq<char>, JsonView)>,
    schema: JsonView,
) -> Seq<Seq<char>> {
    if known_properties(schema).len() == 0 {
        Seq::empty()
    } else {
        member_names(arguments).filter(outside_of(known_properties(schema)))
    }
}

/// What the local check says: the arguments must be an object that holds every property
/// that the schema requires.
pub open spec fn checked(
    server: Seq<char>,
    tool: Seq<char>,
    arguments: JsonView,
    schema: JsonView,
) -> Result<(), FailureView> {
    match arguments.members() {
        None => Err(FailureView::ArgumentsNotObject),
        Some(members) => if missing_properties(members, schema).len() == 0 {
            Ok(())
        } else {
            Err(
                FailureView::MissingProperties {
                    server,
                    tool,
                    missing: missing_properties(members, schema),
                    unknown: unknown_properties(members, schema),
                    known: known_properties(schema),
                },
            )
        },
    }
}

/// What the result of a check stands for.
pub open spec fn check_view(result: Result<(), Failure>) -> Result<(), FailureView> {
    match result {
        Ok(()) => Ok(()),
        Err(failure) => Err(failure@),
    }
}

/// Lists the texts among JSON values.
fn collect_strings(items: &Vec<Json>) -> (strings: Vec<String>)
    ensures
        texts(strings@) == strings_among(json_views(items@)),
{
    let mut strings: Vec<String> = Vec::new();
    let ghost views = json_views(items@);
    let mut i: usize = 0;
    assert(texts(strings@) =~= strings_among(views.take(0)));
    while i < items.len()
        invariant
            i <= items.len(),
            views == json_views(items@),
            texts(strings@) == strings_among(views.take(i as int)),
        decreases items.len() - i,
    {
        let ghost upto = views.take(i + 1);
        assert(upto.drop_last() =~= views.take(i as int));
        assert(upto.last() == items@[i as int]@);
        if let Some(text) = items[i].text() {
            let ghost earlier = texts(strings@);
            strings.push(text.clone());
            assert(texts(strings@) =~= earlier.push(text@));
        }
        i += 1;
    }
    assert(views.take(views.len() as int) =~= views);
    strings
}

/// Lists the properties that an input schema requires.
fn collect_required(schema: &Json) -> (required: Vec<String>)
    ensures
        texts(required@) == required_properties(schema@),
{
    match schema.member("required") {
        Some(list) => match list.items() {
            Some(items) => collect_strings(items),
            None => {
                let none: Vec<String> = Vec::new();
                assert(texts(none@) =~= Seq::empty());
                none
            }
        },
        None => {
            let none: Vec<String> = Vec::new();
            assert(texts(none@) =~= Seq::empty());
            none
        }
    }
}

/// Lists the names of members.
fn collect_names(members: &Vec<(String, Json)>) -> (names: Vec<String>)
    ensures
        texts(names@) == member_names(member_views(members@)),
{
    let mut names: Vec<String> = Vec::new();
    let mut i: usize = 0;
    while i < members.len()
        invariant
            i <= members.len(),
            names@.len() == i,
            forall|j: int| 0 <= j < i ==> (#[trigger] names@[j])@ == members@[j].0@,
        decreases members.len() - i,
    {
        names.push(members[i].0.clone());
        i += 1;
    }
    assert(texts(names@) =~= member_names(member_views(members@)));
    names
}

/// Lists the properties that an input schema names.
fn collect_known(schema: &Json) -> (known: Vec<String>)
    ensures
        texts(known@) == known_properties(schema@),
{
    match schema.member("properties") {
        Some(properties) => match properties.members() {
            Some(members) => collect_names(members),
            None => {
                let none: Vec<String> = Vec::new();
                assert(texts(none@) =~= Seq::empty());
                none
            }
        },
        None => {
            let none: Vec<String> = Vec::new();
            assert(texts(none@) =~= Seq::empty());
            none
        }
    }
}

/// Lists the names that the members lack.
fn collect_lacking(names: &Vec<String>, members: &Vec<(String, Json)>) -> (missing: Vec<String>)
    ensures
        texts(missing@) == texts(names@).filter(lacking(member_views(members@))),
{
    let mut missing: Vec<String> = Vec::new();
    let ghost wanted = lacking(member_views(members@));
    let mut i: usize = 0;
    proof {
        lemma_filter_none(texts(names@).take(0), wanted);
        assert(texts(missing@) =~= Seq::empty());
    }
    while i < names.len()
        invariant
            i <= names.len(),
            wanted == lacking(member_views(members@)),
            texts(missing@) == texts(names@).take(i as int).filter(wanted),
        decreases names.len() - i,
    {
        proof {
            lemma_filter_step(texts(names@), i as int, wanted);
        }
        if find_member(members, names[i].as_str()).is_none() {
            let ghost earlier = texts(missing@);
            missing.push(names[i].clone());
            assert(texts(missing@) =~= earlier.push(names@[i as int]@));
        }
        i += 1;
    }
    assert(texts(names@).take(names@.len() as int) =~= texts(names@));
    missing
}

/// Whether a list holds a text.
pub(crate) fn contains_name(names: &Vec<String>, name: &str) -> (answer: bool)
    ensures
        answer == texts(names@).contains(name@),
{
    let mut i: usize = 0;
    while i < names.len()
        invariant
            i <= names.len(),
            forall|j: int| 0 <= j < i ==> texts(names@)[j] != name@,
        decreases names.len() - i,
    {
        if same_text(names[i].as_str(), name) {
            assert(texts(names@)[i as int] == name@);
            return true;
        }
        i += 1;
    }
    false
}

/// Lists the names that are not known.
fn collect_outside(names: &Vec<String>, known: &Vec<String>) -> (unknown: Vec<String>)
    ensures
        texts(unknown@) == texts(names@).filter(outside_of(texts(known@))),
{
    let mut unknown: Vec<String> = Vec::new();
    let ghost wanted = outside_of(texts(known@));
    let mut i: usize = 0;
    proof {
        lemma_filter_none(texts(names@).take(0), wanted);
        assert(texts(unknown@) =~= Seq::empty());
    }
    while i < names.len()
        invariant
            i <= names.len(),
            wanted == outside_of(texts(known@)),
            texts(unknown@) == texts(names@).take(i as int).filter(wanted),
        decreases names.len() - i,
    {
        proof {
            lemma_filter_step(texts(names@), i as int, wanted);
        }
        if !contains_name(known, names[i].as_str()) {
            let ghost earlier = texts(unknown@);
            unknown.push(names[i].clone());
            assert(texts(unknown@) =~= earlier.push(names@[i as int]@));
        }
        i += 1;
    }
    assert(texts(names@).take(names@.len() as int) =~= texts(names@));
    unknown
}

/// Checks arguments against the properties that an input schema requires.
pub fn validate_required_arguments(
    server: &str,
    tool: &str,
    arguments: &Json,
    schema: &Json,
) -> (result: Result<(), Failure>)
    ensures
        check_view(result) == checked(server@, tool@, arguments@, schema@),
{
    match arguments.members() {
        None => Err(Failure::ArgumentsNotObject),
        Some(members) => {
            let required: Vec<String> = collect_required(schema);
            let missing: Vec<String> = collect_lacking(&required, members);
            if missing.len() == 0 {
                assert(texts(missing@).len() == 0);
                return Ok(());
            }
            let known: Vec<String> = collect_known(schema);
            let unknown: Vec<String> = if known.len() == 0 {
                Vec::new()
            } else {
                collect_outside(&collect_names(members), &known)
            };
            proof {
                assert(texts(known@).len() == known@.len());
                assert(texts(missing@).len() == missing@.len());
                if known@.len() == 0 {
                    assert(texts(unknown@) =~= Seq::empty());
                }
            }
            Err(
                Failure::MissingProperties {
                    server: server.to_owned(),
                    tool: tool.to_owned(),
                    missing,
                    unknown,
                    known,
                },
            )
        }
    }
}

/// Arguments pass the local check exactly if they are an object with a member for every
/// required property.
pub proof fn law_check_passes(
    server: Seq<char>,
    tool: Seq<char>,
    arguments: JsonView,
    schema: JsonView,
)
    ensures
        checked(server, tool, arguments, schema) is Ok <==> {
            &&& arguments is Object
            &&& forall|i: int|
                0 <= i < required_properties(schema).len() ==> member_names(
                    arguments->Object_0,
                ).contains(#[trigger] required_properties(schema)[i])
        },
{
    if arguments is Object {
        let members = arguments->Object_0;
        let required = required_properties(schema);
        let missing = missing_properties(members, schema);
        assert forall|i: int| 0 <= i < required.len() implies lacking(members)(required[i])
            == !member_names(members).contains(#[trigger] required[i]) by {
            lemma_lookup_names(members, required[i]);
        }
        if missing.len() == 0 {
            assert forall|i: int| 0 <= i < required.len() implies member_names(members).contains(
                #[trigger] required[i],
            ) by {
                if lacking(members)(required[i]) {
                    required.lemma_filter_contains(lacking(members), i);
                    assert(missing.contains(required[i]));
                }
            }
        } else if forall|i: int|
            0 <= i < required.len() ==> member_names(members).contains(#[trigger] required[i]) {
            lemma_filter_none(required, lacking(members));
        }
    }
}

/// The tool to call, or why the call is refused: the name must stand for one tool, and
/// the arguments must pass the check, where it is asked for.
pub open spec fn call_entry(
    entries: Seq<EntryView>,
    server: Seq<char>,
    tool: Seq<char>,
    arguments: JsonView,
    preflight: bool,
) -> Result<EntryView, FailureView> {
    match resolution(entries, server, tool) {
        Err(failure) => Err(failure),
        Ok(entry) => if !preflight {
            Ok(entry)
        } else {
            match schema_of(entry.tool) {
                Err(failure) => Err(failure),
                Ok(schema) => match checked(server, entry.raw_tool, arguments, schema) {
                    Err(failure) => Err(failure),
                    Ok(()) => Ok(entry),
                },
            }
        },
    }
}

/// Prepares a call: finds the tool and checks the arguments.
pub fn prepare_call<'a>(
    catalog: &'a ToolCatalog,
    server: &str,
    tool: &str,
    arguments: &Json,
    preflight: bool,
) -> (result: Result<&'a ToolCatalogEntry, Failure>)
    ensures
        resolution_view(result) == call_entry(catalog@, server@, tool@, arguments@, preflight),
{
    match resolve_tool_entry(catalog, server, tool) {
        Err(failure) => Err(failure),
        Ok(entry) => {
            if preflight {
                match tool_schema_value(&entry.tool) {
                    Err(failure) => {
                        return Err(failure);
                    }
                    Ok(schema) => {
                        match validate_required_arguments(
                            server,
                            entry.raw_tool.as_str(),
                            arguments,
                            &schema,
                        ) {
                            Err(failure) => {
                                return Err(failure);
                            }
                            Ok(()) => {}
                        }
                    }
                }
            }
            Ok(entry)
        }
    }
}

/// Without the local check, a call goes out exactly if the tool's name stands for one
/// tool, whatever the arguments are.
pub proof fn law_unchecked_call(
    entries: Seq<EntryView>,
    server: Seq<char>,
    tool: Seq<char>,
    arguments: JsonView,
)
    ensures
        call_entry(entries, server, tool, arguments, false) == resolution(entries, server, tool),
{
}

/// What becomes of parsed arguments: they must be an object.
pub open spec fn accepted(parse: Result<JsonView, Seq<char>>) -> Result<JsonView, FailureView> {
    match parse {
        Err(cause) => Err(FailureView::ArgumentsNotJson { cause }),
        Ok(value) => if value is Object {
            Ok(value)
        } else {
            Err(FailureView::ArgumentsNotObject)
        },
    }
}

/// What the result of reading arguments stands for.
pub open spec fn arguments_view(result: Result<Json, Failure>) -> Result<JsonView, FailureView> {
    match result {
        Ok(arguments) => Ok(arguments@),
        Err(failure) => Err(failure@),
    }
}

/// Takes parsed arguments, where they are an object.
pub fn accept_arguments(parse: Result<Json, String>) -> (result: Result<Json, Failure>)
    ensures
        arguments_view(result) == accepted(parse_view(parse)),
{
    match parse {
        Err(cause) => Err(Failure::ArgumentsNotJson { cause }),
        Ok(value) => {
            if value.is_object() {
                Ok(value)
            } else {
                Err(Failure::ArgumentsNotObject)
            }
        }
    }
}

/// Reads arguments from a JSON text.
pub fn parse_arguments_json(arguments_json: &str) -> (result: Result<Json, Failure>)
    ensures
        arguments_view(result) == accepted(parsed(arguments_json@)),
{
    accept_arguments(parse_json(arguments_json))
}

/// Where the JSON text of the arguments is to be had.
#[derive(Debug)]
pub enum ArgumentSource {
    /// It is given.
    Inline(String),
    /// It is the standard input.
    Stdin,
    /// It is in a file.
    File(String),
}

/// What an `ArgumentSource` stands for.
pub enum SourceView {
    Inline(Seq<char>),
    Stdin,
    File(Seq<char>),
}

impl View for ArgumentSource {
    type V = SourceView;

    open spec fn view(&self) -> SourceView {
        match self {
            ArgumentSource::Inline(text) => SourceView::Inline(text@),
            ArgumentSource::Stdin => SourceView::Stdin,
            ArgumentSource::File(path) => SourceView::File(path@),
        }
    }
}

/// Where the arguments come from: the command line or a file, not both, `-` for the
/// standard input, and an empty object where neither is given.
pub open spec fn source_of(
    arguments_json: Option<Seq<char>>,
    args_file: Option<Seq<char>>,
) -> Result<SourceView, FailureView> {
    match (arguments_json, args_file) {
        (Some(_), Some(_)) => Err(FailureView::ConflictingArguments),
        (Some(text), None) => Ok(SourceView::Inline(text)),
        (None, Some(path)) => if path == "-"@ {
            Ok(SourceView::Stdin)
        } else {
            Ok(SourceView::File(path))
        },
        (None, None) => Ok(SourceView::Inline("{}"@)),
    }
}

/// What the result of choosing a source stands for.
pub open spec fn source_view(result: Result<ArgumentSource, Failure>) -> Result<
    SourceView,
    FailureView,
> {
    match result {
        Ok(source) => Ok(source@),
        Err(failure) => Err(failure@),
    }
}

/// Chooses where the arguments come from.
pub fn read_arguments(arguments_json: Option<&str>, args_file: Option<&str>) -> (result: Result<
    ArgumentSource,
    Failure,
>)
    ensures
        source_view(result) == source_of(optional_str(arguments_json), optional_str(args_file)),
{
    match (arguments_json, args_file) {
        (Some(_), Some(_)) => Err(Failure::ConflictingArguments),
        (Some(text), None) => Ok(ArgumentSource::Inline(text.to_owned())),
        (None, Some(path)) => {
            if same_text(path, "-") {
                Ok(ArgumentSource::Stdin)
            } else {
                Ok(ArgumentSource::File(path.to_owned()))
            }
        }
        (None, None) => Ok(ArgumentSource::Inline("{}".to_owned())),
    }
}

/// The arguments of a request that names none: an empty object.
pub fn default_arguments() -> (arguments: Json)
    ensures
        arguments@ == JsonView::Object(Seq::empty()),
{
    let arguments: Json = Json::Object(Vec::new());
    assert(arguments@->Object_0 =~= Seq::empty());
    arguments
}

/// The properties that a schema requires are the texts in the list under `required`, in
/// their order; those that it names are the names of the members under `properties`.
pub proof fn law_schema_properties(members: Seq<(Seq<char>, JsonView)>)
    ensures
        required_properties(JsonView::Object(members)) == match lookup(members, "required"@) {
            Some(JsonView::Array(items)) => items.filter(
                |item: JsonView| item is Text,
            ).map_values(|item: JsonView| item->Text_0),
            _ => Seq::empty(),
        },
        known_properties(JsonView::Object(members)) == match lookup(members, "properties"@) {
            Some(JsonView::Object(properties)) => properties.map_values(
                |property: (Seq<char>, JsonView)| property.0,
            ),
            _ => Seq::empty(),
        },
        forall|schema: JsonView|
            schema !is Object ==> (#[trigger] required_properties(schema)).len() == 0,
        forall|schema: JsonView|
            schema !is Object ==> (#[trigger] known_properties(schema)).len() == 0,
{
    match lookup(members, "required"@) {
        Some(JsonView::Array(items)) => {
            lemma_strings_among(items);
        },
        _ => {},
    }
    match lookup(members, "properties"@) {
        Some(JsonView::Object(properties)) => {
            assert(member_names(properties) =~= properties.map_values(
                |property: (Seq<char>, JsonView)| property.0,
            ));
        },
        _ => {},
    }
}

proof fn lemma_strings_among(items: Seq<JsonView>)
    ensures
        strings_among(items) == items.filter(|item: JsonView| item is Text).map_values(
            |item: JsonView| item->Text_0,
        ),
    decreases items.len(),
{
    let test = |item: JsonView| item is Text;
    let text_of = |item: JsonView| item->Text_0;
    if items.len() == 0 {
        lemma_filter_none(items, test);
        assert(strings_among(items) =~= items.filter(test).map_values(text_of));
    } else {
        let front = items.drop_last();
        lemma_strings_among(front);
        lemma_filter_push(front, items.last(), test);
        assert(front.push(items.last()) =~= items);
        assert(strings_among(items) =~= items.filter(test).map_values(text_of));
    }
}

/// What the local check says of arguments: they must be an object; the properties that it
/// finds missing are the required ones that no argument has the name of, in order; where
/// the schema names properties, those arguments are unknown whose names are not among them;
/// and the check passes exactly if nothing is missing.
pub proof fn law_check(
    server: Seq<char>,
    tool: Seq<char>,
    arguments: JsonView,
    schema: JsonView,
)
    ensures
        arguments !is Object ==> checked(server, tool, arguments, schema) == Err::<
            (),
            FailureView,
        >(FailureView::ArgumentsNotObject),
        arguments is Object ==> ({
            let given = arguments->Object_0.map_values(
                |argument: (Seq<char>, JsonView)| argument.0,
            );
            let known = known_properties(schema);
            let missing = required_properties(schema).filter(
                |property: Seq<char>| !given.contains(property),
            );
            let unknown = if known.len() == 0 {
                Seq::empty()
            } else {
                given.filter(|property: Seq<char>| !known.contains(property))
            };
            checked(server, tool, arguments, schema) == if missing.len() == 0 {
                Ok::<(), FailureView>(())
            } else {
                Err(FailureView::MissingProperties { server, tool, missing, unknown, known })
            }
        }),
{
    if arguments is Object {
        let members = arguments->Object_0;
        let given = members.map_values(|argument: (Seq<char>, JsonView)| argument.0);
        let known = known_properties(schema);
        assert(given =~= member_names(members));
        let absent = |property: Seq<char>| !given.contains(property);
        let strange = |property: Seq<char>| !known.contains(property);
        assert forall|property: Seq<char>| absent(property) == #[trigger] lacking(members)(
            property,
        ) by {
            lemma_lookup_names(members, property);
        }
        assert(absent =~= lacking(members));
        assert(strange =~= outside_of(known));
    }
}

/// With the local check on, a call goes out exactly if its name stands for one tool, that
/// tool's definition holds an input schema, the arguments are an object, and each text in
/// the schema's list of required properties is the name of an argument; and it goes to that
/// tool. Without the check, the name alone decides.
pub proof fn law_calls_that_go_out(
    entries: Seq<EntryView>,
    server: Seq<char>,
    tool: Seq<char>,
    arguments: JsonView,
    preflight: bool,
    entry: EntryView,
)
    ensures
        call_entry(entries, server, tool, arguments, preflight) == Ok::<EntryView, FailureView>(
            entry,
        ) <==> resolution(entries, server, tool) == Ok::<EntryView, FailureView>(entry) && (preflight
            ==> satisfied(entry.tool.definition, arguments)),
{
    if resolution(entries, server, tool) == Ok::<EntryView, FailureView>(entry) && preflight {
        let definition = entry.tool.definition;
        match definition {
            JsonView::Object(members) => match lookup(members, "inputSchema"@) {
                Some(schema) => {
                    lemma_satisfied(schema, arguments);
                    law_check_passes(server, entry.raw_tool, arguments, schema);
                },
                None => {},
            },
            _ => {},
        }
    }
}

/// The definition holds an input schema, the arguments are an object, and each text in the
/// schema's list of required properties is the name of an argument.
pub open spec fn satisfied(definition: JsonView, arguments: JsonView) -> bool {
    &&& definition is Object
    &&& arguments is Object
    &&& lookup(definition->Object_0, "inputSchema"@) matches Some(schema) && (schema is Object ==> (
    lookup(schema->Object_0, "required"@) matches Some(JsonView::Array(items)) ==> forall|i: int|
        0 <= i < items.len() && (#[trigger] items[i]) is Text ==> exists|j: int|
            0 <= j < arguments->Object_0.len() && (#[trigger] arguments->Object_0[j]).0
                == items[i]->Text_0))
}

proof fn lemma_satisfied(schema: JsonView, arguments: JsonView)
    ensures
        arguments is Object ==> ((schema is Object ==> (lookup(
            schema->Object_0,
            "required"@,
        ) matches Some(JsonView::Array(items)) ==> forall|i: int|
            0 <= i < items.len() && (#[trigger] items[i]) is Text ==> exists|j: int|
                0 <= j < arguments->Object_0.len() && (#[trigger] arguments->Object_0[j]).0
                    == items[i]->Text_0)) <==> forall|i: int|
            0 <= i < required_properties(schema).len() ==> member_names(
                arguments->Object_0,
            ).contains(#[trigger] required_properties(schema)[i])),
{
    if arguments is Object && schema is Object {
        let given = arguments->Object_0;
        let required = required_properties(schema);
        match lookup(schema->Object_0, "required"@) {
            Some(JsonView::Array(items)) => {
                if forall|i: int|
                    0 <= i < required.len() ==> member_names(given).contains(
                        #[trigger] required[i],
                    ) {
                    assert forall|i: int| 0 <= i < items.len() && (#[trigger] items[i]) is Text implies exists|
                        j: int,
                    |
                        0 <= j < given.len() && (#[trigger] given[j]).0 == items[i]->Text_0 by {
                        lemma_string_found(items, i);
                        let k = choose|k: int|
                            0 <= k < required.len() && required[k] == items[i]->Text_0;
                        assert(member_names(given).contains(required[k]));
                        let j = choose|j: int|
                            0 <= j < given.len() && member_names(given)[j] == required[k];
                        assert(given[j].0 == items[i]->Text_0);
                    }
                }
                if forall|i: int|
                    0 <= i < items.len() && (#[trigger] items[i]) is Text ==> exists|j: int|
                        0 <= j < given.len() && (#[trigger] given[j]).0 == items[i]->Text_0 {
                    assert forall|i: int| 0 <= i < required.len() implies member_names(
                        given,
                    ).contains(#[trigger] required[i]) by {
                        let k = lemma_string_source(items, i);
                        let j = choose|j: int|
                            0 <= j < given.len() && (#[trigger] given[j]).0 == items[k]->Text_0;
                        assert(member_names(given)[j] == required[i]);
                    }
                }
            },
            _ => {},
        }
    }
}

proof fn lemma_string_found(items: Seq<JsonView>, at: int)
    requires
        0 <= at < items.len(),
        items[at] is Text,
    ensures
        strings_among(items).contains(items[at]->Text_0),
    decreases items.len(),
{
    let front = items.drop_last();
    let all = strings_among(items);
    if at < front.len() {
        lemma_string_found(front, at);
        let earlier = strings_among(front);
        let k = choose|k: int| 0 <= k < earlier.len() && earlier[k] == items[at]->Text_0;
        assert(all[k] == items[at]->Text_0);
    } else {
        assert(all[all.len() - 1] == items[at]->Text_0);
    }
}

proof fn lemma_string_source(items: Seq<JsonView>, at: int) -> (source: int)
    requires
        0 <= at < strings_among(items).len(),
    ensures
        0 <= source < items.len(),
        items[source] == JsonView::Text(strings_among(items)[at]),
    decreases items.len(),
{
    let front = items.drop_last();
    if at < strings_among(front).len() {
        let source = lemma_string_source(front, at);
        assert(items[source] == front[source]);
        source
    } else {
        items.len() - 1
    }
}

/// A call that does not go out is refused for the first of these reasons that holds: its
/// name does not stand for one tool, the tool has no input schema, and what the local check
/// says of the arguments and that schema.
pub proof fn law_refused_calls(
    entries: Seq<EntryView>,
    server: Seq<char>,
    tool: Seq<char>,
    arguments: JsonView,
    preflight: bool,
    failure: FailureView,
)
    requires
        call_entry(entries, server, tool, arguments, preflight) == Err::<EntryView, FailureView>(
            failure,
        ),
    ensures
        match resolution(entries, server, tool) {
            Err(reason) => failure == reason,
            Ok(entry) => preflight && match schema_of(entry.tool) {
                Err(reason) => failure == reason,
                Ok(schema) => checked(server, entry.raw_tool, arguments, schema) == Err::<
                    (),
                    FailureView,
                >(failure),
            },
        },
{
}

/// Arguments are taken if they are JSON and an object, as they are; else the reason is
/// given.
pub proof fn law_accepted(parse: Result<JsonView, Seq<char>>)
    ensures
        parse matches Ok(value) ==> value is Object ==> accepted(parse) == Ok::<
            JsonView,
            FailureView,
        >(value),
        parse matches Ok(value) ==> value !is Object ==> accepted(parse) == Err::<
            JsonView,
            FailureView,
        >(FailureView::ArgumentsNotObject),
        parse matches Err(cause) ==> accepted(parse) == Err::<JsonView, FailureView>(
            FailureView::ArgumentsNotJson { cause },
        ),
{
}

/// Arguments come from the one place that is named: the text on the command line, or the
/// file, where `-` is the standard input; both together are refused, and without either
/// the arguments are an empty object.
pub proof fn law_argument_source(text: Seq<char>, path: Seq<char>)
    ensures
        source_of(Some(text), Some(path)) == Err::<SourceView, FailureView>(
            FailureView::ConflictingArguments,
        ),
        source_of(Some(text), None) == Ok::<SourceView, FailureView>(SourceView::Inline(text)),
        path != "-"@ ==> source_of(None, Some(path)) == Ok::<SourceView, FailureView>(
            SourceView::File(path),
        ),
        source_of(None, Some("-"@)) == Ok::<SourceView, FailureView>(SourceView::Stdin),
        source_of(None, None) == Ok::<SourceView, FailureView>(SourceView::Inline("{}"@)),
{
}

/// What a result or a source stands for is that result or that source.
pub proof fn law_argument_views(
    arguments: Json,
    failure: Failure,
    source: ArgumentSource,
    text: String,
    path: String,
)
    ensures
        check_view(Ok(())) == Ok::<(), FailureView>(()),
        check_view(Err(failure)) == Err::<(), FailureView>(failure@),
        arguments_view(Ok(arguments)) == Ok::<JsonView, FailureView>(arguments@),
        arguments_view(Err(failure)) == Err::<JsonView, FailureView>(failure@),
        ArgumentSource::Inline(text)@ == SourceView::Inline(text@),
        ArgumentSource::Stdin@ == SourceView::Stdin,
        ArgumentSource::File(path)@ == SourceView::File(path@),
        source_view(Ok(source)) == Ok::<SourceView, FailureView>(source@),
        source_view(Err(failure)) == Err::<SourceView, FailureView>(failure@),
{
}

} // verus!
