//! JSON values as the library reads them, and the parser behind them.

use crate::text::{optional_text, same_text};
use vstd::prelude::*;

verus! {

/// `serde_json::Number`, carried through unread.
#[verifier::external_type_specification]
#[verifier::external_body]
pub struct ExNumber(serde_json::Number);

/// `serde_json::Value`, between the parser and `Json`.
#[verifier::external_type_specification]
#[verifier::external_body]
pub struct ExValue(serde_json::Value);

/// `serde_json::Error`, between the parser and its message.
#[verifier::external_type_specification]
#[verifier::external_body]
pub struct ExError(serde_json::Error);

/// `Clone` of `serde_json::Number`, which is derived: the copy is the number itself.
pub assume_specification[ <serde_json::Number as std::clone::Clone>::clone ](
    number: &serde_json::Number,
) -> (copy: serde_json::Number)
    ensures
        copy == *number,
;

/// A JSON value. The members of an object stand in the order in which the parser's
/// map yields them.
#[derive(Debug, PartialEq)]
pub enum Json {
    Null,
    Bool(bool),
    Number(serde_json::Number),
    Text(String),
    Array(Vec<Json>),
    Object(Vec<(String, Json)>),
}

/// What a `Json` stands for.
pub enum JsonView {
    Null,
    Bool(bool),
    Number(serde_json::Number),
    Text(Seq<char>),
    Array(Seq<JsonView>),
    Object(Seq<(Seq<char>, JsonView)>),
}

impl View for Json {
    type V = JsonView;

    open spec fn view(&self) -> JsonView
        decreases self,
    {
        match self {
            Json::Null => JsonView::Null,
            Json::Bool(value) => JsonView::Bool(*value),
            Json::Number(value) => JsonView::Number(*value),
            Json::Text(text) => JsonView::Text(text@),
            Json::Array(items) => JsonView::Array(
                Seq::new(
                    items@.len(),
                    |i: int|
                        if 0 <= i < items@.len() {
                            items@[i].view()
                        } else {
                            JsonView::Null
                        },
                ),
            ),
            Json::Object(members) => JsonView::Object(
                Seq::new(
                    members@.len(),
                    |i: int|
                        (
                            members@[i].0@,
                            if 0 <= i < members@.len() {
                                members@[i].1.view()
                            } else {
                                JsonView::Null
                            },
                        ),
                ),
            ),
        }
    }
}

/// The value of the first member of that name.
pub open spec fn lookup(members: Seq<(Seq<char>, JsonView)>, name: Seq<char>) -> Option<JsonView>
    decreases members.len(),
{
    if members.len() == 0 {
        None
    } else if members[0].0 == name {
        Some(members[0].1)
    } else {
        lookup(members.drop_first(), name)
    }
}

/// The members with the first one of that name given a new value, or with a new one at
/// the end where there is none.
pub open spec fn with_member(
    members: Seq<(Seq<char>, JsonView)>,
    name: Seq<char>,
    value: JsonView,
) -> Seq<(Seq<char>, JsonView)>
    decreases members.len(),
{
    if members.len() == 0 {
        seq![(name, value)]
    } else if members[0].0 == name {
        members.update(0, (name, value))
    } else {
        seq![members[0]] + with_member(members.drop_first(), name, value)
    }
}

/// The names of an object's members, in order.
pub open spec fn member_names(members: Seq<(Seq<char>, JsonView)>) -> Seq<Seq<char>> {
    Seq::new(members.len(), |i: int| members[i].0)
}

impl JsonView {
    /// The members of an object.
    pub open spec fn members(self) -> Option<Seq<(Seq<char>, JsonView)>> {
        match self {
            JsonView::Object(members) => Some(members),
            _ => None,
        }
    }

    /// The items of an array.
    pub open spec fn items(self) -> Option<Seq<JsonView>> {
        match self {
            JsonView::Array(items) => Some(items),
            _ => None,
        }
    }

    /// The text of a string.
    pub open spec fn text(self) -> Option<Seq<char>> {
        match self {
            JsonView::Text(text) => Some(text),
            _ => None,
        }
    }

    /// The member of that name, of an object.
    pub open spec fn member(self, name: Seq<char>) -> Option<JsonView> {
        match self {
            JsonView::Object(members) => lookup(members, name),
            _ => None,
        }
    }

    /// An object with a member set; any other value stays as it is.
    pub open spec fn with(self, name: Seq<char>, value: JsonView) -> JsonView {
        match self {
            JsonView::Object(members) => JsonView::Object(with_member(members, name, value)),
            _ => self,
        }
    }

    /// The text of the member of that name, where there is one and it is a string.
    pub open spec fn member_text(self, name: Seq<char>) -> Option<Seq<char>> {
        match self.member(name) {
            Some(value) => value.text(),
            None => None,
        }
    }
}

/// The views of a list of values.
pub open spec fn json_views(values: Seq<Json>) -> Seq<JsonView> {
    Seq::new(values.len(), |i: int| values[i]@)
}

/// The views of a list of members.
pub open spec fn member_views(members: Seq<(String, Json)>) -> Seq<(Seq<char>, JsonView)> {
    Seq::new(members.len(), |i: int| (members[i].0@, members[i].1@))
}

/// A value, where there is one.
pub open spec fn optional_json(value: Option<&Json>) -> Option<JsonView> {
    match value {
        Some(value) => Some(value@),
        None => None,
    }
}

impl Json {
    /// Whether the value is an object.
    pub fn is_object(&self) -> (answer: bool)
        ensures
            answer == (self@ is Object),
    {
        match self {
            Json::Object(_) => true,
            _ => false,
        }
    }

    /// The members of an object.
    pub fn members(&self) -> (members: Option<&Vec<(String, Json)>>)
        ensures
            members is Some == self@.members() is Some,
            members matches Some(members) ==> self@.members() == Some(member_views(members@)),
    {
        match self {
            Json::Object(members) => {
                assert(self@.members()->Some_0 =~= member_views(members@));
                Some(members)
            }
            _ => None,
        }
    }

    /// The items of an array.
    pub fn items(&self) -> (items: Option<&Vec<Json>>)
        ensures
            items is Some == self@.items() is Some,
            items matches Some(items) ==> self@.items() == Some(json_views(items@)),
    {
        match self {
            Json::Array(items) => {
                assert(self@.items()->Some_0 =~= json_views(items@));
                Some(items)
            }
            _ => None,
        }
    }

    /// The text of a string.
    pub fn text(&self) -> (text: Option<&String>)
        ensures
            text is Some == self@.text() is Some,
            text matches Some(text) ==> self@.text() == Some(text@),
    {
        match self {
            Json::Text(text) => Some(text),
            _ => None,
        }
    }

    /// The member of that name, of an object.
    pub fn member(&self, name: &str) -> (value: Option<&Json>)
        ensures
            optional_json(value) == self@.member(name@),
    {
        match self.members() {
            Some(members) => {
                let value: Option<&Json> = find_member(members, name);
                value
            }
            None => None,
        }
    }

    /// The text of the member of that name, where there is one and it is a string.
    pub fn member_text(&self, name: &str) -> (text: Option<String>)
        ensures
            optional_text(text) == self@.member_text(name@),
    {
        match self.member(name) {
            Some(value) => match value.text() {
                Some(text) => Some(text.clone()),
                None => None,
            },
            None => None,
        }
    }
}

/// The value of the first member of that name.
pub(crate) fn find_member<'a>(members: &'a Vec<(String, Json)>, name: &str) -> (value: Option<
    &'a Json,
>)
    ensures
        optional_json(value) == lookup(member_views(members@), name@),
{
    let mut i: usize = 0;
    assert(member_views(members@).skip(0) =~= member_views(members@));
    while i < members.len()
        invariant
            i <= members.len(),
            lookup(member_views(members@), name@) == lookup(
                member_views(members@).skip(i as int),
                name@,
            ),
        decreases members.len() - i,
    {
        let ghost rest = member_views(members@).skip(i as int);
        assert(rest[0] == (members@[i as int].0@, members@[i as int].1@));
        assert(rest.drop_first() =~= member_views(members@).skip(i + 1));
        if same_text(members[i].0.as_str(), name) {
            return Some(&members[i].1);
        }
        i += 1;
    }
    None
}

/// Sets the first member of that name, or adds one.
fn set_member(members: &mut Vec<(String, Json)>, name: &str, value: Json)
    ensures
        member_views(final(members)@) == with_member(member_views(old(members)@), name@, value@),
{
    let ghost source = member_views(members@);
    let mut i: usize = 0;
    assert(source.skip(0) =~= source);
    assert(source.take(0) + with_member(source, name@, value@) =~= with_member(
        source,
        name@,
        value@,
    ));
    while i < members.len()
        invariant
            i <= members.len(),
            *members == *old(members),
            source == member_views(members@),
            with_member(source, name@, value@) == source.take(i as int) + with_member(
                source.skip(i as int),
                name@,
                value@,
            ),
        decreases members.len() - i,
    {
        let ghost rest = source.skip(i as int);
        assert(rest[0] == source[i as int]);
        if same_text(members[i].0.as_str(), name) {
            let name_text: String = members[i].0.clone();
            members.set(i, (name_text, value));
            assert(member_views(members@) =~= source.take(i as int) + rest.update(
                0,
                (name@, value@),
            ));
            return;
        }
        assert(rest.drop_first() =~= source.skip(i + 1));
        assert(source.take(i + 1) + with_member(source.skip(i + 1), name@, value@) =~= source.take(
            i as int,
        ) + (seq![rest[0]] + with_member(rest.drop_first(), name@, value@)));
        i += 1;
    }
    members.push((name.to_owned(), value));
    assert(source.skip(i as int).len() == 0);
    assert(member_views(members@) =~= source.take(i as int) + seq![(name@, value@)]);
}

impl Json {
    /// The value with a member set, where it is an object.
    pub fn with(self, name: &str, value: Json) -> (changed: Json)
        ensures
            changed@ == self@.with(name@, value@),
    {
        match self {
            Json::Object(members) => {
                let mut list: Vec<(String, Json)> = members;
                assert(self@->Object_0 =~= member_views(list@));
                set_member(&mut list, name, value);
                let changed: Json = Json::Object(list);
                assert(changed@->Object_0 =~= member_views(list@));
                changed
            }
            other => other,
        }
    }
}

/// Of an object with a member set, that member has the new value, and the others have
/// theirs.
pub proof fn lemma_with_member(
    members: Seq<(Seq<char>, JsonView)>,
    name: Seq<char>,
    value: JsonView,
)
    ensures
        lookup(with_member(members, name, value), name) == Some(value),
        forall|other: Seq<char>|
            other != name ==> #[trigger] lookup(with_member(members, name, value), other) == lookup(
                members,
                other,
            ),
    decreases members.len(),
{
    let after = with_member(members, name, value);
    if members.len() == 0 {
        assert(after.drop_first() =~= members);
        assert forall|other: Seq<char>| other != name implies #[trigger] lookup(after, other)
            == lookup(members, other) by {
            assert(lookup(after, other) == lookup(after.drop_first(), other));
        }
    } else if members[0].0 == name {
        assert(after.drop_first() =~= members.drop_first());
        assert forall|other: Seq<char>| other != name implies #[trigger] lookup(after, other)
            == lookup(members, other) by {
            assert(lookup(after, other) == lookup(after.drop_first(), other));
        }
    } else {
        let rest = with_member(members.drop_first(), name, value);
        lemma_with_member(members.drop_first(), name, value);
        assert(after.drop_first() =~= rest);
        assert forall|other: Seq<char>| other != name implies #[trigger] lookup(after, other)
            == lookup(members, other) by {
            assert(lookup(rest, other) == lookup(members.drop_first(), other));
        }
    }
}

/// A name is found among the members exactly if it is one of their names.
pub proof fn lemma_lookup_names(members: Seq<(Seq<char>, JsonView)>, name: Seq<char>)
    ensures
        lookup(members, name) is Some == member_names(members).contains(name),
    decreases members.len(),
{
    if members.len() > 0 {
        let rest = members.drop_first();
        lemma_lookup_names(rest, name);
        if members[0].0 == name {
            assert(member_names(members)[0] == name);
        } else {
            if member_names(rest).contains(name) {
                let i = choose|i: int| 0 <= i < rest.len() && member_names(rest)[i] == name;
                assert(member_names(members)[i + 1] == name);
            }
            if member_names(members).contains(name) {
                let i = choose|i: int| 0 <= i < members.len() && member_names(members)[i] == name;
                assert(member_names(rest)[i - 1] == name);
            }
        }
    }
}

impl Clone for Json {
    fn clone(&self) -> (copy: Self)
        ensures
            copy@ == self@,
        decreases self,
    {
        match self {
            Json::Null => Json::Null,
            Json::Bool(value) => Json::Bool(*value),
            Json::Number(number) => Json::Number(number.clone()),
            Json::Text(text) => Json::Text(text.clone()),
            Json::Array(items) => {
                let mut list: Vec<Json> = Vec::new();
                let mut i: usize = 0;
                while i < items.len()
                    invariant
                        *self == Json::Array(*items),
                        i <= items.len(),
                        list@.len() == i,
                        forall|j: int| 0 <= j < i ==> (#[trigger] list@[j])@ == items@[j]@,
                    decreases items.len() - i,
                {
                    assert(decreases_to!(*self => self->Array_0));
                    assert(decreases_to!(self->Array_0 => self->Array_0@));
                    assert(decreases_to!(self->Array_0@ => self->Array_0@[i as int]));
                    list.push(items[i].clone());
                    i += 1;
                }
                let copy: Json = Json::Array(list);
                assert(copy@->Array_0 =~= self@->Array_0);
                copy
            }
            Json::Object(members) => {
                let mut list: Vec<(String, Json)> = Vec::new();
                let mut i: usize = 0;
                while i < members.len()
                    invariant
                        *self == Json::Object(*members),
                        i <= members.len(),
                        list@.len() == i,
                        forall|j: int|
                            0 <= j < i ==> (#[trigger] list@[j]).0@ == members@[j].0@
                                && list@[j].1@ == members@[j].1@,
                    decreases members.len() - i,
                {
                    assert(decreases_to!(*self => self->Object_0));
                    assert(decreases_to!(self->Object_0 => self->Object_0@));
                    assert(decreases_to!(self->Object_0@ => self->Object_0@[i as int]));
                    assert(decreases_to!(self->Object_0@[i as int] => self->Object_0@[i as int].1));
                    list.push((members[i].0.clone(), members[i].1.clone()));
                    i += 1;
                }
                let copy: Json = Json::Object(list);
                assert(copy@->Object_0 =~= self@->Object_0);
                copy
            }
        }
    }
}

/// The tree that a `serde_json::Value` holds.
pub uninterp spec fn value_tree(value: serde_json::Value) -> JsonView;

/// The message that a `serde_json::Error` displays.
pub uninterp spec fn error_text(error: serde_json::Error) -> Seq<char>;

/// What `serde_json::from_str` makes of a text: the tree of the value, or the message
/// of the error.
pub uninterp spec fn parsed(text: Seq<char>) -> Result<JsonView, Seq<char>>;

/// `serde_json::from_str` at the type `serde_json::Value`. The result is named: it
/// depends on the text alone.
#[verifier::external_body]
fn value_from_text(text: &str) -> (result: Result<serde_json::Value, serde_json::Error>)
    ensures
        (match result {
            Ok(value) => Ok(value_tree(value)),
            Err(error) => Err(error_text(error)),
        }) == parsed(text@),
{
    serde_json::from_str(text)
}

/// `Display` of `serde_json::Error`, through `to_string`.
#[verifier::external_body]
fn text_of_error(error: serde_json::Error) -> (text: String)
    ensures
        text@ == error_text(error),
{
    error.to_string()
}

/// The outermost level of a `serde_json::Value`.
enum Layer {
    Null,
    Bool(bool),
    Number(serde_json::Number),
    Text(String),
    Array(Vec<serde_json::Value>),
    Object(Vec<(String, serde_json::Value)>),
}

/// The tree of a value whose outermost level is `layer`.
spec fn layer_tree(layer: Layer) -> JsonView {
    match layer {
        Layer::Null => JsonView::Null,
        Layer::Bool(value) => JsonView::Bool(value),
        Layer::Number(value) => JsonView::Number(value),
        Layer::Text(text) => JsonView::Text(text@),
        Layer::Array(items) => JsonView::Array(
            Seq::new(items@.len(), |i: int| value_tree(items@[i])),
        ),
        Layer::Object(members) => JsonView::Object(
            Seq::new(members@.len(), |i: int| (members@[i].0@, value_tree(members@[i].1))),
        ),
    }
}

/// Takes a `serde_json::Value` apart, one variant each. The members of an object come
/// out in the order of `serde_json::Map::into_iter`.
#[verifier::external_body]
fn layer_of(value: serde_json::Value) -> (layer: Layer)
    ensures
        layer_tree(layer) == value_tree(value),
{
    match value {
        serde_json::Value::Null => Layer::Null,
        serde_json::Value::Bool(value) => Layer::Bool(value),
        serde_json::Value::Number(number) => Layer::Number(number),
        serde_json::Value::String(text) => Layer::Text(text),
        serde_json::Value::Array(items) => Layer::Array(items),
        serde_json::Value::Object(members) => Layer::Object(members.into_iter().collect()),
    }
}

/// Takes over a `serde_json::Value`, level by level.
pub fn json_from_value(value: serde_json::Value) -> (json: Json)
    ensures
        json@ == value_tree(value),
    decreases value_tree(value),
{
    match layer_of(value) {
        Layer::Null => Json::Null,
        Layer::Bool(value) => Json::Bool(value),
        Layer::Number(number) => Json::Number(number),
        Layer::Text(text) => Json::Text(text),
        Layer::Array(items) => {
            let mut list: Vec<Json> = Vec::new();
            let ghost source = items@;
            for item in it: items
                invariant
                    it.seq() == source,
                    list@.len() == it.index(),
                    value_tree(value) == JsonView::Array(
                        Seq::new(source.len(), |i: int| value_tree(source[i])),
                    ),
                    forall|i: int|
                        0 <= i < list@.len() ==> (#[trigger] list@[i])@ == value_tree(source[i]),
            {
                assert(value_tree(value)->Array_0[it.index() as int] == value_tree(item));
                list.push(json_from_value(item));
            }
            let json: Json = Json::Array(list);
            assert(json@->Array_0 =~= value_tree(value)->Array_0);
            json
        }
        Layer::Object(members) => {
            let mut list: Vec<(String, Json)> = Vec::new();
            let ghost source = members@;
            for member in it: members
                invariant
                    it.seq() == source,
                    list@.len() == it.index(),
                    value_tree(value) == JsonView::Object(
                        Seq::new(
                            source.len(),
                            |i: int| (source[i].0@, value_tree(source[i].1)),
                        ),
                    ),
                    forall|i: int|
                        0 <= i < list@.len() ==> (#[trigger] list@[i]).0@ == source[i].0@
                            && list@[i].1@ == value_tree(source[i].1),
            {
                assert(value_tree(value)->Object_0[it.index() as int].1 == value_tree(member.1));
                list.push((member.0, json_from_value(member.1)));
            }
            let json: Json = Json::Object(list);
            assert(json@->Object_0 =~= value_tree(value)->Object_0);
            json
        }
    }
}

/// What the views of a parse result are.
pub open spec fn parse_view(result: Result<Json, String>) -> Result<JsonView, Seq<char>> {
    match result {
        Ok(json) => Ok(json@),
        Err(message) => Err(message@),
    }
}

/// Parses a JSON text into a value, or into the parser's message.
pub fn parse_json(text: &str) -> (result: Result<Json, String>)
    ensures
        parse_view(result) == parsed(text@),
{
    match value_from_text(text) {
        Ok(value) => Ok(json_from_value(value)),
        Err(error) => Err(text_of_error(error)),
    }
}

/// What is found under a name is the value of the first member that has it; nothing is
/// found exactly if no member has it.
pub proof fn law_lookup(members: Seq<(Seq<char>, JsonView)>, name: Seq<char>)
    ensures
        match lookup(members, name) {
            Some(value) => exists|i: int|
                0 <= i < members.len() && #[trigger] members[i] == (name, value) && forall|j: int|
                    0 <= j < i ==> (#[trigger] members[j]).0 != name,
            None => forall|i: int| 0 <= i < members.len() ==> (#[trigger] members[i]).0 != name,
        },
    decreases members.len(),
{
    if members.len() > 0 {
        let rest = members.drop_first();
        law_lookup(rest, name);
        if members[0].0 == name {
            assert(members[0] == (name, members[0].1));
        } else {
            match lookup(rest, name) {
                Some(value) => {
                    let i = choose|i: int|
                        0 <= i < rest.len() && #[trigger] rest[i] == (name, value) && forall|j: int|
                            0 <= j < i ==> (#[trigger] rest[j]).0 != name;
                    assert(members[i + 1] == (name, value));
                    assert forall|j: int| 0 <= j < i + 1 implies (#[trigger] members[j]).0 != name by {
                        if j > 0 {
                            assert(rest[j - 1] == members[j]);
                        }
                    }
                },
                None => {
                    assert forall|i: int| 0 <= i < members.len() implies (#[trigger] members[i]).0
                        != name by {
                        if i > 0 {
                            assert(rest[i - 1] == members[i]);
                        }
                    }
                },
            }
        }
    }
}

/// Objects have members, arrays have items and strings have texts, and no other value has
/// any of these.
pub proof fn law_json_kinds(value: JsonView, name: Seq<char>)
    ensures
        value.members() == match value {
            JsonView::Object(members) => Some(members),
            _ => None,
        },
        value.items() == match value {
            JsonView::Array(items) => Some(items),
            _ => None,
        },
        value.text() == match value {
            JsonView::Text(text) => Some(text),
            _ => None,
        },
        value.member(name) is Some ==> value is Object && value.member(name) == lookup(
            value->Object_0,
            name,
        ),
        value is Object ==> value.member(name) == lookup(value->Object_0, name),
        value.member_text(name) == match value.member(name) {
            Some(JsonView::Text(text)) => Some(text),
            _ => None,
        },
{
}

/// Setting a member gives it the value and leaves the others alone: no other name is added
/// or lost, and none moves.
pub proof fn law_with_member(
    members: Seq<(Seq<char>, JsonView)>,
    name: Seq<char>,
    value: JsonView,
)
    ensures
        ({
            let after = JsonView::Object(members).with(name, value)->Object_0;
            &&& JsonView::Object(members).with(name, value) is Object
            &&& lookup(after, name) == Some(value)
            &&& forall|other: Seq<char>|
                other != name ==> #[trigger] lookup(after, other) == lookup(members, other)
            &&& member_names(members).contains(name) ==> member_names(after) == member_names(
                members,
            )
            &&& !member_names(members).contains(name) ==> after == members.push((name, value))
        }),
{
    lemma_with_member(members, name, value);
    lemma_with_member_names(members, name, value);
}

proof fn lemma_with_member_names(
    members: Seq<(Seq<char>, JsonView)>,
    name: Seq<char>,
    value: JsonView,
)
    ensures
        member_names(members).contains(name) ==> member_names(with_member(members, name, value))
            == member_names(members),
        !member_names(members).contains(name) ==> with_member(members, name, value)
            == members.push((name, value)),
    decreases members.len(),
{
    let after = with_member(members, name, value);
    if members.len() == 0 {
        assert(after =~= members.push((name, value)));
    } else if members[0].0 == name {
        assert(member_names(members)[0] == name);
        assert(member_names(after) =~= member_names(members));
    } else {
        let rest = members.drop_first();
        lemma_with_member_names(rest, name, value);
        if member_names(members).contains(name) {
            let i = choose|i: int| 0 <= i < members.len() && member_names(members)[i] == name;
            assert(member_names(rest)[i - 1] == name);
            let changed = with_member(rest, name, value);
            assert(member_names(changed) == member_names(rest));
            assert(member_names(changed).len() == changed.len());
            assert(member_names(rest).len() == rest.len());
            assert forall|k: int| 0 <= k < members.len() implies member_names(after)[k]
                == member_names(members)[k] by {
                if k > 0 {
                    assert(after[k] == changed[k - 1]);
                    assert(member_names(changed)[k - 1] == member_names(rest)[k - 1]);
                }
            }
            assert(member_names(after) =~= member_names(members));
        } else {
            assert(!member_names(rest).contains(name)) by {
                if member_names(rest).contains(name) {
                    let i = choose|i: int| 0 <= i < rest.len() && member_names(rest)[i] == name;
                    assert(member_names(members)[i + 1] == name);
                }
            }
            assert(after =~= members.push((name, value)));
        }
    }
}

/// What a value stands for is of its own kind, and holds what it holds, in its place.
pub proof fn law_json_view(
    flag: bool,
    text: String,
    items: Vec<Json>,
    members: Vec<(String, Json)>,
)
    ensures
        Json::Null@ is Null,
        Json::Bool(flag)@ == JsonView::Bool(flag),
        Json::Text(text)@ == JsonView::Text(text@),
        Json::Array(items)@ is Array,
        Json::Array(items)@->Array_0.len() == items@.len(),
        forall|i: int|
            0 <= i < items@.len() ==> #[trigger] Json::Array(items)@->Array_0[i] == items@[i]@,
        Json::Object(members)@ is Object,
        Json::Object(members)@->Object_0.len() == members@.len(),
        forall|i: int|
            0 <= i < members@.len() ==> #[trigger] Json::Object(members)@->Object_0[i] == (
                members@[i].0@,
                members@[i].1@,
            ),
        member_views(members@) == Json::Object(members)@->Object_0,
        json_views(items@) == Json::Array(items)@->Array_0,
{
    assert(member_views(members@) =~= Json::Object(members)@->Object_0);
    assert(json_views(items@) =~= Json::Array(items)@->Array_0);
}

/// What a result of the parser or a lookup stands for is that result.
pub proof fn law_json_results(value: Json, text: String, found: &Json)
    ensures
        parse_view(Ok(value)) == Ok::<JsonView, Seq<char>>(value@),
        parse_view(Err(text)) == Err::<JsonView, Seq<char>>(text@),
        optional_json(Some(found)) == Some(found@),
        optional_json(None) is None,
{
}

} // verus!
