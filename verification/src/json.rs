//! JSON documents of any shape, and how to look into them.

use crate::text;
use crate::text::same_text;
use crate::textmap;
use vstd::prelude::*;

verus! {

/// A JSON value. A number is kept as it is written; an object keeps its
/// members in the order in which the parser gives them.
#[derive(Debug)]
pub enum Json {
    Null,
    Bool(bool),
    Number(String),
    Text(String),
    Array(Vec<Json>),
    Object(Vec<(String, Json)>),
}

/// What a JSON value says.
pub enum JsonView {
    Null,
    Bool(bool),
    Number(Seq<char>),
    Text(Seq<char>),
    Array(Seq<JsonView>),
    Object(Seq<(Seq<char>, JsonView)>),
}

/// What `json` says.
pub open spec fn json_view(json: Json) -> JsonView
    decreases json,
{
    match json {
        Json::Null => JsonView::Null,
        Json::Bool(b) => JsonView::Bool(b),
        Json::Number(n) => JsonView::Number(n@),
        Json::Text(t) => JsonView::Text(t@),
        Json::Array(items) => JsonView::Array(
            Seq::new(
                items@.len(),
                |i: int|
                    if 0 <= i < items@.len() {
                        json_view(items@[i])
                    } else {
                        JsonView::Null
                    },
            ),
        ),
        Json::Object(members) => JsonView::Object(
            Seq::new(
                members@.len(),
                |i: int|
                    if 0 <= i < members@.len() {
                        (members@[i].0@, json_view(members@[i].1))
                    } else {
                        (Seq::empty(), JsonView::Null)
                    },
            ),
        ),
    }
}

impl View for Json {
    type V = JsonView;

    open spec fn view(&self) -> JsonView {
        json_view(*self)
    }
}

/// The value of the first member named `key`.
pub open spec fn find_member(members: Seq<(Seq<char>, JsonView)>, key: Seq<char>) -> Option<
    JsonView,
>
    decreases members.len(),
{
    if members.len() == 0 {
        None
    } else if members[0].0 == key {
        Some(members[0].1)
    } else {
        find_member(members.skip(1), key)
    }
}

impl JsonView {
    /// The member named `key`, where this is an object that has one.
    pub open spec fn member(self, key: Seq<char>) -> Option<JsonView> {
        match self {
            JsonView::Object(members) => find_member(members, key),
            _ => None,
        }
    }

    /// The text, where this is one.
    pub open spec fn text(self) -> Option<Seq<char>> {
        match self {
            JsonView::Text(t) => Some(t),
            _ => None,
        }
    }

    /// The truth value, where this is one.
    pub open spec fn truth(self) -> Option<bool> {
        match self {
            JsonView::Bool(b) => Some(b),
            _ => None,
        }
    }

    /// The elements, where this is an array.
    pub open spec fn elements(self) -> Option<Seq<JsonView>> {
        match self {
            JsonView::Array(items) => Some(items),
            _ => None,
        }
    }

    /// The values of the members, where this is an object.
    pub open spec fn member_values(self) -> Option<Seq<JsonView>> {
        match self {
            JsonView::Object(members) => Some(
                members.map_values(|m: (Seq<char>, JsonView)| m.1),
            ),
            _ => None,
        }
    }
}

/// In every object, here and further in, the members stand in the order of
/// their names, and no name occurs twice.
pub open spec fn names_ascend(json: JsonView) -> bool
    decreases json,
{
    match json {
        JsonView::Array(items) => forall|i: int|
            0 <= i < items.len() ==> names_ascend(#[trigger] items[i]),
        JsonView::Object(members) => {
            &&& textmap::ascending(members)
            &&& forall|i: int| 0 <= i < members.len() ==> names_ascend((#[trigger] members[i]).1)
        },
        _ => true,
    }
}

/// Where no name occurs twice, an object has the members that it lists.
pub proof fn law_members_are_found(members: Seq<(Seq<char>, JsonView)>, i: int)
    requires
        textmap::ascending(members),
        0 <= i < members.len(),
    ensures
        find_member(members, members[i].0) == Some(members[i].1),
    decreases members.len(),
{
    if i > 0 {
        let rest = members.skip(1);
        assert forall|a: int, b: int| 0 <= a < b < rest.len() implies text::lex_lt(
            (#[trigger] rest[a]).0,
            (#[trigger] rest[b]).0,
        ) by {
            assert(rest[a] == members[a + 1]);
            assert(rest[b] == members[b + 1]);
        }
        text::lemma_lex_asymmetric(members[0].0, members[i].0);
        assert(rest[i - 1] == members[i]);
        law_members_are_found(rest, i - 1);
    }
}

/// What `json` says, if there is one.
pub open spec fn said(json: Option<&Json>) -> Option<JsonView> {
    match json {
        Some(j) => Some(j@),
        None => None,
    }
}

/// What each of a list of JSON values says.
pub open spec fn all_said(items: Seq<Json>) -> Seq<JsonView> {
    items.map_values(|j: Json| j@)
}

impl Json {
    /// The member named `key`, where this is an object that has one.
    pub fn member(&self, key: &str) -> (value: Option<&Json>)
        ensures
            said(value) == self@.member(key@),
    {
        match self {
            Json::Object(members) => {
                let ghost all = self@->Object_0;
                assert(all.len() == members@.len());
                assert(all.skip(0) =~= all);
                let mut i: usize = 0;
                while i < members.len()
                    invariant
                        i <= members.len(),
                        *self == Json::Object(*members),
                        self@ == JsonView::Object(all),
                        all.len() == members@.len(),
                        find_member(all, key@) == find_member(all.skip(i as int), key@),
                    decreases members.len() - i,
                {
                    assert(all[i as int] == (members@[i as int].0@, members@[i as int].1@));
                    assert(all.skip(i as int)[0] == all[i as int]);
                    assert(all.skip(i as int).skip(1) =~= all.skip(i + 1));
                    if same_text(members[i].0.as_str(), key) {
                        return Some(&members[i].1);
                    }
                    i += 1;
                }
                assert(all.skip(i as int).len() == 0);
                None
            },
            _ => None,
        }
    }

    /// The text, where this is one.
    pub fn as_text(&self) -> (value: Option<&String>)
        ensures
            match value {
                Some(t) => self@.text() == Some(t@),
                None => self@.text() is None,
            },
    {
        match self {
            Json::Text(t) => Some(t),
            _ => None,
        }
    }

    /// The truth value, where this is one.
    pub fn as_bool(&self) -> (value: Option<bool>)
        ensures
            value == self@.truth(),
    {
        match self {
            Json::Bool(b) => Some(*b),
            _ => None,
        }
    }

    /// The elements, where this is an array.
    pub fn as_array(&self) -> (value: Option<&Vec<Json>>)
        ensures
            match value {
                Some(items) => self@.elements() == Some(all_said(items@)),
                None => self@.elements() is None,
            },
    {
        match self {
            Json::Array(items) => {
                assert(self@->Array_0 =~= all_said(items@));
                Some(items)
            },
            _ => None,
        }
    }

    /// The same value again.
    pub fn copy(&self) -> (copy: Json)
        ensures
            copy@ == self@,
        decreases self,
    {
        match self {
            Json::Null => Json::Null,
            Json::Bool(b) => Json::Bool(*b),
            Json::Number(n) => Json::Number(n.clone()),
            Json::Text(t) => Json::Text(t.clone()),
            Json::Array(items) => {
                let mut copies: Vec<Json> = Vec::new();
                let mut i: usize = 0;
                while i < items.len()
                    invariant
                        i <= items.len(),
                        *self == Json::Array(*items),
                        copies.len() == i,
                        forall|j: int|
                            0 <= j < i ==> (#[trigger] copies@[j])@ == json_view(items@[j]),
                    decreases items.len() - i,
                {
                    assert(decreases_to!(*self => self->Array_0));
                    assert(decreases_to!(items@ => items@[i as int]));
                    let copy = items[i].copy();
                    copies.push(copy);
                    i += 1;
                }
                let copy = Json::Array(copies);
                assert(copy@->Array_0 =~= self@->Array_0);
                copy
            },
            Json::Object(members) => {
                let mut copies: Vec<(String, Json)> = Vec::new();
                let mut i: usize = 0;
                while i < members.len()
                    invariant
                        i <= members.len(),
                        *self == Json::Object(*members),
                        copies.len() == i,
                        forall|j: int|
                            0 <= j < i ==> (#[trigger] copies@[j]).0@ == members@[j].0@
                                && copies@[j].1@ == json_view(members@[j].1),
                    decreases members.len() - i,
                {
                    assert(decreases_to!(*self => self->Object_0));
                    assert(decreases_to!(members@ => members@[i as int]));
                    assert(decreases_to!(members@[i as int] => members@[i as int].1));
                    let copy = members[i].1.copy();
                    copies.push((members[i].0.clone(), copy));
                    i += 1;
                }
                let copy = Json::Object(copies);
                assert(copy@->Object_0 =~= self@->Object_0);
                copy
            },
        }
    }
}

/// A JSON value as the parser gives it.
#[verifier::external_type_specification]
#[verifier::external_body]
pub struct ExJsonValue(serde_json::Value);

/// Turns a parsed value into a `Json`, variant by variant and in the order
/// in which `serde_json` lists elements and members. It only serves
/// `parse`, whose contract speaks for both.
#[verifier::external_body]
fn plain(value: serde_json::Value) -> Json {
    match value {
        serde_json::Value::Null => Json::Null,
        serde_json::Value::Bool(b) => Json::Bool(b),
        serde_json::Value::Number(n) => Json::Number(n.to_string()),
        serde_json::Value::String(t) => Json::Text(t),
        serde_json::Value::Array(items) => Json::Array(items.into_iter().map(plain).collect()),
        serde_json::Value::Object(members) => {
            Json::Object(members.into_iter().map(|(k, v)| (k, plain(v))).collect())
        },
    }
}

/// What the document in `bytes` says, or `None` where `serde_json` finds
/// that they are not one JSON document.
pub uninterp spec fn document(bytes: Seq<u8>) -> Option<JsonView>;

/// Parses a JSON document. Calls `serde_json::from_slice`; the contract
/// claims that the bytes alone decide what comes back, and that the members
/// of every object come in the order of their names, each name once.
#[verifier::external_body]
fn parse(bytes: &[u8]) -> (json: Option<Json>)
    ensures
        (match json {
            Some(j) => Some(j@),
            None => None,
        }) == document(bytes@),
        json matches Some(j) ==> names_ascend(j@),
{
    serde_json::from_slice(bytes).ok().map(plain)
}

impl Json {
    /// The document in `bytes`, if they are one.
    pub fn from_bytes(bytes: &[u8]) -> (json: Option<Json>)
        ensures
            match json {
                Some(j) => document(bytes@) == Some(j@),
                None => document(bytes@) is None,
            },
            json matches Some(j) ==> names_ascend(j@),
    {
        parse(bytes)
    }
}

/// What is said of a JSON value is the value itself: the same kind, and
/// every element and every member in its place.
pub proof fn law_a_value_says_itself(json: Json)
    ensures
        json is Null <==> json@ is Null,
        json is Bool <==> json@ is Bool,
        json is Number <==> json@ is Number,
        json is Text <==> json@ is Text,
        json is Array <==> json@ is Array,
        json is Object <==> json@ is Object,
        json is Bool ==> json@->Bool_0 == json->Bool_0,
        json is Number ==> json@->Number_0 == json->Number_0@,
        json is Text ==> json@->Text_0 == json->Text_0@,
        json is Array ==> json@->Array_0.len() == json->Array_0@.len(),
        json is Array ==> forall|i: int|
            0 <= i < json->Array_0@.len() ==> #[trigger] json@->Array_0[i] == json->Array_0@[i]@,
        json is Object ==> json@->Object_0.len() == json->Object_0@.len(),
        json is Object ==> forall|i: int|
            0 <= i < json->Object_0@.len() ==> (#[trigger] json@->Object_0[i]).0
                == json->Object_0@[i].0@ && json@->Object_0[i].1 == json->Object_0@[i].1@,
{
}

/// The member of a name is the first one with that name, and there is none
/// exactly if no member has it.
pub proof fn law_the_first_member_counts(
    members: Seq<(Seq<char>, JsonView)>,
    key: Seq<char>,
    i: int,
)
    ensures
        0 <= i < members.len() && members[i].0 == key && (forall|j: int|
            0 <= j < i ==> (#[trigger] members[j]).0 != key) ==> find_member(members, key) == Some(
            members[i].1,
        ),
        (forall|j: int| 0 <= j < members.len() ==> (#[trigger] members[j]).0 != key) ==> find_member(
            members,
            key,
        ) is None,
    decreases members.len(),
{
    if members.len() > 0 && members[0].0 != key {
        let rest = members.skip(1);
        assert forall|j: int| 0 <= j < rest.len() implies #[trigger] rest[j] == members[j + 1] by {}
        law_the_first_member_counts(rest, key, i - 1);
        if 0 <= i < members.len() && members[i].0 == key && (forall|j: int|
            0 <= j < i ==> (#[trigger] members[j]).0 != key) {
            assert(i > 0);
            assert(rest[i - 1] == members[i]);
            assert forall|j: int| 0 <= j < i - 1 implies (#[trigger] rest[j]).0 != key by {
                assert(members[j + 1].0 != key);
            }
        }
        if forall|j: int| 0 <= j < members.len() ==> (#[trigger] members[j]).0 != key {
            assert forall|j: int| 0 <= j < rest.len() implies (#[trigger] rest[j]).0 != key by {
                assert(members[j + 1].0 != key);
            }
        }
    }
}

/// A value is looked into by its kind: members in an object, a text in a
/// text, a truth value in a truth value and elements in an array, and
/// nothing of that anywhere else.
pub proof fn law_values_are_looked_into_by_kind(json: JsonView, key: Seq<char>)
    ensures
        json is Object ==> json.member(key) == find_member(json->Object_0, key),
        !(json is Object) ==> json.member(key) is None && json.member_values() is None,
        json is Text ==> json.text() == Some(json->Text_0),
        !(json is Text) ==> json.text() is None,
        json is Bool ==> json.truth() == Some(json->Bool_0),
        !(json is Bool) ==> json.truth() is None,
        json is Array ==> json.elements() == Some(json->Array_0),
        !(json is Array) ==> json.elements() is None,
        json is Object ==> {
            &&& json.member_values() is Some
            &&& json.member_values()->0.len() == json->Object_0.len()
            &&& forall|i: int|
                0 <= i < json->Object_0.len() ==> #[trigger] json.member_values()->0[i]
                    == json->Object_0[i].1
        },
{
}

/// Lists of values say what the values say, one for one.
pub proof fn law_values_one_for_one(items: Seq<Json>, found: Option<&Json>)
    ensures
        all_said(items).len() == items.len(),
        forall|i: int| 0 <= i < items.len() ==> #[trigger] all_said(items)[i] == items[i]@,
        found is None <==> said(found) is None,
        found matches Some(j) ==> said(found) == Some(j@),
{
}

} // verus!
