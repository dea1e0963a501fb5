//! JSON documents as plain data.
//!
//! Tool results and the messages that pass through the stdio bridge are
//! JSON. This module holds them as a tree of plain values, so that what a
//! function returns or rewrites can be stated exactly. Reading and writing
//! JSON text is left to the embedding program.

use crate::keyed::{find_key, owned_keys, pair_keys, position};
use vstd::prelude::*;

verus! {

/// A JSON number.
#[derive(Clone, Copy, Debug, PartialEq, Eq)]
pub enum Number {
    /// A non-negative integer.
    PosInt(u64),
    /// A negative integer.
    NegInt(i64),
    /// Any other number, kept as the 64 bits of its double-precision
    /// encoding so that it passes through unchanged.
    Real(u64),
}

/// A JSON document.
///
/// An object keeps its members in a list. A member is found by the first
/// entry that carries its key; documents that come from a JSON parser hold
/// each key once.
#[derive(Debug, PartialEq, Eq)]
pub enum Json {
    Null,
    Bool(bool),
    Number(Number),
    Text(String),
    List(Vec<Json>),
    Object(Vec<(String, Json)>),
}

/// A JSON document as a mathematical value.
pub enum JsonValue {
    Null,
    Bool(bool),
    Number(Number),
    Text(Seq<char>),
    List(Seq<JsonValue>),
    Object(Seq<(Seq<char>, JsonValue)>),
}

/// The mathematical value of a document.
pub open spec fn value_of(json: Json) -> JsonValue
    decreases json,
{
    match json {
        Json::Null => JsonValue::Null,
        Json::Bool(b) => JsonValue::Bool(b),
        Json::Number(n) => JsonValue::Number(n),
        Json::Text(s) => JsonValue::Text(s@),
        Json::List(items) => JsonValue::List(
            Seq::new(
                items@.len(),
                |i: int|
                    if 0 <= i < items@.len() {
                        value_of(items@[i])
                    } else {
                        JsonValue::Null
                    },
            ),
        ),
        Json::Object(members) => JsonValue::Object(
            Seq::new(
                members@.len(),
                |i: int|
                    if 0 <= i < members@.len() {
                        (members@[i].0@, value_of(members@[i].1))
                    } else {
                        (Seq::empty(), JsonValue::Null)
                    },
            ),
        ),
    }
}

impl View for Json {
    type V = JsonValue;

    open spec fn view(&self) -> JsonValue {
        value_of(*self)
    }
}

/// The members of an object as mathematical values.
pub open spec fn members_view(members: Seq<(String, Json)>) -> Seq<(Seq<char>, JsonValue)> {
    Seq::new(members.len(), |i: int| (members[i].0@, members[i].1@))
}

/// The items of a list as mathematical values.
pub open spec fn items_view(items: Seq<Json>) -> Seq<JsonValue> {
    Seq::new(items.len(), |i: int| items[i]@)
}

/// The view of an object is the object of its members' views.
pub proof fn lemma_object_view(members: Vec<(String, Json)>)
    ensures
        Json::Object(members)@ == JsonValue::Object(members_view(members@)),
{
    assert(Json::Object(members)@->Object_0 =~= members_view(members@));
}

/// The view of a list is the list of its items' views.
pub proof fn lemma_list_view(items: Vec<Json>)
    ensures
        Json::List(items)@ == JsonValue::List(items_view(items@)),
{
    assert(Json::List(items)@->List_0 =~= items_view(items@));
}

/// The value of the first member that carries `key`.
pub open spec fn lookup(members: Seq<(Seq<char>, JsonValue)>, key: Seq<char>) -> Option<
    JsonValue,
> {
    let at = position(pair_keys(members), key);
    if at < members.len() {
        Some(members[at].1)
    } else {
        None
    }
}

impl Json {
    /// A text value that holds `text`.
    pub fn text(text: &str) -> (json: Json)
        ensures
            json@ == JsonValue::Text(text@),
    {
        Json::Text(text.to_owned())
    }

    /// A number value that holds the non-negative integer `n`.
    pub fn unsigned(n: u64) -> (json: Json)
        ensures
            json@ == JsonValue::Number(Number::PosInt(n)),
    {
        Json::Number(Number::PosInt(n))
    }

    /// An object with the given members.
    pub fn object(members: Vec<(String, Json)>) -> (json: Json)
        ensures
            json@ == JsonValue::Object(members_view(members@)),
    {
        proof {
            lemma_object_view(members);
        }
        Json::Object(members)
    }

    /// A list with the given items.
    pub fn list(items: Vec<Json>) -> (json: Json)
        ensures
            json@ == JsonValue::List(items_view(items@)),
    {
        proof {
            lemma_list_view(items);
        }
        Json::List(items)
    }

    /// The text of a text value.
    pub fn as_text(&self) -> (text: Option<&String>)
        ensures
            match text {
                Some(s) => *self == Json::Text(*s) && self@ == JsonValue::Text(s@),
                None => !(self is Text) && !(self@ is Text),
            },
    {
        match self {
            Json::Text(s) => Some(s),
            _ => None,
        }
    }

    /// The members of an object.
    pub fn as_object(&self) -> (members: Option<&Vec<(String, Json)>>)
        ensures
            match members {
                Some(m) => *self == Json::Object(*m) && self@ == JsonValue::Object(
                    members_view(m@),
                ),
                None => !(self is Object) && !(self@ is Object),
            },
    {
        match self {
            Json::Object(m) => {
                proof {
                    lemma_object_view(*m);
                }
                Some(m)
            },
            _ => None,
        }
    }
}

impl Clone for Json {
    /// A copy of the document.
    fn clone(&self) -> (copy: Json)
        ensures
            copy@ == self@,
        decreases self,
    {
        match self {
            Json::Null => Json::Null,
            Json::Bool(b) => Json::Bool(*b),
            Json::Number(n) => Json::Number(*n),
            Json::Text(s) => Json::Text(s.clone()),
            Json::List(items) => {
                let mut copies: Vec<Json> = Vec::new();
                let mut i: usize = 0;
                while i < items.len()
                    invariant
                        0 <= i <= items.len(),
                        *self == Json::List(*items),
                        copies.len() == i,
                        forall|j: int| 0 <= j < i ==> (#[trigger] copies[j])@ == items[j]@,
                    decreases items.len() - i,
                {
                    assert(decreases_to!(*self => self->List_0));
                    assert(decreases_to!(*items => items[i as int]));
                    copies.push(items[i].clone());
                    i = i + 1;
                }
                proof {
                    lemma_list_view(*items);
                    lemma_list_view(copies);
                    assert(items_view(copies@) =~= items_view(items@));
                }
                Json::List(copies)
            },
            Json::Object(members) => {
                let mut copies: Vec<(String, Json)> = Vec::new();
                let mut i: usize = 0;
                while i < members.len()
                    invariant
                        0 <= i <= members.len(),
                        *self == Json::Object(*members),
                        copies.len() == i,
                        forall|j: int|
                            0 <= j < i ==> (#[trigger] copies[j]).0@ == members[j].0@
                                && copies[j].1@ == members[j].1@,
                    decreases members.len() - i,
                {
                    assert(decreases_to!(*self => self->Object_0));
                    assert(decreases_to!(*members => members[i as int]));
                    assert(decreases_to!(members[i as int] => members[i as int].1));
                    copies.push((members[i].0.clone(), members[i].1.clone()));
                    i = i + 1;
                }
                proof {
                    lemma_object_view(*members);
                    lemma_object_view(copies);
                    assert(members_view(copies@) =~= members_view(members@));
                }
                Json::Object(copies)
            },
        }
    }
}

/// A member of an object.
pub fn member(key: &str, value: Json) -> (pair: (String, Json))
    ensures
        pair.0@ == key@,
        pair.1 == value,
{
    (key.to_owned(), value)
}

/// The index of the first member that carries `key`.
pub fn find_member(members: &Vec<(String, Json)>, key: &str) -> (found: Option<usize>)
    ensures
        match found {
            Some(at) => at < members.len() && at == position(
                pair_keys(members_view(members@)),
                key@,
            ) && lookup(members_view(members@), key@) == Some(members@[at as int].1@),
            None => position(pair_keys(members_view(members@)), key@) == members.len() && lookup(
                members_view(members@),
                key@,
            ) is None,
        },
{
    assert(pair_keys(members_view(members@)) =~= owned_keys(members@));
    find_key(members, key)
}

} // verus!
