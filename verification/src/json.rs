//! JSON values as the Notion API sends them, reduced to what is read of them.

use vstd::prelude::*;

use crate::text::same_text;

verus! {

/// A JSON value. A member of an object that is not there reads as nothing, as does any member of
/// a value that is no object.
#[derive(Debug, PartialEq, Eq)]
pub enum Json {
    Null,
    Bool(bool),
    Number(JsonNumber),
    Text(String),
    Array(Vec<Json>),
    /// The members of an object, in the order in which the document's reader yields them.
    Object(Vec<(String, Json)>),
}

/// A JSON number: its decimal text, and its value where it is a whole number of 64 bits without a
/// sign.
#[derive(Debug, PartialEq, Eq)]
pub struct JsonNumber {
    pub text: String,
    pub unsigned: Option<u64>,
}

impl DeepView for Json {
    type V = Json;

    open spec fn deep_view(&self) -> Json {
        *self
    }
}

/// The first of the members that has the given name.
pub open spec fn first_member(members: Seq<(String, Json)>, name: Seq<char>) -> Option<Json>
    decreases members.len(),
{
    if members.len() == 0 {
        None
    } else if members[0].0@ == name {
        Some(members[0].1)
    } else {
        first_member(members.drop_first(), name)
    }
}

/// The member of a value that has the given name.
pub open spec fn member_of(value: Option<Json>, name: Seq<char>) -> Option<Json> {
    match value {
        Some(Json::Object(members)) => first_member(members@, name),
        _ => None,
    }
}

/// The text of a value that is a text.
pub open spec fn text_of(value: Option<Json>) -> Option<Seq<char>> {
    match value {
        Some(Json::Text(text)) => Some(text@),
        _ => None,
    }
}

/// The text of a value that is a text, and the empty text of any other.
pub open spec fn text_or_empty(value: Option<Json>) -> Seq<char> {
    match text_of(value) {
        Some(text) => text,
        None => Seq::empty(),
    }
}

/// The items of a value that is an array.
pub open spec fn items_of(value: Option<Json>) -> Option<Seq<Json>> {
    match value {
        Some(Json::Array(items)) => Some(items@),
        _ => None,
    }
}

/// The first item of a value that is an array.
pub open spec fn first_item(value: Option<Json>) -> Option<Json> {
    match items_of(value) {
        Some(items) if items.len() > 0 => Some(items[0]),
        _ => None,
    }
}

/// Whether a value is the truth value true.
pub open spec fn is_true(value: Option<Json>) -> bool {
    value == Some(Json::Bool(true))
}

/// The value behind an optional reference.
pub open spec fn value_of(value: Option<&Json>) -> Option<Json> {
    match value {
        Some(v) => Some(*v),
        None => None,
    }
}

/// Reads the member of a value that has the given name.
pub fn member<'a>(value: Option<&'a Json>, name: &str) -> (found: Option<&'a Json>)
    ensures
        value_of(found) == member_of(value_of(value), name@),
{
    match value {
        Some(Json::Object(members)) => {
            let mut i: usize = 0;
            assert(members@.skip(0) == members@);
            while i < members.len()
                invariant
                    i <= members@.len(),
                    value_of(value) == Some(Json::Object(*members)),
                    first_member(members@, name@) == first_member(members@.skip(i as int), name@),
                decreases members@.len() - i,
            {
                assert(members@.skip(i as int)[0] == members@[i as int]);
                assert(members@.skip(i as int).drop_first() == members@.skip(i + 1));
                if same_text(members[i].0.as_str(), name) {
                    return Some(&members[i].1);
                }
                i = i + 1;
            }
            None
        },
        _ => None,
    }
}

/// Reads the text of a value that is a text.
pub fn as_text<'a>(value: Option<&'a Json>) -> (found: Option<&'a str>)
    ensures
        match found {
            Some(t) => text_of(value_of(value)) == Some(t@),
            None => text_of(value_of(value)) is None,
        },
{
    match value {
        Some(Json::Text(t)) => Some(t.as_str()),
        _ => None,
    }
}

/// Reads the text of a value that is a text, and the empty text of any other.
pub fn owned_text(value: Option<&Json>) -> (found: String)
    ensures
        found@ == text_or_empty(value_of(value)),
{
    match value {
        Some(Json::Text(t)) => t.clone(),
        _ => String::new(),
    }
}

/// Reads the items of a value that is an array.
pub fn items<'a>(value: Option<&'a Json>) -> (found: Option<&'a Vec<Json>>)
    ensures
        match found {
            Some(list) => items_of(value_of(value)) == Some(list@),
            None => items_of(value_of(value)) is None,
        },
{
    match value {
        Some(Json::Array(list)) => Some(list),
        _ => None,
    }
}

/// Reads the first item of a value that is an array.
pub fn first<'a>(value: Option<&'a Json>) -> (found: Option<&'a Json>)
    ensures
        value_of(found) == first_item(value_of(value)),
{
    match items(value) {
        Some(list) => if list.len() > 0 {
            Some(&list[0])
        } else {
            None
        },
        None => None,
    }
}

/// Reads whether a value is the truth value true.
pub fn truth(value: Option<&Json>) -> (r: bool)
    ensures
        r == is_true(value_of(value)),
{
    match value {
        Some(Json::Bool(b)) => *b,
        _ => false,
    }
}

// ---------------------------------------------------------------------------
// Laws
// ---------------------------------------------------------------------------

/// The member of an object under a name is the first of its members that has the name.
pub proof fn law_member_is_the_first_of_its_name(
    members: Vec<(String, Json)>,
    name: Seq<char>,
    i: int,
)
    requires
        0 <= i < members@.len(),
        members@[i].0@ == name,
        forall|j: int| 0 <= j < i ==> (#[trigger] members@[j]).0@ != name,
    ensures
        member_of(Some(Json::Object(members)), name) == Some(members@[i].1),
{
    lemma_first_member(members@, name, i);
}

proof fn lemma_first_member(members: Seq<(String, Json)>, name: Seq<char>, i: int)
    requires
        0 <= i < members.len(),
        members[i].0@ == name,
        forall|j: int| 0 <= j < i ==> (#[trigger] members[j]).0@ != name,
    ensures
        first_member(members, name) == Some(members[i].1),
    decreases i,
{
    if i > 0 {
        assert(members[0].0@ != name);
        let rest = members.drop_first();
        assert forall|j: int| 0 <= j < i - 1 implies (#[trigger] rest[j]).0@ != name by {
            assert(rest[j] == members[j + 1]);
        }
        lemma_first_member(rest, name, i - 1);
    }
}

proof fn lemma_no_first_member(members: Seq<(String, Json)>, name: Seq<char>)
    requires
        forall|j: int| 0 <= j < members.len() ==> (#[trigger] members[j]).0@ != name,
    ensures
        first_member(members, name) is None,
    decreases members.len(),
{
    if members.len() > 0 {
        assert(members[0].0@ != name);
        let rest = members.drop_first();
        assert forall|j: int| 0 <= j < rest.len() implies (#[trigger] rest[j]).0@ != name by {
            assert(rest[j] == members[j + 1]);
        }
        lemma_no_first_member(rest, name);
    }
}

/// What has no member of a name reads as nothing under it: an object without it, any value that is
/// no object, and a value that is not there.
pub proof fn law_absent_members_read_as_nothing(value: Option<Json>, name: Seq<char>)
    requires
        value matches Some(Json::Object(members)) ==> forall|j: int|
            0 <= j < members@.len() ==> (#[trigger] members@[j]).0@ != name,
    ensures
        member_of(value, name) is None,
{
    if let Some(Json::Object(members)) = value {
        lemma_no_first_member(members@, name);
    }
}

/// A value reads as what it is, whole, and as nothing else.
pub proof fn law_values_read_as_what_they_are(value: Option<Json>)
    ensures
        text_of(value) is Some <==> (value matches Some(Json::Text(_))),
        value matches Some(Json::Text(text)) ==> text_of(value) == Some(text@) && text_or_empty(
            value,
        ) == text@,
        !(value matches Some(Json::Text(_))) ==> text_or_empty(value).len() == 0,
        items_of(value) is Some <==> (value matches Some(Json::Array(_))),
        value matches Some(Json::Array(list)) ==> items_of(value) == Some(list@),
        value matches Some(Json::Array(list)) && list@.len() > 0 ==> first_item(value) == Some(
            value->0->Array_0@[0],
        ),
        first_item(value) is Some ==> (value matches Some(Json::Array(list)) && list@.len() > 0),
        is_true(value) <==> (value matches Some(Json::Bool(b)) && b),
{
}

/// The value behind a reference is the value itself.
pub proof fn law_value_behind_a_reference(value: &Json)
    ensures
        value_of(Some(value)) == Some(*value),
        value_of(None) is None,
{
}

} // verus!
