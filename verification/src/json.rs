//! JSON as plain values: what the readers of transcript records look at.

use vstd::prelude::*;

use crate::text::{option_view, same_text};

verus! {

/// A JSON value. Null, booleans and numbers carry nothing that is read, so they
/// are not told apart.
#[derive(Debug)]
pub enum Json {
    Text(String),
    Array(Vec<Json>),
    Object(Vec<(String, Json)>),
    Other,
}

/// What a JSON value is.
pub enum JsonView {
    Text(Seq<char>),
    Array(Seq<JsonView>),
    Object(Seq<(Seq<char>, JsonView)>),
    Other,
}

impl View for Json {
    type V = JsonView;

    open spec fn view(&self) -> JsonView
        decreases self,
    {
        match *self {
            Json::Text(text) => JsonView::Text(text@),
            Json::Array(items) => JsonView::Array(
                Seq::new(items@.len(), |i: int| if 0 <= i < items@.len() { items@[i]@ } else { JsonView::Other }),
            ),
            Json::Object(entries) => JsonView::Object(
                Seq::new(
                    entries@.len(),
                    |i: int| if 0 <= i < entries@.len() { (entries@[i].0@, entries@[i].1@) } else { (Seq::empty(), JsonView::Other) },
                ),
            ),
            Json::Other => JsonView::Other,
        }
    }
}

/// A value as `serde_json` parses it.
#[verifier::external_type_specification]
#[verifier::external_body]
pub struct ExternalValue(serde_json::Value);

/// What a parsed value holds.
pub uninterp spec fn json_value(value: serde_json::Value) -> JsonView;

/// The value that a text is the JSON form of, or `None` if it is not one.
pub uninterp spec fn json_text(text: Seq<char>) -> Option<JsonView>;

/// `serde_json::from_str` parses a text as one JSON value, or fails. The result
/// depends on the text alone.
#[verifier::external_body]
fn parse_value(text: &str) -> (value: Option<serde_json::Value>)
    ensures
        match value {
            Some(value) => json_text(text@) == Some(json_value(value)),
            None => json_text(text@) is None,
        },
{
    serde_json::from_str(text).ok()
}

/// One level of a parsed value.
enum Shallow {
    Text(String),
    Array(Vec<serde_json::Value>),
    Object(Vec<(String, serde_json::Value)>),
    Other,
}

/// `serde_json::Value` is a string, an array, an object, or one of null, a
/// boolean and a number. Taken apart, a string gives its text, an array its
/// items in order and an object its entries.
#[verifier::external_body]
fn take_apart(value: serde_json::Value) -> (parts: Shallow)
    ensures
        match parts {
            Shallow::Text(text) => json_value(value) == JsonView::Text(text@),
            Shallow::Array(items) => json_value(value) == JsonView::Array(
                items@.map_values(|item: serde_json::Value| json_value(item)),
            ),
            Shallow::Object(entries) => json_value(value) == JsonView::Object(
                entries@.map_values(
                    |entry: (String, serde_json::Value)| (entry.0@, json_value(entry.1)),
                ),
            ),
            Shallow::Other => json_value(value) == JsonView::Other,
        },
{
    match value {
        serde_json::Value::String(text) => Shallow::Text(text),
        serde_json::Value::Array(items) => Shallow::Array(items),
        serde_json::Value::Object(entries) => Shallow::Object(entries.into_iter().collect()),
        serde_json::Value::Null => Shallow::Other,
        serde_json::Value::Bool(_) => Shallow::Other,
        serde_json::Value::Number(_) => Shallow::Other,
    }
}

/// The plain value that a parsed value holds.
fn plain(value: serde_json::Value) -> (json: Json)
    ensures
        json@ == json_value(value),
    decreases json_value(value),
{
    let ghost whole = json_value(value);
    match take_apart(value) {
        Shallow::Text(text) => Json::Text(text),
        Shallow::Array(items) => {
            let ghost all = items@;
            let mut plain_items: Vec<Json> = Vec::new();
            for item in it: items.into_iter()
                invariant
                    it.seq() == all,
                    whole == json_value(value),
                    whole == JsonView::Array(
                        all.map_values(|item: serde_json::Value| json_value(item)),
                    ),
                    plain_items@.len() == it.index(),
                    forall|i: int|
                        0 <= i < it.index() ==> (#[trigger] plain_items@[i])@ == json_value(all[i]),
            {
                proof {
                    let views = whole->Array_0;
                    assert(views[it.index() as int] == json_value(item));
                    assert(decreases_to!(whole => views));
                    assert(decreases_to!(views => views[it.index() as int]));
                }
                plain_items.push(plain(item));
            }
            let json = Json::Array(plain_items);
            assert(json@->Array_0 == whole->Array_0);
            json
        },
        Shallow::Object(entries) => {
            let ghost all = entries@;
            let mut plain_entries: Vec<(String, Json)> = Vec::new();
            for entry in it: entries.into_iter()
                invariant
                    it.seq() == all,
                    whole == json_value(value),
                    whole == JsonView::Object(
                        all.map_values(
                            |entry: (String, serde_json::Value)| (entry.0@, json_value(entry.1)),
                        ),
                    ),
                    plain_entries@.len() == it.index(),
                    forall|i: int|
                        0 <= i < it.index() ==> (#[trigger] plain_entries@[i]).0@ == all[i].0@
                            && plain_entries@[i].1@ == json_value(all[i].1),
            {
                let (key, item) = entry;
                proof {
                    let views = whole->Object_0;
                    let at = it.index() as int;
                    assert(views[at] == (key@, json_value(item)));
                    assert(decreases_to!(whole => views));
                    assert(decreases_to!(views => views[at]));
                    assert(decreases_to!(views[at] => views[at].1));
                }
                plain_entries.push((key, plain(item)));
            }
            let json = Json::Object(plain_entries);
            assert(json@->Object_0 == whole->Object_0);
            json
        },
        Shallow::Other => Json::Other,
    }
}

/// Parse a text as one JSON value.
pub fn parse_json(text: &str) -> (json: Option<Json>)
    ensures
        optional(json) == json_text(text@),
{
    match parse_value(text) {
        Some(value) => Some(plain(value)),
        None => None,
    }
}

/// The view of an optional value.
pub open spec fn optional(json: Option<Json>) -> Option<JsonView> {
    match json {
        Some(json) => Some(json@),
        None => None,
    }
}

/// The view of an optional reference to a value.
pub open spec fn optional_ref(json: Option<&Json>) -> Option<JsonView> {
    match json {
        Some(json) => Some(json@),
        None => None,
    }
}

// Reading values

/// The value of the first entry with the given key.
pub open spec fn entry(entries: Seq<(Seq<char>, JsonView)>, key: Seq<char>) -> Option<JsonView>
    decreases entries.len(),
{
    if entries.len() == 0 {
        None
    } else if entries[0].0 == key {
        Some(entries[0].1)
    } else {
        entry(entries.drop_first(), key)
    }
}

/// A field of an object. Other values have no fields.
pub open spec fn field(json: JsonView, key: Seq<char>) -> Option<JsonView> {
    match json {
        JsonView::Object(entries) => entry(entries, key),
        _ => None,
    }
}

/// The text of a string. Other values have no text.
pub open spec fn text_of(json: JsonView) -> Option<Seq<char>> {
    match json {
        JsonView::Text(text) => Some(text),
        _ => None,
    }
}

/// The text of a field that holds a string.
pub open spec fn text_field(json: JsonView, key: Seq<char>) -> Option<Seq<char>> {
    match field(json, key) {
        Some(value) => text_of(value),
        None => None,
    }
}

/// The view of an object has an entry for each of its entries.
proof fn lemma_object(json: Json)
    requires
        json is Object,
    ensures
        json@ is Object,
        json@->Object_0.len() == json->Object_0@.len(),
        forall|k: int|
            0 <= k < json->Object_0@.len() ==> #[trigger] json@->Object_0[k] == (
                json->Object_0@[k].0@,
                json->Object_0@[k].1@,
            ),
{
    reveal_with_fuel(<Json as View>::view, 2);
}

impl Json {
    /// A field of an object. Other values have no fields.
    pub fn get(&self, key: &str) -> (value: Option<&Json>)
        ensures
            optional_ref(value) == field(self@, key@),
    {
        match self {
            Json::Object(entries) => {
                let ghost all = self@->Object_0;
                proof {
                    lemma_object(*self);
                }
                let mut i: usize = 0;
                assert(all.skip(0) == all);
                while i < entries.len()
                    invariant
                        i <= entries@.len() == all.len(),
                        self@ == JsonView::Object(all),
                        forall|k: int|
                            0 <= k < all.len() ==> #[trigger] all[k] == (
                                entries@[k].0@,
                                entries@[k].1@,
                            ),
                        entry(all, key@) == entry(all.skip(i as int), key@),
                    decreases entries@.len() - i,
                {
                    assert(all.skip(i as int)[0] == all[i as int]);
                    assert(all.skip(i as int).drop_first() == all.skip(i + 1));
                    if same_text(entries[i].0.as_str(), key) {
                        return Some(&entries[i].1);
                    }
                    i = i + 1;
                }
                None
            },
            _ => None,
        }
    }

    /// The text of a string. Other values have no text.
    pub fn as_str(&self) -> (text: Option<&str>)
        ensures
            option_view(text) == text_of(self@),
    {
        match self {
            Json::Text(text) => Some(text.as_str()),
            _ => None,
        }
    }

    /// The text of a field that holds a string.
    pub fn text_at(&self, key: &str) -> (text: Option<&str>)
        ensures
            option_view(text) == text_field(self@, key@),
    {
        match self.get(key) {
            Some(value) => value.as_str(),
            None => None,
        }
    }
}

// Laws

/// The first entry with a key is the field of that name, whatever it is, and its text if
/// it is a string.
pub proof fn law_a_field_is_its_first_entry(
    entries: Seq<(Seq<char>, JsonView)>,
    k: int,
    key: Seq<char>,
)
    requires
        0 <= k < entries.len(),
        entries[k].0 == key,
        forall|i: int| 0 <= i < k ==> (#[trigger] entries[i]).0 != key,
    ensures
        field(JsonView::Object(entries), key) == Some(entries[k].1),
        entries[k].1 matches JsonView::Text(text) ==> text_field(JsonView::Object(entries), key)
            == Some(text),
        !(entries[k].1 is Text) ==> text_field(JsonView::Object(entries), key) is None,
    decreases k,
{
    if k > 0 {
        let rest = entries.drop_first();
        assert(entries[0].0 != key);
        assert forall|i: int| 0 <= i < k - 1 implies (#[trigger] rest[i]).0 != key by {
            assert(rest[i] == entries[i + 1]);
        }
        law_a_field_is_its_first_entry(rest, k - 1, key);
    }
}

/// Without an entry of that name there is no field, and values other than objects have
/// none.
pub proof fn law_other_values_have_no_field(
    json: JsonView,
    entries: Seq<(Seq<char>, JsonView)>,
    key: Seq<char>,
)
    requires
        json is Object ==> json == JsonView::Object(entries),
        forall|i: int| 0 <= i < entries.len() ==> (#[trigger] entries[i]).0 != key,
    ensures
        field(json, key) is None,
        text_field(json, key) is None,
    decreases entries.len(),
{
    if json is Object && entries.len() > 0 {
        let rest = entries.drop_first();
        assert(entries[0].0 != key);
        assert forall|i: int| 0 <= i < rest.len() implies (#[trigger] rest[i]).0 != key by {
            assert(rest[i] == entries[i + 1]);
        }
        law_other_values_have_no_field(JsonView::Object(rest), rest, key);
    }
}

} // verus!
