//! JSON values.

use crate::refs::text_of;
use crate::text::{hex_char, same_text};
use vstd::prelude::*;
use vstd::string::*;

verus! {

/// A character within a JSON string.
pub open spec fn json_escape(c: char) -> Seq<char> {
    if c == '"' {
        seq!['\\', '"']
    } else if c == '\\' {
        seq!['\\', '\\']
    } else if c == '\u{8}' {
        seq!['\\', 'b']
    } else if c == '\t' {
        seq!['\\', 't']
    } else if c == '\n' {
        seq!['\\', 'n']
    } else if c == '\u{c}' {
        seq!['\\', 'f']
    } else if c == '\r' {
        seq!['\\', 'r']
    } else if (c as nat) < 32 {
        seq!['\\', 'u', '0', '0', hex_char(c as nat / 16), hex_char(c as nat % 16)]
    } else {
        seq![c]
    }
}

/// A text within a JSON string.
pub open spec fn json_escaped(s: Seq<char>) -> Seq<char>
    decreases s.len(),
{
    if s.len() == 0 {
        Seq::empty()
    } else {
        json_escaped(s.drop_last()) + json_escape(s.last())
    }
}

/// A text as a JSON string.
pub open spec fn json_string(s: Seq<char>) -> Seq<char> {
    seq!['"'] + json_escaped(s) + seq!['"']
}

/// A JSON value.
#[verifier::ext_equal]
pub enum JsonView {
    /// `null`.
    Null,
    /// `true` or `false`.
    Bool(bool),
    /// A number, as it is written.
    Number(Seq<char>),
    /// A string.
    Text(Seq<char>),
    /// An array.
    List(Seq<JsonView>),
    /// An object, its fields in order.
    Record(Seq<(Seq<char>, JsonView)>),
}

/// JSON values with commas between them.
pub open spec fn items_text(items: Seq<JsonView>) -> Seq<char>
    decreases items,
{
    if items.len() == 0 {
        Seq::empty()
    } else if items.len() == 1 {
        json_text(items[0])
    } else {
        items_text(items.drop_last()) + seq![','] + json_text(items.last())
    }
}

/// Fields of an object with commas between them.
pub open spec fn fields_text(fields: Seq<(Seq<char>, JsonView)>) -> Seq<char>
    decreases fields,
{
    if fields.len() == 0 {
        Seq::empty()
    } else if fields.len() == 1 {
        json_string(fields[0].0) + seq![':'] + json_text(fields[0].1)
    } else {
        fields_text(fields.drop_last()) + seq![','] + json_string(fields.last().0) + seq![':']
            + json_text(fields.last().1)
    }
}

/// A JSON value as text, without white space.
pub open spec fn json_text(v: JsonView) -> Seq<char>
    decreases v,
{
    match v {
        JsonView::Null => "null"@,
        JsonView::Bool(true) => "true"@,
        JsonView::Bool(false) => "false"@,
        JsonView::Number(s) => s,
        JsonView::Text(s) => json_string(s),
        JsonView::List(items) => seq!['['] + items_text(items) + seq![']'],
        JsonView::Record(fields) => seq!['{'] + fields_text(fields) + seq!['}'],
    }
}

/// Whether `a` comes before `b` in the dictionary.
pub open spec fn text_before(a: Seq<char>, b: Seq<char>) -> bool
    decreases a.len(),
{
    if b.len() == 0 {
        false
    } else if a.len() == 0 {
        true
    } else if a[0] != b[0] {
        a[0] < b[0]
    } else {
        text_before(a.drop_first(), b.drop_first())
    }
}

/// Whether each key of an object comes before those behind it.
pub open spec fn keys_in_order(fields: Seq<(Seq<char>, JsonView)>) -> bool {
    forall|i: int, j: int|
        #![trigger fields[i], fields[j]]
        0 <= i < j < fields.len() ==> text_before(fields[i].0, fields[j].0)
}

/// Whether a value holds no numbers, and all of its objects have their keys in order.
pub open spec fn plain_values(v: JsonView) -> bool
    decreases v,
{
    match v {
        JsonView::Number(_) => false,
        JsonView::List(items) => forall|i: int| 0 <= i < items.len() ==> plain_values(#[trigger] items[i]),
        JsonView::Record(fields) => keys_in_order(fields) && forall|i: int|
            0 <= i < fields.len() ==> plain_values((#[trigger] fields[i]).1),
        _ => true,
    }
}

/// The field of a record; `null` when there is none.
pub open spec fn field_at(fields: Seq<(Seq<char>, JsonView)>, key: Seq<char>) -> JsonView
    decreases fields.len(),
{
    if fields.len() == 0 {
        JsonView::Null
    } else if fields[0].0 == key {
        fields[0].1
    } else {
        field_at(fields.drop_first(), key)
    }
}

/// What a value has under a key; `null` when it has nothing there or is no object.
pub open spec fn value_at(v: JsonView, key: Seq<char>) -> JsonView {
    match v {
        JsonView::Record(fields) => field_at(fields, key),
        _ => JsonView::Null,
    }
}

/// The string that a value has under a key, if it has one there.
pub open spec fn text_at(v: JsonView, key: Seq<char>) -> Option<Seq<char>> {
    match value_at(v, key) {
        JsonView::Text(s) => Some(s),
        _ => None,
    }
}

/// A value of an object is found under its key, where no field before it has the same.
pub proof fn field_is_found(fields: Seq<(Seq<char>, JsonView)>, i: int)
    requires
        0 <= i < fields.len(),
        forall|k: int| 0 <= k < i ==> (#[trigger] fields[k]).0 != fields[i].0,
    ensures
        value_at(JsonView::Record(fields), fields[i].0) == fields[i].1,
    decreases fields.len(),
{
    if i > 0 {
        let rest = fields.drop_first();
        assert(fields[0].0 != fields[i].0);
        assert forall|k: int| 0 <= k < i - 1 implies (#[trigger] rest[k]).0 != rest[i - 1].0 by {
            assert(fields[k + 1].0 != fields[i].0);
        }
        field_is_found(rest, i - 1);
    }
}

/// Nothing is found under a key that an object does not have.
pub proof fn missing_field_is_null(fields: Seq<(Seq<char>, JsonView)>, key: Seq<char>)
    requires
        forall|k: int| 0 <= k < fields.len() ==> (#[trigger] fields[k]).0 != key,
    ensures
        value_at(JsonView::Record(fields), key) is Null,
        text_at(JsonView::Record(fields), key) is None,
    decreases fields.len(),
{
    if fields.len() > 0 {
        let rest = fields.drop_first();
        assert(fields[0].0 != key);
        assert forall|k: int| 0 <= k < rest.len() implies (#[trigger] rest[k]).0 != key by {
            assert(fields[k + 1].0 != key);
        }
        missing_field_is_null(rest, key);
    }
}

/// A JSON value.
pub enum Json {
    /// `null`.
    Null,
    /// `true` or `false`.
    Bool(bool),
    /// A number, as it is written.
    Number(String),
    /// A string.
    Text(String),
    /// An array.
    List(Vec<Json>),
    /// An object, its fields in order.
    Record(Vec<(String, Json)>),
}

impl Json {
    /// The model of the value.
    pub open spec fn view(self) -> JsonView
        decreases self,
    {
        match self {
            Json::Null => JsonView::Null,
            Json::Bool(b) => JsonView::Bool(b),
            Json::Number(s) => JsonView::Number(s@),
            Json::Text(s) => JsonView::Text(s@),
            Json::List(items) => JsonView::List(json_views(items@)),
            Json::Record(fields) => JsonView::Record(field_views(fields@)),
        }
    }
}

/// The models of some values.
pub open spec fn json_views(items: Seq<Json>) -> Seq<JsonView>
    decreases items,
{
    if items.len() == 0 {
        Seq::empty()
    } else {
        json_views(items.drop_last()).push(items.last().view())
    }
}

/// The models of some fields.
pub open spec fn field_views(fields: Seq<(String, Json)>) -> Seq<(Seq<char>, JsonView)>
    decreases fields,
{
    if fields.len() == 0 {
        Seq::empty()
    } else {
        field_views(fields.drop_last()).push((fields.last().0@, fields.last().1.view()))
    }
}

/// The models are those of the values, one for one.
pub(crate) proof fn json_views_index(items: Seq<Json>)
    ensures
        json_views(items).len() == items.len(),
        forall|i: int| 0 <= i < items.len() ==> #[trigger] json_views(items)[i] == items[i].view(),
    decreases items,
{
    if items.len() > 0 {
        json_views_index(items.drop_last());
    }
}

/// The models are those of the fields, one for one.
pub(crate) proof fn field_views_index(fields: Seq<(String, Json)>)
    ensures
        field_views(fields).len() == fields.len(),
        forall|i: int|
            0 <= i < fields.len() ==> #[trigger] field_views(fields)[i] == (
                fields[i].0@,
                fields[i].1.view(),
            ),
    decreases fields,
{
    if fields.len() > 0 {
        field_views_index(fields.drop_last());
    }
}

/// An object without numbers whose keys begin with ascending letters has its keys in order.
pub(crate) proof fn ascending_keys_are_plain(fields: Seq<(Seq<char>, JsonView)>)
    requires
        forall|i: int| 0 <= i < fields.len() ==> plain_values((#[trigger] fields[i]).1),
        forall|i: int| 0 <= i < fields.len() ==> (#[trigger] fields[i]).0.len() > 0,
        forall|i: int, j: int|
            #![trigger fields[i], fields[j]]
            0 <= i < j < fields.len() ==> fields[i].0[0] < fields[j].0[0],
    ensures
        plain_values(JsonView::Record(fields)),
{
    assert forall|i: int, j: int| #![trigger fields[i], fields[j]] 0 <= i < j < fields.len() implies text_before(
        fields[i].0,
        fields[j].0,
    ) by {
        assert(fields[i].0[0] < fields[j].0[0]);
    }
}

/// A JSON value of serde_json.
#[verifier::external_type_specification]
#[verifier::external_body]
pub struct ExValue(serde_json::Value);

/// What a value of serde_json holds, the fields of its objects in the order in which they are
/// walked.
pub uninterp spec fn json_of(v: serde_json::Value) -> JsonView;

/// The JSON value that bytes hold, or what is wrong with them, as `serde_json::from_slice` has
/// it.
pub uninterp spec fn json_read(bytes: Seq<u8>) -> Result<JsonView, Seq<char>>;

/// The JSON values that the array in a text holds, or what is wrong with it, as
/// `serde_json::from_str` of a vector has it.
pub uninterp spec fn json_read_list(text: Seq<char>) -> Result<Seq<JsonView>, Seq<char>>;

/// `serde_json::from_slice`: a function of the bytes. The error is that of serde_json as text.
#[verifier::external_body]
fn parse_value(bytes: &[u8]) -> (r: Result<serde_json::Value, String>)
    ensures
        match json_read(bytes@) {
            Ok(j) => r matches Ok(v) && json_of(v) == j,
            Err(m) => r matches Err(e) && e@ == m,
        },
{
    serde_json::from_slice(bytes).map_err(|e| e.to_string())
}

/// `serde_json::from_str` of a vector of values: a function of the text. The error is that of
/// serde_json as text.
#[verifier::external_body]
fn parse_values(text: &str) -> (r: Result<Vec<serde_json::Value>, String>)
    ensures
        match json_read_list(text@) {
            Ok(j) => r matches Ok(v) && v@.len() == j.len() && forall|i: int|
                0 <= i < j.len() ==> json_of(#[trigger] v@[i]) == j[i],
            Err(m) => r matches Err(e) && e@ == m,
        },
{
    serde_json::from_str(text).map_err(|e| e.to_string())
}

/// A value of serde_json, variant for variant.
#[verifier::external_body]
fn from_value(value: &serde_json::Value) -> (r: Json)
    ensures
        r@ == json_of(*value),
{
    match value {
        serde_json::Value::Null => Json::Null,
        serde_json::Value::Bool(b) => Json::Bool(*b),
        serde_json::Value::Number(n) => Json::Number(n.to_string()),
        serde_json::Value::String(s) => Json::Text(s.clone()),
        serde_json::Value::Array(a) => Json::List(a.iter().map(from_value).collect()),
        serde_json::Value::Object(o) => {
            Json::Record(o.iter().map(|(k, v)| (k.clone(), from_value(v))).collect())
        }
    }
}

/// A value of serde_json with the same contents, variant for variant. An object of serde_json
/// walks its fields by their keys or as they were put in, so the keys are in order.
#[verifier::external_body]
fn to_value(json: &Json) -> (r: serde_json::Value)
    requires
        plain_values(json@),
    ensures
        json_of(r) == json@,
{
    match json {
        Json::Null => serde_json::Value::Null,
        Json::Bool(b) => serde_json::Value::Bool(*b),
        Json::Number(n) => serde_json::Value::Number(n.parse().unwrap()),
        Json::Text(s) => serde_json::Value::String(s.clone()),
        Json::List(a) => serde_json::Value::Array(a.iter().map(to_value).collect()),
        Json::Record(o) => {
            serde_json::Value::Object(o.iter().map(|(k, v)| (k.clone(), to_value(v))).collect())
        }
    }
}

/// `serde_json::to_string` of a value: without white space, with quotes, backslashes and control
/// characters escaped in strings. How it writes numbers is not said.
#[verifier::external_body]
fn print_value(value: &serde_json::Value) -> (r: String)
    requires
        plain_values(json_of(*value)),
    ensures
        r@ == json_text(json_of(*value)),
{
    serde_json::to_string(value).unwrap()
}

/// Reads a JSON value.
pub fn read_json(bytes: &[u8]) -> (r: Result<Json, String>)
    ensures
        match json_read(bytes@) {
            Ok(j) => r matches Ok(v) && v@ == j,
            Err(m) => r matches Err(e) && e@ == m,
        },
{
    match parse_value(bytes) {
        Ok(value) => Ok(from_value(&value)),
        Err(e) => Err(e),
    }
}

/// Reads a JSON array.
pub fn read_json_list(text: &str) -> (r: Result<Vec<Json>, String>)
    ensures
        match json_read_list(text@) {
            Ok(j) => r matches Ok(v) && json_views(v@) == j,
            Err(m) => r matches Err(e) && e@ == m,
        },
{
    let values = match parse_values(text) {
        Ok(values) => values,
        Err(e) => {
            return Err(e);
        },
    };
    let mut items: Vec<Json> = Vec::new();
    let mut i: usize = 0;
    while i < values.len()
        invariant
            i <= values.len(),
            items@.len() == i,
            forall|k: int| 0 <= k < i ==> (#[trigger] items@[k])@ == json_of(values@[k]),
        decreases values.len() - i,
    {
        items.push(from_value(&values[i]));
        i += 1;
    }
    proof {
        json_views_index(items@);
        assert(json_views(items@) =~= json_read_list(text@)->Ok_0);
    }
    Ok(items)
}

/// Writes a JSON value.
pub(crate) fn write_json(json: &Json) -> (r: String)
    requires
        plain_values(json@),
    ensures
        r@ == json_text(json@),
{
    print_value(&to_value(json))
}

/// The string that a value has under a key.
pub fn get_text(json: &Json, key: &str) -> (r: Option<String>)
    ensures
        text_of(r) == text_at(json@, key@),
{
    match get(json, key) {
        Some(Json::Text(s)) => Some(s.clone()),
        _ => None,
    }
}

/// What a value has under a key; `None` for `null` and where there is nothing.
pub fn get<'a>(json: &'a Json, key: &str) -> (r: Option<&'a Json>)
    ensures
        match r {
            Some(v) => v@ == value_at(json@, key@),
            None => value_at(json@, key@) is Null,
        },
{
    if let Json::Record(fields) = json {
        let ghost all = field_views(fields@);
        proof {
            field_views_index(fields@);
        }
        let mut i: usize = 0;
        assert(all.skip(0) =~= all);
        while i < fields.len()
            invariant
                i <= fields.len(),
                json@ == JsonView::Record(all),
                all.len() == fields@.len(),
                forall|k: int| 0 <= k < all.len() ==> #[trigger] all[k] == (
                    fields@[k].0@,
                    fields@[k].1.view(),
                ),
                field_at(all, key@) == field_at(all.skip(i as int), key@),
            decreases fields.len() - i,
        {
            assert(all.skip(i as int)[0] == all[i as int]);
            assert(all.skip(i as int).drop_first() =~= all.skip(i + 1));
            if same_text(fields[i].0.as_str(), key) {
                return Some(&fields[i].1);
            }
            i += 1;
        }
    }
    None
}

/// A field that holds a string.
pub(crate) fn text_field(key: &str, value: &str) -> (r: (String, Json))
    ensures
        r.0@ == key@,
        r.1@ == JsonView::Text(value@),
{
    (key.to_owned(), Json::Text(value.to_owned()))
}

} // verus!
