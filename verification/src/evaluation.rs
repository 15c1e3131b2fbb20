//! The evaluation protocol between the host and a component bundle: the
//! JSON values a bundle returns, the schemas its outputs declare, and how a
//! returned result becomes an evaluation attempt.

use vstd::prelude::*;
use vstd::utf8::encode_utf8;

use crate::digest::{blake3_digest, blake3_hash, hex_digit, hex_digit_text};
use crate::fmt::{debug_quoted, debug_quoted_text, decimal, decimal_text};
use crate::names::{
    address_parse, address_text, api_name_ok, kind_parse, logical_name_ok, parse_address, parse_kind, require_protocol,
    validate_api_name, validate_logical_name,
    EvaluationError, KindVersion, ResourceAddress, PROTOCOL_VERSION,
};
use crate::text::{has_prefix_at, starts_with, text_equal};
use crate::textset::{strictly_ascending, texts, TextSet};

verus! {

/// A JSON value. A number is held as its decimal text.
#[derive(Debug)]
pub enum JsonValue {
    Null,
    Bool(bool),
    Number(String),
    String(String),
    Array(Vec<JsonValue>),
    Object(Vec<(String, JsonValue)>),
}

/// A JSON value as plain values.
#[verifier::ext_equal]
pub enum JsonView {
    Null,
    Bool(bool),
    Number(Seq<char>),
    Str(Seq<char>),
    Array(Seq<JsonView>),
    Object(Seq<(Seq<char>, JsonView)>),
}

/// The plain view of a JSON value.
pub open spec fn json_view(v: JsonValue) -> JsonView
    decreases v,
{
    match v {
        JsonValue::Null => JsonView::Null,
        JsonValue::Bool(b) => JsonView::Bool(b),
        JsonValue::Number(n) => JsonView::Number(n@),
        JsonValue::String(s) => JsonView::Str(s@),
        JsonValue::Array(items) => JsonView::Array(values_view(items@)),
        JsonValue::Object(entries) => JsonView::Object(entries_view(entries@)),
    }
}

/// The plain views of a sequence of JSON values.
pub open spec fn values_view(s: Seq<JsonValue>) -> Seq<JsonView>
    decreases s,
{
    if s.len() == 0 {
        Seq::empty()
    } else {
        values_view(s.drop_last()).push(json_view(s.last()))
    }
}

/// The plain views of the entries of a JSON object.
pub open spec fn entries_view(s: Seq<(String, JsonValue)>) -> Seq<(Seq<char>, JsonView)>
    decreases s,
{
    if s.len() == 0 {
        Seq::empty()
    } else {
        entries_view(s.drop_last()).push((s.last().0@, json_view(s.last().1)))
    }
}

pub proof fn lemma_values_view_push(s: Seq<JsonValue>, x: JsonValue)
    ensures
        values_view(s.push(x)) == values_view(s).push(json_view(x)),
{
    assert(s.push(x).drop_last() =~= s);
}

pub proof fn lemma_entries_view_push(s: Seq<(String, JsonValue)>, x: (String, JsonValue))
    ensures
        entries_view(s.push(x)) == entries_view(s).push((x.0@, json_view(x.1))),
{
    assert(s.push(x).drop_last() =~= s);
}

/// The view of every value, one by one.
pub proof fn lemma_values_view_index(s: Seq<JsonValue>)
    ensures
        values_view(s).len() == s.len(),
        forall|i: int| 0 <= i < s.len() ==> #[trigger] values_view(s)[i] == json_view(s[i]),
    decreases s.len(),
{
    if s.len() > 0 {
        lemma_values_view_index(s.drop_last());
    }
}

/// The view of every entry, one by one.
pub proof fn lemma_entries_view_index(s: Seq<(String, JsonValue)>)
    ensures
        entries_view(s).len() == s.len(),
        forall|i: int| 0 <= i < s.len() ==> #[trigger] entries_view(s)[i] == (s[i].0@, json_view(s[i].1)),
    decreases s.len(),
{
    if s.len() > 0 {
        lemma_entries_view_index(s.drop_last());
    }
}

/// An object holding `entries`, in order.
pub fn json_object(entries: Vec<(String, JsonValue)>) -> (v: JsonValue)
    ensures
        json_view(v) == JsonView::Object(entries_view(entries@)),
{
    JsonValue::Object(entries)
}

/// An array holding `items`, in order.
pub fn json_array(items: Vec<JsonValue>) -> (v: JsonValue)
    ensures
        json_view(v) == JsonView::Array(values_view(items@)),
{
    JsonValue::Array(items)
}

impl JsonValue {
    /// A copy of this value.
    pub fn copied(&self) -> (copy: JsonValue)
        ensures
            json_view(copy) == json_view(*self),
        decreases *self,
    {
        match self {
            JsonValue::Null => JsonValue::Null,
            JsonValue::Bool(b) => JsonValue::Bool(*b),
            JsonValue::Number(n) => JsonValue::Number(n.clone()),
            JsonValue::String(s) => JsonValue::String(s.clone()),
            JsonValue::Array(items) => {
                let mut out: Vec<JsonValue> = Vec::new();
                let mut i: usize = 0;
                while i < items.len()
                    invariant
                        i <= items@.len(),
                        values_view(out@) == values_view(items@.take(i as int)),
                        *self == JsonValue::Array(*items),
                    decreases items@.len() - i,
                {
                    proof {
                        let ghost v = *self;
                        assert(decreases_to!(v => v->Array_0));
                        assert(decreases_to!(*items => items@));
                        assert(decreases_to!(items@ => items@[i as int]));
                    }
                    let c = items[i].copied();
                    proof {
                        lemma_values_view_push(out@, c);
                        lemma_values_view_push(items@.take(i as int), items@[i as int]);
                        assert(items@.take(i as int).push(items@[i as int]) =~= items@.take(i + 1));
                    }
                    out.push(c);
                    i = i + 1;
                }
                assert(items@.take(i as int) =~= items@);
                JsonValue::Array(out)
            },
            JsonValue::Object(entries) => {
                let mut out: Vec<(String, JsonValue)> = Vec::new();
                let mut i: usize = 0;
                while i < entries.len()
                    invariant
                        i <= entries@.len(),
                        entries_view(out@) == entries_view(entries@.take(i as int)),
                        *self == JsonValue::Object(*entries),
                    decreases entries@.len() - i,
                {
                    proof {
                        let ghost v = *self;
                        assert(decreases_to!(v => v->Object_0));
                        assert(decreases_to!(*entries => entries@));
                        assert(decreases_to!(entries@ => entries@[i as int]));
                        assert(decreases_to!(entries@[i as int] => entries@[i as int].1));
                    }
                    let key = entries[i].0.clone();
                    let c = entries[i].1.copied();
                    proof {
                        lemma_entries_view_push(out@, (key, c));
                        lemma_entries_view_push(entries@.take(i as int), entries@[i as int]);
                        assert(entries@.take(i as int).push(entries@[i as int]) =~= entries@.take(i + 1));
                    }
                    out.push((key, c));
                    i = i + 1;
                }
                assert(entries@.take(i as int) =~= entries@);
                JsonValue::Object(out)
            },
        }
    }
}

/// The shape a declared output's value must have.
#[derive(Debug)]
pub enum Schema {
    String,
    Url,
    Number,
    Boolean,
    Json,
    Array(Box<Schema>),
    Object(Vec<(String, Schema)>),
}

/// The value under `key` in `entries`: the first entry with that key.
#[verifier::opaque]
pub open spec fn field_of(entries: Seq<(Seq<char>, JsonView)>, key: Seq<char>) -> Option<JsonView> {
    if exists|i: int| 0 <= i < entries.len() && entries[i].0 == key {
        let i = choose|i: int|
            0 <= i < entries.len() && entries[i].0 == key && forall|j: int| 0 <= j < i ==> entries[j].0 != key;
        Some(entries[i].1)
    } else {
        None
    }
}

/// Whether `value` has the shape `schema` asks for: a string, a string that
/// begins with `https://` or `http://`, a number, a boolean, anything, an
/// array whose every element fits, or an object in which every field of the
/// schema is present and fits.
pub open spec fn accepts(schema: Schema, value: JsonView) -> bool
    decreases schema, 0nat,
{
    match schema {
        Schema::String => value is Str,
        Schema::Url => match value {
            JsonView::Str(s) => starts_with(s, "https://"@) || starts_with(s, "http://"@),
            _ => false,
        },
        Schema::Number => value is Number,
        Schema::Boolean => value is Bool,
        Schema::Json => true,
        Schema::Array(element) => match value {
            JsonView::Array(items) => all_accept(*element, items),
            _ => false,
        },
        Schema::Object(fields) => match value {
            JsonView::Object(entries) => fields_accept(fields@, entries),
            _ => false,
        },
    }
}

/// Every one of `items` fits `element`.
pub open spec fn all_accept(element: Schema, items: Seq<JsonView>) -> bool
    decreases element, items.len(),
{
    if items.len() == 0 {
        true
    } else {
        all_accept(element, items.drop_last()) && accepts(element, items.last())
    }
}

/// Every field of `fields` is present in `entries` and fits its schema.
pub open spec fn fields_accept(fields: Seq<(String, Schema)>, entries: Seq<(Seq<char>, JsonView)>) -> bool
    decreases fields, 0nat,
{
    if fields.len() == 0 {
        true
    } else {
        &&& fields_accept(fields.drop_last(), entries)
        &&& match field_of(entries, fields.last().0@) {
            Some(v) => accepts(fields.last().1, v),
            None => false,
        }
    }
}

/// Each scalar schema accepts exactly the JSON values of its own kind: a
/// string schema strings, a number schema numbers, a boolean schema
/// booleans, a URL schema strings beginning with `https://` or `http://`;
/// the JSON schema accepts anything; an array schema accepts exactly the
/// arrays whose every element fits it.
pub proof fn law_schemas_accept_their_own_kind(value: JsonView, array_schema: Schema)
    requires
        array_schema is Array,
    ensures
        accepts(Schema::String, value) <==> value is Str,
        accepts(Schema::Number, value) <==> value is Number,
        accepts(Schema::Boolean, value) <==> value is Bool,
        accepts(Schema::Json, value),
        accepts(Schema::Url, value) <==> (value is Str && (starts_with(value->Str_0, "https://"@) || starts_with(
            value->Str_0,
            "http://"@,
        ))),
        !(value is Str) ==> !accepts(Schema::Url, value),
        !(value is Array) ==> !accepts(array_schema, value),
        !(value is Object) ==> forall|fields: Vec<(String, Schema)>| !#[trigger] accepts(Schema::Object(fields), value),
        value is Array ==> (accepts(array_schema, value) <==> forall|k: int|
            0 <= k < value->Array_0.len() ==> accepts(*array_schema->Array_0, #[trigger] value->Array_0[k])),
{
    if value is Array {
        lemma_all_accept(*array_schema->Array_0, value->Array_0);
    }
}

/// `all_accept` holds exactly when every item fits.
pub proof fn lemma_all_accept(element: Schema, items: Seq<JsonView>)
    ensures
        all_accept(element, items) <==> forall|k: int| 0 <= k < items.len() ==> accepts(element, #[trigger] items[k]),
    decreases items.len(),
{
    if items.len() > 0 {
        lemma_all_accept(element, items.drop_last());
        if forall|k: int| 0 <= k < items.len() ==> accepts(element, #[trigger] items[k]) {
            assert forall|k: int| 0 <= k < items.drop_last().len() implies accepts(element, #[trigger] items.drop_last()[k]) by {
                assert(items.drop_last()[k] == items[k]);
            }
            assert(accepts(element, items[items.len() - 1]));
        }
        if all_accept(element, items) {
            assert forall|k: int| 0 <= k < items.len() implies accepts(element, #[trigger] items[k]) by {
                if k < items.len() - 1 {
                    assert(items.drop_last()[k] == items[k]);
                }
            }
        }
    }
}

/// Whether the field `f` is present in `entries` and fits its schema.
pub open spec fn field_fits(f: (String, Schema), entries: Seq<(Seq<char>, JsonView)>) -> bool {
    match field_of(entries, f.0@) {
        Some(v) => accepts(f.1, v),
        None => false,
    }
}

/// `fields_accept` holds exactly when every field fits.
pub proof fn lemma_fields_accept(fields: Seq<(String, Schema)>, entries: Seq<(Seq<char>, JsonView)>)
    ensures
        fields_accept(fields, entries) <==> forall|k: int| 0 <= k < fields.len() ==> field_fits(#[trigger] fields[k], entries),
    decreases fields.len(),
{
    if fields.len() > 0 {
        lemma_fields_accept(fields.drop_last(), entries);
        if forall|k: int| 0 <= k < fields.len() ==> field_fits(#[trigger] fields[k], entries) {
            assert forall|k: int| 0 <= k < fields.drop_last().len() implies field_fits(#[trigger] fields.drop_last()[k], entries) by {
                assert(fields.drop_last()[k] == fields[k]);
            }
            assert(field_fits(fields[fields.len() - 1], entries));
        }
        if fields_accept(fields, entries) {
            assert forall|k: int| 0 <= k < fields.len() implies field_fits(#[trigger] fields[k], entries) by {
                if k < fields.len() - 1 {
                    assert(fields.drop_last()[k] == fields[k]);
                }
            }
        }
    }
}

fn find_entry(entries: &Vec<(String, JsonValue)>, key: &str) -> (at: Option<usize>)
    ensures
        match at {
            Some(i) => i < entries@.len() && entries@[i as int].0@ == key@ && forall|j: int|
                0 <= j < i ==> entries@[j].0@ != key@,
            None => forall|j: int| 0 <= j < entries@.len() ==> entries@[j].0@ != key@,
        },
{
    let mut i: usize = 0;
    while i < entries.len()
        invariant
            i <= entries@.len(),
            forall|j: int| 0 <= j < i ==> entries@[j].0@ != key@,
        decreases entries@.len() - i,
    {
        if text_equal(entries[i].0.as_str(), key) {
            return Some(i);
        }
        i = i + 1;
    }
    None
}

pub proof fn lemma_field_of_found(entries: Seq<(String, JsonValue)>, key: Seq<char>, i: int)
    requires
        0 <= i < entries.len(),
        entries[i].0@ == key,
        forall|j: int| 0 <= j < i ==> entries[j].0@ != key,
    ensures
        field_of(entries_view(entries), key) == Some(json_view(entries[i].1)),
{
    reveal(field_of);
    lemma_entries_view_index(entries);
    let e = entries_view(entries);
    assert(e[i].0 == key);
    let c = choose|c: int| 0 <= c < e.len() && e[c].0 == key && forall|j: int| 0 <= j < c ==> e[j].0 != key;
    if c < i {
        assert(e[c].0 == entries[c].0@);
    } else if c > i {
        assert(e[i].0 == key);
    }
}

pub proof fn lemma_field_of_absent(entries: Seq<(String, JsonValue)>, key: Seq<char>)
    requires
        forall|j: int| 0 <= j < entries.len() ==> entries[j].0@ != key,
    ensures
        field_of(entries_view(entries), key) is None,
{
    reveal(field_of);
    lemma_entries_view_index(entries);
    let e = entries_view(entries);
    if exists|i: int| 0 <= i < e.len() && e[i].0 == key {
        let i = choose|i: int| 0 <= i < e.len() && e[i].0 == key;
        assert(e[i].0 == entries[i].0@);
    }
}

/// Whether `value` has the shape `schema` asks for, as `accepts` states.
pub fn schema_accepts(schema: &Schema, value: &JsonValue) -> (ok: bool)
    ensures
        ok == accepts(*schema, json_view(*value)),
    decreases *schema,
{
    match schema {
        Schema::String => matches!(value, JsonValue::String(_)),
        Schema::Url => match value {
            JsonValue::String(s) => {
                let secure = has_prefix_at(s.as_str(), 0, "https://");
                let plain = has_prefix_at(s.as_str(), 0, "http://");
                assert(s@.skip(0) =~= s@);
                secure || plain
            },
            _ => false,
        },
        Schema::Number => matches!(value, JsonValue::Number(_)),
        Schema::Boolean => matches!(value, JsonValue::Bool(_)),
        Schema::Json => true,
        Schema::Array(element) => match value {
            JsonValue::Array(items) => {
                proof {
                    lemma_values_view_index(items@);
                    lemma_all_accept(**element, values_view(items@));
                    let ghost v = *schema;
                    assert(decreases_to!(v => v->Array_0));
                }
                let mut i: usize = 0;
                while i < items.len()
                    invariant
                        i <= items@.len(),
                        *schema == Schema::Array(*element),
                        *value == JsonValue::Array(*items),
                        values_view(items@).len() == items@.len(),
                        forall|k: int| 0 <= k < items@.len() ==> #[trigger] values_view(items@)[k] == json_view(items@[k]),
                        forall|k: int| 0 <= k < i ==> accepts(**element, #[trigger] values_view(items@)[k]),
                        all_accept(**element, values_view(items@)) <==> forall|k: int|
                            0 <= k < values_view(items@).len() ==> accepts(**element, #[trigger] values_view(items@)[k]),
                    decreases items@.len() - i,
                {
                    proof {
                        let ghost v = *schema;
                        assert(decreases_to!(v => v->Array_0));
                    }
                    if !schema_accepts(element, &items[i]) {
                        assert(json_view(*value) == JsonView::Array(values_view(items@)));
                        assert(!accepts(**element, values_view(items@)[i as int]));
                        return false;
                    }
                    i = i + 1;
                }
                assert(json_view(*value) == JsonView::Array(values_view(items@)));
                true
            },
            _ => false,
        },
        Schema::Object(fields) => match value {
            JsonValue::Object(entries) => {
                proof {
                    lemma_fields_accept(fields@, entries_view(entries@));
                }
                let mut k: usize = 0;
                while k < fields.len()
                    invariant
                        k <= fields@.len(),
                        *schema == Schema::Object(*fields),
                        *value == JsonValue::Object(*entries),
                        forall|q: int| 0 <= q < k ==> field_fits(#[trigger] fields@[q], entries_view(entries@)),
                        fields_accept(fields@, entries_view(entries@)) <==> forall|q: int|
                            0 <= q < fields@.len() ==> field_fits(#[trigger] fields@[q], entries_view(entries@)),
                    decreases fields@.len() - k,
                {
                    proof {
                        let ghost v = *schema;
                        assert(decreases_to!(v => v->Object_0));
                        assert(decreases_to!(*fields => fields@));
                        assert(decreases_to!(fields@ => fields@[k as int]));
                        assert(decreases_to!(fields@[k as int] => fields@[k as int].1));
                    }
                    match find_entry(entries, fields[k].0.as_str()) {
                        None => {
                            proof {
                                lemma_field_of_absent(entries@, fields@[k as int].0@);
                                assert(!field_fits(fields@[k as int], entries_view(entries@)));
                            }
                            return false;
                        },
                        Some(at) => {
                            proof {
                                lemma_field_of_found(entries@, fields@[k as int].0@, at as int);
                            }
                            if !schema_accepts(&fields[k].1, &entries[at].1) {
                                assert(!field_fits(fields@[k as int], entries_view(entries@)));
                                return false;
                            }
                        },
                    }
                    k = k + 1;
                }
                assert(json_view(*value) == JsonView::Object(entries_view(entries@)));
                true
            },
            _ => false,
        },
    }
}

/// Checks `value` against `schema`; the error names `path`.
pub fn validate_schema_value(schema: &Schema, value: &JsonValue, path: &str) -> (r: Result<(), EvaluationError>)
    ensures
        accepts(*schema, json_view(*value)) ==> r is Ok,
        !accepts(*schema, json_view(*value)) ==> (r matches Err(e) && e.message@ == path@
            + " does not satisfy its declared schema"@),
{
    if schema_accepts(schema, value) {
        Ok(())
    } else {
        let mut m = path.to_string();
        m.append(" does not satisfy its declared schema");
        Err(EvaluationError::new(m))
    }
}

/// Whether an output is computed by the bundle or observed on a resource.
#[derive(Clone, Copy, Debug, PartialEq, Eq, Structural)]
pub enum Availability {
    Static,
    Observed,
}

/// What a bundle declares of one input: the component output it reads and
/// whether it may be absent.
#[derive(Debug)]
pub struct InputMetadata {
    pub component: String,
    pub output: String,
    pub optional: bool,
}

/// What a bundle declares of one output.
#[derive(Debug)]
pub struct OutputMetadata {
    pub availability: Availability,
    pub optional: bool,
    pub schema: Schema,
}

/// The component declaration a bundle exports: its name, its inputs and its
/// outputs, each by name in ascending order.
#[derive(Debug)]
pub struct ComponentMetadata {
    pub name: String,
    pub inputs: Vec<(String, InputMetadata)>,
    pub outputs: Vec<(String, OutputMetadata)>,
}

/// A component output named by its component.
#[derive(Clone, Debug, PartialEq, Eq)]
pub struct OutputRef {
    pub component: String,
    pub output: String,
}

/// The state of one input when a component is evaluated.
#[derive(Debug)]
pub enum InputState {
    Available(JsonValue),
    Blocked,
    Absent,
}

/// One input of an evaluation snapshot.
#[derive(Debug)]
pub struct InputCell {
    pub name: String,
    pub source: OutputRef,
    pub optional: bool,
    pub state: InputState,
}

/// A request to evaluate a component of a graph against a snapshot of its
/// inputs, held in ascending name order.
#[derive(Debug)]
pub struct EvaluationRequest {
    pub graph_id: [u8; 16],
    pub component: String,
    pub cells: Vec<InputCell>,
}

/// A resource as a bundle returned it.
#[derive(Debug)]
pub struct ResourceWire {
    pub address: String,
    pub kind: String,
    pub name: String,
    pub body: JsonValue,
    pub canonical: String,
}

/// An observed output as a bundle returned it: a resource address and one
/// of that resource's outputs.
#[derive(Debug)]
pub struct BindingWire {
    pub resource: String,
    pub output: String,
}

/// Why a bundle says it is blocked.
#[derive(Debug)]
pub struct BlockedWire {
    pub code: String,
    pub input: String,
    pub source: String,
    pub operation: String,
    pub message: String,
}

/// The first blocked read the host saw while a bundle ran.
#[derive(Debug)]
pub struct StickyBlocked {
    pub input: String,
    pub source: String,
    pub operation: String,
    pub message: String,
}

/// What a bundle's `evaluate` returned.
#[derive(Debug)]
pub enum EvaluationResultWire {
    Complete {
        protocol_version: u32,
        resources: Vec<ResourceWire>,
        outputs: Vec<(String, JsonValue)>,
        observed_outputs: Vec<(String, BindingWire)>,
        reads: Vec<String>,
    },
    Blocked {
        protocol_version: u32,
        resources: Vec<ResourceWire>,
        blocked: BlockedWire,
        reads: Vec<String>,
    },
}

/// The code of a blocked result.
pub open spec fn blocked_code() -> Seq<char> {
    "HENOSIS_BLOCKED"@
}

fn contains_text(items: &Vec<String>, text: &str) -> (found: bool)
    ensures
        found == texts(items@).contains(text@),
{
    let mut i: usize = 0;
    while i < items.len()
        invariant
            i <= items@.len(),
            forall|k: int| 0 <= k < i ==> items@[k]@ != text@,
        decreases items@.len() - i,
    {
        if text_equal(items[i].as_str(), text) {
            assert(texts(items@)[i as int] == text@);
            return true;
        }
        i = i + 1;
    }
    proof {
        if texts(items@).contains(text@) {
            let k = choose|k: int| 0 <= k < texts(items@).len() && texts(items@)[k] == text@;
            assert(items@[k]@ == text@);
        }
    }
    false
}

proof fn lemma_prepend_to_set(a: Seq<char>, t: Seq<Seq<char>>)
    ensures
        (seq![a] + t).to_set() == t.to_set().insert(a),
{
    let u = seq![a] + t;
    assert forall|x| u.to_set().contains(x) <==> t.to_set().insert(a).contains(x) by {
        if u.to_set().contains(x) {
            let k = choose|k: int| 0 <= k < u.len() && u[k] == x;
            if k > 0 {
                assert(t[k - 1] == x);
            }
        }
        if t.to_set().contains(x) {
            let k = choose|k: int| 0 <= k < t.len() && t[k] == x;
            assert(u[k + 1] == x);
        }
        if x == a {
            assert(u[0] == x);
        }
    }
    assert(u.to_set() =~= t.to_set().insert(a));
}

/// `reads` with `input` added, ascending and each once.
fn with_read(reads: Vec<String>, input: String) -> (out: Vec<String>)
    ensures
        strictly_ascending(texts(out@)),
        texts(out@).to_set() == texts(reads@).to_set().insert(input@),
{
    let mut set = TextSet::new();
    let mut rest = reads;
    let ghost all = rest@;
    assert(texts(all).skip(all.len() as int) =~= Seq::<Seq<char>>::empty());
    assert(Seq::<Seq<char>>::empty().to_set() =~= Set::<Seq<char>>::empty());
    while rest.len() > 0
        invariant
            set@ == texts(all).skip(rest@.len() as int).to_set(),
            all.len() >= rest@.len(),
            rest@ == all.take(rest@.len() as int),
        decreases rest@.len(),
    {
        let ghost before = rest@;
        let last = rest.pop().unwrap();
        proof {
            assert(all[rest@.len() as int] == last);
            assert(texts(all).skip(rest@.len() as int) =~= seq![last@] + texts(all).skip(before.len() as int));
            lemma_prepend_to_set(last@, texts(all).skip(before.len() as int));
            assert(rest@ =~= all.take(rest@.len() as int));
        }
        set.insert(last);
    }
    assert(texts(all).skip(0) =~= texts(all));
    set.insert(input);
    set.into_items()
}

/// What `apply_sticky_blocked` answers for a complete result's reads: the
/// reads unchanged when they already hold the blocked input, else the reads
/// with it, ascending and each once.
pub open spec fn sticky_reads(reads: Seq<Seq<char>>, input: Seq<char>, out: Seq<Seq<char>>) -> bool {
    if reads.contains(input) {
        out == reads
    } else {
        strictly_ascending(out) && out.to_set() == reads.to_set().insert(input)
    }
}

/// Reconciles a bundle's result with the first blocked read the host saw.
/// Without one the result stands. A blocked result must name the same
/// input, source and operation. A complete result becomes blocked on that
/// read, with no resources, the host's protocol version, and the read among
/// its reads.
pub fn apply_sticky_blocked(result: EvaluationResultWire, sticky: Option<StickyBlocked>) -> (r: Result<
    EvaluationResultWire,
    EvaluationError,
>)
    ensures
        sticky is None ==> r == Ok::<EvaluationResultWire, EvaluationError>(result),
        sticky matches Some(st) ==> match result {
            EvaluationResultWire::Blocked { blocked, .. } => if blocked.input@ != st.input@ || blocked.source@
                != st.source@ || blocked.operation@ != st.operation@ {
                r matches Err(e) && e.message@ == "SDK blocked result disagrees with the sticky host blocked signal"@
            } else {
                r == Ok::<EvaluationResultWire, EvaluationError>(result)
            },
            EvaluationResultWire::Complete { reads, .. } => r matches Ok(
                EvaluationResultWire::Blocked { protocol_version, resources, blocked, reads: out },
            ) && protocol_version == PROTOCOL_VERSION && resources@.len() == 0 && blocked.code@ == blocked_code()
                && blocked.input@ == st.input@ && blocked.source@ == st.source@ && blocked.operation@
                == st.operation@ && blocked.message@ == st.message@ && sticky_reads(
                texts(reads@),
                st.input@,
                texts(out@),
            ),
        },
{
    let sticky = match sticky {
        None => {
            return Ok(result);
        },
        Some(sticky) => sticky,
    };
    match result {
        EvaluationResultWire::Blocked { protocol_version, resources, blocked, reads } => {
            if !text_equal(blocked.input.as_str(), sticky.input.as_str()) || !text_equal(
                blocked.source.as_str(),
                sticky.source.as_str(),
            ) || !text_equal(blocked.operation.as_str(), sticky.operation.as_str()) {
                return Err(
                    EvaluationError::new(
                        "SDK blocked result disagrees with the sticky host blocked signal".to_string(),
                    ),
                );
            }
            Ok(EvaluationResultWire::Blocked { protocol_version, resources, blocked, reads })
        },
        EvaluationResultWire::Complete { reads, .. } => {
            let reads = if contains_text(&reads, sticky.input.as_str()) {
                reads
            } else {
                with_read(reads, sticky.input.clone())
            };
            let blocked = BlockedWire {
                code: "HENOSIS_BLOCKED".to_string(),
                input: sticky.input,
                source: sticky.source,
                operation: sticky.operation,
                message: sticky.message,
            };
            Ok(EvaluationResultWire::Blocked { protocol_version: PROTOCOL_VERSION, resources: Vec::new(), blocked, reads })
        },
    }
}

/// The index of the first entry of `entries` whose key is `key`.
#[verifier::opaque]
pub open spec fn first_key<V>(entries: Seq<(String, V)>, key: Seq<char>) -> Option<int> {
    if exists|i: int| 0 <= i < entries.len() && entries[i].0@ == key {
        Some(
            choose|i: int|
                0 <= i < entries.len() && entries[i].0@ == key && forall|j: int| 0 <= j < i ==> entries[j].0@ != key,
        )
    } else {
        None
    }
}

/// Finds the first entry whose key is `key`, as `first_key` states.
pub fn find_key<V>(entries: &Vec<(String, V)>, key: &str) -> (at: Option<usize>)
    ensures
        match at {
            Some(i) => first_key(entries@, key@) == Some(i as int) && i < entries@.len() && entries@[i as int].0@ == key@
                && forall|j: int| 0 <= j < i ==> entries@[j].0@ != key@,
            None => first_key(entries@, key@) is None && forall|j: int| 0 <= j < entries@.len() ==> entries@[j].0@ != key@,
        },
{
    reveal(first_key);
    let mut i: usize = 0;
    while i < entries.len()
        invariant
            i <= entries@.len(),
            forall|j: int| 0 <= j < i ==> entries@[j].0@ != key@,
        decreases entries@.len() - i,
    {
        if text_equal(entries[i].0.as_str(), key) {
            proof {
                reveal(first_key);
                assert(entries@[i as int].0@ == key@);
                let c = choose|c: int|
                    0 <= c < entries@.len() && entries@[c].0@ == key@ && forall|j: int| 0 <= j < c ==> entries@[j].0@ != key@;
                if c < i {
                } else if c > i {
                }
            }
            return Some(i);
        }
        i = i + 1;
    }
    None
}

/// A static output of a complete evaluation.
#[derive(Debug)]
pub struct StaticOutput {
    pub name: String,
    pub value: JsonValue,
}

/// Why a returned static output is refused, if it is: it must be declared,
/// declared static, and fit its schema.
pub open spec fn static_fault(meta: Seq<(String, OutputMetadata)>, name: Seq<char>, value: JsonView) -> Option<
    Seq<char>,
> {
    match first_key(meta, name) {
        None => Some("result contains undeclared static output "@ + debug_quoted_text(name)),
        Some(i) => if meta[i].1.availability != Availability::Static {
            Some("observed output "@ + debug_quoted_text(name) + " was returned as a static value"@)
        } else if !accepts(meta[i].1.schema, value) {
            Some("output "@ + name + " does not satisfy its declared schema"@)
        } else {
            None
        },
    }
}

/// Turns the static outputs a bundle returned into static outputs, in
/// order; the first refused one, as `static_fault` states, is the error.
pub fn convert_static_outputs(metadata: &ComponentMetadata, outputs: Vec<(String, JsonValue)>) -> (r: Result<
    Vec<StaticOutput>,
    EvaluationError,
>)
    ensures
        r is Ok <==> forall|i: int|
            #![trigger outputs@[i]]
            0 <= i < outputs@.len() ==> static_fault(metadata.outputs@, outputs@[i].0@, json_view(outputs@[i].1)) is None,
        r matches Ok(v) ==> v@.len() == outputs@.len() && forall|i: int|
            0 <= i < v@.len() ==> (#[trigger] v@[i]).name@ == outputs@[i].0@ && v@[i].value == outputs@[i].1,
        forall|i: int|
            #![trigger outputs@[i]]
            0 <= i < outputs@.len() && (forall|j: int|
                #![trigger outputs@[j]]
                0 <= j < i ==> static_fault(metadata.outputs@, outputs@[j].0@, json_view(outputs@[j].1)) is None)
                ==> match static_fault(metadata.outputs@, outputs@[i].0@, json_view(outputs@[i].1)) {
                Some(m) => r matches Err(e) && e.message@ == m,
                None => true,
            },
{
    let ghost all = outputs@;
    let mut rest = outputs;
    let mut converted: Vec<StaticOutput> = Vec::new();
    while rest.len() > 0
        invariant
            converted@.len() + rest@.len() == all.len(),
            rest@ == all.skip(converted@.len() as int),
            all == outputs@,
            forall|j: int|
                #![trigger all[j]]
                0 <= j < converted@.len() ==> static_fault(metadata.outputs@, all[j].0@, json_view(all[j].1)) is None,
            forall|j: int|
                0 <= j < converted@.len() ==> (#[trigger] converted@[j]).name@ == all[j].0@ && converted@[j].value
                    == all[j].1,
        decreases rest@.len(),
    {
        let ghost k = converted@.len() as int;
        let (name, value) = rest.remove(0);
        assert(all[k] == (name, value));
        let declaration = match find_key(&metadata.outputs, name.as_str()) {
            None => {
                let mut m = String::from_str("result contains undeclared static output ");
                let q = debug_quoted(name.as_str());
                m.append(q.as_str());
                assert(static_fault(metadata.outputs@, all[k].0@, json_view(all[k].1)) is Some);
                return Err(EvaluationError::new(m));
            },
            Some(at) => &metadata.outputs[at].1,
        };
        if declaration.availability != Availability::Static {
            let mut m = String::from_str("observed output ");
            let q = debug_quoted(name.as_str());
            m.append(q.as_str());
            m.append(" was returned as a static value");
            assert(static_fault(metadata.outputs@, all[k].0@, json_view(all[k].1)) is Some);
            return Err(EvaluationError::new(m));
        }
        let mut path = String::from_str("output ");
        path.append(name.as_str());
        match validate_schema_value(&declaration.schema, &value, path.as_str()) {
            Err(e) => {
                assert(static_fault(metadata.outputs@, all[k].0@, json_view(all[k].1)) is Some);
                return Err(e);
            },
            Ok(()) => {},
        }
        converted.push(StaticOutput { name, value });
        assert(rest@ =~= all.skip(converted@.len() as int));
    }
    Ok(converted)
}

/// A component output bound to an observed output of one of its resources.
#[derive(Debug)]
pub struct ObservedOutputBinding {
    pub name: String,
    pub resource: ResourceAddress,
    pub output: String,
}

/// What a controller promises of the resources of one kind: the controller
/// that owns them and the outputs it observes on them.
#[derive(Debug)]
pub struct ResourceContract {
    pub controller: String,
    pub observed_outputs: TextSet,
}

impl ResourceContract {
    /// A contract of `controller` that observes `observed_outputs`.
    pub fn new(controller: String, observed_outputs: Vec<String>) -> (c: Self)
        ensures
            c.controller@ == controller@,
            c.observed_outputs@ == texts(observed_outputs@).to_set(),
    {
        let mut set = TextSet::new();
        let mut i: usize = 0;
        while i < observed_outputs.len()
            invariant
                i <= observed_outputs@.len(),
                set@ == texts(observed_outputs@.take(i as int)).to_set(),
            decreases observed_outputs@.len() - i,
        {
            let o = observed_outputs[i].clone();
            proof {
                assert(texts(observed_outputs@.take(i + 1)) =~= texts(observed_outputs@.take(i as int)).push(o@));
                lemma_push_to_set(texts(observed_outputs@.take(i as int)), o@);
            }
            set.insert(o);
            i = i + 1;
        }
        assert(observed_outputs@.take(i as int) =~= observed_outputs@);
        ResourceContract { controller, observed_outputs: set }
    }
}

proof fn lemma_push_to_set(t: Seq<Seq<char>>, a: Seq<char>)
    ensures
        t.push(a).to_set() == t.to_set().insert(a),
{
    let u = t.push(a);
    assert forall|x| u.to_set().contains(x) <==> t.to_set().insert(a).contains(x) by {
        if u.to_set().contains(x) {
            let k = choose|k: int| 0 <= k < u.len() && u[k] == x;
            if k < t.len() {
                assert(t[k] == x);
            }
        }
        if t.to_set().contains(x) {
            let k = choose|k: int| 0 <= k < t.len() && t[k] == x;
            assert(u[k] == x);
        }
        if x == a {
            assert(u[t.len() as int] == x);
        }
    }
    assert(u.to_set() =~= t.to_set().insert(a));
}

/// The address as plain values.
pub open spec fn address_view(a: ResourceAddress) -> (Seq<char>, u32, Seq<char>) {
    (a.kind.name@, a.kind.version, a.name@)
}

/// What a list of emitted resources offers observed outputs from: each
/// resource's address and the outputs its contract observes.
pub open spec fn contracts_emitted(contracts: Seq<(ResourceAddress, ResourceContract)>) -> Seq<
    ((Seq<char>, u32, Seq<char>), Set<Seq<char>>),
> {
    contracts.map_values(|c: (ResourceAddress, ResourceContract)| (address_view(c.0), c.1.observed_outputs@))
}

/// The index of the first emitted resource at `address`.
#[verifier::opaque]
pub open spec fn emitted_index(
    emitted: Seq<((Seq<char>, u32, Seq<char>), Set<Seq<char>>)>,
    address: (Seq<char>, u32, Seq<char>),
) -> Option<int> {
    if exists|i: int| 0 <= i < emitted.len() && emitted[i].0 == address {
        Some(
            choose|i: int|
                0 <= i < emitted.len() && emitted[i].0 == address && forall|j: int| 0 <= j < i ==> emitted[j].0 != address,
        )
    } else {
        None
    }
}

fn find_contract(contracts: &Vec<(ResourceAddress, ResourceContract)>, address: &ResourceAddress) -> (at: Option<usize>)
    ensures
        match at {
            Some(i) => emitted_index(contracts_emitted(contracts@), address_view(*address)) == Some(i as int) && i
                < contracts@.len(),
            None => emitted_index(contracts_emitted(contracts@), address_view(*address)) is None,
        },
{
    reveal(emitted_index);
    let mut i: usize = 0;
    while i < contracts.len()
        invariant
            i <= contracts@.len(),
            forall|j: int| 0 <= j < i ==> address_view(contracts@[j].0) != address_view(*address),
        decreases contracts@.len() - i,
    {
        proof {
            reveal(emitted_index);
        }
        let c = &contracts[i].0;
        if text_equal(c.kind.name.as_str(), address.kind.name.as_str()) && c.kind.version == address.kind.version
            && text_equal(c.name.as_str(), address.name.as_str()) {
            proof {
                reveal(emitted_index);
                let e = contracts_emitted(contracts@);
                assert(e[i as int].0 == address_view(*address));
                let k = choose|k: int|
                    0 <= k < e.len() && e[k].0 == address_view(*address) && forall|j: int| 0 <= j < k ==> e[j].0 != address_view(*address);
                if k < i {
                    assert(e[k].0 == address_view(contracts@[k].0));
                } else if k > i {
                }
            }
            return Some(i);
        }
        i = i + 1;
    }
    proof {
        let e = contracts_emitted(contracts@);
        if exists|q: int| 0 <= q < e.len() && e[q].0 == address_view(*address) {
            let q = choose|q: int| 0 <= q < e.len() && e[q].0 == address_view(*address);
            assert(e[q].0 == address_view(contracts@[q].0));
        }
    }
    None
}

/// Why a returned observed binding is refused, if it is: it must be
/// declared, declared observed, name a resource address that parses, a
/// resource that was emitted, and an output that resource's contract
/// observes.
pub open spec fn observed_fault(
    meta: Seq<(String, OutputMetadata)>,
    emitted: Seq<((Seq<char>, u32, Seq<char>), Set<Seq<char>>)>,
    name: Seq<char>,
    resource: Seq<char>,
    output: Seq<char>,
) -> Option<Seq<char>> {
    match first_key(meta, name) {
        None => Some("result contains undeclared observed output "@ + debug_quoted_text(name)),
        Some(i) => if meta[i].1.availability != Availability::Observed {
            Some("static output "@ + debug_quoted_text(name) + " was returned as an observed binding"@)
        } else {
            match address_parse(resource) {
                Err(m) => Some(m),
                Ok((kind, version, rname)) => match emitted_index(emitted, (kind, version, rname)) {
                    None => Some(
                        "observed output "@ + debug_quoted_text(name) + " points at un-emitted resource "@
                            + address_text(kind, version, rname),
                    ),
                    Some(c) => if !emitted[c].1.contains(output) {
                        Some(
                            "resource "@ + address_text(kind, version, rname) + " does not declare observed output "@
                                + output,
                        )
                    } else {
                        None
                    },
                },
            }
        },
    }
}

/// Turns the observed bindings a bundle returned into bindings, in order;
/// the first refused one, as `observed_fault` states, is the error.
pub fn convert_observed_outputs(
    metadata: &ComponentMetadata,
    outputs: Vec<(String, BindingWire)>,
    contracts: &Vec<(ResourceAddress, ResourceContract)>,
) -> (r: Result<Vec<ObservedOutputBinding>, EvaluationError>)
    ensures
        r is Ok <==> forall|i: int|
            #![trigger outputs@[i]]
            0 <= i < outputs@.len() ==> observed_fault(
                metadata.outputs@,
                contracts_emitted(contracts@),
                outputs@[i].0@,
                outputs@[i].1.resource@,
                outputs@[i].1.output@,
            ) is None,
        r matches Ok(v) ==> v@.len() == outputs@.len() && forall|i: int|
            0 <= i < v@.len() ==> (#[trigger] v@[i]).name@ == outputs@[i].0@ && v@[i].output@ == outputs@[i].1.output@
                && address_parse(outputs@[i].1.resource@) == Ok::<_, Seq<char>>(address_view(v@[i].resource)),
        forall|i: int|
            #![trigger outputs@[i]]
            0 <= i < outputs@.len() && (forall|j: int|
                #![trigger outputs@[j]]
                0 <= j < i ==> observed_fault(
                    metadata.outputs@,
                    contracts_emitted(contracts@),
                    outputs@[j].0@,
                    outputs@[j].1.resource@,
                    outputs@[j].1.output@,
                ) is None) ==> match observed_fault(
                metadata.outputs@,
                contracts_emitted(contracts@),
                outputs@[i].0@,
                outputs@[i].1.resource@,
                outputs@[i].1.output@,
            ) {
                Some(m) => r matches Err(e) && e.message@ == m,
                None => true,
            },
{
    let ghost all = outputs@;
    let mut rest = outputs;
    let mut converted: Vec<ObservedOutputBinding> = Vec::new();
    while rest.len() > 0
        invariant
            converted@.len() + rest@.len() == all.len(),
            rest@ == all.skip(converted@.len() as int),
            all == outputs@,
            forall|j: int|
                #![trigger all[j]]
                0 <= j < converted@.len() ==> observed_fault(
                    metadata.outputs@,
                    contracts_emitted(contracts@),
                    all[j].0@,
                    all[j].1.resource@,
                    all[j].1.output@,
                ) is None,
            forall|j: int|
                0 <= j < converted@.len() ==> (#[trigger] converted@[j]).name@ == all[j].0@ && converted@[j].output@
                    == all[j].1.output@ && address_parse(all[j].1.resource@) == Ok::<_, Seq<char>>(
                    address_view(converted@[j].resource),
                ),
        decreases rest@.len(),
    {
        let ghost k = converted@.len() as int;
        let (name, binding) = rest.remove(0);
        assert(all[k] == (name, binding));
        let declaration = match find_key(&metadata.outputs, name.as_str()) {
            None => {
                let mut m = String::from_str("result contains undeclared observed output ");
                let q = debug_quoted(name.as_str());
                m.append(q.as_str());
                assert(observed_fault(metadata.outputs@, contracts_emitted(contracts@), all[k].0@, all[k].1.resource@, all[k].1.output@) is Some);
                return Err(EvaluationError::new(m));
            },
            Some(at) => &metadata.outputs[at].1,
        };
        if declaration.availability != Availability::Observed {
            let mut m = String::from_str("static output ");
            let q = debug_quoted(name.as_str());
            m.append(q.as_str());
            m.append(" was returned as an observed binding");
            assert(observed_fault(metadata.outputs@, contracts_emitted(contracts@), all[k].0@, all[k].1.resource@, all[k].1.output@) is Some);
            return Err(EvaluationError::new(m));
        }
        let address = match parse_address(binding.resource.as_str()) {
            Err(e) => {
                assert(observed_fault(metadata.outputs@, contracts_emitted(contracts@), all[k].0@, all[k].1.resource@, all[k].1.output@) is Some);
                return Err(e);
            },
            Ok(a) => a,
        };
        let contract = match find_contract(contracts, &address) {
            None => {
                let mut m = String::from_str("observed output ");
                let q = debug_quoted(name.as_str());
                m.append(q.as_str());
                m.append(" points at un-emitted resource ");
                let t = address.text();
                m.append(t.as_str());
                assert(observed_fault(metadata.outputs@, contracts_emitted(contracts@), all[k].0@, all[k].1.resource@, all[k].1.output@) is Some);
                return Err(EvaluationError::new(m));
            },
            Some(at) => &contracts[at].1,
        };
        if !contract.observed_outputs.contains(binding.output.as_str()) {
            let mut m = String::from_str("resource ");
            let t = address.text();
            m.append(t.as_str());
            m.append(" does not declare observed output ");
            m.append(binding.output.as_str());
            assert(observed_fault(metadata.outputs@, contracts_emitted(contracts@), all[k].0@, all[k].1.resource@, all[k].1.output@) is Some);
            return Err(EvaluationError::new(m));
        }
        converted.push(ObservedOutputBinding { name, resource: address, output: binding.output });
        assert(rest@ =~= all.skip(converted@.len() as int));
    }
    Ok(converted)
}

/// How `Debug` writes an availability.
pub open spec fn availability_text(a: Availability) -> Seq<char> {
    match a {
        Availability::Static => "Static"@,
        Availability::Observed => "Observed"@,
    }
}

/// The names of some static outputs.
pub open spec fn static_names(statics: Seq<StaticOutput>) -> Seq<Seq<char>> {
    statics.map_values(|o: StaticOutput| o.name@)
}

/// The names of some observed bindings.
pub open spec fn binding_names(observed: Seq<ObservedOutputBinding>) -> Seq<Seq<char>> {
    observed.map_values(|o: ObservedOutputBinding| o.name@)
}

/// Why a declared output is missing from a complete result, if it is: a
/// required output must be returned in the way it is declared.
pub open spec fn missing_fault(
    declaration: (String, OutputMetadata),
    statics: Seq<Seq<char>>,
    observed: Seq<Seq<char>>,
) -> Option<Seq<char>> {
    let present = match declaration.1.availability {
        Availability::Static => statics.contains(declaration.0@),
        Availability::Observed => observed.contains(declaration.0@),
    };
    if !present && !declaration.1.optional {
        Some(
            "required "@ + availability_text(declaration.1.availability) + " output "@ + debug_quoted_text(
                declaration.0@,
            ) + " is missing"@,
        )
    } else {
        None
    }
}

fn static_named(statics: &Vec<StaticOutput>, name: &str) -> (found: bool)
    ensures
        found == static_names(statics@).contains(name@),
{
    let mut k: usize = 0;
    while k < statics.len()
        invariant
            k <= statics@.len(),
            forall|q: int| 0 <= q < k ==> (#[trigger] statics@[q]).name@ != name@,
        decreases statics@.len() - k,
    {
        if text_equal(statics[k].name.as_str(), name) {
            assert(static_names(statics@)[k as int] == name@);
            return true;
        }
        k = k + 1;
    }
    proof {
        if static_names(statics@).contains(name@) {
            let q = choose|q: int| 0 <= q < static_names(statics@).len() && static_names(statics@)[q] == name@;
            assert(statics@[q].name@ == name@);
        }
    }
    false
}

fn observed_named(observed: &Vec<ObservedOutputBinding>, name: &str) -> (found: bool)
    ensures
        found == binding_names(observed@).contains(name@),
{
    let mut k: usize = 0;
    while k < observed.len()
        invariant
            k <= observed@.len(),
            forall|q: int| 0 <= q < k ==> (#[trigger] observed@[q]).name@ != name@,
        decreases observed@.len() - k,
    {
        if text_equal(observed[k].name.as_str(), name) {
            assert(binding_names(observed@)[k as int] == name@);
            return true;
        }
        k = k + 1;
    }
    proof {
        if binding_names(observed@).contains(name@) {
            let q = choose|q: int| 0 <= q < binding_names(observed@).len() && binding_names(observed@)[q] == name@;
            assert(observed@[q].name@ == name@);
        }
    }
    false
}

fn availability_string(a: Availability) -> (t: String)
    ensures
        t@ == availability_text(a),
{
    match a {
        Availability::Static => "Static".to_string(),
        Availability::Observed => "Observed".to_string(),
    }
}

/// Checks that every required declared output was returned, in declaration
/// order; the first missing one, as `missing_fault` states, is the error.
pub fn ensure_output_completeness(
    metadata: &ComponentMetadata,
    statics: &Vec<StaticOutput>,
    observed: &Vec<ObservedOutputBinding>,
) -> (r: Result<(), EvaluationError>)
    ensures
        r is Ok <==> forall|i: int|
            0 <= i < metadata.outputs@.len() ==> missing_fault(#[trigger] metadata.outputs@[i], static_names(statics@), binding_names(observed@)) is None,
        forall|i: int|
            #![trigger metadata.outputs@[i]]
            0 <= i < metadata.outputs@.len() && (forall|j: int|
                0 <= j < i ==> missing_fault(#[trigger] metadata.outputs@[j], static_names(statics@), binding_names(observed@)) is None) ==> match missing_fault(
                metadata.outputs@[i],
                static_names(statics@),
                binding_names(observed@),
            ) {
                Some(m) => r matches Err(e) && e.message@ == m,
                None => true,
            },
{
    let mut i: usize = 0;
    while i < metadata.outputs.len()
        invariant
            i <= metadata.outputs@.len(),
            forall|j: int| 0 <= j < i ==> missing_fault(#[trigger] metadata.outputs@[j], static_names(statics@), binding_names(observed@)) is None,
        decreases metadata.outputs@.len() - i,
    {
        let name = metadata.outputs[i].0.as_str();
        let declaration = &metadata.outputs[i].1;
        let present = match declaration.availability {
            Availability::Static => static_named(statics, name),
            Availability::Observed => observed_named(observed, name),
        };
        if !present && !declaration.optional {
            let mut m = String::from_str("required ");
            let a = availability_string(declaration.availability);
            m.append(a.as_str());
            m.append(" output ");
            let q = debug_quoted(name);
            m.append(q.as_str());
            m.append(" is missing");
            assert(missing_fault(metadata.outputs@[i as int], static_names(statics@), binding_names(observed@)) is Some);
            return Err(EvaluationError::new(m));
        }
        i = i + 1;
    }
    Ok(())
}

/// A resource of an evaluation attempt.
#[derive(Debug)]
pub struct EvaluationResource {
    pub id: [u8; 16],
    pub component: String,
    pub kind: KindVersion,
    pub name: String,
    pub controller: String,
    pub body: JsonValue,
    pub canonical: String,
    pub outputs: Vec<String>,
}

/// Validates resource bodies for the controllers that own their kinds and
/// supplies each kind's output contract.
pub trait ResourceRegistry {
    fn validate(&self, kind: &KindVersion, body: &JsonValue) -> Result<ResourceContract, String>;
}

/// What checking a returned resource answers: a kind that parses, a
/// logical resource name, and an address written as its kind and name.
pub open spec fn resource_check(kind: Seq<char>, name: Seq<char>, address: Seq<char>) -> Result<
    (Seq<char>, u32, Seq<char>),
    Seq<char>,
> {
    match kind_parse(kind) {
        Err(m) => Err(m),
        Ok((k, v)) => if !logical_name_ok(name) {
            Err(
                "invalid "@ + "resource name"@ + " "@ + debug_quoted_text(name) + "; expected "@
                    + "1-63 lowercase letters, digits, underscores, or hyphens, beginning with a letter"@,
            )
        } else if address != address_text(k, v, name) {
            Err("resource address "@ + debug_quoted_text(address) + " does not match kind/name "@ + address_text(k, v, name))
        } else {
            Ok((k, v, name))
        },
    }
}

/// Checks a returned resource, as `resource_check` states.
pub fn check_resource(resource: &ResourceWire) -> (r: Result<ResourceAddress, EvaluationError>)
    ensures
        match resource_check(resource.kind@, resource.name@, resource.address@) {
            Ok(a) => r matches Ok(x) && address_view(x) == a,
            Err(m) => r matches Err(e) && e.message@ == m,
        },
{
    let kind = match parse_kind(resource.kind.as_str()) {
        Err(e) => {
            return Err(e);
        },
        Ok(k) => k,
    };
    match validate_logical_name(resource.name.as_str(), "resource name") {
        Err(e) => {
            return Err(e);
        },
        Ok(()) => {},
    }
    let address = ResourceAddress { kind, name: resource.name.clone() };
    let text = address.text();
    if !text_equal(resource.address.as_str(), text.as_str()) {
        let mut m = String::from_str("resource address ");
        let q = debug_quoted(resource.address.as_str());
        m.append(q.as_str());
        m.append(" does not match kind/name ");
        m.append(text.as_str());
        return Err(EvaluationError::new(m));
    }
    Ok(address)
}

/// The bytes whose BLAKE3 hash names a resource: a domain tag, the graph
/// id, the component name, a zero byte and the resource address.
pub open spec fn resource_id_preimage(graph_id: Seq<u8>, component: Seq<char>, address: Seq<char>) -> Seq<u8> {
    encode_utf8("henosis-resource-id-v1"@) + seq![0u8] + graph_id + encode_utf8(component) + seq![0u8] + encode_utf8(
        address,
    )
}

/// A resource's stable id: the first sixteen bytes of that hash.
pub open spec fn resource_id(graph_id: Seq<u8>, component: Seq<char>, address: Seq<char>) -> Seq<u8> {
    blake3_digest(resource_id_preimage(graph_id, component, address)).take(16)
}

/// The stable id of the resource at `address` of `component` in a graph.
pub fn stable_resource_id(graph_id: &[u8; 16], component: &str, address: &ResourceAddress) -> (id: [u8; 16])
    ensures
        id@ == resource_id(graph_id@, component@, address_text(address.kind.name@, address.kind.version, address.name@)),
{
    let mut data = "henosis-resource-id-v1".as_bytes_vec();
    data.push(0u8);
    let mut i: usize = 0;
    while i < 16
        invariant
            i <= 16,
            data@ == encode_utf8("henosis-resource-id-v1"@) + seq![0u8] + graph_id@.take(i as int),
        decreases 16 - i,
    {
        data.push(graph_id[i]);
        assert(graph_id@.take(i + 1) =~= graph_id@.take(i as int).push(graph_id@[i as int]));
        i = i + 1;
    }
    assert(graph_id@.take(16) =~= graph_id@);
    let mut c = component.as_bytes_vec();
    data.append(&mut c);
    data.push(0u8);
    let text = address.text();
    let mut a = text.as_str().as_bytes_vec();
    data.append(&mut a);
    assert(data@ =~= resource_id_preimage(
        graph_id@,
        component@,
        address_text(address.kind.name@, address.kind.version, address.name@),
    ));
    let hash = blake3_hash(data.as_slice());
    let mut id = [0u8; 16];
    let mut k: usize = 0;
    while k < 16
        invariant
            k <= 16,
            hash@.len() == 32,
            forall|j: int| 0 <= j < k ==> id@[j] == hash@[j],
        decreases 16 - k,
    {
        id[k] = hash[k];
        k = k + 1;
    }
    assert(id@ =~= hash@.take(16));
    id
}

/// A contract as plain values: its controller and observed outputs.
pub open spec fn contract_view(c: ResourceContract) -> (Seq<char>, Set<Seq<char>>) {
    (c.controller@, c.observed_outputs@)
}

/// What admitting a checked resource at `address` answers, given the
/// registry's verdict on it and the addresses admitted before it.
pub open spec fn admission_fault(
    address: (Seq<char>, u32, Seq<char>),
    verdict: Result<(Seq<char>, Set<Seq<char>>), Seq<char>>,
    seen: Seq<(ResourceAddress, ResourceContract)>,
) -> Option<Seq<char>> {
    match verdict {
        Err(error) => Some("resource "@ + address_text(address.0, address.1, address.2) + " is invalid: "@ + error),
        Ok(_) => if emitted_index(contracts_emitted(seen), address) is Some {
            Some("resource address "@ + address_text(address.0, address.1, address.2) + " was emitted more than once"@)
        } else {
            None
        },
    }
}

/// The registry's verdict as plain values.
pub open spec fn verdict_view(v: Result<ResourceContract, String>) -> Result<(Seq<char>, Set<Seq<char>>), Seq<char>> {
    match v {
        Ok(c) => Ok(contract_view(c)),
        Err(e) => Err(e@),
    }
}

/// Admits a checked resource given the registry's verdict on it: a refused
/// body or an address admitted before is the error; else the resource of
/// the attempt, with its stable id, the contract's controller and the
/// contract's observed outputs in ascending order, and the contract, which
/// joins `seen`.
pub fn admit_resource(
    request: &EvaluationRequest,
    resource: ResourceWire,
    address: ResourceAddress,
    verdict: Result<ResourceContract, String>,
    seen: &mut Vec<(ResourceAddress, ResourceContract)>,
) -> (r: Result<EvaluationResource, EvaluationError>)
    ensures
        match admission_fault(address_view(address), verdict_view(verdict), old(seen)@) {
            Some(m) => r matches Err(e) && e.message@ == m && final(seen)@ == old(seen)@,
            None => r matches Ok(x) && verdict matches Ok(c) && x.id@ == resource_id(
                request.graph_id@,
                request.component@,
                address_text(address.kind.name@, address.kind.version, address.name@),
            ) && x.component@ == request.component@ && x.kind.name@ == address.kind.name@ && x.kind.version
                == address.kind.version && x.name@ == address.name@ && x.controller@ == c.controller@ && x.body
                == resource.body && x.canonical@ == resource.canonical@ && strictly_ascending(texts(x.outputs@))
                && texts(x.outputs@).to_set() == c.observed_outputs@ && final(seen)@.len() == old(seen)@.len() + 1
                && final(seen)@.take(old(seen)@.len() as int) == old(seen)@ && address_view(final(seen)@.last().0)
                == address_view(address) && contract_view(final(seen)@.last().1) == contract_view(c),
        },
{
    let contract = match verdict {
        Err(error) => {
            let mut m = String::from_str("resource ");
            let t = address.text();
            m.append(t.as_str());
            m.append(" is invalid: ");
            m.append(error.as_str());
            return Err(EvaluationError::new(m));
        },
        Ok(c) => c,
    };
    if find_contract(seen, &address).is_some() {
        let mut m = String::from_str("resource address ");
        let t = address.text();
        m.append(t.as_str());
        m.append(" was emitted more than once");
        return Err(EvaluationError::new(m));
    }
    let id = stable_resource_id(&request.graph_id, request.component.as_str(), &address);
    let listed = contract.observed_outputs.items();
    let mut outputs: Vec<String> = Vec::new();
    let mut i: usize = 0;
    while i < listed.len()
        invariant
            i <= listed@.len(),
            outputs@.len() == i,
            forall|j: int| 0 <= j < i ==> (#[trigger] outputs@[j])@ == listed@[j]@,
        decreases listed@.len() - i,
    {
        let o = listed[i].clone();
        outputs.push(o);
        i = i + 1;
    }
    assert(texts(outputs@) =~= texts(listed@));
    let resource_entry = EvaluationResource {
        id,
        component: request.component.clone(),
        kind: KindVersion { name: address.kind.name.clone(), version: address.kind.version },
        name: address.name.clone(),
        controller: contract.controller.clone(),
        body: resource.body,
        canonical: resource.canonical,
        outputs,
    };
    seen.push((address, contract));
    assert(seen@.take(seen@.len() - 1) =~= old(seen)@);
    Ok(resource_entry)
}

/// A resource's address as plain values.
pub open spec fn resource_address(x: EvaluationResource) -> (Seq<char>, u32, Seq<char>) {
    (x.kind.name@, x.kind.version, x.name@)
}

/// What some resources offer observed outputs from: each one's address and
/// the outputs it declares.
pub open spec fn resources_emitted(rs: Seq<EvaluationResource>) -> Seq<
    ((Seq<char>, u32, Seq<char>), Set<Seq<char>>),
> {
    rs.map_values(|x: EvaluationResource| (resource_address(x), texts(x.outputs@).to_set()))
}

/// `rs` are the resources admitted for the returned `wires`, one for one,
/// whatever contracts the registry gave: each wire passed its check at the
/// resource's address, and the resource has its stable id, the request's
/// component, the wire's body and canonical text, and its outputs in
/// ascending order; no address occurs twice.
pub open spec fn admitted(request: EvaluationRequest, wires: Seq<ResourceWire>, rs: Seq<EvaluationResource>) -> bool {
    &&& rs.len() == wires.len()
    &&& forall|i: int|
        #![trigger rs[i]]
        0 <= i < rs.len() ==> {
            &&& resource_check(wires[i].kind@, wires[i].name@, wires[i].address@) == Ok::<_, Seq<char>>(
                resource_address(rs[i]),
            )
            &&& rs[i].id@ == resource_id(request.graph_id@, request.component@, wires[i].address@)
            &&& rs[i].component@ == request.component@
            &&& rs[i].body == wires[i].body
            &&& rs[i].canonical@ == wires[i].canonical@
            &&& strictly_ascending(texts(rs[i].outputs@))
        }
    &&& forall|i: int, j: int|
        0 <= i < j < rs.len() ==> resource_address(#[trigger] rs[i]) != resource_address(#[trigger] rs[j])
}

/// Checks and admits each returned resource in order, asking `registry` for
/// its verdict on every resource that passes its check. The first fault is
/// the error. Whatever the registry answers, a success holds one resource
/// per returned resource, each as `check_resource` and `admit_resource`
/// state, and one contract per resource at its address, each address once.
/// With no resources returned the registry is not asked and the conversion
/// succeeds with none.
/// `message` refuses the admission of the checked resource `wires[j]`:
/// the registry refused its body, or its address was emitted before.
pub open spec fn admission_refusal(wires: Seq<ResourceWire>, j: int, message: Seq<char>) -> bool {
    resource_check(wires[j].kind@, wires[j].name@, wires[j].address@) matches Ok(a) && {
        let refused = "resource "@ + address_text(a.0, a.1, a.2) + " is invalid: "@;
        ||| (message.len() >= refused.len() && message.subrange(0, refused.len() as int) == refused)
        ||| message == "resource address "@ + address_text(a.0, a.1, a.2) + " was emitted more than once"@
    }
}

/// `wires[i]` is the first resource that fails its check, with `m`.
pub open spec fn first_refused(wires: Seq<ResourceWire>, i: int, m: Seq<char>) -> bool {
    &&& 0 <= i < wires.len()
    &&& forall|j: int| #![trigger wires[j]] 0 <= j < i ==> resource_check(wires[j].kind@, wires[j].name@, wires[j].address@) is Ok
    &&& resource_check(wires[i].kind@, wires[i].name@, wires[i].address@) == Err::<(Seq<char>, u32, Seq<char>), Seq<char>>(m)
}

pub fn convert_resources<R: ResourceRegistry>(
    request: &EvaluationRequest,
    resources: Vec<ResourceWire>,
    registry: &R,
) -> (r: Result<(Vec<EvaluationResource>, Vec<(ResourceAddress, ResourceContract)>), EvaluationError>)
    ensures
        r matches Ok((converted, contracts)) ==> {
            &&& converted@.len() == resources@.len()
            &&& contracts@.len() == resources@.len()
            &&& forall|i: int|
                #![trigger converted@[i]]
                0 <= i < resources@.len() ==> {
                    let w = resources@[i];
                    let x = converted@[i];
                    &&& resource_check(w.kind@, w.name@, w.address@) == Ok::<_, Seq<char>>(
                        address_view(contracts@[i].0),
                    )
                    &&& (x.kind.name@, x.kind.version, x.name@) == address_view(contracts@[i].0)
                    &&& x.id@ == resource_id(request.graph_id@, request.component@, w.address@)
                    &&& x.component@ == request.component@
                    &&& x.body == w.body
                    &&& x.canonical@ == w.canonical@
                    &&& x.controller@ == contracts@[i].1.controller@
                    &&& strictly_ascending(texts(x.outputs@))
                    &&& texts(x.outputs@).to_set() == contracts@[i].1.observed_outputs@
                }
            &&& forall|i: int, j: int|
                0 <= i < j < contracts@.len() ==> address_view(#[trigger] contracts@[i].0) != address_view(
                    #[trigger] contracts@[j].0,
                )
        },
        forall|i: int|
            #![trigger resources@[i]]
            0 <= i < resources@.len() && (forall|j: int|
                #![trigger resources@[j]]
                0 <= j < i ==> resource_check(resources@[j].kind@, resources@[j].name@, resources@[j].address@) is Ok)
                && resource_check(resources@[i].kind@, resources@[i].name@, resources@[i].address@) is Err ==> r is Err,
        forall|i: int, m: Seq<char>| #[trigger] first_refused(resources@, i, m) ==> (r matches Err(e) && (e.message@ == m
            || exists|j: int| 0 <= j < i && #[trigger] admission_refusal(resources@, j, e.message@))),
        r matches Ok((converted, contracts)) ==> admitted(*request, resources@, converted@) && contracts_emitted(contracts@)
            == resources_emitted(converted@),
        resources@.len() == 0 ==> (r matches Ok((converted, contracts)) && converted@.len() == 0 && contracts@.len() == 0),
{
    let ghost all = resources@;
    let mut rest = resources;
    let mut converted: Vec<EvaluationResource> = Vec::new();
    let mut contracts: Vec<(ResourceAddress, ResourceContract)> = Vec::new();
    while rest.len() > 0
        invariant
            all == resources@,
            converted@.len() + rest@.len() == all.len(),
            contracts@.len() == converted@.len(),
            rest@ == all.skip(converted@.len() as int),
            forall|i: int|
                #![trigger converted@[i]]
                0 <= i < converted@.len() ==> {
                    let w = all[i];
                    let x = converted@[i];
                    &&& resource_check(w.kind@, w.name@, w.address@) == Ok::<_, Seq<char>>(
                        address_view(contracts@[i].0),
                    )
                    &&& (x.kind.name@, x.kind.version, x.name@) == address_view(contracts@[i].0)
                    &&& x.id@ == resource_id(request.graph_id@, request.component@, w.address@)
                    &&& x.component@ == request.component@
                    &&& x.body == w.body
                    &&& x.canonical@ == w.canonical@
                    &&& x.controller@ == contracts@[i].1.controller@
                    &&& strictly_ascending(texts(x.outputs@))
                    &&& texts(x.outputs@).to_set() == contracts@[i].1.observed_outputs@
                },
            forall|i: int, j: int|
                0 <= i < j < contracts@.len() ==> address_view(#[trigger] contracts@[i].0) != address_view(
                    #[trigger] contracts@[j].0,
                ),
        decreases rest@.len(),
    {
        let ghost k = converted@.len() as int;
        let resource = rest.remove(0);
        assert(all[k] == resource);
        let address = match check_resource(&resource) {
            Err(e) => {
                proof {
                    assert forall|i: int, m: Seq<char>| #[trigger] first_refused(all, i, m) implies e.message@ == m by {
                        if i < k {
                            let x = converted@[i];
                            assert(resource_check(all[i].kind@, all[i].name@, all[i].address@) == Ok::<_, Seq<char>>(
                                address_view(contracts@[i].0),
                            ));
                        } else if i > k {
                            assert(resource_check(all[k].kind@, all[k].name@, all[k].address@) is Ok);
                        }
                    }
                }
                return Err(e);
            },
            Ok(a) => a,
        };
        let verdict = registry.validate(&address.kind, &resource.body);
        let ghost before = contracts@;
        let ghost av = address_view(address);
        match admit_resource(request, resource, address, verdict, &mut contracts) {
            Err(e) => {
                proof {
                    assert(admission_refusal(all, k, e.message@)) by {
                        let refused = "resource "@ + address_text(av.0, av.1, av.2) + " is invalid: "@;
                        if verdict is Err {
                            assert(e.message@.subrange(0, refused.len() as int) =~= refused);
                        }
                    }
                    assert forall|i: int, m: Seq<char>| #[trigger] first_refused(all, i, m) implies exists|j: int|
                        0 <= j < i && #[trigger] admission_refusal(all, j, e.message@) by {
                        if i < k {
                            let x = converted@[i];
                            assert(resource_check(all[i].kind@, all[i].name@, all[i].address@) == Ok::<_, Seq<char>>(
                                address_view(before[i].0),
                            ));
                        } else if i == k {
                            assert(resource_check(all[k].kind@, all[k].name@, all[k].address@) is Ok);
                        }
                    }
                }
                return Err(e);
            },
            Ok(x) => {
                proof {
                    reveal(emitted_index);
                    assert forall|i: int, j: int|
                        0 <= i < j < contracts@.len() implies address_view(#[trigger] contracts@[i].0) != address_view(
                        #[trigger] contracts@[j].0,
                    ) by {
                        if j < before.len() {
                            assert(contracts@[i] == before[i]);
                            assert(contracts@[j] == before[j]);
                        } else {
                            assert(contracts@[i] == before[i]);
                            if address_view(before[i].0) == address_view(contracts@[j].0) {
                                let e = contracts_emitted(before);
                                assert(e[i].0 == address_view(before[i].0));
                            }
                        }
                    }
                    assert forall|i: int| 0 <= i < before.len() implies contracts@[i] == before[i] by {
                        assert(contracts@.take(before.len() as int)[i] == before[i]);
                    }
                }
                converted.push(x);
            },
        }
        assert(rest@ =~= all.skip(converted@.len() as int));
    }
    assert forall|i: int| 0 <= i < all.len() implies resource_check(
        all[i].kind@,
        all[i].name@,
        all[i].address@,
    ) is Ok by {
        let x = converted@[i];
        assert(resource_check(all[i].kind@, all[i].name@, all[i].address@) == Ok::<_, Seq<char>>(
            address_view(contracts@[i].0),
        ));
    }
    assert forall|i: int, j: int|
        0 <= i < j < converted@.len() implies resource_address(#[trigger] converted@[i]) != resource_address(
        #[trigger] converted@[j],
    ) by {
        assert(address_view(contracts@[i].0) != address_view(contracts@[j].0));
    }
    assert(contracts_emitted(contracts@) =~= resources_emitted(converted@));
    Ok((converted, contracts))
}

/// Why an evaluation is blocked: the input, the output it reads, what the
/// component was doing and a message.
#[derive(Debug)]
pub struct BlockedDetail {
    pub input: String,
    pub source: OutputRef,
    pub operation: String,
    pub message: String,
}

/// The outcome of evaluating a component.
#[derive(Debug)]
pub enum EvaluationAttempt {
    Complete {
        resources: Vec<EvaluationResource>,
        outputs: Vec<StaticOutput>,
        observed_outputs: Vec<ObservedOutputBinding>,
        reads: Vec<String>,
    },
    Blocked { resources: Vec<EvaluationResource>, blocked: BlockedDetail, reads: Vec<String> },
}

/// The index of the first snapshot cell named `name`.
#[verifier::opaque]
pub open spec fn cell_index(cells: Seq<InputCell>, name: Seq<char>) -> Option<int> {
    if exists|i: int| 0 <= i < cells.len() && cells[i].name@ == name {
        Some(choose|i: int| 0 <= i < cells.len() && cells[i].name@ == name && forall|j: int| 0 <= j < i ==> cells[j].name@ != name)
    } else {
        None
    }
}

/// Finds the first cell named `name`, as `cell_index` states.
pub fn find_cell(cells: &Vec<InputCell>, name: &str) -> (at: Option<usize>)
    ensures
        match at {
            Some(i) => cell_index(cells@, name@) == Some(i as int) && i < cells@.len(),
            None => cell_index(cells@, name@) is None,
        },
{
    let mut i: usize = 0;
    while i < cells.len()
        invariant
            i <= cells@.len(),
            forall|j: int| 0 <= j < i ==> cells@[j].name@ != name@,
        decreases cells@.len() - i,
    {
        if text_equal(cells[i].name.as_str(), name) {
            proof {
                reveal(cell_index);
                assert(cells@[i as int].name@ == name@);
                let c = choose|c: int|
                    0 <= c < cells@.len() && cells@[c].name@ == name@ && forall|j: int| 0 <= j < c ==> cells@[j].name@ != name@;
                if c < i {
                } else if c > i {
                }
            }
            return Some(i);
        }
        i = i + 1;
    }
    proof {
        reveal(cell_index);
    }
    None
}

/// How a declared input's source is written: `component.output`.
pub open spec fn source_text(m: InputMetadata) -> Seq<char> {
    m.component@ + "."@ + m.output@
}

/// Why a blocked result is refused, if it is: the blocked input must be a
/// snapshot cell, declared by the bundle, with the source it declares.
pub open spec fn blocked_fault(request: EvaluationRequest, metadata: ComponentMetadata, input: Seq<char>, source: Seq<char>) -> Option<
    Seq<char>,
> {
    if api_fault("input name"@, input) is Some {
        Some("invalid blocked input: "@ + api_fault("input name"@, input)->Some_0)
    } else if cell_index(request.cells@, input) is None {
        Some("blocked result refers to an undeclared input"@)
    } else {
        match first_key(metadata.inputs@, input) {
            None => Some("blocked input missing from metadata"@),
            Some(i) => if source != source_text(metadata.inputs@[i].1) {
                Some(
                    "blocked source "@ + debug_quoted_text(source) + " does not match declared source "@
                        + debug_quoted_text(source_text(metadata.inputs@[i].1)),
                )
            } else {
                None
            },
        }
    }
}

/// Builds the blocked attempt for a blocked result whose resources were
/// admitted: refused as `blocked_fault` states, else blocked on the named
/// input with the source of its snapshot cell.
pub fn blocked_attempt(
    request: &EvaluationRequest,
    metadata: &ComponentMetadata,
    resources: Vec<EvaluationResource>,
    blocked: BlockedWire,
    reads: Vec<String>,
) -> (r: Result<EvaluationAttempt, EvaluationError>)
    ensures
        match blocked_fault(*request, *metadata, blocked.input@, blocked.source@) {
            Some(m) => r matches Err(e) && e.message@ == m,
            None => r matches Ok(EvaluationAttempt::Blocked { resources: rs, blocked: d, reads: rd }) && {
                &&& rs == resources
                &&& rd == reads
                &&& d.input@ == blocked.input@
                &&& d.operation@ == blocked.operation@
                &&& d.message@ == blocked.message@
                &&& (cell_index(request.cells@, blocked.input@) matches Some(c) && d.source.component@
                    == request.cells@[c].source.component@ && d.source.output@ == request.cells@[c].source.output@)
            },
        },
{
    match validate_api_name(blocked.input.as_str(), "input name") {
        Err(e) => {
            let mut m = String::from_str("invalid blocked input: ");
            m.append(e.message.as_str());
            return Err(EvaluationError::new(m));
        },
        Ok(()) => {},
    }
    let cell = match find_cell(&request.cells, blocked.input.as_str()) {
        None => {
            return Err(EvaluationError::new("blocked result refers to an undeclared input".to_string()));
        },
        Some(at) => &request.cells[at],
    };
    let declared = match find_key(&metadata.inputs, blocked.input.as_str()) {
        None => {
            return Err(EvaluationError::new("blocked input missing from metadata".to_string()));
        },
        Some(at) => &metadata.inputs[at].1,
    };
    let mut expected = declared.component.clone();
    expected.append(".");
    expected.append(declared.output.as_str());
    if !text_equal(blocked.source.as_str(), expected.as_str()) {
        let mut m = String::from_str("blocked source ");
        let q = debug_quoted(blocked.source.as_str());
        m.append(q.as_str());
        m.append(" does not match declared source ");
        let e = debug_quoted(expected.as_str());
        m.append(e.as_str());
        return Err(EvaluationError::new(m));
    }
    let source = OutputRef { component: cell.source.component.clone(), output: cell.source.output.clone() };
    let detail = BlockedDetail { input: blocked.input, source, operation: blocked.operation, message: blocked.message };
    Ok(EvaluationAttempt::Blocked { resources, blocked: detail, reads })
}

/// The names of the static outputs a bundle returned.
pub open spec fn returned_names(outputs: Seq<(String, JsonValue)>) -> Seq<Seq<char>> {
    outputs.map_values(|o: (String, JsonValue)| o.0@)
}

/// The names of the observed bindings a bundle returned.
pub open spec fn returned_bindings(outputs: Seq<(String, BindingWire)>) -> Seq<Seq<char>> {
    outputs.map_values(|o: (String, BindingWire)| o.0@)
}

/// Every returned static output is accepted.
pub open spec fn statics_clean(metadata: ComponentMetadata, outputs: Seq<(String, JsonValue)>) -> bool {
    forall|i: int|
        #![trigger outputs[i]]
        0 <= i < outputs.len() ==> static_fault(metadata.outputs@, outputs[i].0@, json_view(outputs[i].1)) is None
}

/// Every returned observed binding is accepted.
pub open spec fn bindings_clean(
    metadata: ComponentMetadata,
    emitted: Seq<((Seq<char>, u32, Seq<char>), Set<Seq<char>>)>,
    outputs: Seq<(String, BindingWire)>,
) -> bool {
    forall|i: int|
        #![trigger outputs[i]]
        0 <= i < outputs.len() ==> observed_fault(metadata.outputs@, emitted, outputs[i].0@, outputs[i].1.resource@, outputs[i].1.output@)
            is None
}

/// No required declared output is missing.
pub open spec fn outputs_complete(metadata: ComponentMetadata, statics: Seq<Seq<char>>, observed: Seq<Seq<char>>) -> bool {
    forall|i: int| 0 <= i < metadata.outputs@.len() ==> missing_fault(#[trigger] metadata.outputs@[i], statics, observed) is None
}

/// Builds the complete attempt for a complete result whose resources were
/// admitted under `contracts`: its static outputs, then its observed
/// bindings, then its completeness are checked, and the first fault of the
/// first stage that has one is the error.
/// The refusal of the first read that is not an input name, if any.
pub open spec fn read_fault(reads: Seq<String>) -> Option<Seq<char>>
    decreases reads.len(),
{
    if reads.len() == 0 {
        None
    } else {
        match read_fault(reads.drop_last()) {
            Some(m) => Some(m),
            None => match api_fault("input name"@, reads.last()@) {
                Some(m) => Some("invalid read name: "@ + m),
                None => None,
            },
        }
    }
}

/// Checks that every read names an input, as `read_fault` states.
pub fn check_reads(reads: &Vec<String>) -> (r: Result<(), EvaluationError>)
    ensures
        match read_fault(reads@) {
            None => r is Ok,
            Some(m) => r matches Err(e) && e.message@ == m,
        },
{
    let mut k: usize = 0;
    while k < reads.len()
        invariant
            k <= reads@.len(),
            read_fault(reads@.take(k as int)) is None,
        decreases reads@.len() - k,
    {
        assert(reads@.take(k + 1).drop_last() =~= reads@.take(k as int));
        assert(reads@.take(k + 1).last() == reads@[k as int]);
        match validate_api_name(reads[k].as_str(), "input name") {
            Err(e) => {
                let mut m = String::from_str("invalid read name: ");
                m.append(e.message.as_str());
                proof {
                    lemma_read_fault_prefix(reads@, k as int + 1);
                }
                return Err(EvaluationError::new(m));
            },
            Ok(()) => {},
        }
        k = k + 1;
    }
    assert(reads@.take(reads@.len() as int) =~= reads@);
    Ok(())
}

proof fn lemma_read_fault_prefix(reads: Seq<String>, j: int)
    requires
        0 <= j <= reads.len(),
        read_fault(reads.take(j)) is Some,
    ensures
        read_fault(reads) == read_fault(reads.take(j)),
    decreases reads.len() - j,
{
    if j < reads.len() {
        assert(reads.take(j + 1).drop_last() =~= reads.take(j));
        lemma_read_fault_prefix(reads, j + 1);
    } else {
        assert(reads.take(j) =~= reads);
    }
}

/// How a completed result with no resource refused turns out: an attempt
/// exactly when its static outputs, bindings (against the resources
/// `emitted`) and required outputs are clean; otherwise the first fault
/// found, statics first, then bindings, then missing outputs, then reads
/// that are not input names.
#[verifier::opaque]
pub open spec fn complete_outcome(
    metadata: ComponentMetadata,
    emitted: Seq<((Seq<char>, u32, Seq<char>), Set<Seq<char>>)>,
    outputs: Seq<(String, JsonValue)>,
    observed: Seq<(String, BindingWire)>,
    reads: Seq<String>,
    r: Result<EvaluationAttempt, EvaluationError>,
) -> bool {
    &&& (r is Ok <==> statics_clean(metadata, outputs) && bindings_clean(metadata, emitted, observed)
        && outputs_complete(metadata, returned_names(outputs), returned_bindings(observed)) && read_fault(reads) is None)
    &&& statics_clean(metadata, outputs) && bindings_clean(metadata, emitted, observed) && outputs_complete(
        metadata,
        returned_names(outputs),
        returned_bindings(observed),
    ) ==> match read_fault(reads) {
        Some(m) => r matches Err(e) && e.message@ == m,
        None => true,
    }
    &&& forall|i: int|
        #![trigger outputs[i]]
        0 <= i < outputs.len() && (forall|j: int|
            #![trigger outputs[j]]
            0 <= j < i ==> static_fault(metadata.outputs@, outputs[j].0@, json_view(outputs[j].1)) is None)
            ==> match static_fault(metadata.outputs@, outputs[i].0@, json_view(outputs[i].1)) {
            Some(m) => r matches Err(e) && e.message@ == m,
            None => true,
        }
    &&& statics_clean(metadata, outputs) ==> forall|i: int|
        #![trigger observed[i]]
        0 <= i < observed.len() && (forall|j: int|
            #![trigger observed[j]]
            0 <= j < i ==> observed_fault(
                metadata.outputs@,
                emitted,
                observed[j].0@,
                observed[j].1.resource@,
                observed[j].1.output@,
            ) is None) ==> match observed_fault(
            metadata.outputs@,
            emitted,
            observed[i].0@,
            observed[i].1.resource@,
            observed[i].1.output@,
        ) {
            Some(m) => r matches Err(e) && e.message@ == m,
            None => true,
        }
    &&& statics_clean(metadata, outputs) && bindings_clean(metadata, emitted, observed) ==> forall|i: int|
        #![trigger metadata.outputs@[i]]
        0 <= i < metadata.outputs@.len() && (forall|j: int|
            0 <= j < i ==> missing_fault(#[trigger] metadata.outputs@[j], returned_names(outputs), returned_bindings(observed))
                is None) ==> match missing_fault(metadata.outputs@[i], returned_names(outputs), returned_bindings(observed)) {
            Some(m) => r matches Err(e) && e.message@ == m,
            None => true,
        }
}

pub fn complete_attempt(
    metadata: &ComponentMetadata,
    resources: Vec<EvaluationResource>,
    contracts: &Vec<(ResourceAddress, ResourceContract)>,
    outputs: Vec<(String, JsonValue)>,
    observed: Vec<(String, BindingWire)>,
    reads: Vec<String>,
) -> (r: Result<EvaluationAttempt, EvaluationError>)
    ensures
        complete_outcome(*metadata, contracts_emitted(contracts@), outputs@, observed@, reads@, r),
        r is Ok <==> statics_clean(*metadata, outputs@) && bindings_clean(*metadata, contracts_emitted(contracts@), observed@)
            && outputs_complete(*metadata, returned_names(outputs@), returned_bindings(observed@)) && read_fault(reads@)
            is None,
        r matches Ok(EvaluationAttempt::Complete { resources: rs, outputs: so, observed_outputs: ob, reads: rd }) ==> {
            &&& rs == resources
            &&& rd == reads
            &&& so@.len() == outputs@.len()
            &&& forall|i: int|
                0 <= i < so@.len() ==> (#[trigger] so@[i]).name@ == outputs@[i].0@ && so@[i].value == outputs@[i].1
            &&& ob@.len() == observed@.len()
            &&& forall|i: int|
                0 <= i < ob@.len() ==> (#[trigger] ob@[i]).name@ == observed@[i].0@ && ob@[i].output@
                    == observed@[i].1.output@ && address_parse(observed@[i].1.resource@) == Ok::<_, Seq<char>>(
                    address_view(ob@[i].resource),
                )
        },
        r matches Ok(a) ==> a is Complete,
{
    proof {
        reveal(complete_outcome);
    }
    let ghost outs = outputs@;
    let ghost obs = observed@;
    let statics = match convert_static_outputs(metadata, outputs) {
        Err(e) => {
            return Err(e);
        },
        Ok(v) => v,
    };
    let bindings = match convert_observed_outputs(metadata, observed, contracts) {
        Err(e) => {
            return Err(e);
        },
        Ok(v) => v,
    };
    assert(static_names(statics@) =~= returned_names(outs));
    assert(binding_names(bindings@) =~= returned_bindings(obs));
    match ensure_output_completeness(metadata, &statics, &bindings) {
        Err(e) => {
            return Err(e);
        },
        Ok(()) => {},
    }
    match check_reads(&reads) {
        Err(e) => {
            return Err(e);
        },
        Ok(()) => {},
    }
    Ok(EvaluationAttempt::Complete { resources, outputs: statics, observed_outputs: bindings, reads })
}

/// How `require_protocol` refuses `version`.
pub open spec fn protocol_message(version: u32) -> Seq<char> {
    "result protocol version "@ + decimal(version as nat) + " does not match "@ + decimal(PROTOCOL_VERSION as nat)
}

/// Some resource fails its check, and every one before it passed.
pub open spec fn some_resource_refused(wires: Seq<ResourceWire>) -> bool {
    exists|i: int|
        #![trigger wires[i]]
        0 <= i < wires.len() && resource_check(wires[i].kind@, wires[i].name@, wires[i].address@) is Err && forall|j: int|
            #![trigger wires[j]]
            0 <= j < i ==> resource_check(wires[j].kind@, wires[j].name@, wires[j].address@) is Ok
}

/// What converting a completed result comes to (see `convert_result`).
pub open spec fn complete_converted(
    request: EvaluationRequest,
    metadata: ComponentMetadata,
    protocol_version: u32,
    resources: Vec<ResourceWire>,
    outputs: Vec<(String, JsonValue)>,
    observed_outputs: Vec<(String, BindingWire)>,
    reads: Vec<String>,
    r: Result<EvaluationAttempt, EvaluationError>,
) -> bool {
        &&& protocol_version != PROTOCOL_VERSION ==> (r matches Err(e) && e.message@ == protocol_message(
            protocol_version,
        ))
        &&& protocol_version == PROTOCOL_VERSION && some_resource_refused(resources@) ==> r is Err
        &&& protocol_version == PROTOCOL_VERSION ==> forall|i: int, m: Seq<char>| #[trigger] first_refused(
            resources@,
            i,
            m,
        ) ==> (r matches Err(e) && (e.message@ == m || exists|j: int|
            0 <= j < i && #[trigger] admission_refusal(resources@, j, e.message@)))
        &&& protocol_version == PROTOCOL_VERSION && resources@.len() == 0 ==> complete_outcome(
            metadata,
            contracts_emitted(Seq::<(ResourceAddress, ResourceContract)>::empty()),
            outputs@,
            observed_outputs@,
            reads@,
            r,
        )
        &&& r matches Ok(a) ==> (a matches EvaluationAttempt::Complete {
            resources: rs,
            outputs: so,
            observed_outputs: ob,
            reads: rd,
        } && {
            &&& admitted(request, resources@, rs@)
            &&& statics_clean(metadata, outputs@)
            &&& bindings_clean(metadata, resources_emitted(rs@), observed_outputs@)
            &&& outputs_complete(metadata, returned_names(outputs@), returned_bindings(observed_outputs@))
            &&& read_fault(reads@) is None
            &&& static_names(so@) == returned_names(outputs@)
            &&& binding_names(ob@) == returned_bindings(observed_outputs@)
            &&& rd == reads
        })
}

/// What converting a blocked result comes to (see `convert_result`).
pub open spec fn blocked_converted(
    request: EvaluationRequest,
    metadata: ComponentMetadata,
    protocol_version: u32,
    resources: Vec<ResourceWire>,
    blocked: BlockedWire,
    reads: Vec<String>,
    r: Result<EvaluationAttempt, EvaluationError>,
) -> bool {
        &&& protocol_version != PROTOCOL_VERSION ==> (r matches Err(e) && e.message@ == protocol_message(
            protocol_version,
        ))
        &&& protocol_version == PROTOCOL_VERSION && blocked.code@ != blocked_code() ==> (r matches Err(e)
            && e.message@ == "blocked result has unknown code "@ + debug_quoted_text(blocked.code@))
        &&& protocol_version == PROTOCOL_VERSION && blocked.code@ == blocked_code() && some_resource_refused(
            resources@,
        ) ==> r is Err
        &&& protocol_version == PROTOCOL_VERSION && blocked.code@ == blocked_code() ==> forall|i: int, m: Seq<char>|
            #[trigger] first_refused(resources@, i, m) ==> (r matches Err(e) && (e.message@ == m || exists|j: int|
            0 <= j < i && #[trigger] admission_refusal(resources@, j, e.message@)))
        &&& protocol_version == PROTOCOL_VERSION && blocked.code@ == blocked_code() && resources@.len() == 0
            ==> match blocked_fault(request, metadata, blocked.input@, blocked.source@) {
            Some(m) => r matches Err(e) && e.message@ == m,
            None => r is Ok,
        }
        &&& r matches Ok(a) ==> (a matches EvaluationAttempt::Blocked { resources: rs, blocked: d, reads: rd }
            && {
            &&& admitted(request, resources@, rs@)
            &&& blocked_fault(request, metadata, blocked.input@, blocked.source@) is None
            &&& d.input@ == blocked.input@
            &&& d.operation@ == blocked.operation@
            &&& d.message@ == blocked.message@
            &&& rd == reads
        })
}

#[verifier::rlimit(40)]
fn convert_complete<R: ResourceRegistry>(
    request: &EvaluationRequest,
    metadata: &ComponentMetadata,
    protocol_version: u32,
    resources: Vec<ResourceWire>,
    outputs: Vec<(String, JsonValue)>,
    observed_outputs: Vec<(String, BindingWire)>,
    reads: Vec<String>,
    registry: &R,
) -> (r: Result<EvaluationAttempt, EvaluationError>)
    ensures
        complete_converted(*request, *metadata, protocol_version, resources, outputs, observed_outputs, reads, r),
{
    match require_protocol(protocol_version) {
        Err(e) => {
            return Err(e);
        },
        Ok(()) => {},
    }
    let (converted, contracts) = match convert_resources(request, resources, registry) {
        Err(e) => {
            return Err(e);
        },
        Ok(pair) => pair,
    };
    let ghost outs = outputs@;
    let ghost obs = observed_outputs@;
    let r = complete_attempt(metadata, converted, &contracts, outputs, observed_outputs, reads);
    proof {
        if resources@.len() == 0 {
            assert(contracts@ =~= Seq::<(ResourceAddress, ResourceContract)>::empty());
        }
        if r is Ok {
            let so = r->Ok_0->Complete_outputs;
            let ob = r->Ok_0->Complete_observed_outputs;
            assert(static_names(so@) =~= returned_names(outs));
            assert(binding_names(ob@) =~= returned_bindings(obs));
        }
    }
    r
        }

#[verifier::rlimit(40)]
fn convert_blocked<R: ResourceRegistry>(
    request: &EvaluationRequest,
    metadata: &ComponentMetadata,
    protocol_version: u32,
    resources: Vec<ResourceWire>,
    blocked: BlockedWire,
    reads: Vec<String>,
    registry: &R,
) -> (r: Result<EvaluationAttempt, EvaluationError>)
    ensures
        blocked_converted(*request, *metadata, protocol_version, resources, blocked, reads, r),
{
    match require_protocol(protocol_version) {
        Err(e) => {
            return Err(e);
        },
        Ok(()) => {},
    }
    if !text_equal(blocked.code.as_str(), "HENOSIS_BLOCKED") {
        let mut m = String::from_str("blocked result has unknown code ");
        let q = debug_quoted(blocked.code.as_str());
        m.append(q.as_str());
        return Err(EvaluationError::new(m));
    }
    let (converted, _contracts) = match convert_resources(request, resources, registry) {
        Err(e) => {
            return Err(e);
        },
        Ok(pair) => pair,
    };
    blocked_attempt(request, metadata, converted, blocked, reads)
}

/// Turns what a bundle returned into an evaluation attempt. The protocol
/// version must be this host's, and a blocked result must carry the blocked
/// code; then its resources are checked and admitted, asking `registry`,
/// and the rest goes as `complete_attempt` or `blocked_attempt` states over
/// the resources admitted. Whatever the registry answers, a success is of
/// the result's kind and holds what those functions state.
pub fn convert_result<R: ResourceRegistry>(
    request: &EvaluationRequest,
    metadata: &ComponentMetadata,
    wire: EvaluationResultWire,
    registry: &R,
) -> (r: Result<EvaluationAttempt, EvaluationError>)
    ensures
        match wire {
            EvaluationResultWire::Complete { protocol_version, resources, outputs, observed_outputs, reads } => complete_converted(
                *request,
                *metadata,
                protocol_version,
                resources,
                outputs,
                observed_outputs,
                reads,
                r,
            ),
            EvaluationResultWire::Blocked { protocol_version, resources, blocked, reads } => blocked_converted(
                *request,
                *metadata,
                protocol_version,
                resources,
                blocked,
                reads,
                r,
            ),
        },
{
    match wire {
        EvaluationResultWire::Complete { protocol_version, resources, outputs, observed_outputs, reads } => {
            convert_complete(request, metadata, protocol_version, resources, outputs, observed_outputs, reads, registry)
        },
        EvaluationResultWire::Blocked { protocol_version, resources, blocked, reads } => {
            convert_blocked(request, metadata, protocol_version, resources, blocked, reads, registry)
        },
    }
}

/// How a logical name under `label` is refused, if it is.
pub open spec fn logical_fault(label: Seq<char>, value: Seq<char>) -> Option<Seq<char>> {
    if logical_name_ok(value) {
        None
    } else {
        Some(
            "invalid "@ + label + " "@ + debug_quoted_text(value) + "; expected "@
                + "1-63 lowercase letters, digits, underscores, or hyphens, beginning with a letter"@,
        )
    }
}

/// How an API name under `label` is refused, if it is.
pub open spec fn api_fault(label: Seq<char>, value: Seq<char>) -> Option<Seq<char>> {
    if api_name_ok(value) {
        None
    } else {
        Some("invalid "@ + label + " "@ + debug_quoted_text(value) + "; expected "@ + "1-63 ASCII letters or digits, beginning with a letter"@)
    }
}

/// Why a declared input disagrees with the snapshot, if it does: its names
/// must be valid, the snapshot must hold a cell of that name, with the
/// declared source and optionality, and a required input cannot be absent.
pub open spec fn input_fault(request: EvaluationRequest, name: Seq<char>, declaration: InputMetadata) -> Option<Seq<char>> {
    if api_fault("input name"@, name) is Some {
        api_fault("input name"@, name)
    } else if logical_fault("source component name"@, declaration.component@) is Some {
        logical_fault("source component name"@, declaration.component@)
    } else if api_fault("source output name"@, declaration.output@) is Some {
        api_fault("source output name"@, declaration.output@)
    } else {
        match cell_index(request.cells@, name) {
            None => Some("snapshot omitted declared input "@ + debug_quoted_text(name)),
            Some(c) => {
                let cell = request.cells@[c];
                if cell.source.component@ != declaration.component@ || cell.source.output@ != declaration.output@
                    || cell.optional != declaration.optional {
                    Some("snapshot cell "@ + debug_quoted_text(name) + " does not agree with bundle metadata"@)
                } else if cell.state is Absent && !declaration.optional {
                    Some("required input "@ + debug_quoted_text(name) + " cannot be absent"@)
                } else {
                    None
                }
            },
        }
    }
}

/// The first fault among the declared inputs, in order.
pub open spec fn first_input_fault(request: EvaluationRequest, inputs: Seq<(String, InputMetadata)>) -> Option<
    Seq<char>,
>
    decreases inputs.len(),
{
    if inputs.len() == 0 {
        None
    } else if input_fault(request, inputs[0].0@, inputs[0].1) is Some {
        input_fault(request, inputs[0].0@, inputs[0].1)
    } else {
        first_input_fault(request, inputs.drop_first())
    }
}

/// The first invalid declared output name, in order.
pub open spec fn first_output_fault(outputs: Seq<(String, OutputMetadata)>) -> Option<Seq<char>>
    decreases outputs.len(),
{
    if outputs.len() == 0 {
        None
    } else if api_fault("output name"@, outputs[0].0@) is Some {
        api_fault("output name"@, outputs[0].0@)
    } else {
        first_output_fault(outputs.drop_first())
    }
}

/// Why a bundle's declaration does not fit the request, if it does not: a
/// valid component name, the requested component, one declared input per
/// snapshot cell, each as `input_fault` states, and valid output names.
pub open spec fn metadata_fault(request: EvaluationRequest, metadata: ComponentMetadata) -> Option<Seq<char>> {
    if logical_fault("component name"@, metadata.name@) is Some {
        logical_fault("component name"@, metadata.name@)
    } else if metadata.name@ != request.component@ {
        Some("bundle declares component "@ + metadata.name@ + ", but request is for "@ + request.component@)
    } else if metadata.inputs@.len() != request.cells@.len() {
        Some("bundle input declarations do not match snapshot cells"@)
    } else if first_input_fault(request, metadata.inputs@) is Some {
        first_input_fault(request, metadata.inputs@)
    } else {
        first_output_fault(metadata.outputs@)
    }
}

fn check_input(request: &EvaluationRequest, name: &str, declaration: &InputMetadata) -> (r: Result<(), EvaluationError>)
    ensures
        match input_fault(*request, name@, *declaration) {
            Some(m) => r matches Err(e) && e.message@ == m,
            None => r is Ok,
        },
{
    match validate_api_name(name, "input name") {
        Err(e) => {
            return Err(e);
        },
        Ok(()) => {},
    }
    match validate_logical_name(declaration.component.as_str(), "source component name") {
        Err(e) => {
            return Err(e);
        },
        Ok(()) => {},
    }
    match validate_api_name(declaration.output.as_str(), "source output name") {
        Err(e) => {
            return Err(e);
        },
        Ok(()) => {},
    }
    let cell = match find_cell(&request.cells, name) {
        None => {
            let mut m = String::from_str("snapshot omitted declared input ");
            let q = debug_quoted(name);
            m.append(q.as_str());
            return Err(EvaluationError::new(m));
        },
        Some(at) => &request.cells[at],
    };
    if !text_equal(cell.source.component.as_str(), declaration.component.as_str()) || !text_equal(
        cell.source.output.as_str(),
        declaration.output.as_str(),
    ) || cell.optional != declaration.optional {
        let mut m = String::from_str("snapshot cell ");
        let q = debug_quoted(name);
        m.append(q.as_str());
        m.append(" does not agree with bundle metadata");
        return Err(EvaluationError::new(m));
    }
    if matches!(cell.state, InputState::Absent) && !declaration.optional {
        let mut m = String::from_str("required input ");
        let q = debug_quoted(name);
        m.append(q.as_str());
        m.append(" cannot be absent");
        return Err(EvaluationError::new(m));
    }
    Ok(())
}

/// Checks a bundle's declaration against the request, as `metadata_fault`
/// states.
pub fn validate_metadata(metadata: &ComponentMetadata, request: &EvaluationRequest) -> (r: Result<(), EvaluationError>)
    ensures
        match metadata_fault(*request, *metadata) {
            Some(m) => r matches Err(e) && e.message@ == m,
            None => r is Ok,
        },
{
    match validate_logical_name(metadata.name.as_str(), "component name") {
        Err(e) => {
            return Err(e);
        },
        Ok(()) => {},
    }
    if !text_equal(metadata.name.as_str(), request.component.as_str()) {
        let mut m = String::from_str("bundle declares component ");
        m.append(metadata.name.as_str());
        m.append(", but request is for ");
        m.append(request.component.as_str());
        return Err(EvaluationError::new(m));
    }
    if metadata.inputs.len() != request.cells.len() {
        return Err(EvaluationError::new("bundle input declarations do not match snapshot cells".to_string()));
    }
    assert(metadata.inputs@.skip(0) =~= metadata.inputs@);
    let mut i: usize = 0;
    while i < metadata.inputs.len()
        invariant
            i <= metadata.inputs@.len(),
            logical_fault("component name"@, metadata.name@) is None,
            metadata.name@ == request.component@,
            metadata.inputs@.len() == request.cells@.len(),
            first_input_fault(*request, metadata.inputs@) == first_input_fault(*request, metadata.inputs@.skip(i as int)),
        decreases metadata.inputs@.len() - i,
    {
        let ghost rest = metadata.inputs@.skip(i as int);
        assert(rest[0] == metadata.inputs@[i as int]);
        assert(rest.drop_first() =~= metadata.inputs@.skip(i + 1));
        match check_input(request, metadata.inputs[i].0.as_str(), &metadata.inputs[i].1) {
            Err(e) => {
                return Err(e);
            },
            Ok(()) => {},
        }
        i = i + 1;
    }
    assert(metadata.inputs@.skip(i as int).len() == 0);
    assert(metadata.outputs@.skip(0) =~= metadata.outputs@);
    let mut k: usize = 0;
    while k < metadata.outputs.len()
        invariant
            k <= metadata.outputs@.len(),
            metadata_fault(*request, *metadata) == first_output_fault(metadata.outputs@),
            first_output_fault(metadata.outputs@) == first_output_fault(metadata.outputs@.skip(k as int)),
        decreases metadata.outputs@.len() - k,
    {
        let ghost rest = metadata.outputs@.skip(k as int);
        assert(rest[0] == metadata.outputs@[k as int]);
        assert(rest.drop_first() =~= metadata.outputs@.skip(k + 1));
        match validate_api_name(metadata.outputs[k].0.as_str(), "output name") {
            Err(e) => {
                return Err(e);
            },
            Ok(()) => {},
        }
        k = k + 1;
    }
    assert(metadata.outputs@.skip(k as int).len() == 0);
    Ok(())
}

/// One input of a component: its name, the output it reads and whether it
/// may be absent.
#[derive(Debug)]
pub struct ComponentInput {
    pub name: String,
    pub source: OutputRef,
    pub optional: bool,
}

/// One output of a component: its name, how it is made available and
/// whether it may be missing.
#[derive(Debug)]
pub struct ComponentOutput {
    pub name: String,
    pub availability: Availability,
    pub optional: bool,
}

/// A component as a bundle declares it: its name, the digest of its bundle,
/// its inputs and its outputs.
#[derive(Debug)]
pub struct ComponentIntent {
    pub name: String,
    pub bundle: [u8; 32],
    pub inputs: Vec<ComponentInput>,
    pub outputs: Vec<ComponentOutput>,
}

/// Why a declared input's names are refused, if they are.
pub open spec fn input_names_fault(name: Seq<char>, declaration: InputMetadata) -> Option<Seq<char>> {
    if api_fault("input name"@, name) is Some {
        api_fault("input name"@, name)
    } else if logical_fault("source component name"@, declaration.component@) is Some {
        logical_fault("source component name"@, declaration.component@)
    } else {
        api_fault("source output name"@, declaration.output@)
    }
}

/// The first refused input, in order.
pub open spec fn first_input_names_fault(inputs: Seq<(String, InputMetadata)>) -> Option<Seq<char>>
    decreases inputs.len(),
{
    if inputs.len() == 0 {
        None
    } else if input_names_fault(inputs[0].0@, inputs[0].1) is Some {
        input_names_fault(inputs[0].0@, inputs[0].1)
    } else {
        first_input_names_fault(inputs.drop_first())
    }
}

/// Why a bundle's declaration cannot become a component, if it cannot: a
/// valid component name, valid input names and sources, valid output names.
pub open spec fn intent_fault(metadata: ComponentMetadata) -> Option<Seq<char>> {
    if logical_fault("component name"@, metadata.name@) is Some {
        logical_fault("component name"@, metadata.name@)
    } else if first_input_names_fault(metadata.inputs@) is Some {
        first_input_names_fault(metadata.inputs@)
    } else {
        first_output_fault(metadata.outputs@)
    }
}

/// The component a bundle declares, as `intent_fault` states: its inputs and
/// outputs in declaration order.
pub fn component_intent(bundle: [u8; 32], metadata: ComponentMetadata) -> (r: Result<ComponentIntent, EvaluationError>)
    ensures
        match intent_fault(metadata) {
            Some(m) => r matches Err(e) && e.message@ == m,
            None => r matches Ok(c) && {
                &&& c.name@ == metadata.name@
                &&& c.bundle@ == bundle@
                &&& c.inputs@.len() == metadata.inputs@.len()
                &&& forall|i: int|
                    0 <= i < c.inputs@.len() ==> {
                        let x = #[trigger] c.inputs@[i];
                        let d = metadata.inputs@[i];
                        &&& x.name@ == d.0@
                        &&& x.source.component@ == d.1.component@
                        &&& x.source.output@ == d.1.output@
                        &&& x.optional == d.1.optional
                    }
                &&& c.outputs@.len() == metadata.outputs@.len()
                &&& forall|i: int|
                    0 <= i < c.outputs@.len() ==> {
                        let x = #[trigger] c.outputs@[i];
                        let d = metadata.outputs@[i];
                        &&& x.name@ == d.0@
                        &&& x.availability == d.1.availability
                        &&& x.optional == d.1.optional
                    }
            },
        },
{
    let ghost meta = metadata;
    match validate_logical_name(metadata.name.as_str(), "component name") {
        Err(e) => {
            return Err(e);
        },
        Ok(()) => {},
    }
    let mut inputs: Vec<ComponentInput> = Vec::new();
    let mut i: usize = 0;
    assert(meta.inputs@.skip(0) =~= meta.inputs@);
    while i < metadata.inputs.len()
        invariant
            meta == metadata,
            i <= metadata.inputs@.len(),
            logical_fault("component name"@, metadata.name@) is None,
            first_input_names_fault(metadata.inputs@) == first_input_names_fault(metadata.inputs@.skip(i as int)),
            inputs@.len() == i,
            forall|k: int|
                0 <= k < i ==> {
                    let x = #[trigger] inputs@[k];
                    let d = metadata.inputs@[k];
                    &&& x.name@ == d.0@
                    &&& x.source.component@ == d.1.component@
                    &&& x.source.output@ == d.1.output@
                    &&& x.optional == d.1.optional
                },
        decreases metadata.inputs@.len() - i,
    {
        let ghost rest = metadata.inputs@.skip(i as int);
        assert(rest[0] == metadata.inputs@[i as int]);
        assert(rest.drop_first() =~= metadata.inputs@.skip(i + 1));
        let name = metadata.inputs[i].0.as_str();
        let declaration = &metadata.inputs[i].1;
        match validate_api_name(name, "input name") {
            Err(e) => {
                return Err(e);
            },
            Ok(()) => {},
        }
        match validate_logical_name(declaration.component.as_str(), "source component name") {
            Err(e) => {
                return Err(e);
            },
            Ok(()) => {},
        }
        match validate_api_name(declaration.output.as_str(), "source output name") {
            Err(e) => {
                return Err(e);
            },
            Ok(()) => {},
        }
        inputs.push(
            ComponentInput {
                name: name.to_string(),
                source: OutputRef { component: declaration.component.clone(), output: declaration.output.clone() },
                optional: declaration.optional,
            },
        );
        i = i + 1;
    }
    assert(metadata.inputs@.skip(i as int).len() == 0);
    let mut outputs: Vec<ComponentOutput> = Vec::new();
    let mut k: usize = 0;
    assert(meta.outputs@.skip(0) =~= meta.outputs@);
    while k < metadata.outputs.len()
        invariant
            meta == metadata,
            k <= metadata.outputs@.len(),
            intent_fault(metadata) == first_output_fault(metadata.outputs@),
            first_output_fault(metadata.outputs@) == first_output_fault(metadata.outputs@.skip(k as int)),
            outputs@.len() == k,
            forall|q: int|
                0 <= q < k ==> {
                    let x = #[trigger] outputs@[q];
                    let d = metadata.outputs@[q];
                    &&& x.name@ == d.0@
                    &&& x.availability == d.1.availability
                    &&& x.optional == d.1.optional
                },
        decreases metadata.outputs@.len() - k,
    {
        let ghost rest = metadata.outputs@.skip(k as int);
        assert(rest[0] == metadata.outputs@[k as int]);
        assert(rest.drop_first() =~= metadata.outputs@.skip(k + 1));
        let name = metadata.outputs[k].0.as_str();
        match validate_api_name(name, "output name") {
            Err(e) => {
                return Err(e);
            },
            Ok(()) => {},
        }
        outputs.push(
            ComponentOutput {
                name: name.to_string(),
                availability: metadata.outputs[k].1.availability,
                optional: metadata.outputs[k].1.optional,
            },
        );
        k = k + 1;
    }
    assert(metadata.outputs@.skip(k as int).len() == 0);
    Ok(ComponentIntent { name: metadata.name, bundle, inputs, outputs })
}

/// The snapshot a bundle's `evaluate` receives: the protocol version and,
/// under each cell's name, its state and, when available, its value.
pub open spec fn snapshot_view(cells: Seq<InputCell>) -> JsonView {
    JsonView::Object(
        seq![
            ("inputs"@, JsonView::Object(cells.map_values(|c: InputCell| (c.name@, cell_view(c))))),
            ("protocolVersion"@, JsonView::Number(decimal(PROTOCOL_VERSION as nat))),
        ],
    )
}

/// One cell as the bundle sees it.
pub open spec fn cell_view(c: InputCell) -> JsonView {
    match c.state {
        InputState::Available(v) => JsonView::Object(seq![("state"@, JsonView::Str("available"@)), ("value"@, json_view(v))]),
        InputState::Blocked => JsonView::Object(seq![("state"@, JsonView::Str("blocked"@))]),
        InputState::Absent => JsonView::Object(seq![("state"@, JsonView::Str("absent"@))]),
    }
}

fn cell_wire(c: &InputCell) -> (v: JsonValue)
    ensures
        json_view(v) == cell_view(*c),
{
    match &c.state {
        InputState::Available(value) => {
            let copy = value.copied();
            let mut e: Vec<(String, JsonValue)> = Vec::new();
            e.push(("state".to_string(), JsonValue::String("available".to_string())));
            e.push(("value".to_string(), copy));
            let v = JsonValue::Object(e);
            proof {
                lemma_entries_view_index(e@);
                assert(entries_view(e@) =~= seq![("state"@, JsonView::Str("available"@)), ("value"@, json_view(copy))]);
            }
            v
        },
        InputState::Blocked => {
            let mut e: Vec<(String, JsonValue)> = Vec::new();
            e.push(("state".to_string(), JsonValue::String("blocked".to_string())));
            let v = JsonValue::Object(e);
            proof {
                lemma_entries_view_index(e@);
                assert(entries_view(e@) =~= seq![("state"@, JsonView::Str("blocked"@))]);
            }
            v
        },
        InputState::Absent => {
            let mut e: Vec<(String, JsonValue)> = Vec::new();
            e.push(("state".to_string(), JsonValue::String("absent".to_string())));
            let v = JsonValue::Object(e);
            proof {
                lemma_entries_view_index(e@);
                assert(entries_view(e@) =~= seq![("state"@, JsonView::Str("absent"@))]);
            }
            v
        },
    }
}

/// The snapshot a bundle receives, as `snapshot_view` states.
pub fn snapshot_wire(request: &EvaluationRequest) -> (v: JsonValue)
    ensures
        json_view(v) == snapshot_view(request.cells@),
{
    let mut inputs: Vec<(String, JsonValue)> = Vec::new();
    let mut i: usize = 0;
    while i < request.cells.len()
        invariant
            i <= request.cells@.len(),
            entries_view(inputs@) == request.cells@.take(i as int).map_values(
                |c: InputCell| (c.name@, cell_view(c)),
            ),
        decreases request.cells@.len() - i,
    {
        let cell = &request.cells[i];
        let w = cell_wire(cell);
        let n = cell.name.clone();
        proof {
            lemma_entries_view_push(inputs@, (n, w));
            assert(request.cells@.take(i + 1).map_values(|c: InputCell| (c.name@, cell_view(c))) =~= request.cells@.take(
                i as int,
            ).map_values(|c: InputCell| (c.name@, cell_view(c))).push((n@, json_view(w))));
        }
        inputs.push((n, w));
        i = i + 1;
    }
    assert(request.cells@.take(i as int) =~= request.cells@);
    let version = decimal_text(PROTOCOL_VERSION as u64);
    let mut top: Vec<(String, JsonValue)> = Vec::new();
    top.push(("inputs".to_string(), JsonValue::Object(inputs)));
    top.push(("protocolVersion".to_string(), JsonValue::Number(version)));
    let v = JsonValue::Object(top);
    proof {
        lemma_entries_view_index(top@);
        assert(entries_view(top@) =~= seq![
            ("inputs"@, JsonView::Object(request.cells@.map_values(|c: InputCell| (c.name@, cell_view(c))))),
            ("protocolVersion"@, JsonView::Number(decimal(PROTOCOL_VERSION as nat))),
        ]);
    }
    v
}

/// How compact JSON writes the character `c` inside a string: quote and
/// backslash escaped, the short escapes for backspace, tab, newline, form
/// feed and carriage return, other control characters as `\u00` and two
/// lowercase hexadecimal digits, and every other character as itself.
pub open spec fn escaped_char(c: char) -> Seq<char> {
    if c == '"' {
        "\\\""@
    } else if c == '\\' {
        "\\\\"@
    } else if c == '\u{8}' {
        "\\b"@
    } else if c == '\t' {
        "\\t"@
    } else if c == '\n' {
        "\\n"@
    } else if c == '\u{c}' {
        "\\f"@
    } else if c == '\r' {
        "\\r"@
    } else if (c as u32) < 0x20 {
        "\\u00"@ + seq![hex_digit(((c as u32) / 16) as u8), hex_digit(((c as u32) % 16) as u8)]
    } else {
        seq![c]
    }
}

/// The characters of `s`, each written as `escaped_char` states.
pub open spec fn escaped(s: Seq<char>) -> Seq<char>
    decreases s.len(),
{
    if s.len() == 0 {
        Seq::empty()
    } else {
        escaped(s.drop_last()) + escaped_char(s.last())
    }
}

/// A string as compact JSON writes it.
pub open spec fn quoted(s: Seq<char>) -> Seq<char> {
    "\""@ + escaped(s) + "\""@
}

/// A value as compact JSON writes it: no whitespace, an object's entries in
/// the order held.
pub open spec fn json_text(v: JsonView) -> Seq<char>
    decreases v,
{
    match v {
        JsonView::Null => "null"@,
        JsonView::Bool(b) => if b {
            "true"@
        } else {
            "false"@
        },
        JsonView::Number(n) => n,
        JsonView::Str(s) => quoted(s),
        JsonView::Array(items) => "["@ + items_text(items) + "]"@,
        JsonView::Object(entries) => "{"@ + members_text(entries) + "}"@,
    }
}

/// Values written one after another, separated by commas.
pub open spec fn items_text(items: Seq<JsonView>) -> Seq<char>
    decreases items,
{
    if items.len() == 0 {
        Seq::empty()
    } else if items.len() == 1 {
        json_text(items[0])
    } else {
        items_text(items.drop_last()) + ","@ + json_text(items.last())
    }
}

/// Object entries written one after another, separated by commas.
pub open spec fn members_text(entries: Seq<(Seq<char>, JsonView)>) -> Seq<char>
    decreases entries,
{
    if entries.len() == 0 {
        Seq::empty()
    } else if entries.len() == 1 {
        quoted(entries[0].0) + ":"@ + json_text(entries[0].1)
    } else {
        members_text(entries.drop_last()) + ","@ + quoted(entries.last().0) + ":"@ + json_text(entries.last().1)
    }
}

fn push_escaped(out: &mut String, s: &str)
    ensures
        final(out)@ == old(out)@ + escaped(s@),
{
    let n = s.unicode_len();
    let mut i: usize = 0;
    proof {
        reveal_strlit("\\\"");
        reveal_strlit("\\\\");
        reveal_strlit("\\b");
        reveal_strlit("\\t");
        reveal_strlit("\\n");
        reveal_strlit("\\f");
        reveal_strlit("\\r");
        reveal_strlit("\\u00");
    }
    while i < n
        invariant
            n == s@.len(),
            i <= n,
            out@ == old(out)@ + escaped(s@.take(i as int)),
        decreases n - i,
    {
        let c = s.get_char(i);
        let ghost before = out@;
        if c == '"' {
            out.append("\\\"");
        } else if c == '\\' {
            out.append("\\\\");
        } else if c == '\u{8}' {
            out.append("\\b");
        } else if c == '\t' {
            out.append("\\t");
        } else if c == '\n' {
            out.append("\\n");
        } else if c == '\u{c}' {
            out.append("\\f");
        } else if c == '\r' {
            out.append("\\r");
        } else if (c as u32) < 0x20 {
            out.append("\\u00");
            let code = c as u32;
            out.append(hex_digit_text((code / 16) as u8));
            out.append(hex_digit_text((code % 16) as u8));
        } else {
            out.append(s.substring_char(i, i + 1));
        }
        proof {
            assert(s@.take(i + 1).drop_last() =~= s@.take(i as int));
            assert(s@.take(i + 1).last() == c);
            assert(out@ =~= before + escaped_char(c));
        }
        i = i + 1;
    }
    assert(s@.take(n as int) =~= s@);
}

/// Writes `v` as compact JSON after `out`, as `json_text` states.
pub fn write_json(v: &JsonValue, out: &mut String)
    ensures
        final(out)@ == old(out)@ + json_text(json_view(*v)),
    decreases *v,
{
    proof {
        reveal_strlit("null");
        reveal_strlit("true");
        reveal_strlit("false");
        reveal_strlit("\"");
        reveal_strlit("[");
        reveal_strlit("]");
        reveal_strlit("{");
        reveal_strlit("}");
        reveal_strlit(",");
        reveal_strlit(":");
    }
    match v {
        JsonValue::Null => out.append("null"),
        JsonValue::Bool(b) => if *b {
            out.append("true")
        } else {
            out.append("false")
        },
        JsonValue::Number(n) => out.append(n.as_str()),
        JsonValue::String(s) => {
            out.append("\"");
            push_escaped(out, s.as_str());
            out.append("\"");
            assert(out@ =~= old(out)@ + quoted(s@));
        },
        JsonValue::Array(items) => {
            let ghost start = out@;
            let ghost views = values_view(items@);
            proof {
                lemma_values_view_index(items@);
            }
            out.append("[");
            let mut i: usize = 0;
            while i < items.len()
                invariant
                    i <= items@.len(),
                    *v == JsonValue::Array(*items),
                    views == values_view(items@),
                    views.len() == items@.len(),
                    forall|k: int| 0 <= k < items@.len() ==> #[trigger] views[k] == json_view(items@[k]),
                    out@ == start + "["@ + items_text(views.take(i as int)),
                decreases items@.len() - i,
            {
                proof {
                    let ghost w = *v;
                    assert(decreases_to!(w => w->Array_0));
                    assert(decreases_to!(*items => items@));
                    assert(decreases_to!(items@ => items@[i as int]));
                }
                let ghost mid = out@;
                if i > 0 {
                    out.append(",");
                }
                write_json(&items[i], out);
                proof {
                    let t = views.take(i + 1);
                    assert(t.drop_last() =~= views.take(i as int));
                    assert(t.last() == json_view(items@[i as int]));
                    if i == 0 {
                        assert(t.len() == 1);
                        assert(out@ =~= start + "["@ + items_text(t));
                    } else {
                        assert(out@ =~= start + "["@ + items_text(t));
                    }
                }
                i = i + 1;
            }
            out.append("]");
            assert(views.take(i as int) =~= views);
            assert(out@ =~= old(out)@ + json_text(json_view(*v)));
        },
        JsonValue::Object(entries) => {
            let ghost start = out@;
            let ghost views = entries_view(entries@);
            proof {
                lemma_entries_view_index(entries@);
            }
            out.append("{");
            let mut i: usize = 0;
            while i < entries.len()
                invariant
                    i <= entries@.len(),
                    *v == JsonValue::Object(*entries),
                    views == entries_view(entries@),
                    views.len() == entries@.len(),
                    forall|k: int| 0 <= k < entries@.len() ==> #[trigger] views[k] == (entries@[k].0@, json_view(entries@[k].1)),
                    out@ == start + "{"@ + members_text(views.take(i as int)),
                decreases entries@.len() - i,
            {
                proof {
                    let ghost w = *v;
                    assert(decreases_to!(w => w->Object_0));
                    assert(decreases_to!(*entries => entries@));
                    assert(decreases_to!(entries@ => entries@[i as int]));
                    assert(decreases_to!(entries@[i as int] => entries@[i as int].1));
                }
                if i > 0 {
                    out.append(",");
                }
                out.append("\"");
                push_escaped(out, entries[i].0.as_str());
                out.append("\"");
                out.append(":");
                write_json(&entries[i].1, out);
                proof {
                    let t = views.take(i + 1);
                    assert(t.drop_last() =~= views.take(i as int));
                    assert(t.last() == (entries@[i as int].0@, json_view(entries@[i as int].1)));
                    assert(out@ =~= start + "{"@ + members_text(t));
                }
                i = i + 1;
            }
            out.append("}");
            assert(views.take(i as int) =~= views);
            assert(out@ =~= old(out)@ + json_text(json_view(*v)));
        },
    }
}

/// `v` as compact JSON, as `json_text` states.
pub fn json_string(v: &JsonValue) -> (t: String)
    ensures
        t@ == json_text(json_view(*v)),
{
    let mut t = String::new();
    write_json(v, &mut t);
    assert(t@ =~= json_text(json_view(*v)));
    t
}

} // verus!

verus! {

/// A declared output is missing exactly when it is required and was not
/// returned the way it is declared (a static output among the static
/// names, an observed one among the observed bindings); an optional output
/// is never missing, and one returned the other way does not count.
pub proof fn law_required_outputs(declaration: (String, OutputMetadata), statics: Seq<Seq<char>>, observed: Seq<Seq<char>>)
    ensures
        declaration.1.optional ==> missing_fault(declaration, statics, observed) is None,
        declaration.1.availability == Availability::Static ==> (missing_fault(declaration, statics, observed) is Some
            <==> !declaration.1.optional && !statics.contains(declaration.0@)),
        declaration.1.availability == Availability::Observed ==> (missing_fault(declaration, statics, observed) is Some
            <==> !declaration.1.optional && !observed.contains(declaration.0@)),
{
}

/// A bundle's declaration is refused when it names another component than
/// the request (once its own name is valid), and when it declares another
/// number of inputs than the snapshot has cells; a declared input that is
/// otherwise in order is refused when it is required and its cell is
/// absent, and accepted when its cell is available.
pub proof fn law_metadata_checks(request: EvaluationRequest, metadata: ComponentMetadata, name: Seq<char>, declaration: InputMetadata)
    ensures
        logical_fault("component name"@, metadata.name@) is None && metadata.name@ != request.component@ ==> metadata_fault(
            request,
            metadata,
        ) == Some("bundle declares component "@ + metadata.name@ + ", but request is for "@ + request.component@),
        logical_fault("component name"@, metadata.name@) is None && metadata.name@ == request.component@
            && metadata.inputs@.len() != request.cells@.len() ==> metadata_fault(request, metadata) == Some(
            "bundle input declarations do not match snapshot cells"@,
        ),
        ({
            let fault = input_fault(request, name, declaration);
            let names_ok = api_fault("input name"@, name) is None && logical_fault(
                "source component name"@,
                declaration.component@,
            ) is None && api_fault("source output name"@, declaration.output@) is None;
            names_ok ==> match cell_index(request.cells@, name) {
                Some(c) => {
                    let cell = request.cells@[c];
                    let agrees = cell.source.component@ == declaration.component@ && cell.source.output@
                        == declaration.output@ && cell.optional == declaration.optional;
                    &&& agrees && cell.state is Absent && !declaration.optional ==> fault == Some(
                        "required input "@ + debug_quoted_text(name) + " cannot be absent"@,
                    )
                    &&& agrees && cell.state is Available ==> fault is None
                },
                None => fault == Some("snapshot omitted declared input "@ + debug_quoted_text(name)),
            }
        }),
{
}

} // verus!

verus! {

/// An object schema accepts exactly the objects in which every field it
/// names is present and fits that field's schema; fields it does not name
/// do not matter.
pub proof fn law_object_schema(fields: Vec<(String, Schema)>, entries: Seq<(Seq<char>, JsonView)>)
    ensures
        accepts(Schema::Object(fields), JsonView::Object(entries)) <==> forall|k: int|
            0 <= k < fields@.len() ==> (field_of(entries, (#[trigger] fields@[k]).0@) matches Some(v) && accepts(
                fields@[k].1,
                v,
            )),
{
    lemma_fields_accept(fields@, entries);
    assert forall|k: int| 0 <= k < fields@.len() implies (field_fits(#[trigger] fields@[k], entries) <==> (field_of(
        entries,
        fields@[k].0@,
    ) matches Some(v) && accepts(fields@[k].1, v))) by {}
}

} // verus!

verus! {

/// A returned resource whose kind, version and name are valid is accepted
/// exactly when its address is the one they spell, and then as exactly that
/// kind, version and name.
pub proof fn law_resource_check(kind: Seq<char>, version: u32, name: Seq<char>, address: Seq<char>)
    requires
        crate::names::kind_name_ok(kind),
        version != 0,
        logical_name_ok(name),
    ensures
        resource_check(kind + "@"@ + crate::fmt::decimal(version as nat), name, address) is Ok <==> address == address_text(
            kind,
            version,
            name,
        ),
        resource_check(kind + "@"@ + crate::fmt::decimal(version as nat), name, address) is Ok ==> resource_check(
            kind + "@"@ + crate::fmt::decimal(version as nat),
            name,
            address,
        ) == Ok::<(Seq<char>, u32, Seq<char>), Seq<char>>((kind, version, name)),
{
    crate::names::lemma_kind_round_trip(kind, version);
}

/// A resource the registry refuses, or whose address was emitted before,
/// is not admitted; one the registry accepts at a new address is.
pub proof fn law_admission(
    address: (Seq<char>, u32, Seq<char>),
    verdict: Result<(Seq<char>, Set<Seq<char>>), Seq<char>>,
    seen: Seq<(ResourceAddress, ResourceContract)>,
    i: int,
)
    ensures
        verdict is Err ==> admission_fault(address, verdict, seen) is Some,
        verdict is Ok && 0 <= i < seen.len() && address_view(seen[i].0) == address ==> admission_fault(address, verdict, seen) is Some,
        verdict is Ok && (forall|j: int| 0 <= j < seen.len() ==> address_view(#[trigger] seen[j].0) != address) ==> admission_fault(
            address,
            verdict,
            seen,
        ) is None,
{
    reveal(emitted_index);
    let e = contracts_emitted(seen);
    if verdict is Ok && 0 <= i < seen.len() && address_view(seen[i].0) == address {
        assert(e[i].0 == address);
    }
    if forall|j: int| 0 <= j < seen.len() ==> address_view(#[trigger] seen[j].0) != address {
        assert forall|j: int| 0 <= j < e.len() implies e[j].0 != address by {
            assert(e[j].0 == address_view(seen[j].0));
        }
    }
}

} // verus!
