//! JSON documents as the protocol decoders see them: a value type of the
//! library's own, a ghost model over character sequences, and a trusted
//! boundary to `serde_json` for parsing and rendering.

use vstd::prelude::*;

verus! {

broadcast use vstd::std_specs::vec::group_vec_axioms;

/// A parsed JSON document. A number with a fractional part or an exponent
/// keeps only its source text: the decoders never read such a value.
#[derive(Debug)]
pub enum JsonValue {
    Null,
    Bool(bool),
    Int(i64),
    UInt(u64),
    Inexact(String),
    Str(String),
    Arr(Vec<JsonValue>),
    Obj(Vec<(String, JsonValue)>),
}

/// The mathematical shape of a JSON document.
pub enum Json {
    Null,
    Bool { b: bool },
    Int { i: int },
    Inexact { text: Seq<char> },
    Str { s: Seq<char> },
    Arr { items: Seq<Json> },
    Obj { fields: Seq<(Seq<char>, Json)> },
}

impl JsonValue {
    /// The document a value stands for.
    pub open spec fn model(self) -> Json
        decreases self,
    {
        match self {
            JsonValue::Null => Json::Null,
            JsonValue::Bool(b) => Json::Bool { b },
            JsonValue::Int(i) => Json::Int { i: i as int },
            JsonValue::UInt(u) => Json::Int { i: u as int },
            JsonValue::Inexact(t) => Json::Inexact { text: t@ },
            JsonValue::Str(s) => Json::Str { s: s@ },
            JsonValue::Arr(items) => Json::Arr { items: model_items(items@) },
            JsonValue::Obj(fields) => Json::Obj { fields: model_fields(fields@) },
        }
    }
}

/// The documents that a sequence of values stands for, element by element.
pub open spec fn model_items(items: Seq<JsonValue>) -> Seq<Json>
    decreases items,
{
    if items.len() == 0 {
        Seq::empty()
    } else {
        seq![items[0].model()] + model_items(items.drop_first())
    }
}

/// The modelled fields of an object, key views paired with value documents.
pub open spec fn model_fields(fields: Seq<(String, JsonValue)>) -> Seq<(Seq<char>, Json)>
    decreases fields,
{
    if fields.len() == 0 {
        Seq::empty()
    } else {
        seq![(fields[0].0@, fields[0].1.model())] + model_fields(fields.drop_first())
    }
}

/// `model_items` maps each element to its document.
pub proof fn lemma_model_items(items: Seq<JsonValue>)
    ensures
        model_items(items).len() == items.len(),
        forall|i: int| 0 <= i < items.len() ==> model_items(items)[i] == items[i].model(),
    decreases items.len(),
{
    if items.len() != 0 {
        lemma_model_items(items.drop_first());
    }
}

/// `model_fields` maps each field to its key view and value document.
pub proof fn lemma_model_fields(fields: Seq<(String, JsonValue)>)
    ensures
        model_fields(fields).len() == fields.len(),
        forall|i: int|
            0 <= i < fields.len() ==> model_fields(fields)[i] == (
                fields[i].0@,
                fields[i].1.model(),
            ),
    decreases fields.len(),
{
    if fields.len() != 0 {
        lemma_model_fields(fields.drop_first());
    }
}

/// Copy a document. The copy stands for the same document; `Clone` forwards
/// to this.
pub fn clone_json(v: &JsonValue) -> (r: JsonValue)
    ensures
        r.model() == v.model(),
    decreases *v,
{
    broadcast use vstd::std_specs::vec::group_vec_axioms;

    match v {
        JsonValue::Null => JsonValue::Null,
        JsonValue::Bool(b) => JsonValue::Bool(*b),
        JsonValue::Int(i) => JsonValue::Int(*i),
        JsonValue::UInt(u) => JsonValue::UInt(*u),
        JsonValue::Inexact(t) => JsonValue::Inexact(t.clone()),
        JsonValue::Str(s) => JsonValue::Str(s.clone()),
        JsonValue::Arr(items) => {
            let n = items.len();
            let mut out: Vec<JsonValue> = Vec::new();
            let mut i: usize = 0;
            while i < n
                invariant
                    n == items@.len(),
                    i <= n,
                    out@.len() == i,
                    forall|j: int| 0 <= j < i ==> out@[j].model() == items@[j].model(),
                    forall|j: int| 0 <= j < n ==> is_smaller_than(items@[j], *v),
                decreases n - i,
            {
                out.push(clone_json(&items[i]));
                i = i + 1;
            }
            let r = JsonValue::Arr(out);
            proof {
                lemma_model_items(out@);
                lemma_model_items(items@);
                assert(r.model()->Arr_items =~= v.model()->Arr_items);
            }
            r
        },
        JsonValue::Obj(fields) => {
            let n = fields.len();
            let mut out: Vec<(String, JsonValue)> = Vec::new();
            let mut i: usize = 0;
            while i < n
                invariant
                    n == fields@.len(),
                    i <= n,
                    out@.len() == i,
                    forall|j: int|
                        0 <= j < i ==> out@[j].0@ == fields@[j].0@ && out@[j].1.model()
                            == fields@[j].1.model(),
                    forall|j: int| 0 <= j < n ==> is_smaller_than(fields@[j].1, *v),
                decreases n - i,
            {
                let pair = &fields[i];
                out.push((pair.0.clone(), clone_json(&pair.1)));
                i = i + 1;
            }
            let r = JsonValue::Obj(out);
            proof {
                lemma_model_fields(out@);
                lemma_model_fields(fields@);
                assert(r.model()->Obj_fields =~= v.model()->Obj_fields);
            }
            r
        },
    }
}

impl Clone for JsonValue {
    /// A clone stands for the same document as the original.
    fn clone(&self) -> (r: Self)
        ensures
            r.model() == self.model(),
    {
        clone_json(self)
    }
}

/// The value of the first field with the given key.
pub open spec fn obj_fields_get(fields: Seq<(Seq<char>, Json)>, key: Seq<char>) -> Option<Json>
    decreases fields.len(),
{
    if fields.len() == 0 {
        None
    } else if fields[0].0 == key {
        Some(fields[0].1)
    } else {
        obj_fields_get(fields.drop_first(), key)
    }
}

/// Field lookup: an object's field by key, anything else has none.
pub open spec fn json_get(m: Json, key: Seq<char>) -> Option<Json> {
    match m {
        Json::Obj { fields } => obj_fields_get(fields, key),
        _ => None,
    }
}

proof fn lemma_obj_fields_get_scan(fields: Seq<(Seq<char>, Json)>, key: Seq<char>, i: int)
    requires
        0 <= i <= fields.len(),
        forall|j: int| 0 <= j < i ==> fields[j].0 != key,
        i < fields.len() ==> fields[i].0 == key,
    ensures
        obj_fields_get(fields, key) == if i < fields.len() {
            Some(fields[i].1)
        } else {
            None::<Json>
        },
    decreases fields.len(),
{
    if fields.len() == 0 {
    } else if fields[0].0 == key {
        assert(i == 0);
    } else {
        lemma_obj_fields_get_scan(fields.drop_first(), key, i - 1);
    }
}

impl JsonValue {
    /// The first field of an object with the given key.
    pub fn get<'a>(&'a self, key: &str) -> (r: Option<&'a JsonValue>)
        ensures
            match r {
                Some(v) => json_get(self.model(), key@) == Some(v.model()),
                None => json_get(self.model(), key@) is None,
            },
    {
        match self {
            JsonValue::Obj(fields) => {
                let ghost fm = self.model()->Obj_fields;
                proof {
                    lemma_model_fields(fields@);
                    assert(self.model() == (Json::Obj { fields: model_fields(fields@) }));
                }
                let n = fields.len();
                let mut i: usize = 0;
                while i < n
                    invariant
                        n == fields@.len(),
                        i <= n,
                        fm == model_fields(fields@),
                        self.model() == (Json::Obj { fields: fm }),
                        fm.len() == n,
                        forall|j: int|
                            0 <= j < n ==> fm[j] == (fields@[j].0@, fields@[j].1.model()),
                        forall|j: int| 0 <= j < i ==> fields@[j].0@ != key@,
                    decreases n - i,
                {
                    if crate::strutil::str_eq(fields[i].0.as_str(), key) {
                        proof {
                            assert(fm[i as int].0 == key@);
                            lemma_obj_fields_get_scan(fm, key@, i as int);
                        }
                        return Some(&fields[i].1);
                    }
                    i = i + 1;
                }
                proof {
                    assert(forall|j: int| 0 <= j < fm.len() ==> fm[j].0 != key@);
                    lemma_obj_fields_get_scan(fm, key@, fm.len() as int);
                }
                None
            },
            _ => None,
        }
    }

    /// The characters of a string value.
    pub fn as_str<'a>(&'a self) -> (r: Option<&'a str>)
        ensures
            match r {
                Some(t) => self.model() == (Json::Str { s: t@ }),
                None => !(self.model() is Str),
            },
    {
        match self {
            JsonValue::Str(s) => Some(s.as_str()),
            _ => None,
        }
    }

    /// An integer value, where it fits a signed 64-bit word.
    pub fn as_i64(&self) -> (r: Option<i64>)
        ensures
            match self.model() {
                Json::Int { i } => {
                    if i <= i64::MAX as int {
                        r == Some(i as i64)
                    } else {
                        r is None
                    }
                },
                _ => r is None,
            },
    {
        match self {
            JsonValue::Int(v) => Some(*v),
            JsonValue::UInt(u) => {
                if *u <= i64::MAX as u64 {
                    Some(*u as i64)
                } else {
                    None
                }
            },
            _ => None,
        }
    }

    /// An integer value, where it is not negative.
    pub fn as_u64(&self) -> (r: Option<u64>)
        ensures
            match self.model() {
                Json::Int { i } => {
                    if i >= 0 {
                        r == Some(i as u64)
                    } else {
                        r is None
                    }
                },
                _ => r is None,
            },
    {
        match self {
            JsonValue::Int(v) => {
                if *v >= 0 {
                    Some(*v as u64)
                } else {
                    None
                }
            },
            JsonValue::UInt(u) => Some(*u),
            _ => None,
        }
    }

    /// The items of an array value.
    pub fn as_array<'a>(&'a self) -> (r: Option<&'a Vec<JsonValue>>)
        ensures
            match r {
                Some(items) => {
                    &&& self.model() is Arr
                    &&& self.model()->Arr_items == model_items(items@)
                },
                None => !(self.model() is Arr),
            },
    {
        match self {
            JsonValue::Arr(items) => Some(items),
            _ => None,
        }
    }

    /// Whether the value is an object.
    pub fn is_object(&self) -> (r: bool)
        ensures
            r == (self.model() is Obj),
    {
        match self {
            JsonValue::Obj(_) => true,
            _ => false,
        }
    }

    /// Whether the value is an array.
    pub fn is_array(&self) -> (r: bool)
        ensures
            r == (self.model() is Arr),
    {
        match self {
            JsonValue::Arr(_) => true,
            _ => false,
        }
    }

    /// Whether the value is a string.
    pub fn is_string(&self) -> (r: bool)
        ensures
            r == (self.model() is Str),
    {
        match self {
            JsonValue::Str(_) => true,
            _ => false,
        }
    }

    /// Whether the value is a number.
    pub fn is_number(&self) -> (r: bool)
        ensures
            r == (self.model() is Int || self.model() is Inexact),
    {
        match self {
            JsonValue::Int(_) => true,
            JsonValue::UInt(_) => true,
            JsonValue::Inexact(_) => true,
            _ => false,
        }
    }

    /// Whether the value is a boolean.
    pub fn is_boolean(&self) -> (r: bool)
        ensures
            r == (self.model() is Bool),
    {
        match self {
            JsonValue::Bool(_) => true,
            _ => false,
        }
    }

    /// Whether the value is null.
    pub fn is_null(&self) -> (r: bool)
        ensures
            r == (self.model() is Null),
    {
        match self {
            JsonValue::Null => true,
            _ => false,
        }
    }
}

#[verifier::external_type_specification]
#[verifier::external_body]
pub struct ExSerdeValue(serde_json::Value);

#[verifier::external_type_specification]
#[verifier::external_body]
pub struct ExSerdeNumber(serde_json::Number);

/// The document that a string parses to, where it parses at all.
pub uninterp spec fn json_of(s: Seq<char>) -> Option<Json>;

/// Relies on `serde_json::from_str::<serde_json::Value>`: which strings
/// parse, and to what document, depends on the characters alone.
#[verifier::external_body]
pub fn parse_json(s: &str) -> (r: Option<JsonValue>)
    ensures
        (r is Some) == (json_of(s@) is Some),
        match (r, json_of(s@)) {
            (Some(v), Some(m)) => v.model() == m,
            _ => true,
        },
{
    match serde_json::from_str::<serde_json::Value>(s) {
        Ok(v) => Some(from_serde(&v)),
        Err(_) => None,
    }
}

/// Relies on `serde_json::Number`: its value as a signed word, an unsigned
/// word, or its source text.
#[verifier::external_body]
fn from_serde_number(n: &serde_json::Number) -> JsonValue {
    match (n.as_i64(), n.as_u64()) {
        (Some(i), _) => JsonValue::Int(i),
        (None, Some(u)) => JsonValue::UInt(u),
        _ => JsonValue::Inexact(n.to_string()),
    }
}

/// Relies on `serde_json::Value`: tells its variants apart, moving each
/// field into the matching variant of [`JsonValue`].
#[verifier::external_body]
fn from_serde(v: &serde_json::Value) -> JsonValue {
    match v {
        serde_json::Value::Null => JsonValue::Null,
        serde_json::Value::Bool(b) => JsonValue::Bool(*b),
        serde_json::Value::Number(n) => from_serde_number(n),
        serde_json::Value::String(s) => JsonValue::Str(s.clone()),
        serde_json::Value::Array(a) => JsonValue::Arr(a.iter().map(from_serde).collect()),
        serde_json::Value::Object(o) => JsonValue::Obj(
            o.iter().map(|p| (p.0.clone(), from_serde(p.1))).collect(),
        ),
    }
}

/// The text that rendering a document yields.
pub uninterp spec fn json_text_of(m: Json) -> Seq<char>;

/// Relies on `serde_json::to_string`: the rendered text depends on the
/// document alone.
#[verifier::external_body]
pub fn json_to_string(v: &JsonValue) -> (r: String)
    ensures
        r@ == json_text_of(v.model()),
{
    serde_json::to_string(&to_serde(v)).unwrap_or_default()
}

/// Relies on `serde_json::Number`: parses a kept number text back, null
/// standing in where it no longer parses.
#[verifier::external_body]
fn to_serde_number(t: &str) -> serde_json::Value {
    match t.parse::<serde_json::Number>() {
        Ok(n) => serde_json::Value::Number(n),
        Err(_) => serde_json::Value::Null,
    }
}

/// Relies on `serde_json::Value`: rebuilds the outside value variant by
/// variant from a [`JsonValue`].
#[verifier::external_body]
fn to_serde(v: &JsonValue) -> serde_json::Value {
    match v {
        JsonValue::Null => serde_json::Value::Null,
        JsonValue::Bool(b) => serde_json::Value::Bool(*b),
        JsonValue::Int(i) => serde_json::Value::Number((*i).into()),
        JsonValue::UInt(u) => serde_json::Value::Number((*u).into()),
        JsonValue::Inexact(t) => to_serde_number(t.as_str()),
        JsonValue::Str(s) => serde_json::Value::String(s.clone()),
        JsonValue::Arr(items) => serde_json::Value::Array(items.iter().map(to_serde).collect()),
        JsonValue::Obj(fields) => serde_json::Value::Object(
            fields.iter().map(|p| (p.0.clone(), to_serde(&p.1))).collect(),
        ),
    }
}

} // verus!
