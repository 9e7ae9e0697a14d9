//! JSON and YAML values as plain data.

use serde_json::Value as J;
use serde_yaml::Value as Y;
use vstd::prelude::*;

verus! {

// ── JSON ────────────────────────────────────────────────────────────────────

/// A JSON value. A number that is no integer is held by the bits of its double.
#[derive(Debug, PartialEq, Eq)]
pub enum Json {
    Null,
    Bool(bool),
    Int(i64),
    UInt(u64),
    Float(u64),
    Text(String),
    Array(Vec<Json>),
    Object(Vec<(String, Json)>),
}

/// A JSON value with its strings taken as texts.
pub enum JsonView {
    Null,
    Bool(bool),
    Int(i64),
    UInt(u64),
    Float(u64),
    Text(Seq<char>),
    Array(Seq<JsonView>),
    Object(Seq<(Seq<char>, JsonView)>),
}

impl Json {
    /// The value with its strings taken as texts.
    pub open spec fn model(&self) -> JsonView
        decreases self,
    {
        match self {
            Json::Null => JsonView::Null,
            Json::Bool(b) => JsonView::Bool(*b),
            Json::Int(i) => JsonView::Int(*i),
            Json::UInt(u) => JsonView::UInt(*u),
            Json::Float(f) => JsonView::Float(*f),
            Json::Text(s) => JsonView::Text(s@),
            Json::Array(v) => JsonView::Array(
                Seq::new(
                    v@.len(),
                    |i: int|
                        if 0 <= i < v@.len() {
                            v@[i].model()
                        } else {
                            JsonView::Null
                        },
                ),
            ),
            Json::Object(v) => JsonView::Object(
                Seq::new(
                    v@.len(),
                    |i: int|
                        if 0 <= i < v@.len() {
                            (v@[i].0@, v@[i].1.model())
                        } else {
                            (Seq::empty(), JsonView::Null)
                        },
                ),
            ),
        }
    }
}

/// What parsing JSON bytes gives, with strings taken as texts.
pub open spec fn json_result(r: Result<Json, String>) -> Result<JsonView, Seq<char>> {
    match r {
        Ok(v) => Ok(v.model()),
        Err(e) => Err(e@),
    }
}

/// `serde_json::Value`.
#[verifier::external_type_specification]
#[verifier::external_body]
pub struct ExJsonValue(serde_json::Value);

/// The value that `serde_json::from_slice` reads from bytes, or its error message.
pub uninterp spec fn json_document(bytes: Seq<u8>) -> Result<JsonView, Seq<char>>;

/// The plain data of a `serde_json::Value`.
pub uninterp spec fn json_value(v: serde_json::Value) -> JsonView;

/// What reading gives, with the value taken as plain data and the message as a text.
pub open spec fn json_read(r: Result<serde_json::Value, String>) -> Result<JsonView, Seq<char>> {
    match r {
        Ok(v) => Ok(json_value(v)),
        Err(e) => Err(e@),
    }
}

/// `serde_json::from_slice` into a `serde_json::Value`: the value read, or the message of the
/// error. Both depend on the bytes alone.
#[verifier::external_body]
fn read_json(bytes: &[u8]) -> (r: Result<serde_json::Value, String>)
    ensures
        json_read(r) == json_document(bytes@),
{
    serde_json::from_slice(bytes).map_err(|e| e.to_string())
}

/// Moves a `serde_json::Value` into plain data, variant by variant and field by field. A number
/// is an `i64` where it fits, else a `u64` where it fits, else the bits of its double.
#[verifier::external_body]
fn json_tree(v: serde_json::Value) -> (r: Json)
    ensures
        r.model() == json_value(v),
{
    match v {
        J::Null => Json::Null,
        J::Bool(b) => Json::Bool(b),
        J::Number(n) => match (n.as_i64(), n.as_u64()) {
            (Some(i), _) => Json::Int(i),
            (None, Some(u)) => Json::UInt(u),
            (None, None) => Json::Float(n.as_f64().unwrap_or_default().to_bits()),
        },
        J::String(s) => Json::Text(s),
        J::Array(a) => Json::Array(a.into_iter().map(json_tree).collect()),
        J::Object(o) => Json::Object(o.into_iter().map(|(k, w)| (k, json_tree(w))).collect()),
    }
}

/// The JSON value in some bytes, or why there is none.
pub(crate) fn json_from_slice(bytes: &[u8]) -> (r: Result<Json, String>)
    ensures
        json_result(r) == json_document(bytes@),
{
    match read_json(bytes) {
        Ok(v) => Ok(json_tree(v)),
        Err(e) => Err(e),
    }
}

// ── YAML ────────────────────────────────────────────────────────────────────

/// A YAML value. A number outside the range of `i64` is held by the bits of its double.
#[derive(Debug, PartialEq, Eq)]
pub enum Yaml {
    Null,
    Bool(bool),
    Int(i64),
    Float(u64),
    Text(String),
    Sequence(Vec<Yaml>),
    Mapping(Vec<(Yaml, Yaml)>),
    Tagged(Box<Yaml>),
}

/// A YAML value with its strings taken as texts.
pub enum YamlView {
    Null,
    Bool(bool),
    Int(i64),
    Float(u64),
    Text(Seq<char>),
    Sequence(Seq<YamlView>),
    Mapping(Seq<(YamlView, YamlView)>),
    Tagged(Box<YamlView>),
}

impl Yaml {
    /// The value with its strings taken as texts.
    pub open spec fn model(&self) -> YamlView
        decreases self,
    {
        match self {
            Yaml::Null => YamlView::Null,
            Yaml::Bool(b) => YamlView::Bool(*b),
            Yaml::Int(i) => YamlView::Int(*i),
            Yaml::Float(f) => YamlView::Float(*f),
            Yaml::Text(s) => YamlView::Text(s@),
            Yaml::Sequence(v) => YamlView::Sequence(
                Seq::new(
                    v@.len(),
                    |i: int|
                        if 0 <= i < v@.len() {
                            v@[i].model()
                        } else {
                            YamlView::Null
                        },
                ),
            ),
            Yaml::Mapping(v) => YamlView::Mapping(
                Seq::new(
                    v@.len(),
                    |i: int|
                        if 0 <= i < v@.len() {
                            (v@[i].0.model(), v@[i].1.model())
                        } else {
                            (YamlView::Null, YamlView::Null)
                        },
                ),
            ),
            Yaml::Tagged(v) => YamlView::Tagged(Box::new(v.model())),
        }
    }
}

/// What parsing a YAML text gives, with strings taken as texts.
pub open spec fn yaml_result(r: Result<Yaml, String>) -> Result<YamlView, Seq<char>> {
    match r {
        Ok(v) => Ok(v.model()),
        Err(e) => Err(e@),
    }
}

/// `serde_yaml::Value`.
#[verifier::external_type_specification]
#[verifier::external_body]
pub struct ExYamlValue(serde_yaml::Value);

/// The value that `serde_yaml::from_str` reads from a text, or its error message.
pub uninterp spec fn yaml_document(text: Seq<char>) -> Result<YamlView, Seq<char>>;

/// The plain data of a `serde_yaml::Value`.
pub uninterp spec fn yaml_value(v: serde_yaml::Value) -> YamlView;

/// What reading gives, with the value taken as plain data and the message as a text.
pub open spec fn yaml_read(r: Result<serde_yaml::Value, String>) -> Result<YamlView, Seq<char>> {
    match r {
        Ok(v) => Ok(yaml_value(v)),
        Err(e) => Err(e@),
    }
}

/// `serde_yaml::from_str` into a `serde_yaml::Value`: the value read, or the message of the
/// error. Both depend on the text alone.
#[verifier::external_body]
fn read_yaml(text: &str) -> (r: Result<serde_yaml::Value, String>)
    ensures
        yaml_read(r) == yaml_document(text@),
{
    serde_yaml::from_str(text).map_err(|e| e.to_string())
}

/// Moves a `serde_yaml::Value` into plain data, variant by variant and field by field. A number
/// is an `i64` where it fits, else the bits of its double. The name of a tag is dropped.
#[verifier::external_body]
fn yaml_tree(v: serde_yaml::Value) -> (r: Yaml)
    ensures
        r.model() == yaml_value(v),
{
    match v {
        Y::Null => Yaml::Null,
        Y::Bool(b) => Yaml::Bool(b),
        Y::Number(n) => match n.as_i64() {
            Some(i) => Yaml::Int(i),
            None => Yaml::Float(n.as_f64().unwrap_or_default().to_bits()),
        },
        Y::String(s) => Yaml::Text(s),
        Y::Sequence(q) => Yaml::Sequence(q.into_iter().map(yaml_tree).collect()),
        Y::Mapping(m) => {
            Yaml::Mapping(m.into_iter().map(|(k, w)| (yaml_tree(k), yaml_tree(w))).collect())
        },
        Y::Tagged(t) => Yaml::Tagged(Box::new(yaml_tree(t.value))),
    }
}

/// The YAML value in a text, or why there is none.
pub(crate) fn yaml_from_str(text: &str) -> (r: Result<Yaml, String>)
    ensures
        yaml_result(r) == yaml_document(text@),
{
    match read_yaml(text) {
        Ok(v) => Ok(yaml_tree(v)),
        Err(e) => Err(e),
    }
}

// ── From YAML to JSON ───────────────────────────────────────────────────────

/// Whether the double with these bits is neither infinite nor NaN: its exponent is not all ones.
pub open spec fn finite_bits(bits: u64) -> bool {
    (bits / 0x10_0000_0000_0000) % 0x800 != 0x7ff
}

/// The position of the field with a name.
pub open spec fn field_index(fields: Seq<(Seq<char>, JsonView)>, name: Seq<char>) -> Option<int>
    decreases fields.len(),
{
    if fields.len() == 0 {
        None
    } else if fields.last().0 == name {
        Some(fields.len() - 1)
    } else {
        field_index(fields.drop_last(), name)
    }
}

/// The fields with one set: in place where there is one of the name, at the end otherwise.
pub open spec fn set_field(
    fields: Seq<(Seq<char>, JsonView)>,
    name: Seq<char>,
    value: JsonView,
) -> Seq<(Seq<char>, JsonView)> {
    match field_index(fields, name) {
        Some(i) => fields.update(i, (name, value)),
        None => fields.push((name, value)),
    }
}

/// The JSON value of a YAML value. Numbers that are not finite become null, tags are dropped,
/// and mappings keep the fields whose key is a string.
pub open spec fn json_of_yaml(v: YamlView) -> JsonView
    decreases v,
{
    match v {
        YamlView::Null => JsonView::Null,
        YamlView::Bool(b) => JsonView::Bool(b),
        YamlView::Int(i) => JsonView::Int(i),
        YamlView::Float(bits) => if finite_bits(bits) {
            JsonView::Float(bits)
        } else {
            JsonView::Null
        },
        YamlView::Text(s) => JsonView::Text(s),
        YamlView::Sequence(q) => JsonView::Array(
            Seq::new(
                q.len(),
                |i: int|
                    if 0 <= i < q.len() {
                        json_of_yaml(q[i])
                    } else {
                        JsonView::Null
                    },
            ),
        ),
        YamlView::Mapping(m) => JsonView::Object(json_fields(m)),
        YamlView::Tagged(t) => json_of_yaml(*t),
    }
}

/// The fields of a mapping whose key is a string. Where a key occurs again, the later value
/// counts.
pub open spec fn json_fields(m: Seq<(YamlView, YamlView)>) -> Seq<(Seq<char>, JsonView)>
    decreases m,
{
    if m.len() == 0 {
        Seq::empty()
    } else {
        let rest = json_fields(m.subrange(0, m.len() - 1));
        match m[m.len() - 1].0 {
            YamlView::Text(k) => set_field(rest, k, json_of_yaml(m[m.len() - 1].1)),
            _ => rest,
        }
    }
}

/// The entries of an object with strings taken as texts.
pub open spec fn fields_view(fields: Seq<(String, Json)>) -> Seq<(Seq<char>, JsonView)> {
    Seq::new(fields.len(), |i: int| (fields[i].0@, fields[i].1.model()))
}

/// The position of the field with a name.
pub fn find_field(fields: &Vec<(String, Json)>, name: &str) -> (r: Option<usize>)
    ensures
        match r {
            Some(i) => field_index(fields_view(fields@), name@) == Some(i as int) && i
                < fields@.len(),
            None => field_index(fields_view(fields@), name@) is None,
        },
{
    let ghost all = fields_view(fields@);
    let mut n: usize = fields.len();
    proof {
        assert(all.take(all.len() as int) =~= all);
    }
    while n > 0
        invariant
            n <= fields@.len(),
            all == fields_view(fields@),
            field_index(all, name@) == field_index(all.take(n as int), name@),
        decreases n,
    {
        if crate::text::str_eq(fields[n - 1].0.as_str(), name) {
            return Some(n - 1);
        }
        proof {
            assert(all.take(n as int).drop_last() =~= all.take(n - 1));
        }
        n -= 1;
    }
    None
}

pub proof fn lemma_field_index(fields: Seq<(Seq<char>, JsonView)>, name: Seq<char>)
    ensures
        match field_index(fields, name) {
            Some(i) => 0 <= i < fields.len() && fields[i].0 == name,
            None => forall|i: int| 0 <= i < fields.len() ==> (#[trigger] fields[i]).0 != name,
        },
    decreases fields.len(),
{
    if fields.len() > 0 && fields.last().0 != name {
        lemma_field_index(fields.drop_last(), name);
        assert forall|i: int|
            0 <= i < fields.len() && field_index(fields, name) is None implies (
        #[trigger] fields[i]).0 != name by {
            if i < fields.len() - 1 {
                assert(fields.drop_last()[i] == fields[i]);
            }
        }
    }
}

/// The JSON value of a YAML value.
pub fn yaml_to_json(v: &Yaml) -> (r: Json)
    ensures
        r.model() == json_of_yaml(v.model()),
    decreases v,
{
    match v {
        Yaml::Null => Json::Null,
        Yaml::Bool(b) => Json::Bool(*b),
        Yaml::Int(i) => Json::Int(*i),
        Yaml::Float(bits) => {
            if (*bits / 0x10_0000_0000_0000) % 0x800 != 0x7ff {
                Json::Float(*bits)
            } else {
                Json::Null
            }
        },
        Yaml::Text(s) => Json::Text(s.clone()),
        Yaml::Sequence(q) => {
            let mut out: Vec<Json> = Vec::new();
            let mut i: usize = 0;
            while i < q.len()
                invariant
                    i <= q@.len(),
                    out@.len() == i,
                    forall|j: int|
                        0 <= j < i ==> (#[trigger] out@[j]).model() == json_of_yaml(q@[j].model()),
                    v == Yaml::Sequence(*q),
                decreases q@.len() - i,
            {
                assert(v->Sequence_0@[i as int] == q@[i as int]);
                let x = yaml_to_json(&q[i]);
                out.push(x);
                i += 1;
            }
            let r = Json::Array(out);
            proof {
                let m = v.model();
                assert(r.model()->Array_0 =~= json_of_yaml(m)->Array_0);
            }
            r
        },
        Yaml::Mapping(m) => {
            let mut out: Vec<(String, Json)> = Vec::new();
            let ghost all = v.model()->Mapping_0;
            let mut i: usize = 0;
            proof {
                assert(all.len() == m@.len());
                assert(all.take(0) =~= Seq::<(YamlView, YamlView)>::empty());
                assert(fields_view(out@) =~= json_fields(all.take(0)));
            }
            while i < m.len()
                invariant
                    i <= m@.len(),
                    v == Yaml::Mapping(*m),
                    all == v.model()->Mapping_0,
                    all.len() == m@.len(),
                    fields_view(out@) == json_fields(all.take(i as int)),
                decreases m@.len() - i,
            {
                let ghost before = out@;
                proof {
                    assert(all.take(i + 1).subrange(0, i as int) =~= all.take(i as int));
                    assert(all[i as int] == (m@[i as int].0.model(), m@[i as int].1.model()));
                }
                match &m[i].0 {
                    Yaml::Text(k) => {
                        let x = yaml_to_json(&m[i].1);
                        match find_field(&out, k.as_str()) {
                            Some(j) => {
                                out[j] = (k.clone(), x);
                                proof {
                                    assert(fields_view(out@) =~= fields_view(before).update(
                                        j as int,
                                        (k@, x.model()),
                                    ));
                                }
                            },
                            None => {
                                out.push((k.clone(), x));
                                proof {
                                    assert(fields_view(out@) =~= fields_view(before).push(
                                        (k@, x.model()),
                                    ));
                                }
                            },
                        }
                    },
                    _ => {},
                }
                i += 1;
            }
            proof {
                assert(all.take(all.len() as int) =~= all);
                assert(Json::Object(out).model()->Object_0 =~= fields_view(out@));
            }
            Json::Object(out)
        },
        Yaml::Tagged(t) => yaml_to_json(&**t),
    }
}

} // verus!
