//! JSON values.
//!
//! A [`JsonValue`] holds what a JSON text says. Reading and writing the text is done by
//! `serde_json`; this module takes its values apart and puts them together.

use vstd::prelude::*;

verus! {

/// A number of a JSON text.
#[derive(Clone, Copy, Debug, PartialEq, Eq, Structural)]
pub enum JsonNumber {
    /// A whole number that is not negative.
    PosInt(u64),
    /// A negative whole number.
    NegInt(i64),
    /// Any other number, as the bits of a double.
    Float(u64),
}

/// What a JSON text says. The fields of an object are in ascending order of their names.
#[derive(Debug, PartialEq, Eq)]
pub enum JsonValue {
    Null,
    Bool(bool),
    Number(JsonNumber),
    String(String),
    Array(Vec<JsonValue>),
    Object(Vec<(String, JsonValue)>),
}

/// The model of a JSON value.
pub enum Json {
    Null,
    Bool(bool),
    Number(JsonNumber),
    Text(Seq<char>),
    Array(Seq<Json>),
    Object(Seq<(Seq<char>, Json)>),
}

impl JsonValue {
    /// The model of this value.
    pub open spec fn spec_view(self) -> Json
        decreases self,
    {
        match self {
            JsonValue::Null => Json::Null,
            JsonValue::Bool(b) => Json::Bool(b),
            JsonValue::Number(n) => Json::Number(n),
            JsonValue::String(s) => Json::Text(s@),
            JsonValue::Array(a) => Json::Array(view_list(a@)),
            JsonValue::Object(o) => Json::Object(view_fields(o@)),
        }
    }
}

impl View for JsonValue {
    type V = Json;

    open spec fn view(&self) -> Json {
        self.spec_view()
    }
}

/// The models of a list of values.
pub open spec fn view_list(s: Seq<JsonValue>) -> Seq<Json>
    decreases s,
{
    if s.len() == 0 {
        Seq::empty()
    } else {
        view_list(s.drop_last()).push(s[s.len() - 1].spec_view())
    }
}

/// The models of a list of fields.
pub open spec fn view_fields(s: Seq<(String, JsonValue)>) -> Seq<(Seq<char>, Json)>
    decreases s,
{
    if s.len() == 0 {
        Seq::empty()
    } else {
        view_fields(s.drop_last()).push((s[s.len() - 1].0@, s[s.len() - 1].1.spec_view()))
    }
}

/// The bits are those of a double that is a number: neither infinite nor undefined.
pub open spec fn is_finite(bits: u64) -> bool {
    (bits / 0x10_0000_0000_0000) % 2048 != 2047
}

/// `a` comes before `b` in the order of texts.
pub open spec fn text_less(a: Seq<char>, b: Seq<char>) -> bool
    decreases a.len(),
{
    if b.len() == 0 {
        false
    } else if a.len() == 0 {
        true
    } else if a[0] != b[0] {
        (a[0] as u32) < (b[0] as u32)
    } else {
        text_less(a.drop_first(), b.drop_first())
    }
}

/// The names ascend strictly.
pub open spec fn names_ascend(names: Seq<Seq<char>>) -> bool {
    forall|i: int, j: int| 0 <= i < j < names.len() ==> text_less(#[trigger] names[i], #[trigger] names[j])
}

/// The number is in the form that a JSON text gives it.
pub open spec fn valid_number(n: JsonNumber) -> bool {
    match n {
        JsonNumber::PosInt(_) => true,
        JsonNumber::NegInt(i) => i < 0,
        JsonNumber::Float(bits) => is_finite(bits),
    }
}

/// The names of a list of fields.
pub open spec fn field_names(fields: Seq<(Seq<char>, Json)>) -> Seq<Seq<char>> {
    Seq::new(fields.len(), |i: int| fields[i].0)
}

/// The value is in the form that a JSON text gives it.
pub open spec fn valid_json(j: Json) -> bool
    decreases j,
{
    match j {
        Json::Number(n) => valid_number(n),
        Json::Array(s) => forall|i: int| 0 <= i < s.len() ==> valid_json(#[trigger] s[i]),
        Json::Object(s) => names_ascend(field_names(s)) && forall|i: int|
            0 <= i < s.len() ==> valid_json((#[trigger] s[i]).1),
        _ => true,
    }
}

/// Writing the value and reading it again gives the value: it holds no number that is not whole,
/// and arrays and objects are nested at most `depth` deep.
pub open spec fn is_exact(j: Json, depth: nat) -> bool
    decreases depth,
{
    match j {
        Json::Number(n) => !(n is Float),
        Json::Array(s) => depth > 0 && forall|i: int|
            0 <= i < s.len() ==> is_exact(#[trigger] s[i], (depth - 1) as nat),
        Json::Object(s) => depth > 0 && forall|i: int|
            0 <= i < s.len() ==> is_exact((#[trigger] s[i]).1, (depth - 1) as nat),
        _ => true,
    }
}

/// Declares `serde_json::Value`.
#[verifier::external_type_specification]
#[verifier::external_body]
pub struct ExValue(serde_json::Value);

/// What a `serde_json::Value` holds.
pub uninterp spec fn held(v: serde_json::Value) -> Json;

/// What a JSON text says, if it is one: what `serde_json::from_str` returns.
pub uninterp spec fn json_of_text(text: Seq<char>) -> Option<Json>;

/// What a JSON text in bytes says, if it is one: what `serde_json::from_slice` returns.
pub uninterp spec fn json_of_bytes(bytes: Seq<u8>) -> Option<Json>;

/// The compact JSON text of a value: what `serde_json::to_vec` returns.
pub uninterp spec fn json_text(j: Json) -> Option<Seq<u8>>;

/// A `serde_json::Value` taken apart. Of a number: what `as_u64`, `as_i64` and the bits of
/// `as_f64` say.
pub enum JsonShape {
    Null,
    Bool(bool),
    Number(Option<u64>, Option<i64>, Option<u64>),
    String(String),
    Array(Vec<serde_json::Value>),
    Object(Vec<(String, serde_json::Value)>),
}

/// What `serde_json::Value`s in a list hold.
pub open spec fn held_list(s: Seq<serde_json::Value>) -> Seq<Json> {
    Seq::new(s.len(), |i: int| held(s[i]))
}

/// What `serde_json::Value`s in a list of fields hold.
pub open spec fn held_fields(s: Seq<(String, serde_json::Value)>) -> Seq<(Seq<char>, Json)> {
    Seq::new(s.len(), |i: int| (s[i].0@, held(s[i].1)))
}

/// The number of which the three readings are given.
pub open spec fn number_of(unsigned: Option<u64>, signed: Option<i64>, bits: Option<u64>) -> JsonNumber {
    if unsigned is Some {
        JsonNumber::PosInt(unsigned->0)
    } else if signed is Some {
        JsonNumber::NegInt(signed->0)
    } else {
        JsonNumber::Float(bits->0)
    }
}

/// What a value that was taken apart holds.
pub open spec fn shape_json(s: JsonShape) -> Json {
    match s {
        JsonShape::Null => Json::Null,
        JsonShape::Bool(b) => Json::Bool(b),
        JsonShape::Number(unsigned, signed, bits) => Json::Number(number_of(unsigned, signed, bits)),
        JsonShape::String(t) => Json::Text(t@),
        JsonShape::Array(a) => Json::Array(held_list(a@)),
        JsonShape::Object(o) => Json::Object(held_fields(o@)),
    }
}

/// What holds of every value that was taken apart: a number has a reading, and is negative if it
/// is whole without an unsigned one; the names of an object ascend.
pub open spec fn valid_shape(s: JsonShape) -> bool {
    match s {
        JsonShape::Number(unsigned, signed, bits) => bits is Some && valid_number(number_of(unsigned, signed, bits)),
        JsonShape::Object(o) => names_ascend(field_names(held_fields(o@))),
        _ => true,
    }
}

/// `serde_json::from_str`: what the text says, or nothing if it is no JSON text.
#[verifier::external_body]
fn parse_text(text: &str) -> (r: Option<serde_json::Value>)
    ensures
        r matches Some(v) ==> json_of_text(text@) == Some(held(v)),
        r is None ==> json_of_text(text@) is None,
{
    serde_json::from_str::<serde_json::Value>(text).ok()
}

/// `serde_json::from_slice`: what the text says, or nothing if it is no JSON text.
#[verifier::external_body]
fn parse_bytes(bytes: &[u8]) -> (r: Option<serde_json::Value>)
    ensures
        r matches Some(v) ==> json_of_bytes(bytes@) == Some(held(v)),
        r is None ==> json_of_bytes(bytes@) is None,
{
    serde_json::from_slice::<serde_json::Value>(bytes).ok()
}

/// `serde_json::to_vec`: the compact JSON text of a value. Reading the text of a value without
/// fractions that is nested less than 128 deep gives the value back.
#[verifier::external_body]
fn write_value(v: &serde_json::Value) -> (r: Option<Vec<u8>>)
    ensures
        r matches Some(b) ==> json_text(held(*v)) == Some(b@),
        r is None ==> json_text(held(*v)) is None,
        is_exact(held(*v), 127) ==> r is Some && json_of_bytes(r->0@) == Some(held(*v)),
{
    serde_json::to_vec(v).ok()
}

/// Takes a `serde_json::Value` apart: the variant it is, with its fields. An object is a
/// `serde_json::Map`, which keeps its names in ascending order.
#[verifier::external_body]
fn shape_of(v: serde_json::Value) -> (s: JsonShape)
    ensures
        held(v) == shape_json(s),
        valid_shape(s),
{
    match v {
        serde_json::Value::Null => JsonShape::Null,
        serde_json::Value::Bool(b) => JsonShape::Bool(b),
        serde_json::Value::Number(n) => {
            JsonShape::Number(n.as_u64(), n.as_i64(), n.as_f64().map(bytemuck::cast))
        },
        serde_json::Value::String(t) => JsonShape::String(t),
        serde_json::Value::Array(a) => JsonShape::Array(a),
        serde_json::Value::Object(o) => JsonShape::Object(o.into_iter().collect()),
    }
}

/// A `serde_json::Value` to be put together.
pub enum JsonParts {
    Null,
    Bool(bool),
    PosInt(u64),
    NegInt(i64),
    Float(u64),
    String(String),
    Array(Vec<serde_json::Value>),
    Object(Vec<(String, serde_json::Value)>),
}

/// What a value that is put together holds.
pub open spec fn parts_json(p: JsonParts) -> Json {
    match p {
        JsonParts::Null => Json::Null,
        JsonParts::Bool(b) => Json::Bool(b),
        JsonParts::PosInt(u) => Json::Number(JsonNumber::PosInt(u)),
        JsonParts::NegInt(i) => Json::Number(JsonNumber::NegInt(i)),
        JsonParts::Float(bits) => Json::Number(JsonNumber::Float(bits)),
        JsonParts::String(t) => Json::Text(t@),
        JsonParts::Array(a) => Json::Array(held_list(a@)),
        JsonParts::Object(o) => Json::Object(held_fields(o@)),
    }
}

/// The parts are those of a value that a JSON text gives.
pub open spec fn valid_parts(p: JsonParts) -> bool {
    match p {
        JsonParts::NegInt(i) => i < 0,
        JsonParts::Float(bits) => is_finite(bits),
        JsonParts::Object(o) => names_ascend(field_names(held_fields(o@))),
        _ => true,
    }
}

/// Puts a `serde_json::Value` together: the variant with the given fields.
#[verifier::external_body]
fn value_of(p: JsonParts) -> (v: serde_json::Value)
    requires
        valid_parts(p),
    ensures
        held(v) == parts_json(p),
{
    match p {
        JsonParts::Null => serde_json::Value::Null,
        JsonParts::Bool(b) => serde_json::Value::Bool(b),
        JsonParts::PosInt(u) => serde_json::Value::from(u),
        JsonParts::NegInt(i) => serde_json::Value::from(i),
        JsonParts::Float(bits) => serde_json::Number::from_f64(bytemuck::cast(bits)).into(),
        JsonParts::String(t) => serde_json::Value::String(t),
        JsonParts::Array(a) => serde_json::Value::Array(a),
        JsonParts::Object(o) => serde_json::Value::Object(o.into_iter().collect()),
    }
}

/// The models of a list stand in its order.
pub proof fn lemma_view_list_index(s: Seq<JsonValue>)
    ensures
        view_list(s).len() == s.len(),
        forall|i: int| 0 <= i < s.len() ==> (#[trigger] view_list(s)[i]) == s[i].spec_view(),
    decreases s.len(),
{
    if s.len() > 0 {
        lemma_view_list_index(s.drop_last());
    }
}

/// The models of fields stand in their order.
pub proof fn lemma_view_fields_index(s: Seq<(String, JsonValue)>)
    ensures
        view_fields(s).len() == s.len(),
        forall|i: int| 0 <= i < s.len() ==> (#[trigger] view_fields(s)[i]) == (s[i].0@, s[i].1.spec_view()),
    decreases s.len(),
{
    if s.len() > 0 {
        lemma_view_fields_index(s.drop_last());
    }
}

/// Turns what `serde_json` read into a value of this library.
fn read_value(v: serde_json::Value) -> (r: JsonValue)
    ensures
        r@ == held(v),
        valid_json(r@),
    decreases held(v),
{
    let ghost whole = held(v);
    match shape_of(v) {
        JsonShape::Null => JsonValue::Null,
        JsonShape::Bool(b) => JsonValue::Bool(b),
        JsonShape::Number(unsigned, signed, bits) => {
            let n = match (unsigned, signed, bits) {
                (Some(u), _, _) => JsonNumber::PosInt(u),
                (None, Some(i), _) => JsonNumber::NegInt(i),
                (None, None, Some(f)) => JsonNumber::Float(f),
                (None, None, None) => JsonNumber::PosInt(0),
            };
            JsonValue::Number(n)
        },
        JsonShape::String(t) => JsonValue::String(t),
        JsonShape::Array(a) => {
            let ghost all = a@;
            let mut rest = a;
            let mut rev: Vec<JsonValue> = Vec::new();
            while rest.len() > 0
                invariant
                    whole == held(v),
                    whole == Json::Array(held_list(all)),
                    rest@.len() + rev@.len() == all.len(),
                    rest@ == all.take(rest@.len() as int),
                    forall|i: int|
                        0 <= i < rev@.len() ==> (#[trigger] rev@[i])@ == held(all[all.len() - 1 - i]) && valid_json(
                            rev@[i]@,
                        ),
                decreases rest@.len(),
            {
                let ghost n = rest@.len() as int;
                let next = rest.pop();
                if let Some(part) = next {
                    proof {
                        assert(part == all[n - 1]);
                        assert(held_list(all)[n - 1] == held(part));
                        assert(decreases_to!(whole => whole->Array_0));
                        assert(decreases_to!(whole->Array_0 => whole->Array_0[n - 1]));
                    }
                    let item = read_value(part);
                    rev.push(item);
                    assert(rest@ =~= all.take(n - 1));
                }
            }
            let out = reversed(rev);
            proof {
                lemma_view_list_index(out@);
                assert(view_list(out@) =~= held_list(all));
                assert forall|i: int| 0 <= i < view_list(out@).len() implies valid_json(
                    #[trigger] view_list(out@)[i],
                ) by {
                    assert(out@[i] == rev@[rev@.len() - 1 - i]);
                }
            }
            JsonValue::Array(out)
        },
        JsonShape::Object(o) => {
            let ghost all = o@;
            let mut rest = o;
            let mut rev: Vec<(String, JsonValue)> = Vec::new();
            while rest.len() > 0
                invariant
                    whole == held(v),
                    whole == Json::Object(held_fields(all)),
                    rest@.len() + rev@.len() == all.len(),
                    rest@ == all.take(rest@.len() as int),
                    forall|i: int|
                        0 <= i < rev@.len() ==> (#[trigger] rev@[i]).0@ == all[all.len() - 1 - i].0@ && rev@[i].1@
                            == held(all[all.len() - 1 - i].1) && valid_json(rev@[i].1@),
                decreases rest@.len(),
            {
                let ghost n = rest@.len() as int;
                let next = rest.pop();
                if let Some((name, part)) = next {
                    proof {
                        assert((name, part) == all[n - 1]);
                        assert(held_fields(all)[n - 1] == (name@, held(part)));
                        assert(decreases_to!(whole => whole->Object_0));
                        assert(decreases_to!(whole->Object_0 => whole->Object_0[n - 1]));
                        assert(decreases_to!(whole->Object_0[n - 1] => whole->Object_0[n - 1].1));
                    }
                    let item = read_value(part);
                    rev.push((name, item));
                    assert(rest@ =~= all.take(n - 1));
                }
            }
            let out = reversed(rev);
            proof {
                lemma_view_fields_index(out@);
                assert forall|i: int| 0 <= i < all.len() implies (#[trigger] view_fields(out@)[i]) == held_fields(
                    all,
                )[i] by {
                    assert(out@[i] == rev@[rev@.len() - 1 - i]);
                }
                assert(view_fields(out@) =~= held_fields(all));
                assert forall|i: int| 0 <= i < view_fields(out@).len() implies valid_json(
                    (#[trigger] view_fields(out@)[i]).1,
                ) by {
                    assert(out@[i] == rev@[rev@.len() - 1 - i]);
                }
            }
            JsonValue::Object(out)
        },
    }
}

/// The list in the opposite order.
fn reversed<T>(v: Vec<T>) -> (out: Vec<T>)
    ensures
        out@.len() == v@.len(),
        forall|i: int| 0 <= i < v@.len() ==> (#[trigger] out@[i]) == v@[v@.len() - 1 - i],
{
    let ghost all = v@;
    let mut rest = v;
    let mut out: Vec<T> = Vec::new();
    while rest.len() > 0
        invariant
            rest@.len() + out@.len() == all.len(),
            rest@ == all.take(rest@.len() as int),
            forall|i: int| 0 <= i < out@.len() ==> (#[trigger] out@[i]) == all[all.len() - 1 - i],
        decreases rest@.len(),
    {
        let ghost n = rest@.len() as int;
        if let Some(x) = rest.pop() {
            out.push(x);
            assert(rest@ =~= all.take(n - 1));
        }
    }
    out
}

/// The items of a valid array are valid.
pub proof fn lemma_valid_items(s: Seq<Json>)
    ensures
        valid_json(Json::Array(s)) <==> forall|i: int| 0 <= i < s.len() ==> valid_json(#[trigger] s[i]),
{
    let j = Json::Array(s);
    if valid_json(j) {
        assert forall|i: int| 0 <= i < s.len() implies valid_json(#[trigger] s[i]) by {
            assert(valid_json(j->Array_0[i]));
        }
    }
    if forall|i: int| 0 <= i < s.len() ==> valid_json(#[trigger] s[i]) {
        assert(valid_json(j));
    }
}

/// The fields of a valid object are valid, and their names ascend.
pub proof fn lemma_valid_fields(s: Seq<(Seq<char>, Json)>)
    ensures
        valid_json(Json::Object(s)) <==> names_ascend(field_names(s)) && forall|i: int|
            0 <= i < s.len() ==> valid_json((#[trigger] s[i]).1),
{
    reveal_with_fuel(valid_json, 2);
}

/// Turns a value of this library into one for `serde_json` to write.
fn build_value(j: &JsonValue) -> (v: serde_json::Value)
    requires
        valid_json(j@),
    ensures
        held(v) == j@,
    decreases j,
{
    match j {
        JsonValue::Null => value_of(JsonParts::Null),
        JsonValue::Bool(b) => value_of(JsonParts::Bool(*b)),
        JsonValue::Number(JsonNumber::PosInt(u)) => value_of(JsonParts::PosInt(*u)),
        JsonValue::Number(JsonNumber::NegInt(i)) => value_of(JsonParts::NegInt(*i)),
        JsonValue::Number(JsonNumber::Float(bits)) => value_of(JsonParts::Float(*bits)),
        JsonValue::String(t) => value_of(JsonParts::String(t.clone())),
        JsonValue::Array(a) => {
            let mut out: Vec<serde_json::Value> = Vec::new();
            let mut i: usize = 0;
            proof {
                lemma_view_list_index(a@);
                assert(j@ == Json::Array(view_list(a@)));
                lemma_valid_items(view_list(a@));
            }
            while i < a.len()
                invariant
                    i <= a@.len(),
                    *j == JsonValue::Array(*a),
                    forall|k: int| 0 <= k < a@.len() ==> valid_json(#[trigger] view_list(a@)[k]),
                    view_list(a@).len() == a@.len(),
                    forall|k: int| 0 <= k < a@.len() ==> (#[trigger] view_list(a@)[k]) == a@[k].spec_view(),
                    out@.len() == i,
                    forall|k: int| 0 <= k < i ==> held(#[trigger] out@[k]) == a@[k]@,
                decreases a@.len() - i,
            {
                assert(valid_json(view_list(a@)[i as int]));
                assert(decreases_to!(j => j->Array_0));
                assert(decreases_to!(j->Array_0 => a@));
                assert(decreases_to!(a@ => a@[i as int]));
                out.push(build_value(&a[i]));
                i = i + 1;
            }
            assert(held_list(out@) =~= view_list(a@));
            value_of(JsonParts::Array(out))
        },
        JsonValue::Object(o) => {
            let mut out: Vec<(String, serde_json::Value)> = Vec::new();
            let mut i: usize = 0;
            proof {
                lemma_view_fields_index(o@);
                assert(j@ == Json::Object(view_fields(o@)));
                lemma_valid_fields(view_fields(o@));
            }
            while i < o.len()
                invariant
                    i <= o@.len(),
                    *j == JsonValue::Object(*o),
                    forall|k: int| 0 <= k < o@.len() ==> valid_json((#[trigger] view_fields(o@)[k]).1),
                    view_fields(o@).len() == o@.len(),
                    forall|k: int|
                        0 <= k < o@.len() ==> (#[trigger] view_fields(o@)[k]) == (o@[k].0@, o@[k].1.spec_view()),
                    out@.len() == i,
                    forall|k: int|
                        0 <= k < i ==> (#[trigger] out@[k]).0@ == o@[k].0@ && held(out@[k].1) == o@[k].1@,
                decreases o@.len() - i,
            {
                assert(valid_json(view_fields(o@)[i as int].1));
                assert(decreases_to!(j => j->Object_0));
                assert(decreases_to!(j->Object_0 => o@));
                assert(decreases_to!(o@ => o@[i as int]));
                assert(decreases_to!(o@[i as int] => o@[i as int].1));
                out.push((o[i].0.clone(), build_value(&o[i].1)));
                i = i + 1;
            }
            assert(held_fields(out@) =~= view_fields(o@));
            value_of(JsonParts::Object(out))
        },
    }
}

impl Clone for JsonValue {
    fn clone(&self) -> (r: Self)
        ensures
            r@ == self@,
        decreases self,
    {
        match self {
            JsonValue::Null => JsonValue::Null,
            JsonValue::Bool(b) => JsonValue::Bool(*b),
            JsonValue::Number(n) => JsonValue::Number(*n),
            JsonValue::String(t) => JsonValue::String(t.clone()),
            JsonValue::Array(a) => {
                let mut out: Vec<JsonValue> = Vec::new();
                let mut i: usize = 0;
                proof {
                    lemma_view_list_index(a@);
                }
                while i < a.len()
                    invariant
                        i <= a@.len(),
                        *self == JsonValue::Array(*a),
                        out@.len() == i,
                        forall|k: int| 0 <= k < i ==> (#[trigger] out@[k])@ == a@[k]@,
                    decreases a@.len() - i,
                {
                    assert(decreases_to!(self => self->Array_0));
                    assert(decreases_to!(self->Array_0 => a@));
                    assert(decreases_to!(a@ => a@[i as int]));
                    out.push(a[i].clone());
                    i = i + 1;
                }
                proof {
                    lemma_view_list_index(out@);
                    assert(view_list(out@) =~= view_list(a@));
                }
                JsonValue::Array(out)
            },
            JsonValue::Object(o) => {
                let mut out: Vec<(String, JsonValue)> = Vec::new();
                let mut i: usize = 0;
                proof {
                    lemma_view_fields_index(o@);
                }
                while i < o.len()
                    invariant
                        i <= o@.len(),
                        *self == JsonValue::Object(*o),
                        out@.len() == i,
                        forall|k: int| 0 <= k < i ==> (#[trigger] out@[k]).0@ == o@[k].0@ && out@[k].1@ == o@[k].1@,
                    decreases o@.len() - i,
                {
                    assert(decreases_to!(self => self->Object_0));
                    assert(decreases_to!(self->Object_0 => o@));
                    assert(decreases_to!(o@ => o@[i as int]));
                    assert(decreases_to!(o@[i as int] => o@[i as int].1));
                    out.push((o[i].0.clone(), o[i].1.clone()));
                    i = i + 1;
                }
                proof {
                    lemma_view_fields_index(out@);
                    assert(view_fields(out@) =~= view_fields(o@));
                }
                JsonValue::Object(out)
            },
        }
    }
}

impl JsonValue {
    /// What a JSON text says; nothing if it is no JSON text.
    pub fn from_text(text: &str) -> (r: Option<JsonValue>)
        ensures
            r matches Some(j) ==> json_of_text(text@) == Some(j@) && valid_json(j@),
            r is None ==> json_of_text(text@) is None,
    {
        match parse_text(text) {
            Some(v) => Some(read_value(v)),
            None => None,
        }
    }

    /// What a JSON text in bytes says; nothing if it is no JSON text.
    pub fn from_slice(bytes: &[u8]) -> (r: Option<JsonValue>)
        ensures
            r matches Some(j) ==> json_of_bytes(bytes@) == Some(j@) && valid_json(j@),
            r is None ==> json_of_bytes(bytes@) is None,
    {
        match parse_bytes(bytes) {
            Some(v) => Some(read_value(v)),
            None => None,
        }
    }

    /// The compact JSON text of this value. Reading it gives the value back, if the value is
    /// exact.
    pub fn to_vec(&self) -> (r: Option<Vec<u8>>)
        requires
            valid_json(self@),
        ensures
            r matches Some(b) ==> json_text(self@) == Some(b@),
            r is None ==> json_text(self@) is None,
            is_exact(self@, 127) ==> r is Some && json_of_bytes(r->0@) == Some(self@),
    {
        write_value(&build_value(self))
    }

    /// Whether this value is a number.
    pub fn is_number(&self) -> (r: bool)
        ensures
            r == (self@ is Number),
    {
        match self {
            JsonValue::Number(_) => true,
            _ => false,
        }
    }
}

/// Of two texts that differ exactly one comes before the other: the one that the other continues,
/// or the one with the lesser character where they first differ.
pub proof fn law_text_order_is_total(a: Seq<char>, b: Seq<char>, n: int)
    ensures
        a == b ==> !text_less(a, b),
        a != b ==> text_less(a, b) != text_less(b, a),
        0 <= n < a.len() && n < b.len() && a.take(n) == b.take(n) && (a[n] as u32) < (b[n] as u32) ==> text_less(a, b),
        0 <= n < b.len() && a == b.take(n) ==> text_less(a, b),
    decreases a.len() + b.len(),
{
    if a.len() > 0 && b.len() > 0 && a[0] == b[0] {
        let (x, y) = (a.drop_first(), b.drop_first());
        law_text_order_is_total(x, y, n - 1);
        if x == y {
            assert(a =~= seq![a[0]] + x);
            assert(b =~= seq![b[0]] + y);
        }
        if 0 < n < a.len() && n < b.len() && a.take(n) == b.take(n) {
            assert(x.take(n - 1) =~= a.take(n).drop_first());
            assert(y.take(n - 1) =~= b.take(n).drop_first());
        }
        if 0 < n < b.len() && a == b.take(n) {
            assert(y.take(n - 1) =~= b.take(n).drop_first());
        }
    } else {
        if a.len() == 0 && b.len() == 0 {
            assert(a =~= b);
        }
        if a.len() > 0 && b.len() > 0 {
            vstd::utf8::char_u32_cast(a[0], a[0] as u32);
            vstd::utf8::char_u32_cast(b[0], b[0] as u32);
        }
        if 0 < n < a.len() && n < b.len() && a.take(n) == b.take(n) {
            assert(a.take(n)[0] == b.take(n)[0]);
        }
        if 0 < n < b.len() && a == b.take(n) {
            assert(a[0] == b.take(n)[0]);
        }
    }
}

} // verus!
