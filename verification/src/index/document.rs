//! Documents without a fixed schema.
//!
//! A document is a list of named JSON values in the order in which they were entered. Its bytes
//! are the magic `SKMD`, the number of fields, and for each field the length of the name, the
//! name, the length of the JSON text of the value, and that text; lengths take four bytes.

use vstd::prelude::*;
use vstd::utf8::{decode_utf8, encode_utf8, valid_utf8};

use crate::bytes::{be_bytes, be_value};
use crate::bytes::{bytes_equal, push_bytes, push_len, read_u32};
use crate::bytes::{lemma_be_bytes_len, lemma_be_bytes_of_value, lemma_be_value_of_bytes, lemma_pow256_values};
use crate::field_map::{entered, has_name, law_entered_value_is_found, names_distinct, position_of, value_under, FieldMap};
use crate::json::{
    field_names, is_exact, json_of_bytes, json_of_text, json_text, names_ascend, text_less, valid_json, view_fields,
    Json, JsonNumber, JsonValue,
};
use crate::json::{lemma_valid_fields, lemma_view_fields_index, lemma_view_list_index};
use crate::text::text_of_utf8;

verus! {

/// The magic at the start of a document's bytes: `SKMD`.
pub open spec fn doc_magic() -> Seq<u8> {
    seq![83u8, 75u8, 77u8, 68u8]
}

/// Why something is not a document.
#[derive(Clone, Copy, Debug, PartialEq, Eq, Structural)]
pub enum DocError {
    /// The text is no JSON text.
    Json,
    /// The JSON value is not an object.
    NotAnObject,
    /// The bytes are fewer than a header has.
    TooShort { len: usize },
    /// The bytes do not start with the magic.
    BadMagic,
    /// The length of a name is cut off.
    TruncatedNameLen,
    /// A name is cut off.
    TruncatedName,
    /// A name is not in UTF-8.
    NameNotUtf8,
    /// The length of a value is cut off.
    TruncatedValueLen,
    /// A value is cut off.
    TruncatedValue,
}

/// The bytes of a field with the given name and JSON text.
pub open spec fn field_frame(name: Seq<char>, text: Seq<u8>) -> Seq<u8> {
    be_bytes(encode_utf8(name).len(), 4) + encode_utf8(name) + be_bytes(text.len(), 4) + text
}

/// The bytes of a list of fields.
pub open spec fn field_frames(fs: Seq<(Seq<char>, Seq<u8>)>) -> Seq<u8>
    decreases fs.len(),
{
    if fs.len() == 0 {
        Seq::empty()
    } else {
        field_frames(fs.drop_last()) + field_frame(fs.last().0, fs.last().1)
    }
}

/// The bytes of a document with the given names and JSON texts.
pub open spec fn doc_frame(fs: Seq<(Seq<char>, Seq<u8>)>) -> Seq<u8> {
    doc_magic() + be_bytes(fs.len(), 4) + field_frames(fs)
}

/// Every value has a JSON text.
pub open spec fn has_texts(fields: Seq<(Seq<char>, Json)>) -> bool {
    forall|i: int| 0 <= i < fields.len() ==> json_text((#[trigger] fields[i]).1) is Some
}

/// The JSON texts of the values.
pub open spec fn texts_of(fields: Seq<(Seq<char>, Json)>) -> Seq<(Seq<char>, Seq<u8>)> {
    Seq::new(fields.len(), |i: int| (fields[i].0, json_text(fields[i].1)->0))
}

/// The field at a position of a buffer: its name, and where the text of its value starts and
/// ends.
pub open spec fn field_at(bytes: Seq<u8>, pos: int) -> Result<(Seq<char>, int, int), DocError> {
    if pos + 4 > bytes.len() {
        Err(DocError::TruncatedNameLen)
    } else {
        let name_len = be_value(bytes.subrange(pos, pos + 4)) as int;
        let name_start = pos + 4;
        if name_start + name_len > bytes.len() {
            Err(DocError::TruncatedName)
        } else {
            let name = bytes.subrange(name_start, name_start + name_len);
            let len_start = name_start + name_len;
            if !valid_utf8(name) {
                Err(DocError::NameNotUtf8)
            } else if len_start + 4 > bytes.len() {
                Err(DocError::TruncatedValueLen)
            } else {
                let value_len = be_value(bytes.subrange(len_start, len_start + 4)) as int;
                let value_start = len_start + 4;
                if value_start + value_len > bytes.len() {
                    Err(DocError::TruncatedValue)
                } else {
                    Ok((decode_utf8(name), value_start, value_start + value_len))
                }
            }
        }
    }
}

/// The `count` fields from a position of a buffer on, or the first error.
pub open spec fn decode_fields(bytes: Seq<u8>, pos: int, count: nat) -> Result<Seq<(Seq<char>, Json)>, DocError>
    decreases count,
{
    if count == 0 {
        Ok(Seq::empty())
    } else {
        match field_at(bytes, pos) {
            Err(e) => Err(e),
            Ok((name, start, end)) => match json_of_bytes(bytes.subrange(start, end)) {
                None => Err(DocError::Json),
                Some(value) => match decode_fields(bytes, end, (count - 1) as nat) {
                    Err(e) => Err(e),
                    Ok(rest) => Ok(seq![(name, value)] + rest),
                },
            },
        }
    }
}

/// The fields that the bytes of a document list, or why they are none.
pub open spec fn decode_doc(bytes: Seq<u8>) -> Result<Seq<(Seq<char>, Json)>, DocError> {
    if bytes.len() < 8 {
        Err(DocError::TooShort { len: bytes.len() as usize })
    } else if bytes.subrange(0, 4) != doc_magic() {
        Err(DocError::BadMagic)
    } else {
        decode_fields(bytes, 8, be_value(bytes.subrange(4, 8)))
    }
}

/// The fields after a list of fields has been entered, one after the other.
pub open spec fn enter_all(s: Seq<(Seq<char>, Json)>, fs: Seq<(Seq<char>, Json)>) -> Seq<(Seq<char>, Json)>
    decreases fs.len(),
{
    if fs.len() == 0 {
        s
    } else {
        entered(enter_all(s, fs.drop_last()), fs.last().0, fs.last().1)
    }
}

/// The models of the fields of a document.
pub open spec fn view_doc(s: Seq<(Seq<char>, JsonValue)>) -> Seq<(Seq<char>, Json)> {
    Seq::new(s.len(), |i: int| (s[i].0, s[i].1@))
}

proof fn lemma_view_entered(s: Seq<(Seq<char>, JsonValue)>, name: Seq<char>, v: JsonValue)
    requires
        names_distinct(s),
    ensures
        view_doc(entered(s, name, v)) == entered(view_doc(s), name, v@),
{
    let m = view_doc(s);
    if has_name(s, name) {
        let i = position_of(s, name);
        assert(m[i].0 == name);
        assert(has_name(m, name));
        let j = position_of(m, name);
        assert(s[j].0 == name);
        if i < j {
            assert(s[i].0 != s[j].0);
        } else if j < i {
            assert(s[j].0 != s[i].0);
        }
    } else if has_name(m, name) {
        let j = position_of(m, name);
        assert(s[j].0 == name);
    }
    assert(view_doc(entered(s, name, v)) =~= entered(m, name, v@));
}

/// Entering fields with different names lists them.
pub proof fn lemma_enter_distinct(fs: Seq<(Seq<char>, Json)>)
    requires
        names_distinct(fs),
    ensures
        enter_all(Seq::empty(), fs) == fs,
    decreases fs.len(),
{
    if fs.len() > 0 {
        let init = fs.drop_last();
        assert(names_distinct(init));
        lemma_enter_distinct(init);
        if has_name(init, fs.last().0) {
            let i = position_of(init, fs.last().0);
            assert(fs[i].0 == fs[fs.len() - 1].0);
        }
        assert(init.push(fs.last()) =~= fs);
    }
}

/// No text comes before itself.
pub proof fn lemma_text_less_irreflexive(a: Seq<char>)
    ensures
        !text_less(a, a),
    decreases a.len(),
{
    if a.len() > 0 {
        lemma_text_less_irreflexive(a.drop_first());
    }
}

/// Names that ascend differ.
pub proof fn lemma_ascending_names_differ(fs: Seq<(Seq<char>, Json)>)
    requires
        names_ascend(field_names(fs)),
    ensures
        names_distinct(fs),
{
    let names = field_names(fs);
    assert forall|i: int, j: int| 0 <= i < j < fs.len() implies (#[trigger] fs[i]).0 != (#[trigger] fs[j]).0 by {
        assert(text_less(names[i], names[j]));
        lemma_text_less_irreflexive(names[i]);
    }
}

/// A document without a fixed schema.
pub struct SchemalessDoc {
    pub fields: FieldMap<JsonValue>,
}

/// A document is modelled by its names and values, in order.
impl View for SchemalessDoc {
    type V = Seq<(Seq<char>, Json)>;

    open spec fn view(&self) -> Seq<(Seq<char>, Json)> {
        view_doc(self.fields@)
    }
}

/// The value is an array of numbers that is not empty.
pub open spec fn is_vector_value(j: Json) -> bool {
    j matches Json::Array(a) && a.len() > 0 && forall|i: int| 0 <= i < a.len() ==> (#[trigger] a[i]) is Number
}

/// The numbers of an array of numbers.
pub open spec fn numbers_of(j: Json) -> Seq<JsonNumber> {
    Seq::new(j->Array_0.len(), |i: int| j->Array_0[i]->Number_0)
}

impl SchemalessDoc {
    /// The map of fields is well formed and every value is valid.
    pub open spec fn wf(&self) -> bool {
        &&& self.fields.wf()
        &&& forall|i: int| 0 <= i < self@.len() ==> valid_json((#[trigger] self@[i]).1)
    }

    /// No name occurs twice in a document.
    pub proof fn lemma_names_distinct(&self)
        requires
            self.wf(),
        ensures
            names_distinct(self@),
    {
        self.fields.lemma_names_distinct();
        let s = self.fields@;
        assert forall|i: int, j: int| 0 <= i < j < self@.len() implies (#[trigger] self@[i]).0 != (
        #[trigger] self@[j]).0 by {
            assert(s[i].0 != s[j].0);
        }
    }

    /// A document without fields.
    pub fn new() -> (doc: Self)
        ensures
            doc.wf(),
            doc@ == Seq::<(Seq<char>, Json)>::empty(),
    {
        let doc = SchemalessDoc { fields: FieldMap::new() };
        assert(doc@ =~= Seq::<(Seq<char>, Json)>::empty());
        doc
    }

    /// Enters a value under a name.
    pub fn insert(&mut self, name: String, value: JsonValue)
        requires
            old(self).wf(),
            valid_json(value@),
        ensures
            final(self).wf(),
            final(self)@ == entered(old(self)@, name@, value@),
    {
        proof {
            self.fields.lemma_names_distinct();
            lemma_view_entered(self.fields@, name@, value);
        }
        let ghost before = self@;
        self.fields.insert(name, value);
        assert forall|i: int| 0 <= i < self@.len() implies valid_json((#[trigger] self@[i]).1) by {
            if has_name(before, name@) {
                if i != position_of(before, name@) {
                    assert(self@[i] == before[i]);
                }
            } else if i < before.len() {
                assert(self@[i] == before[i]);
            }
        }
    }

    /// The document that a JSON text describes. The text has to be that of an object.
    pub fn from_json(json: &str) -> (r: Result<Self, DocError>)
        ensures
            match json_of_text(json@) {
                None => r matches Err(e) && e == DocError::Json,
                Some(Json::Object(fields)) => r matches Ok(doc) && doc.wf() && doc@ == fields,
                Some(_) => r matches Err(e) && e == DocError::NotAnObject,
            },
    {
        match JsonValue::from_text(json) {
            None => Err(DocError::Json),
            Some(value) => {
                proof {
                    if let Json::Object(fields) = value@ {
                        lemma_valid_fields(fields);
                        lemma_ascending_names_differ(fields);
                        lemma_enter_distinct(fields);
                    }
                }
                Self::from_value(&value)
            },
        }
    }

    /// The document that a JSON object describes.
    pub fn from_value(value: &JsonValue) -> (r: Result<Self, DocError>)
        requires
            valid_json(value@),
        ensures
            match value@ {
                Json::Object(fields) => r matches Ok(doc) && doc.wf() && doc@ == enter_all(Seq::empty(), fields),
                _ => r matches Err(e) && e == DocError::NotAnObject,
            },
    {
        match value {
            JsonValue::Object(o) => {
                let ghost all = view_fields(o@);
                proof {
                    lemma_view_fields_index(o@);
                    assert(value@ == Json::Object(all));
                    lemma_valid_fields(all);
                    assert(all.take(0) =~= Seq::<(Seq<char>, Json)>::empty());
                }
                let mut doc = SchemalessDoc::new();
                let mut i: usize = 0;
                while i < o.len()
                    invariant
                        i <= o@.len(),
                        all == view_fields(o@),
                        all.len() == o@.len(),
                        forall|k: int| 0 <= k < o@.len() ==> (#[trigger] all[k]) == (o@[k].0@, o@[k].1.spec_view()),
                        forall|k: int| 0 <= k < o@.len() ==> valid_json((#[trigger] all[k]).1),
                        doc.wf(),
                        doc@ == enter_all(Seq::empty(), all.take(i as int)),
                    decreases o@.len() - i,
                {
                    proof {
                        assert(all.take(i + 1).drop_last() =~= all.take(i as int));
                        assert(all.take(i + 1).last() == all[i as int]);
                    }
                    doc.insert(o[i].0.clone(), o[i].1.clone());
                    i = i + 1;
                }
                assert(all.take(i as int) =~= all);
                Ok(doc)
            },
            _ => Err(DocError::NotAnObject),
        }
    }

    /// The document that a JSON object describes, taking the object.
    pub fn from_value_owned(value: JsonValue) -> (r: Result<Self, DocError>)
        requires
            valid_json(value@),
        ensures
            match value@ {
                Json::Object(fields) => r matches Ok(doc) && doc.wf() && doc@ == enter_all(Seq::empty(), fields),
                _ => r matches Err(e) && e == DocError::NotAnObject,
            },
    {
        Self::from_value(&value)
    }

    /// The value under a name.
    pub fn get(&self, name: &str) -> (r: Option<&JsonValue>)
        requires
            self.wf(),
        ensures
            r is Some <==> has_name(self@, name@),
            r matches Some(v) ==> value_under(self@, name@) == Some(v@),
    {
        proof {
            self.fields.lemma_names_distinct();
            let s = self.fields@;
            if has_name(s, name@) {
                let i = position_of(s, name@);
                assert(self@[i].0 == name@);
                let j = position_of(self@, name@);
                assert(s[j].0 == name@);
                if i < j {
                    assert(s[i].0 != s[j].0);
                } else if j < i {
                    assert(s[j].0 != s[i].0);
                }
            } else if has_name(self@, name@) {
                let j = position_of(self@, name@);
                assert(s[j].0 == name@);
            }
        }
        self.fields.get(name)
    }

    /// The fields, in order.
    pub fn fields(&self) -> (fields: &FieldMap<JsonValue>)
        ensures
            *fields == self.fields,
    {
        &self.fields
    }

    /// The first field, in order, that holds an array of numbers which is not empty: its name
    /// and the numbers. One number is enough here, though a field is inferred to be a vector only
    /// if there are more.
    pub fn get_vector_field(&self) -> (r: Option<(String, Vec<JsonNumber>)>)
        requires
            self.wf(),
        ensures
            match r {
                Some((name, numbers)) => exists|i: int|
                    0 <= i < self@.len() && is_vector_value((#[trigger] self@[i]).1) && name@ == self@[i].0 && numbers@
                        == numbers_of(self@[i].1) && forall|k: int|
                        0 <= k < i ==> !is_vector_value((#[trigger] self@[k]).1),
                None => forall|k: int| 0 <= k < self@.len() ==> !is_vector_value((#[trigger] self@[k]).1),
            },
    {
        let mut i: usize = 0;
        while i < self.fields.len()
            invariant
                i <= self@.len(),
                self.wf(),
                forall|k: int| 0 <= k < i ==> !is_vector_value((#[trigger] self@[k]).1),
            decreases self@.len() - i,
        {
            let value = self.fields.value_at(i);
            assert(self@[i as int].1 == value@);
            match vector_numbers(value) {
                Some(numbers) => {
                    return Some((self.fields.name_at(i), numbers));
                },
                None => {},
            }
            i = i + 1;
        }
        None
    }

    /// The bytes of this document. If every value is exact and every length fits its field,
    /// reading them gives the document back.
    pub fn to_bytes(&self) -> (r: Result<Vec<u8>, DocError>)
        requires
            self.wf(),
        ensures
            has_texts(self@) ==> (r matches Ok(b) && b@ == doc_frame(texts_of(self@))),
            !has_texts(self@) ==> (r matches Err(e) && e == DocError::Json),
            (forall|i: int| 0 <= i < self@.len() ==> is_exact((#[trigger] self@[i]).1, 127)) ==> r is Ok,
            (forall|i: int| 0 <= i < self@.len() ==> is_exact((#[trigger] self@[i]).1, 127)) && doc_fits(texts_of(self@))
                ==> decode_doc(r->Ok_0@) == Ok::<Seq<(Seq<char>, Json)>, DocError>(self@) && enter_all(
                Seq::empty(),
                self@,
            ) == self@,
    {
        let mut framed: Vec<(String, Vec<u8>)> = Vec::new();
        let mut i: usize = 0;
        while i < self.fields.len()
            invariant
                i <= self@.len(),
                self.wf(),
                framed@.len() == i,
                forall|k: int|
                    0 <= k < i ==> json_text((#[trigger] self@[k]).1) == Some(framed@[k].1@) && framed@[k].0@
                        == self@[k].0,
                forall|k: int|
                    0 <= k < i && is_exact((#[trigger] self@[k]).1, 127) ==> json_of_bytes(framed@[k].1@) == Some(
                        self@[k].1,
                    ),
            decreases self@.len() - i,
        {
            let value = self.fields.value_at(i);
            assert(self@[i as int].1 == value@);
            match value.to_vec() {
                None => {
                    assert(json_text(self@[i as int].1) is None);
                    return Err(DocError::Json);
                },
                Some(text) => {
                    framed.push((self.fields.name_at(i), text));
                },
            }
            i = i + 1;
        }
        proof {
            self.lemma_names_distinct();
            lemma_enter_distinct(self@);
            assert(view_framed(framed@) =~= texts_of(self@));
            let exact = forall|k: int| 0 <= k < self@.len() ==> is_exact((#[trigger] self@[k]).1, 127);
            if exact && doc_fits(texts_of(self@)) {
                assert forall|k: int| 0 <= k < self@.len() implies json_of_bytes((#[trigger] texts_of(self@)[k]).1)
                    == Some(self@[k].1) by {
                    assert(json_text(self@[k].1) == Some(framed@[k].1@));
                }
                lemma_doc_round_trip(self@, texts_of(self@));
            }
        }
        Ok(frame_document(&framed))
    }

    /// The document that bytes stand for.
    pub fn from_bytes(bytes: &[u8]) -> (r: Result<Self, DocError>)
        ensures
            match decode_doc(bytes@) {
                Err(e) => r matches Err(f) && f == e,
                Ok(fields) => r matches Ok(doc) && doc.wf() && doc@ == enter_all(Seq::empty(), fields),
            },
    {
        let len: usize = bytes.len();
        if len < 8 {
            return Err(DocError::TooShort { len });
        }
        let magic: [u8; 4] = [83u8, 75u8, 77u8, 68u8];
        assert(magic@ =~= doc_magic());
        let same: bool = bytes_equal(vstd::slice::slice_subrange(bytes, 0, 4), &magic);
        if !same {
            return Err(DocError::BadMagic);
        }
        let count: u32 = read_u32(bytes, 4);
        let mut left: u32 = count;
        let mut pos: usize = 8;
        let mut doc = SchemalessDoc::new();
        let ghost mut done = Seq::<(Seq<char>, Json)>::empty();
        let ghost whole = decode_fields(bytes@, 8, count as nat);
        proof {
            if whole is Ok {
                assert(done + whole->Ok_0 =~= whole->Ok_0);
            }
        }
        while left > 0
            invariant
                len == bytes@.len(),
                pos <= len,
                doc.wf(),
                doc@ == enter_all(Seq::empty(), done),
                whole == decode_doc(bytes@),
                match decode_fields(bytes@, pos as int, left as nat) {
                    Ok(rest) => whole == Ok::<Seq<(Seq<char>, Json)>, DocError>(done + rest),
                    Err(e) => whole == Err::<Seq<(Seq<char>, Json)>, DocError>(e),
                },
            decreases left,
        {
            match read_field(bytes, pos) {
                Err(e) => {
                    return Err(e);
                },
                Ok((name, start, end)) => {
                    let text = vstd::slice::slice_subrange(bytes, start, end);
                    match JsonValue::from_slice(text) {
                        None => {
                            return Err(DocError::Json);
                        },
                        Some(value) => {
                            let ghost field = (name@, value@);
                            doc.insert(name, value);
                            pos = end;
                            left = left - 1;
                            proof {
                                let next = done.push(field);
                                assert(next.drop_last() =~= done);
                                if let Ok(tail) = decode_fields(bytes@, pos as int, left as nat) {
                                    assert(next + tail =~= done + (seq![field] + tail));
                                }
                                done = next;
                            }
                        },
                    }
                },
            }
        }
        assert(done + Seq::<(Seq<char>, Json)>::empty() =~= done);
        Ok(doc)
    }
}

/// The models of names with JSON texts.
pub open spec fn view_framed(s: Seq<(String, Vec<u8>)>) -> Seq<(Seq<char>, Seq<u8>)> {
    Seq::new(s.len(), |i: int| (s[i].0@, s[i].1@))
}

/// The numbers of a value, if it is an array of numbers which is not empty.
pub fn vector_numbers(value: &JsonValue) -> (r: Option<Vec<JsonNumber>>)
    ensures
        r is Some <==> is_vector_value(value@),
        r matches Some(numbers) ==> numbers@ == numbers_of(value@),
{
    match value {
        JsonValue::Array(a) => {
            proof {
                lemma_view_list_index(a@);
                assert(value@ == Json::Array(crate::json::view_list(a@)));
            }
            if a.len() == 0 {
                return None;
            }
            let ghost all = crate::json::view_list(a@);
            let mut numbers: Vec<JsonNumber> = Vec::new();
            let mut i: usize = 0;
            while i < a.len()
                invariant
                    i <= a@.len(),
                    value@ == Json::Array(all),
                    all.len() == a@.len(),
                    forall|k: int| 0 <= k < a@.len() ==> (#[trigger] all[k]) == a@[k].spec_view(),
                    numbers@.len() == i,
                    forall|k: int| 0 <= k < i ==> (#[trigger] all[k]) == Json::Number(numbers@[k]),
                decreases a@.len() - i,
            {
                match &a[i] {
                    JsonValue::Number(n) => {
                        numbers.push(*n);
                    },
                    _ => {
                        assert(!(all[i as int] is Number));
                        return None;
                    },
                }
                i = i + 1;
            }
            assert(numbers@ =~= numbers_of(value@));
            Some(numbers)
        },
        _ => None,
    }
}

/// The bytes of a document with the given names and JSON texts.
pub fn frame_document(fields: &Vec<(String, Vec<u8>)>) -> (buf: Vec<u8>)
    ensures
        buf@ == doc_frame(view_framed(fields@)),
{
    let ghost fs = view_framed(fields@);
    let magic: [u8; 4] = [83u8, 75u8, 77u8, 68u8];
    assert(magic@ =~= doc_magic());
    let mut buf: Vec<u8> = Vec::new();
    push_bytes(&mut buf, &magic);
    push_len(&mut buf, fields.len());
    let ghost header = buf@;
    let mut i: usize = 0;
    assert(fs.take(0) =~= Seq::<(Seq<char>, Seq<u8>)>::empty());
    assert(buf@ =~= header + field_frames(fs.take(0)));
    while i < fields.len()
        invariant
            i <= fields@.len(),
            fs == view_framed(fields@),
            buf@ == header + field_frames(fs.take(i as int)),
        decreases fields@.len() - i,
    {
        let name = fields[i].0.as_str().as_bytes();
        let text = fields[i].1.as_slice();
        push_len(&mut buf, name.len());
        push_bytes(&mut buf, name);
        push_len(&mut buf, text.len());
        push_bytes(&mut buf, text);
        proof {
            assert(fs.take(i + 1).drop_last() =~= fs.take(i as int));
            assert(fs.take(i + 1).last() == fs[i as int]);
            assert(name@ == encode_utf8(fs[i as int].0));
            assert(buf@ =~= header + field_frames(fs.take(i + 1)));
        }
        i = i + 1;
    }
    assert(fs.take(i as int) =~= fs);
    assert(buf@ =~= doc_frame(fs));
    buf
}

/// Reads the field at a position: its name, and where the text of its value starts and ends.
pub fn read_field(bytes: &[u8], pos: usize) -> (r: Result<(String, usize, usize), DocError>)
    requires
        pos <= bytes@.len(),
    ensures
        match field_at(bytes@, pos as int) {
            Err(e) => r matches Err(f) && f == e,
            Ok((name, start, end)) => r matches Ok(p) && p.0@ == name && p.1 == start && p.2 == end && start <= end
                <= bytes@.len(),
        },
{
    let len: usize = bytes.len();
    if len - pos < 4 {
        return Err(DocError::TruncatedNameLen);
    }
    let name_len: usize = read_u32(bytes, pos) as usize;
    let name_start: usize = pos + 4;
    if len - name_start < name_len {
        return Err(DocError::TruncatedName);
    }
    let name_bytes = vstd::slice::slice_subrange(bytes, name_start, name_start + name_len);
    let name = match text_of_utf8(name_bytes) {
        Some(name) => name,
        None => {
            return Err(DocError::NameNotUtf8);
        },
    };
    let len_start: usize = name_start + name_len;
    if len - len_start < 4 {
        return Err(DocError::TruncatedValueLen);
    }
    let value_len: usize = read_u32(bytes, len_start) as usize;
    let value_start: usize = len_start + 4;
    if len - value_start < value_len {
        return Err(DocError::TruncatedValue);
    }
    Ok((name, value_start, value_start + value_len))
}

/// Every length of a document fits its field.
pub open spec fn doc_fits(fs: Seq<(Seq<char>, Seq<u8>)>) -> bool {
    &&& fs.len() < 0x1_0000_0000
    &&& forall|i: int|
        0 <= i < fs.len() ==> encode_utf8((#[trigger] fs[i]).0).len() < 0x1_0000_0000 && fs[i].1.len() < 0x1_0000_0000
}

proof fn lemma_frames_concat(a: Seq<(Seq<char>, Seq<u8>)>, b: Seq<(Seq<char>, Seq<u8>)>)
    ensures
        field_frames(a + b) == field_frames(a) + field_frames(b),
    decreases b.len(),
{
    if b.len() == 0 {
        assert(a + b =~= a);
        assert(field_frames(a) + field_frames(b) =~= field_frames(a));
    } else {
        assert((a + b).drop_last() =~= a + b.drop_last());
        lemma_frames_concat(a, b.drop_last());
        assert(field_frames(a + b) =~= field_frames(a) + field_frames(b));
    }
}

/// A field that stands in a buffer is read back.
proof fn lemma_field_round_trip(before: Seq<u8>, name: Seq<char>, text: Seq<u8>, after: Seq<u8>)
    requires
        encode_utf8(name).len() < 0x1_0000_0000,
        text.len() < 0x1_0000_0000,
    ensures
        ({
            let bytes = before + field_frame(name, text) + after;
            let pos = before.len() as int;
            let end = pos + field_frame(name, text).len();
            field_at(bytes, pos) == Ok::<(Seq<char>, int, int), DocError>((name, end - text.len(), end))
                && bytes.subrange(end - text.len(), end) == text
        }),
{
    broadcast use lemma_be_bytes_len;

    lemma_pow256_values();
    let utf8 = encode_utf8(name);
    let bytes = before + field_frame(name, text) + after;
    let pos = before.len() as int;
    lemma_be_value_of_bytes(utf8.len(), 4);
    lemma_be_value_of_bytes(text.len(), 4);
    let name_start = pos + 4;
    let len_start = name_start + utf8.len();
    let value_start = len_start + 4;
    assert(bytes.subrange(pos, pos + 4) =~= be_bytes(utf8.len(), 4));
    assert(bytes.subrange(name_start, len_start) =~= utf8);
    assert(bytes.subrange(len_start, value_start) =~= be_bytes(text.len(), 4));
    assert(bytes.subrange(value_start, value_start + text.len()) =~= text);
    vstd::utf8::encode_utf8_valid_utf8(name);
    vstd::utf8::encode_utf8_decode_utf8(name);
}

proof fn lemma_fields_round_trip(
    before: Seq<u8>,
    fields: Seq<(Seq<char>, Json)>,
    fs: Seq<(Seq<char>, Seq<u8>)>,
)
    requires
        fields.len() == fs.len(),
        forall|i: int|
            0 <= i < fs.len() ==> (#[trigger] fs[i]).0 == fields[i].0 && json_of_bytes(fs[i].1) == Some(fields[i].1),
        doc_fits(fs),
    ensures
        decode_fields(before + field_frames(fs), before.len() as int, fs.len()) == Ok::<
            Seq<(Seq<char>, Json)>,
            DocError,
        >(fields),
    decreases fs.len(),
{
    let bytes = before + field_frames(fs);
    if fs.len() == 0 {
        assert(fields =~= Seq::<(Seq<char>, Json)>::empty());
    } else {
        let (name, text) = fs[0];
        let frame = field_frame(name, text);
        let tail = fs.drop_first();
        assert(fs =~= seq![fs[0]] + tail);
        lemma_frames_concat(seq![fs[0]], tail);
        assert(seq![fs[0]].drop_last() =~= Seq::<(Seq<char>, Seq<u8>)>::empty());
        assert(field_frames(Seq::<(Seq<char>, Seq<u8>)>::empty()) =~= Seq::<u8>::empty());
        assert(field_frames(seq![fs[0]]) =~= frame);
        assert(bytes =~= before + frame + field_frames(tail));
        lemma_field_round_trip(before, name, text, field_frames(tail));
        assert forall|i: int| 0 <= i < tail.len() implies (#[trigger] tail[i]).0 == fields.drop_first()[i].0
            && json_of_bytes(tail[i].1) == Some(fields.drop_first()[i].1) by {
            assert(tail[i] == fs[i + 1]);
        }
        assert forall|i: int| 0 <= i < tail.len() implies encode_utf8((#[trigger] tail[i]).0).len() < 0x1_0000_0000
            && tail[i].1.len() < 0x1_0000_0000 by {
            assert(tail[i] == fs[i + 1]);
        }
        lemma_fields_round_trip(before + frame, fields.drop_first(), tail);
        assert(fields =~= seq![(name, fields[0].1)] + fields.drop_first());
    }
}

/// Reading the bytes of a document gives its fields back, where reading each text gives the value
/// back.
pub proof fn lemma_doc_round_trip(fields: Seq<(Seq<char>, Json)>, fs: Seq<(Seq<char>, Seq<u8>)>)
    requires
        fields.len() == fs.len(),
        forall|i: int| 0 <= i < fs.len() ==> (#[trigger] fs[i]).0 == fields[i].0,
        forall|i: int| 0 <= i < fs.len() ==> json_of_bytes((#[trigger] fs[i]).1) == Some(fields[i].1),
        doc_fits(fs),
    ensures
        decode_doc(doc_frame(fs)) == Ok::<Seq<(Seq<char>, Json)>, DocError>(fields),
{
    broadcast use lemma_be_bytes_len;

    lemma_pow256_values();
    let header = doc_magic() + be_bytes(fs.len(), 4);
    let bytes = doc_frame(fs);
    lemma_be_value_of_bytes(fs.len(), 4);
    assert(bytes.subrange(0, 4) =~= doc_magic());
    assert(bytes.subrange(4, 8) =~= be_bytes(fs.len(), 4));
    assert(bytes =~= header + field_frames(fs));
    lemma_fields_round_trip(header, fields, fs);
}

/// A field that is cut off is not read.
proof fn lemma_field_cut(before: Seq<u8>, name: Seq<char>, text: Seq<u8>, cut: int)
    requires
        encode_utf8(name).len() < 0x1_0000_0000,
        text.len() < 0x1_0000_0000,
        0 <= cut < field_frame(name, text).len(),
    ensures
        field_at(before + field_frame(name, text).take(cut), before.len() as int) is Err,
{
    broadcast use lemma_be_bytes_len;

    lemma_pow256_values();
    let utf8 = encode_utf8(name);
    let bytes = before + field_frame(name, text).take(cut);
    let pos = before.len() as int;
    lemma_be_value_of_bytes(utf8.len(), 4);
    lemma_be_value_of_bytes(text.len(), 4);
    let name_start = pos + 4;
    let len_start = name_start + utf8.len();
    let value_start = len_start + 4;
    if cut >= 4 {
        assert(bytes.subrange(pos, pos + 4) =~= be_bytes(utf8.len(), 4));
        if cut >= 4 + utf8.len() {
            assert(bytes.subrange(name_start, len_start) =~= utf8);
            vstd::utf8::encode_utf8_valid_utf8(name);
            if cut >= 8 + utf8.len() {
                assert(bytes.subrange(len_start, value_start) =~= be_bytes(text.len(), 4));
            }
        }
    }
}

proof fn lemma_fields_cut(before: Seq<u8>, fs: Seq<(Seq<char>, Seq<u8>)>, cut: int)
    requires
        doc_fits(fs),
        before.len() <= cut < (before + field_frames(fs)).len(),
    ensures
        decode_fields((before + field_frames(fs)).take(cut), before.len() as int, fs.len()) is Err,
    decreases fs.len(),
{
    let bytes = (before + field_frames(fs)).take(cut);
    if fs.len() == 0 {
        assert(field_frames(fs).len() == 0);
    } else {
        let (name, text) = fs[0];
        let frame = field_frame(name, text);
        let tail = fs.drop_first();
        assert(fs =~= seq![fs[0]] + tail);
        lemma_frames_concat(seq![fs[0]], tail);
        assert(seq![fs[0]].drop_last() =~= Seq::<(Seq<char>, Seq<u8>)>::empty());
        assert(field_frames(Seq::<(Seq<char>, Seq<u8>)>::empty()) =~= Seq::<u8>::empty());
        assert(field_frames(seq![fs[0]]) =~= frame);
        assert(before + field_frames(fs) =~= before + frame + field_frames(tail));
        let kept = cut - before.len();
        if kept < frame.len() {
            assert(bytes =~= before + frame.take(kept));
            lemma_field_cut(before, name, text, kept);
        } else {
            let rest = field_frames(tail).take(kept - frame.len());
            assert(bytes =~= before + frame + rest);
            lemma_field_round_trip(before, name, text, rest);
            assert forall|i: int| 0 <= i < tail.len() implies encode_utf8((#[trigger] tail[i]).0).len()
                < 0x1_0000_0000 && tail[i].1.len() < 0x1_0000_0000 by {
                assert(tail[i] == fs[i + 1]);
            }
            assert(bytes =~= (before + frame + field_frames(tail)).take(cut));
            lemma_fields_cut(before + frame, tail, cut);
        }
    }
}

/// The bytes of a document that were cut off are not taken for a document: every proper prefix of
/// them is refused.
pub proof fn law_truncated_document_is_refused(fs: Seq<(Seq<char>, Seq<u8>)>, cut: int)
    requires
        doc_fits(fs),
        0 <= cut < doc_frame(fs).len(),
    ensures
        decode_doc(doc_frame(fs).take(cut)) is Err,
{
    broadcast use lemma_be_bytes_len;

    lemma_pow256_values();
    let header = doc_magic() + be_bytes(fs.len(), 4);
    let bytes = doc_frame(fs).take(cut);
    if cut >= 8 {
        lemma_be_value_of_bytes(fs.len(), 4);
        assert(bytes.subrange(4, 8) =~= be_bytes(fs.len(), 4));
        assert(doc_frame(fs) =~= header + field_frames(fs));
        lemma_fields_cut(header, fs, cut);
    }
}

/// Of the fields that are entered under one name the last one counts; every name that is entered is
/// there, once, and the names that were there before stay.
pub proof fn law_last_entered_field_counts(
    s: Seq<(Seq<char>, Json)>,
    fs: Seq<(Seq<char>, Json)>,
    name: Seq<char>,
    i: int,
)
    requires
        names_distinct(s),
    ensures
        names_distinct(enter_all(s, fs)),
        has_name(enter_all(s, fs), name) <==> has_name(s, name) || has_name(fs, name),
        (0 <= i < fs.len() && fs[i].0 == name && forall|j: int| i < j < fs.len() ==> (#[trigger] fs[j]).0 != name)
            ==> value_under(enter_all(s, fs), name) == Some(fs[i].1),
        !has_name(fs, name) ==> value_under(enter_all(s, fs), name) == value_under(s, name),
    decreases fs.len(),
{
    if fs.len() > 0 {
        let init = fs.drop_last();
        let n = fs.len() - 1;
        let before = enter_all(s, init);
        let after = enter_all(s, fs);
        law_last_entered_field_counts(s, init, name, i);
        assert(after == entered(before, fs[n].0, fs[n].1));
        law_entered_value_is_found(before, fs[n].0, fs[n].1, name);
        assert forall|j: int| 0 <= j < n implies (#[trigger] init[j]) == fs[j] by {}
        if fs[n].0 != name {
            assert(value_under(after, name) == value_under(before, name));
            assert(has_name(after, name) == has_name(before, name));
            if has_name(init, name) {
                let j = choose|j: int| 0 <= j < init.len() && (#[trigger] init[j]).0 == name;
                assert(fs[j].0 == name);
            }
            if has_name(fs, name) {
                let j = choose|j: int| 0 <= j < fs.len() && (#[trigger] fs[j]).0 == name;
                assert(init[j].0 == name);
            }
        } else {
            assert(value_under(after, name) == Some(fs[n].1));
            assert(fs[n].0 == name);
        }
    }
}

/// The fields are those that frames hold, with the values that their texts say.
pub open spec fn are_framed(fs: Seq<(Seq<char>, Seq<u8>)>, fields: Seq<(Seq<char>, Json)>) -> bool {
    &&& fs.len() == fields.len()
    &&& forall|i: int|
        0 <= i < fs.len() ==> (#[trigger] fs[i]).0 == fields[i].0 && json_of_bytes(fs[i].1) == Some(fields[i].1)
}

/// The bytes hold frames from a position on.
pub open spec fn holds_frames(bytes: Seq<u8>, pos: int, fs: Seq<(Seq<char>, Seq<u8>)>) -> bool {
    &&& pos + field_frames(fs).len() <= bytes.len()
    &&& bytes.subrange(pos, pos + field_frames(fs).len()) == field_frames(fs)
}

/// The fields stand in the bytes from a position on.
pub open spec fn stand_framed(bytes: Seq<u8>, pos: int, fields: Seq<(Seq<char>, Json)>) -> bool {
    exists|fs: Seq<(Seq<char>, Seq<u8>)>| #[trigger] are_framed(fs, fields) && holds_frames(bytes, pos, fs)
}

/// A document that is decoded stands in the bytes as it is written: the mark, the number of its
/// fields, and every field with its name and its text, one after the other.
pub proof fn law_decoded_document_was_written(bytes: Seq<u8>)
    ensures
        decode_doc(bytes) matches Ok(fields) ==> bytes.subrange(0, 4) == doc_magic() && bytes.subrange(4, 8)
            == be_bytes(fields.len(), 4) && stand_framed(bytes, 8, fields),
{
    if let Ok(fields) = decode_doc(bytes) {
        let count = be_value(bytes.subrange(4, 8));
        lemma_be_bytes_of_value(bytes.subrange(4, 8));
        lemma_decoded_fields(bytes, 8, count);
    }
}

proof fn lemma_decoded_fields(bytes: Seq<u8>, pos: int, count: nat)
    requires
        0 <= pos <= bytes.len(),
    ensures
        decode_fields(bytes, pos, count) matches Ok(fields) ==> fields.len() == count && stand_framed(
            bytes,
            pos,
            fields,
        ),
    decreases count,
{
    broadcast use lemma_be_bytes_len;

    if let Ok(fields) = decode_fields(bytes, pos, count) {
        if count == 0 {
            let none = Seq::<(Seq<char>, Seq<u8>)>::empty();
            assert(bytes.subrange(pos, pos) =~= field_frames(none));
            assert(are_framed(none, fields) && holds_frames(bytes, pos, none));
        } else {
            let (name, start, end) = field_at(bytes, pos)->Ok_0;
            let text = bytes.subrange(start, end);
            let head = bytes.subrange(pos, pos + 4);
            let name_len = be_value(head) as int;
            let utf8 = bytes.subrange(pos + 4, pos + 4 + name_len);
            let mid = bytes.subrange(start - 4, start);
            lemma_be_bytes_of_value(head);
            lemma_be_bytes_of_value(mid);
            vstd::utf8::decode_utf8_encode_utf8(utf8);
            let frame = field_frame(name, text);
            assert(bytes.subrange(pos, end) =~= frame);
            lemma_decoded_fields(bytes, end, (count - 1) as nat);
            let rest = decode_fields(bytes, end, (count - 1) as nat)->Ok_0;
            let tail = choose|tail: Seq<(Seq<char>, Seq<u8>)>| #[trigger]
                are_framed(tail, rest) && holds_frames(bytes, end, tail);
            let one = seq![(name, text)];
            let fs = one + tail;
            lemma_frames_concat(one, tail);
            assert(one.drop_last() =~= Seq::<(Seq<char>, Seq<u8>)>::empty());
            assert(field_frames(Seq::<(Seq<char>, Seq<u8>)>::empty()) =~= Seq::<u8>::empty());
            assert(field_frames(one) =~= frame);
            let m = field_frames(tail).len() as int;
            assert(bytes.subrange(pos, end + m) =~= bytes.subrange(pos, end) + bytes.subrange(end, end + m));
            assert(holds_frames(bytes, pos, fs));
            assert forall|i: int| 0 <= i < fs.len() implies (#[trigger] fs[i]).0 == fields[i].0 && json_of_bytes(fs[i].1)
                == Some(fields[i].1) by {
                if i > 0 {
                    assert(fs[i] == tail[i - 1]);
                    assert(fields[i] == rest[i - 1]);
                }
            }
            assert(are_framed(fs, fields));
        }
    }
}

} // verus!
