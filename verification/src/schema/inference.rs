//! The type of a field, inferred from a JSON value.
//!
//! Texts are dates if they can be read as RFC 3339 dates with a time, else texts. Numbers are
//! signed or unsigned whole numbers where they fit, else numbers. Arrays of more than one item, all
//! of them numbers, are vectors; other arrays take the type of their first item, and empty ones
//! that of texts. Everything else is taken as bytes.

use vstd::prelude::*;

use crate::index::document::is_vector_value;
use crate::index::document::vector_numbers;
use crate::json::lemma_view_list_index;
use crate::json::{view_list, Json, JsonNumber, JsonValue};
use crate::schema::field::{FieldType, VectorSimilarity};

verus! {

/// Whether a text is a date with a time: whether `chrono::DateTime::parse_from_rfc3339` reads it.
pub uninterp spec fn is_rfc3339(text: Seq<char>) -> bool;

/// `chrono::DateTime::parse_from_rfc3339`: whether it reads the text.
#[verifier::external_body]
fn reads_as_rfc3339(text: &str) -> (r: bool)
    ensures
        r == is_rfc3339(text@),
{
    chrono::DateTime::parse_from_rfc3339(text).is_ok()
}

/// The type of a text that is a date, or is none.
pub open spec fn text_type(is_date: bool) -> FieldType {
    if is_date {
        FieldType::DateTime
    } else {
        FieldType::Text
    }
}

/// The type of a number.
pub open spec fn number_type(n: JsonNumber) -> FieldType {
    match n {
        JsonNumber::PosInt(u) => if u <= i64::MAX {
            FieldType::I64
        } else {
            FieldType::U64
        },
        JsonNumber::NegInt(_) => FieldType::I64,
        JsonNumber::Float(_) => FieldType::F64,
    }
}

/// The type of a field with the given value.
pub open spec fn inferred_type(j: Json) -> FieldType
    decreases j,
{
    match j {
        Json::Text(t) => text_type(is_rfc3339(t)),
        Json::Number(n) => number_type(n),
        Json::Bool(_) => FieldType::Bool,
        Json::Array(a) => if a.len() > 1 && is_vector_value(j) {
            FieldType::Vector(a.len() as usize, VectorSimilarity::Cosine)
        } else if a.len() > 0 {
            FieldType::Array(Box::new(inferred_type(a[0])))
        } else {
            FieldType::Array(Box::new(FieldType::Text))
        },
        _ => FieldType::Bytes,
    }
}

/// The type of a text that is a date, or is none.
pub fn text_field_type(is_date: bool) -> (t: FieldType)
    ensures
        t == text_type(is_date),
{
    if is_date {
        FieldType::DateTime
    } else {
        FieldType::Text
    }
}

/// The type of a number.
pub fn number_field_type(n: &JsonNumber) -> (t: FieldType)
    ensures
        t == number_type(*n),
{
    match n {
        JsonNumber::PosInt(u) => {
            if *u <= 0x7fff_ffff_ffff_ffff {
                FieldType::I64
            } else {
                FieldType::U64
            }
        },
        JsonNumber::NegInt(_) => FieldType::I64,
        JsonNumber::Float(_) => FieldType::F64,
    }
}

/// The type of a field with the given value.
pub fn infer_field_type(value: &JsonValue) -> (t: FieldType)
    ensures
        t == inferred_type(value@),
    decreases value,
{
    match value {
        JsonValue::String(s) => text_field_type(reads_as_rfc3339(s.as_str())),
        JsonValue::Number(n) => number_field_type(n),
        JsonValue::Bool(_) => FieldType::Bool,
        JsonValue::Array(a) => {
            proof {
                lemma_view_list_index(a@);
                assert(value@ == Json::Array(view_list(a@)));
            }
            if a.len() > 1 {
                if let Some(numbers) = vector_numbers(value) {
                    return FieldType::Vector(numbers.len(), VectorSimilarity::Cosine);
                }
            }
            if a.len() > 0 {
                proof {
                    assert(decreases_to!(value => value->Array_0));
                    assert(decreases_to!(value->Array_0 => a@));
                    assert(decreases_to!(a@ => a@[0]));
                    assert(view_list(a@)[0] == a@[0]@);
                }
                FieldType::Array(Box::new(infer_field_type(&a[0])))
            } else {
                FieldType::Array(Box::new(FieldType::Text))
            }
        },
        _ => FieldType::Bytes,
    }
}

} // verus!
