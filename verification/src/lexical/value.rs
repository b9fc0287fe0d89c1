//! The texts by which values stand in the lexical index.
//!
//! The texts of a field are split into terms. A number, a truth value and a date are one term each:
//! a whole number in decimal notation, any other number as JSON writes it, `true` or `false`, and
//! a date as it stands. A query asks for such a value by the same text. Objects and `null` have no
//! term.

use vstd::prelude::*;
use vstd::utf8::{decode_utf8, valid_utf8};

use crate::json::{json_text, valid_json, valid_number, Json, JsonNumber, JsonValue};
use crate::schema::FieldType;
use crate::text::{are_digits, decimal, law_decimal_tells_number, text_value};
use crate::text::{decimal_text, text_of_utf8};

verus! {

/// A value of a field of this type is one term.
pub open spec fn taken_whole(t: FieldType) -> bool {
    t is I64 || t is U64 || t is F64 || t is Bool || t is DateTime
}

/// The text of a number. That of a number that is not whole is what JSON writes.
pub open spec fn number_text(n: JsonNumber) -> Option<Seq<char>> {
    match n {
        JsonNumber::PosInt(u) => Some(decimal(u as nat)),
        JsonNumber::NegInt(i) => Some(seq!['-'] + decimal((-i) as nat)),
        JsonNumber::Float(_) => match json_text(Json::Number(n)) {
            Some(bytes) => if valid_utf8(bytes) {
                Some(decode_utf8(bytes))
            } else {
                None
            },
            None => None,
        },
    }
}

/// The text of a value that is one term.
pub open spec fn value_text(j: Json) -> Option<Seq<char>> {
    match j {
        Json::Text(t) => Some(t),
        Json::Number(n) => number_text(n),
        Json::Bool(b) => Some(
            if b {
                "true"@
            } else {
                "false"@
            },
        ),
        _ => None,
    }
}

/// The text by which a value of a field of the given type stands in the index, if it stands there.
/// In fields whose texts are split, only texts do.
pub open spec fn indexed_text(t: FieldType, j: Json) -> Option<Seq<char>> {
    if taken_whole(t) {
        value_text(j)
    } else if let Json::Text(text) = j {
        Some(text)
    } else {
        None
    }
}

/// Whether a value of a field of this type is one term.
pub fn is_taken_whole(t: &FieldType) -> (r: bool)
    ensures
        r == taken_whole(*t),
{
    match t {
        FieldType::I64 => true,
        FieldType::U64 => true,
        FieldType::F64 => true,
        FieldType::Bool => true,
        FieldType::DateTime => true,
        _ => false,
    }
}

/// The text of a value that is one term.
pub fn text_of_value(value: &JsonValue) -> (r: Option<String>)
    requires
        valid_json(value@),
    ensures
        match value_text(value@) {
            Some(text) => r matches Some(s) && s@ == text,
            None => r is None,
        },
{
    match value {
        JsonValue::String(s) => Some(s.clone()),
        JsonValue::Bool(b) => if *b {
            Some("true".to_string())
        } else {
            Some("false".to_string())
        },
        JsonValue::Number(JsonNumber::PosInt(u)) => Some(decimal_text(*u)),
        JsonValue::Number(JsonNumber::NegInt(i)) => {
            let mut s = "-".to_string();
            let n: u64 = (-(*i as i128)) as u64;
            s.append(decimal_text(n).as_str());
            proof {
                reveal_strlit("-");
                assert("-"@ =~= seq!['-']);
            }
            Some(s)
        },
        JsonValue::Number(JsonNumber::Float(_)) => match value.to_vec() {
            Some(bytes) => text_of_utf8(bytes.as_slice()),
            None => None,
        },
        _ => None,
    }
}

/// The text by which a value of a field of the given type stands in the index, if it stands there.
pub fn index_text(t: &FieldType, value: &JsonValue) -> (r: Option<String>)
    requires
        valid_json(value@),
    ensures
        match indexed_text(*t, value@) {
            Some(text) => r matches Some(s) && s@ == text,
            None => r is None,
        },
{
    if is_taken_whole(t) {
        text_of_value(value)
    } else if let JsonValue::String(s) = value {
        Some(s.clone())
    } else {
        None
    }
}

/// By which text a value stands in the lexical index: a text by itself, whatever the field; other
/// values only in fields of numbers, truth values and dates; lists, objects and null never.
pub proof fn law_values_of_lexical_index(t: FieldType, j: Json)
    ensures
        j matches Json::Text(text) ==> indexed_text(t, j) == Some(text),
        !(j is Text) && (t is Text || t is Bytes || t is Vector || t is Array) ==> indexed_text(t, j) is None,
        j is Null || j is Array || j is Object ==> indexed_text(t, j) is None,
        (t is I64 || t is U64 || t is F64 || t is Bool || t is DateTime) ==> taken_whole(t),
        taken_whole(t) && j is Bool ==> indexed_text(t, j) is Some,
        taken_whole(t) && j is Number && !(j->Number_0 is Float) ==> indexed_text(t, j) is Some,
{
}

/// The texts by which whole numbers stand in the lexical index tell them: the digits of the number,
/// behind a sign if it is below zero. Different numbers stand there by different texts, and so do
/// the truth values.
pub proof fn law_texts_tell_values(t: FieldType, a: JsonNumber, b: JsonNumber)
    requires
        taken_whole(t),
        valid_number(a),
        valid_number(b),
        !(a is Float),
        !(b is Float),
    ensures
        a matches JsonNumber::PosInt(u) ==> (indexed_text(t, Json::Number(a)) matches Some(text) && are_digits(text)
            && text_value(text) == u),
        a matches JsonNumber::NegInt(i) ==> (indexed_text(t, Json::Number(a)) matches Some(text) && text.len() > 0
            && text[0] == '-' && are_digits(text.drop_first()) && text_value(text.drop_first()) == -i),
        a != b ==> indexed_text(t, Json::Number(a)) != indexed_text(t, Json::Number(b)),
        indexed_text(t, Json::Bool(true)) != indexed_text(t, Json::Bool(false)),
{
    let n = |x: JsonNumber| match x {
        JsonNumber::PosInt(u) => u as nat,
        JsonNumber::NegInt(i) => (-i) as nat,
        JsonNumber::Float(_) => 0,
    };
    law_decimal_tells_number(n(a));
    law_decimal_tells_number(n(b));
    let (x, y) = (decimal(n(a)), decimal(n(b)));
    let (sx, sy) = (seq!['-'] + x, seq!['-'] + y);
    assert(sx.drop_first() =~= x);
    assert(sy.drop_first() =~= y);
    assert(x.len() > 0 && y.len() > 0) by {
        if x.len() == 0 {
            assert(decimal(n(a)).len() > 0);
        }
    }
    assert('0' <= x[0] && '0' <= y[0]);
    assert(x != sy && y != sx) by {
        assert(sx[0] == '-' && sy[0] == '-');
    }
    reveal_strlit("true");
    reveal_strlit("false");
    assert("true"@.len() == 4 && "false"@.len() == 5);
}

} // verus!
