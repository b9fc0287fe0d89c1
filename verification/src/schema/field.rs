//! What a schema says of a field.

use vstd::prelude::*;

use crate::json::JsonValue;
use crate::schema::inference::{infer_field_type, inferred_type};

verus! {

/// The number of a field within a schema.
pub type FieldId = u32;

/// How vectors are compared.
#[derive(Clone, Copy, Debug, PartialEq, Eq, Structural)]
pub enum VectorSimilarity {
    /// The cosine of the angle.
    Cosine,
    /// The Euclidean distance.
    L2,
    /// The inner product.
    InnerProduct,
}

/// How a text is split into terms.
#[derive(Clone, Copy, Debug, PartialEq, Eq, Structural)]
pub enum TokenizerType {
    /// Words, in lower case.
    Default,
    /// The whole text as one term.
    Raw,
    /// All stretches of `n` characters, in lower case.
    Ngram { n: u8 },
}

/// The type of a field.
#[derive(Debug, PartialEq, Eq)]
pub enum FieldType {
    /// A text.
    Text,
    /// A signed whole number.
    I64,
    /// An unsigned whole number.
    U64,
    /// A number.
    F64,
    /// A truth value.
    Bool,
    /// A date with a time, as RFC 3339 writes it.
    DateTime,
    /// Anything else.
    Bytes,
    /// A vector: its dimension and how it is compared.
    Vector(usize, VectorSimilarity),
    /// An array: the type of its items.
    Array(Box<FieldType>),
}

/// Whether values of the second type may stand in a field of the first one: vectors if they are
/// compared in the same way, whatever their dimension; arrays if their items may; other types if
/// they are the same.
pub open spec fn types_compatible(a: FieldType, b: FieldType) -> bool
    decreases a,
{
    match (a, b) {
        (FieldType::Text, FieldType::Text) => true,
        (FieldType::I64, FieldType::I64) => true,
        (FieldType::U64, FieldType::U64) => true,
        (FieldType::F64, FieldType::F64) => true,
        (FieldType::Bool, FieldType::Bool) => true,
        (FieldType::DateTime, FieldType::DateTime) => true,
        (FieldType::Bytes, FieldType::Bytes) => true,
        (FieldType::Vector(_, x), FieldType::Vector(_, y)) => x == y,
        (FieldType::Array(x), FieldType::Array(y)) => types_compatible(*x, *y),
        _ => false,
    }
}

impl Clone for FieldType {
    fn clone(&self) -> (t: Self)
        ensures
            t == *self,
        decreases self,
    {
        match self {
            FieldType::Text => FieldType::Text,
            FieldType::I64 => FieldType::I64,
            FieldType::U64 => FieldType::U64,
            FieldType::F64 => FieldType::F64,
            FieldType::Bool => FieldType::Bool,
            FieldType::DateTime => FieldType::DateTime,
            FieldType::Bytes => FieldType::Bytes,
            FieldType::Vector(d, s) => FieldType::Vector(*d, *s),
            FieldType::Array(t) => {
                let inner: &FieldType = &**t;
                FieldType::Array(Box::new(inner.clone()))
            },
        }
    }
}

impl FieldType {
    /// Whether values of another type may stand in a field of this type.
    pub fn compatible(&self, other: &FieldType) -> (r: bool)
        ensures
            r == types_compatible(*self, *other),
            !(*self is Vector) && !(*self is Array) ==> r == (*self == *other),
        decreases self,
    {
        match (self, other) {
            (FieldType::Vector(_, a), FieldType::Vector(_, b)) => *a == *b,
            (FieldType::Array(a), FieldType::Array(b)) => a.compatible(b),
            (a, b) => a.discriminant() == b.discriminant(),
        }
    }

    /// The number of the kind of type.
    fn discriminant(&self) -> (d: u8)
        ensures
            d == type_number(*self),
    {
        match self {
            FieldType::Text => 0,
            FieldType::I64 => 1,
            FieldType::U64 => 2,
            FieldType::F64 => 3,
            FieldType::Bool => 4,
            FieldType::DateTime => 5,
            FieldType::Bytes => 6,
            FieldType::Vector(_, _) => 7,
            FieldType::Array(_) => 8,
        }
    }

    /// Whether this is a type of values that are neither vectors nor arrays.
    pub fn is_scalar(&self) -> (r: bool)
        ensures
            r == is_scalar(*self),
    {
        match self {
            FieldType::Vector(_, _) => false,
            FieldType::Array(_) => false,
            _ => true,
        }
    }

    /// Whether this is the type of vectors.
    pub fn is_vector(&self) -> (r: bool)
        ensures
            r == (*self is Vector),
    {
        match self {
            FieldType::Vector(_, _) => true,
            _ => false,
        }
    }
}

/// The number of the kind of type.
pub open spec fn type_number(t: FieldType) -> u8 {
    match t {
        FieldType::Text => 0,
        FieldType::I64 => 1,
        FieldType::U64 => 2,
        FieldType::F64 => 3,
        FieldType::Bool => 4,
        FieldType::DateTime => 5,
        FieldType::Bytes => 6,
        FieldType::Vector(_, _) => 7,
        FieldType::Array(_) => 8,
    }
}

/// Being compatible goes both ways, and every type is compatible with itself.
pub proof fn law_compatibility_is_symmetric(a: FieldType, b: FieldType)
    ensures
        types_compatible(a, a),
        types_compatible(a, b) == types_compatible(b, a),
    decreases a,
{
    if let FieldType::Array(x) = a {
        if let FieldType::Array(y) = b {
            law_compatibility_is_symmetric(*x, *y);
        } else {
            law_compatibility_is_symmetric(*x, *x);
        }
    }
}

/// Types that are both compatible with a third one are compatible.
pub proof fn law_compatibility_is_transitive(a: FieldType, b: FieldType, c: FieldType)
    requires
        types_compatible(a, b),
        types_compatible(b, c),
    ensures
        types_compatible(a, c),
    decreases a,
{
    if let FieldType::Array(x) = a {
        if let FieldType::Array(y) = b {
            if let FieldType::Array(z) = c {
                law_compatibility_is_transitive(*x, *y, *z);
            }
        }
    }
}

/// What a schema says of a field.
#[derive(Debug, PartialEq, Eq)]
pub struct FieldMeta {
    pub id: FieldId,
    pub name: String,
    pub data_type: FieldType,
    /// Whether the field is indexed: texts and dates are.
    pub indexed: bool,
    /// Whether the value is stored.
    pub stored: bool,
    /// Whether the terms of the field are indexed.
    pub index_lexical: bool,
    /// Whether the field is indexed as a vector.
    pub index_vector: bool,
    /// The dimension of a vector.
    pub vector_dim: Option<usize>,
    /// How the texts of the field are split, if they are split.
    pub tokenizer: Option<TokenizerType>,
}

/// The model of what a schema says of a field.
pub struct MetaView {
    pub id: FieldId,
    pub name: Seq<char>,
    pub data_type: FieldType,
    pub indexed: bool,
    pub stored: bool,
    pub index_lexical: bool,
    pub index_vector: bool,
    pub vector_dim: Option<usize>,
    pub tokenizer: Option<TokenizerType>,
}

impl View for FieldMeta {
    type V = MetaView;

    open spec fn view(&self) -> MetaView {
        MetaView {
            id: self.id,
            name: self.name@,
            data_type: self.data_type,
            indexed: self.indexed,
            stored: self.stored,
            index_lexical: self.index_lexical,
            index_vector: self.index_vector,
            vector_dim: self.vector_dim,
            tokenizer: self.tokenizer,
        }
    }
}

/// The type is that of values that are neither vectors nor arrays.
pub open spec fn is_scalar(t: FieldType) -> bool {
    !(t is Vector) && !(t is Array)
}

/// What a schema says of a new field of the given type: vectors are indexed as such, arrays not at
/// all, and the values of all other fields by their terms.
pub open spec fn default_meta(id: FieldId, name: Seq<char>, data_type: FieldType) -> MetaView {
    MetaView {
        id,
        name,
        data_type,
        indexed: data_type is Text || data_type is DateTime,
        stored: true,
        index_lexical: is_scalar(data_type),
        index_vector: data_type is Vector,
        vector_dim: match data_type {
            FieldType::Vector(d, _) => Some(d),
            _ => None,
        },
        tokenizer: if data_type is Text {
            Some(TokenizerType::Default)
        } else {
            None
        },
    }
}

impl FieldMeta {
    /// What a schema says of a new field of the given type.
    pub fn new(id: FieldId, name: String, data_type: FieldType) -> (m: Self)
        ensures
            m@ == default_meta(id, name@, data_type),
    {
        let is_text: bool = match &data_type {
            FieldType::Text => true,
            _ => false,
        };
        let is_date: bool = match &data_type {
            FieldType::DateTime => true,
            _ => false,
        };
        let is_vector: bool = data_type.is_vector();
        let is_scalar: bool = data_type.is_scalar();
        let vector_dim: Option<usize> = match &data_type {
            FieldType::Vector(d, _) => Some(*d),
            _ => None,
        };
        let tokenizer = if is_text {
            Some(TokenizerType::Default)
        } else {
            None
        };
        FieldMeta {
            id,
            name,
            data_type,
            indexed: is_text || is_date,
            stored: true,
            index_lexical: is_scalar,
            index_vector: is_vector,
            vector_dim,
            tokenizer,
        }
    }
}

impl Clone for FieldMeta {
    fn clone(&self) -> (m: Self)
        ensures
            m@ == self@,
    {
        FieldMeta {
            id: self.id,
            name: self.name.clone(),
            data_type: self.data_type.clone(),
            indexed: self.indexed,
            stored: self.stored,
            index_lexical: self.index_lexical,
            index_vector: self.index_vector,
            vector_dim: self.vector_dim,
            tokenizer: self.tokenizer,
        }
    }
}

/// A field that was added to a schema.
#[derive(Debug)]
pub struct FieldChange {
    pub name: String,
    pub meta: FieldMeta,
}

/// The type of a field with the given value.
pub fn infer(value: &JsonValue) -> (t: FieldType)
    ensures
        t == inferred_type(value@),
{
    infer_field_type(value)
}

/// What may stand in a field: of a type that is neither a vector nor an array only the type
/// itself; of vectors those that are compared in the same way, whatever the dimensions; of arrays
/// those whose items may.
pub proof fn law_other_types_are_not_compatible(a: FieldType, b: FieldType)
    ensures
        !(a is Vector) && !(a is Array) ==> (types_compatible(a, b) <==> a == b),
        !(b is Vector) && !(b is Array) ==> (types_compatible(a, b) <==> a == b),
        a is Vector ==> (types_compatible(a, b) <==> b is Vector && a->Vector_1 == b->Vector_1),
        a is Array ==> (types_compatible(a, b) <==> b is Array && types_compatible(*(a->Array_0), *(b->Array_0))),
        types_compatible(a, b) ==> (a is Vector <==> b is Vector) && (a is Array <==> b is Array),
{
}

/// The number of a type tells its kind: types of different kinds have different numbers, and those
/// of one kind the same, whatever their items or dimensions.
pub proof fn law_type_numbers_tell_kinds(a: FieldType, b: FieldType)
    ensures
        type_number(a) == type_number(b) <==> {
            &&& a is Text <==> b is Text
            &&& a is I64 <==> b is I64
            &&& a is U64 <==> b is U64
            &&& a is F64 <==> b is F64
            &&& a is Bool <==> b is Bool
            &&& a is DateTime <==> b is DateTime
            &&& a is Bytes <==> b is Bytes
            &&& a is Vector <==> b is Vector
            &&& a is Array <==> b is Array
        },
        types_compatible(a, b) ==> type_number(a) == type_number(b),
        type_number(a) <= 8,
{
}

} // verus!
