//! What holds of the types that a schema learns from documents.

use vstd::prelude::*;

use crate::field_map::{entered, has_name, law_entered_value_is_found, names_distinct, value_under};
use crate::json::{Json, JsonNumber};
use crate::schema::field::{types_compatible, FieldType, MetaView, TokenizerType, VectorSimilarity};
use crate::schema::inference::{inferred_type, is_rfc3339};
use crate::schema::{comes_of, enter_metas, infer_all, infer_one, law_inference_only_adds, lemma_inferred_fields_known};
use crate::schema::{lemma_lookup_in_prefix, schema_well_formed, SchemaState};

verus! {

/// The value is an array of numbers, of at least two.
pub open spec fn is_number_list(j: Json) -> bool {
    j matches Json::Array(a) && a.len() >= 2 && forall|i: int| 0 <= i < a.len() ==> (#[trigger] a[i]) is Number
}

/// The value is a whole number of the given range.
pub open spec fn is_whole(j: Json, low: int, high: int) -> bool {
    j matches Json::Number(n) && match n {
        JsonNumber::PosInt(u) => low <= u <= high,
        JsonNumber::NegInt(i) => low <= i <= high,
        JsonNumber::Float(_) => false,
    }
}

/// Which values have a type. Every value has exactly one, so none of the types is given to any
/// other value.
pub proof fn law_types_of_values(j: Json)
    ensures
        inferred_type(j) is Text <==> j is Text && !is_rfc3339(j->Text_0),
        inferred_type(j) is DateTime <==> j is Text && is_rfc3339(j->Text_0),
        inferred_type(j) is Bool <==> j is Bool,
        inferred_type(j) is I64 <==> is_whole(j, i64::MIN as int, i64::MAX as int),
        inferred_type(j) is U64 <==> is_whole(j, i64::MAX + 1, u64::MAX as int),
        inferred_type(j) is F64 <==> j is Number && j->Number_0 is Float,
        inferred_type(j) is Bytes <==> j is Null || j is Object,
        inferred_type(j) is Vector <==> is_number_list(j),
        inferred_type(j) is Array <==> j is Array && !is_number_list(j),
        is_number_list(j) && j->Array_0.len() <= usize::MAX ==> inferred_type(j)->Vector_0 == j->Array_0.len()
            && inferred_type(j)->Vector_1 == VectorSimilarity::Cosine,
        j is Array && j->Array_0.len() > 0 && !is_number_list(j) ==> *(inferred_type(j)->Array_0) == inferred_type(
            j->Array_0[0],
        ),
        j is Array && j->Array_0.len() == 0 ==> *(inferred_type(j)->Array_0) == FieldType::Text,
{
}

/// After the fields of a document were added without a conflict, the schema knows every one of
/// them, with a type that its value may have, and what was added besides is nothing.
pub proof fn law_every_field_is_learnt(state: SchemaState, doc: Seq<(Seq<char>, Json)>)
    requires
        schema_well_formed(state),
        infer_all(state, doc).conflict is None,
    ensures
        ({
            let out = infer_all(state, doc).state.fields;
            &&& forall|i: int|
                0 <= i < doc.len() ==> has_name(out, (#[trigger] doc[i]).0) && types_compatible(
                    (value_under(out, doc[i].0)->0).data_type,
                    inferred_type(doc[i].1),
                )
            &&& forall|name: Seq<char>|
                has_name(state.fields, name) ==> #[trigger] value_under(out, name) == value_under(state.fields, name)
            &&& forall|name: Seq<char>| #[trigger]
                has_name(out, name) ==> has_name(state.fields, name) || has_name(doc, name)
        }),
{
    let inference = infer_all(state, doc);
    let out = inference.state.fields;
    law_inference_only_adds(state, doc);
    assert forall|i: int| 0 <= i < doc.len() implies has_name(out, (#[trigger] doc[i]).0) && types_compatible(
        (value_under(out, doc[i].0)->0).data_type,
        inferred_type(doc[i].1),
    ) by {
        lemma_inferred_fields_known(state, doc, i);
    }
    assert forall|name: Seq<char>| has_name(state.fields, name) implies #[trigger] value_under(out, name)
        == value_under(state.fields, name) by {
        lemma_lookup_in_prefix(state.fields, out, name);
    }
    assert forall|name: Seq<char>| #[trigger] has_name(out, name) implies has_name(state.fields, name) || has_name(
        doc,
        name,
    ) by {
        lemma_known_name(state, doc, name);
    }
}

proof fn lemma_known_name(state: SchemaState, doc: Seq<(Seq<char>, Json)>, name: Seq<char>)
    requires
        schema_well_formed(state),
        has_name(infer_all(state, doc).state.fields, name),
    ensures
        has_name(state.fields, name) || has_name(doc, name),
{
    let inference = infer_all(state, doc);
    let out = inference.state.fields;
    let n = state.fields.len() as int;
    law_inference_only_adds(state, doc);
    let i = choose|i: int| 0 <= i < out.len() && (#[trigger] out[i]).0 == name;
    if i < n {
        assert(out.take(n)[i] == out[i]);
        assert(state.fields[i].0 == name);
    } else {
        let meta = inference.added[i - n];
        assert(meta == out[n + (i - n)].1);
        assert(comes_of(doc, meta));
        let k = choose|k: int|
            0 <= k < doc.len() && (#[trigger] doc[k]).0 == meta.name && inferred_type(doc[k].1) == meta.data_type;
        assert(doc[k].0 == name);
    }
}

/// The value of a field of a document may not stand in the field of that name that the schema
/// knows.
pub open spec fn clashes(fields: Seq<(Seq<char>, MetaView)>, field: (Seq<char>, Json)) -> bool {
    has_name(fields, field.0) && !types_compatible((value_under(fields, field.0)->0).data_type, inferred_type(field.1))
}

/// A document meets a conflict exactly if the value of one of its fields may not stand in the
/// field of that name that the schema knows. The conflict is that of the first such field, and
/// tells both types.
pub proof fn law_conflict_is_first_clash(state: SchemaState, doc: Seq<(Seq<char>, Json)>)
    requires
        schema_well_formed(state),
        names_distinct(doc),
    ensures
        infer_all(state, doc).conflict is None <==> forall|i: int|
            0 <= i < doc.len() ==> !clashes(state.fields, #[trigger] doc[i]),
        infer_all(state, doc).conflict matches Some(c) ==> exists|i: int|
            0 <= i < doc.len() && is_first_clash(state.fields, doc, i) && (#[trigger] doc[i]).0 == c.name
                && inferred_type(doc[i].1) == c.inferred && (value_under(state.fields, c.name)->0).data_type
                == c.existing,
    decreases doc.len(),
{
    if doc.len() > 0 {
        let init = doc.drop_last();
        let n = doc.len() - 1;
        let before = infer_all(state, init);
        let out = infer_all(state, doc);
        assert forall|i: int, j: int| 0 <= i < j < init.len() implies (#[trigger] init[i]).0 != (#[trigger] init[j]).0 by {
            assert(init[i] == doc[i] && init[j] == doc[j]);
        }
        law_conflict_is_first_clash(state, init);
        assert forall|i: int| 0 <= i < n implies (#[trigger] init[i]) == doc[i] by {}
        if before.conflict is Some {
            let c = before.conflict->0;
            let i = choose|i: int|
                0 <= i < init.len() && is_first_clash(state.fields, init, i) && (#[trigger] init[i]).0 == c.name
                    && inferred_type(init[i].1) == c.inferred && (value_under(state.fields, c.name)->0).data_type
                    == c.existing;
            assert(doc[i] == init[i]);
            assert forall|j: int| 0 <= j < i implies !clashes(state.fields, #[trigger] doc[j]) by {
                assert(init[j] == doc[j]);
            }
            assert(is_first_clash(state.fields, doc, i));
        } else {
            let name = doc[n].0;
            law_inference_only_adds(state, init);
            assert(out == infer_one(before, name, doc[n].1));
            if has_name(state.fields, name) {
                lemma_lookup_in_prefix(state.fields, before.state.fields, name);
            } else if has_name(before.state.fields, name) {
                lemma_known_name(state, init, name);
                let k = choose|k: int| 0 <= k < init.len() && (#[trigger] init[k]).0 == name;
                assert(doc[k].0 == doc[n].0);
            }
            assert(out.conflict is Some <==> clashes(state.fields, doc[n]));
            assert forall|i: int| 0 <= i < n implies !clashes(state.fields, #[trigger] doc[i]) by {
                assert(init[i] == doc[i]);
            }
            if out.conflict is Some {
                assert(is_first_clash(state.fields, doc, n));
            }
        }
    }
}

/// The field is the first one of a document whose value may not stand in the schema's field.
pub open spec fn is_first_clash(
    fields: Seq<(Seq<char>, MetaView)>,
    doc: Seq<(Seq<char>, Json)>,
    i: int,
) -> bool {
    clashes(fields, doc[i]) && forall|j: int| 0 <= j < i ==> !clashes(fields, #[trigger] doc[j])
}

/// How a schema treats the fields that it adds: they are stored; those that are neither vectors
/// nor arrays go to the lexical index, vectors to the vector index; only texts are split.
pub proof fn law_added_fields_are_set_up(state: SchemaState, doc: Seq<(Seq<char>, Json)>)
    ensures
        forall|i: int|
            0 <= i < infer_all(state, doc).added.len() ==> is_set_up(#[trigger] infer_all(state, doc).added[i]),
    decreases doc.len(),
{
    if doc.len() > 0 {
        law_added_fields_are_set_up(state, doc.drop_last());
        let before = infer_all(state, doc.drop_last());
        let out = infer_all(state, doc);
        assert forall|i: int| 0 <= i < out.added.len() implies is_set_up(#[trigger] out.added[i]) by {
            if i < before.added.len() {
                assert(out.added[i] == before.added[i]);
            }
        }
    }
}

/// The field is treated as its type asks for.
pub open spec fn is_set_up(meta: MetaView) -> bool {
    &&& meta.stored
    &&& meta.index_lexical <==> !(meta.data_type is Vector) && !(meta.data_type is Array)
    &&& meta.index_vector <==> meta.data_type is Vector
    &&& meta.data_type is Vector ==> meta.vector_dim == Some(meta.data_type->Vector_0)
    &&& !(meta.data_type is Vector) ==> meta.vector_dim is None
    &&& meta.indexed <==> meta.data_type is Text || meta.data_type is DateTime
    &&& meta.tokenizer is Some <==> meta.data_type is Text
    &&& meta.tokenizer is Some ==> meta.tokenizer == Some(TokenizerType::Default)
}

/// Of the fields that a kept schema lists under one name the last one counts; every name that is
/// listed is there, once, and no other one.
pub proof fn law_last_listed_field_counts(metas: Seq<MetaView>, name: Seq<char>, i: int)
    ensures
        names_distinct(enter_metas(metas)),
        has_name(enter_metas(metas), name) <==> exists|j: int| 0 <= j < metas.len() && (#[trigger] metas[j]).name == name,
        (0 <= i < metas.len() && metas[i].name == name && forall|j: int|
            i < j < metas.len() ==> (#[trigger] metas[j]).name != name) ==> value_under(enter_metas(metas), name) == Some(
            metas[i],
        ),
    decreases metas.len(),
{
    if metas.len() > 0 {
        let init = metas.drop_last();
        let n = metas.len() - 1;
        let before = enter_metas(init);
        law_last_listed_field_counts(init, name, i);
        assert(enter_metas(metas) == entered(before, metas[n].name, metas[n]));
        law_entered_value_is_found(before, metas[n].name, metas[n], name);
        assert forall|j: int| 0 <= j < n implies (#[trigger] init[j]) == metas[j] by {}
        let after = enter_metas(metas);
        if metas[n].name != name {
            assert(value_under(after, name) == value_under(before, name));
            assert(has_name(after, name) == has_name(before, name));
            if has_name(before, name) {
                let j = choose|j: int| 0 <= j < init.len() && (#[trigger] init[j]).name == name;
                assert(metas[j].name == name);
            }
            if exists|j: int| 0 <= j < metas.len() && (#[trigger] metas[j]).name == name {
                let j = choose|j: int| 0 <= j < metas.len() && (#[trigger] metas[j]).name == name;
                assert(init[j].name == name);
            }
        } else {
            assert(value_under(after, name) == Some(metas[n]));
            assert(metas[n].name == name);
        }
    } else {
        assert(names_distinct(enter_metas(metas)));
    }
}

} // verus!
