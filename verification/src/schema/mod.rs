//! Schemas that grow with the documents.
//!
//! A document's new fields are added to the schema with the types that their values have. A field
//! that is known keeps its type; a value of a type that is not compatible with it is an error.

pub mod field;
pub mod inference;
pub mod laws;

use vstd::prelude::*;

pub use field::{FieldChange, FieldId, FieldMeta, FieldType, TokenizerType, VectorSimilarity};
pub use inference::infer_field_type;

use crate::field_map::{entered, has_name, names_distinct, position_of, value_under, FieldMap};
use crate::index::document::SchemalessDoc;
use crate::json::Json;
use field::{default_meta, types_compatible, MetaView};
use field::law_compatibility_is_symmetric;
use inference::inferred_type;

verus! {

/// A field with values of types that are not compatible.
#[derive(Debug)]
pub struct SchemaConflict {
    pub name: String,
    pub existing: FieldType,
    pub inferred: FieldType,
}

/// The model of a conflict.
pub struct ConflictView {
    pub name: Seq<char>,
    pub existing: FieldType,
    pub inferred: FieldType,
}

impl View for SchemaConflict {
    type V = ConflictView;

    open spec fn view(&self) -> ConflictView {
        ConflictView { name: self.name@, existing: self.existing, inferred: self.inferred }
    }
}

/// The state of a schema: its fields by name, in the order in which they were added, and the id
/// of the next one.
pub struct SchemaState {
    pub fields: Seq<(Seq<char>, MetaView)>,
    pub next_id: u32,
}

/// What adding the fields of a document leads to.
pub struct Inference {
    /// The schema.
    pub state: SchemaState,
    /// The fields that were added, in order.
    pub added: Seq<MetaView>,
    /// The first field that is not compatible; nothing is added from there on.
    pub conflict: Option<ConflictView>,
}

/// The schema and the additions after one more field of a document.
pub open spec fn infer_one(before: Inference, name: Seq<char>, value: Json) -> Inference {
    let t = inferred_type(value);
    if before.conflict is Some {
        before
    } else if has_name(before.state.fields, name) {
        let existing = (value_under(before.state.fields, name)->0).data_type;
        if types_compatible(existing, t) {
            before
        } else {
            Inference { conflict: Some(ConflictView { name, existing, inferred: t }), ..before }
        }
    } else {
        let meta = default_meta(before.state.next_id, name, t);
        Inference {
            state: SchemaState {
                fields: before.state.fields.push((name, meta)),
                next_id: before.state.next_id.wrapping_add(1),
            },
            added: before.added.push(meta),
            conflict: None,
        }
    }
}

/// What adding the fields of a document leads to.
pub open spec fn infer_all(state: SchemaState, doc: Seq<(Seq<char>, Json)>) -> Inference
    decreases doc.len(),
{
    if doc.len() == 0 {
        Inference { state, added: Seq::empty(), conflict: None }
    } else {
        infer_one(infer_all(state, doc.drop_last()), doc.last().0, doc.last().1)
    }
}

/// A schema that grows with the documents.
pub struct DynamicSchema {
    fields: FieldMap<FieldMeta>,
    next_field_id: u32,
}

/// What is kept of a schema: the id of the next field, and the fields in order.
#[derive(Debug)]
pub struct SchemaSnapshot {
    pub next_field_id: u32,
    pub fields: Vec<FieldMeta>,
}

/// The models of the fields of a schema.
pub open spec fn view_metas(s: Seq<(Seq<char>, FieldMeta)>) -> Seq<(Seq<char>, MetaView)> {
    Seq::new(s.len(), |i: int| (s[i].0, s[i].1@))
}

impl View for DynamicSchema {
    type V = SchemaState;

    closed spec fn view(&self) -> SchemaState {
        SchemaState { fields: view_metas(self.fields@), next_id: self.next_field_id }
    }
}

proof fn lemma_view_lookup(s: Seq<(Seq<char>, FieldMeta)>, name: Seq<char>)
    requires
        names_distinct(s),
    ensures
        has_name(s, name) == has_name(view_metas(s), name),
        has_name(s, name) ==> position_of(s, name) == position_of(view_metas(s), name),
        has_name(s, name) ==> value_under(view_metas(s), name) == Some((value_under(s, name)->0)@),
        names_distinct(view_metas(s)),
{
    let m = view_metas(s);
    assert forall|i: int, j: int| 0 <= i < j < m.len() implies (#[trigger] m[i]).0 != (#[trigger] m[j]).0 by {
        assert(s[i].0 != s[j].0);
    }
    if has_name(s, name) {
        let i = position_of(s, name);
        assert(m[i].0 == name);
        let j = position_of(m, name);
        assert(s[j].0 == name);
        if i < j {
            assert(s[i].0 != s[j].0);
        } else if j < i {
            assert(s[j].0 != s[i].0);
        }
    } else if has_name(m, name) {
        let j = position_of(m, name);
        assert(s[j].0 == name);
    }
}

/// The models of a list of changes.
pub open spec fn view_changes(s: Seq<FieldChange>) -> Seq<MetaView> {
    Seq::new(s.len(), |i: int| s[i].meta@)
}

/// Every change carries the name of its field.
pub open spec fn changes_named(s: Seq<FieldChange>) -> bool {
    forall|i: int| 0 <= i < s.len() ==> (#[trigger] s[i]).name@ == s[i].meta.name@
}

/// The fields after fields have been entered under their names, one after the other.
pub open spec fn enter_metas(metas: Seq<MetaView>) -> Seq<(Seq<char>, MetaView)>
    decreases metas.len(),
{
    if metas.len() == 0 {
        Seq::empty()
    } else {
        entered(enter_metas(metas.drop_last()), metas.last().name, metas.last())
    }
}

/// The models of a list of fields.
pub open spec fn view_meta_list(s: Seq<FieldMeta>) -> Seq<MetaView> {
    Seq::new(s.len(), |i: int| s[i]@)
}

/// Every field stands under its own name, and no name occurs twice.
pub open spec fn schema_well_formed(s: SchemaState) -> bool {
    &&& names_distinct(s.fields)
    &&& forall|i: int| 0 <= i < s.fields.len() ==> (#[trigger] s.fields[i]).0 == s.fields[i].1.name
}

impl DynamicSchema {
    /// The schema is well formed.
    pub closed spec fn wf(&self) -> bool {
        self.fields.wf() && schema_well_formed(self@)
    }

    /// Every field of a well-formed schema stands under its own name, and no name occurs twice.
    pub proof fn law_fields_stand_under_their_names(&self)
        requires
            self.wf(),
        ensures
            schema_well_formed(self@),
    {
    }

    /// A schema without fields.
    pub fn new() -> (s: Self)
        ensures
            s.wf(),
            s@.fields == Seq::<(Seq<char>, MetaView)>::empty(),
            s@.next_id == 0,
    {
        let s = DynamicSchema { fields: FieldMap::new(), next_field_id: 0 };
        assert(s@.fields =~= Seq::<(Seq<char>, MetaView)>::empty());
        s
    }

    /// Adds the fields of a document that are new, and says which. A field whose value is not
    /// compatible with the type that the schema has for it is an error; the fields before it have
    /// been added then.
    pub fn infer_and_add(&mut self, doc: &SchemalessDoc) -> (r: Result<Vec<FieldChange>, SchemaConflict>)
        requires
            old(self).wf(),
            doc.wf(),
        ensures
            final(self).wf(),
            ({
                let out = infer_all(old(self)@, doc@);
                &&& final(self)@ == out.state
                &&& match out.conflict {
                    Some(c) => r matches Err(e) && e@ == c,
                    None => r matches Ok(changes) && view_changes(changes@) == out.added && changes_named(changes@),
                }
            }),
    {
        let mut changes: Vec<FieldChange> = Vec::new();
        let ghost start = self@;
        let ghost all = doc@;
        let mut i: usize = 0;
        assert(all.take(0) =~= Seq::<(Seq<char>, Json)>::empty());
        assert(view_changes(changes@) =~= Seq::<MetaView>::empty());
        while i < doc.fields.len()
            invariant
                i <= doc@.len(),
                doc.wf(),
                all == doc@,
                self.wf(),
                self@ == infer_all(start, all.take(i as int)).state,
                view_changes(changes@) == infer_all(start, all.take(i as int)).added,
                changes_named(changes@),
                infer_all(start, all.take(i as int)).conflict is None,
                start == old(self)@,
            decreases doc@.len() - i,
        {
            let name = doc.fields.name_at(i);
            let value = doc.fields.value_at(i);
            let ghost now = infer_all(start, all.take(i as int));
            let ghost next = infer_all(start, all.take(i + 1));
            proof {
                assert(all.take(i + 1).drop_last() =~= all.take(i as int));
                assert(all.take(i + 1).last() == (name@, value@));
                assert(next == infer_one(now, name@, value@));
                self.fields.lemma_names_distinct();
                lemma_view_lookup(self.fields@, name@);
            }
            let inferred = infer_field_type(value);
            match self.fields.get(name.as_str()) {
                Some(existing) => {
                    if !existing.data_type.compatible(&inferred) {
                        let conflict = SchemaConflict { name, existing: existing.data_type.clone(), inferred };
                        proof {
                            lemma_conflict_stays(start, all, i + 1);
                        }
                        return Err(conflict);
                    }
                },
                None => {
                    let id: u32 = self.next_field_id;
                    let ghost before = self.fields@;
                    let ghost added = changes@;
                    self.next_field_id = id.wrapping_add(1);
                    let meta = FieldMeta::new(id, name.clone(), inferred);
                    let kept = meta.clone();
                    let ghost m = meta@;
                    self.fields.insert(name.clone(), meta);
                    changes.push(FieldChange { name, meta: kept });
                    proof {
                        assert(view_metas(self.fields@) =~= view_metas(before).push((name@, m)));
                        assert(view_changes(changes@) =~= view_changes(added).push(m));
                        self.fields.lemma_names_distinct();
                        lemma_view_lookup(self.fields@, name@);
                        assert(schema_well_formed(self@)) by {
                            assert forall|k: int| 0 <= k < self@.fields.len() implies (#[trigger] self@.fields[k]).0
                                == self@.fields[k].1.name by {
                                if k < before.len() {
                                    assert(self@.fields[k] == view_metas(before)[k]);
                                }
                            }
                        }
                    }
                },
            }
            i = i + 1;
        }
        assert(all.take(i as int) =~= all);
        Ok(changes)
    }

    /// What the schema says of a field.
    pub fn get_field(&self, name: &str) -> (r: Option<FieldMeta>)
        requires
            self.wf(),
        ensures
            r is Some <==> has_name(self@.fields, name@),
            r matches Some(m) ==> value_under(self@.fields, name@) == Some(m@),
    {
        proof {
            self.fields.lemma_names_distinct();
            lemma_view_lookup(self.fields@, name@);
        }
        match self.fields.get(name) {
            Some(m) => Some(m.clone()),
            None => None,
        }
    }

    /// What the schema says of its fields, in the order in which they were added.
    pub fn snapshot(&self) -> (out: Vec<FieldMeta>)
        ensures
            out@.len() == self@.fields.len(),
            forall|i: int| 0 <= i < out@.len() ==> (#[trigger] out@[i])@ == self@.fields[i].1,
    {
        let mut out: Vec<FieldMeta> = Vec::new();
        let mut i: usize = 0;
        while i < self.fields.len()
            invariant
                i <= self@.fields.len(),
                self@.fields.len() == self.fields@.len(),
                out@.len() == i,
                forall|k: int| 0 <= k < i ==> (#[trigger] out@[k])@ == self@.fields[k].1,
            decreases self@.fields.len() - i,
        {
            out.push(self.fields.value_at(i).clone());
            i = i + 1;
        }
        out
    }

    /// What is kept of the schema.
    pub fn to_snapshot(&self) -> (snap: SchemaSnapshot)
        ensures
            snap.next_field_id == self@.next_id,
            snap.fields@.len() == self@.fields.len(),
            forall|i: int| 0 <= i < snap.fields@.len() ==> (#[trigger] snap.fields@[i])@ == self@.fields[i].1,
    {
        SchemaSnapshot { next_field_id: self.next_field_id, fields: self.snapshot() }
    }

    /// The schema of which something was kept.
    pub fn from_snapshot(snap: SchemaSnapshot) -> (s: Self)
        ensures
            s.wf(),
            s@.next_id == snap.next_field_id,
            s@.fields == enter_metas(view_meta_list(snap.fields@)),
    {
        let ghost all = view_meta_list(snap.fields@);
        let mut s = DynamicSchema { fields: FieldMap::new(), next_field_id: snap.next_field_id };
        let mut i: usize = 0;
        assert(all.take(0) =~= Seq::<MetaView>::empty());
        assert(s@.fields =~= Seq::<(Seq<char>, MetaView)>::empty());
        while i < snap.fields.len()
            invariant
                i <= snap.fields@.len(),
                all == view_meta_list(snap.fields@),
                s.wf(),
                s@.next_id == snap.next_field_id,
                s@.fields == enter_metas(all.take(i as int)),
            decreases snap.fields@.len() - i,
        {
            let meta = snap.fields[i].clone();
            let name = snap.fields[i].name.clone();
            let ghost before = s.fields@;
            let ghost m = meta;
            proof {
                assert(all.take(i + 1).drop_last() =~= all.take(i as int));
                assert(all.take(i + 1).last() == meta@);
                s.fields.lemma_names_distinct();
                lemma_view_lookup(before, name@);
            }
            s.fields.insert(name, meta);
            proof {
                s.fields.lemma_names_distinct();
                lemma_view_lookup(s.fields@, name@);
                assert(view_metas(s.fields@) =~= entered(view_metas(before), name@, m@));
                assert forall|k: int| 0 <= k < s@.fields.len() implies (#[trigger] s@.fields[k]).0
                    == s@.fields[k].1.name by {
                    if k < before.len() {
                        assert(view_metas(before)[k].0 == view_metas(before)[k].1.name);
                    }
                }
            }
            i = i + 1;
        }
        assert(all.take(i as int) =~= all);
        s
    }

    /// The number of fields.
    pub fn field_count(&self) -> (n: usize)
        ensures
            n == self@.fields.len(),
    {
        self.fields.len()
    }
}

impl Default for DynamicSchema {
    fn default() -> (s: Self)
        ensures
            s.wf(),
            s@.fields == Seq::<(Seq<char>, MetaView)>::empty(),
            s@.next_id == 0,
    {
        DynamicSchema::new()
    }
}

proof fn lemma_conflict_stays(state: SchemaState, doc: Seq<(Seq<char>, Json)>, n: int)
    requires
        0 <= n <= doc.len(),
        infer_all(state, doc.take(n)).conflict is Some,
    ensures
        infer_all(state, doc) == infer_all(state, doc.take(n)),
    decreases doc.len(),
{
    if n == doc.len() {
        assert(doc.take(n) =~= doc);
    } else {
        assert(doc.drop_last().take(n) =~= doc.take(n));
        lemma_conflict_stays(state, doc.drop_last(), n);
    }
}

/// The field has the name of a field of the document, and the type that its value has.
pub open spec fn comes_of(doc: Seq<(Seq<char>, Json)>, meta: MetaView) -> bool {
    exists|k: int|
        0 <= k < doc.len() && (#[trigger] doc[k]).0 == meta.name && inferred_type(doc[k].1) == meta.data_type
}

/// What the schema said of its fields stays as it was, whatever is added; the added fields come
/// behind, each under its name, with the type that its value in the document has.
pub proof fn law_inference_only_adds(state: SchemaState, doc: Seq<(Seq<char>, Json)>)
    requires
        schema_well_formed(state),
    ensures
        ({
            let out = infer_all(state, doc);
            let n = state.fields.len();
            &&& schema_well_formed(out.state)
            &&& out.state.fields.len() == n + out.added.len()
            &&& out.state.fields.take(n as int) == state.fields
            &&& forall|i: int|
                0 <= i < out.added.len() ==> (#[trigger] out.added[i]) == out.state.fields[n + i].1 && comes_of(
                    doc,
                    out.added[i],
                )
        }),
    decreases doc.len(),
{
    if doc.len() == 0 {
        assert(state.fields.take(state.fields.len() as int) =~= state.fields);
    } else {
        law_inference_only_adds(state, doc.drop_last());
        let before = infer_all(state, doc.drop_last());
        let out = infer_all(state, doc);
        let n = state.fields.len() as int;
        assert forall|meta: MetaView| comes_of(doc.drop_last(), meta) implies #[trigger] comes_of(doc, meta) by {
            let init = doc.drop_last();
            let k = choose|k: int|
                0 <= k < init.len() && (#[trigger] init[k]).0 == meta.name && inferred_type(init[k].1) == meta.data_type;
            assert(doc[k] == init[k]);
        }
        assert forall|i: int| 0 <= i < out.added.len() implies comes_of(doc, #[trigger] out.added[i]) by {
            if i < before.added.len() {
                assert(comes_of(doc.drop_last(), before.added[i]));
            } else {
                assert(doc[doc.len() - 1].0 == out.added[i].name);
            }
        }
        if out.added != before.added {
            let f = out.state.fields;
            assert forall|i: int, j: int| 0 <= i < j < f.len() implies (#[trigger] f[i]).0 != (#[trigger] f[j]).0 by {
                if j == before.state.fields.len() {
                    assert(f[i] == before.state.fields[i]);
                }
            }
            assert forall|i: int| 0 <= i < f.len() implies (#[trigger] f[i]).0 == f[i].1.name by {
                if i < before.state.fields.len() {
                    assert(f[i] == before.state.fields[i]);
                }
            }
            assert(f.take(n) =~= before.state.fields.take(n));
            assert forall|i: int| 0 <= i < out.added.len() implies (#[trigger] out.added[i]) == f[n + i].1 by {
                if i < before.added.len() {
                    assert(out.added[i] == before.added[i]);
                    assert(f[n + i] == before.state.fields[n + i]);
                }
            }
        }
    }
}

/// The value under a name stays the same when a field with another name comes behind.
pub(crate) proof fn lemma_lookup_in_prefix(a: Seq<(Seq<char>, MetaView)>, b: Seq<(Seq<char>, MetaView)>, name: Seq<char>)
    requires
        names_distinct(b),
        a.len() <= b.len(),
        b.take(a.len() as int) == a,
        has_name(a, name),
    ensures
        has_name(b, name),
        value_under(b, name) == value_under(a, name),
{
    let i = position_of(a, name);
    assert(b.take(a.len() as int)[i] == b[i]);
    assert(b[i].0 == name);
    let j = position_of(b, name);
    if i < j {
        assert(b[i].0 != b[j].0);
    } else if j < i {
        assert(b[j].0 != b[i].0);
    }
}

/// Every field of a document that was added without a conflict is in the schema with a compatible
/// type.
pub(crate) proof fn lemma_inferred_fields_known(state: SchemaState, doc: Seq<(Seq<char>, Json)>, i: int)
    requires
        schema_well_formed(state),
        infer_all(state, doc).conflict is None,
        0 <= i < doc.len(),
    ensures
        has_name(infer_all(state, doc).state.fields, doc[i].0),
        types_compatible(
            (value_under(infer_all(state, doc).state.fields, doc[i].0)->0).data_type,
            inferred_type(doc[i].1),
        ),
    decreases doc.len(),
{
    let init = doc.drop_last();
    let before = infer_all(state, init);
    let out = infer_all(state, doc);
    law_inference_only_adds(state, init);
    law_inference_only_adds(state, doc);
    let a = before.state.fields;
    let b = out.state.fields;
    assert(b.take(a.len() as int) =~= a);
    if i < init.len() {
        lemma_inferred_fields_known(state, init, i);
        lemma_lookup_in_prefix(a, b, doc[i].0);
    } else {
        let name = doc[i].0;
        let t = inferred_type(doc[i].1);
        if !has_name(a, name) {
            let k = a.len() as int;
            assert(b[k].0 == name);
            let j = position_of(b, name);
            if j < k {
                assert(b[j].0 != b[k].0);
            }
            law_compatibility_is_symmetric(t, t);
        }
    }
}

/// Adding the fields of a document a second time adds nothing and meets no conflict.
pub proof fn law_inference_is_idempotent(state: SchemaState, doc: Seq<(Seq<char>, Json)>)
    requires
        schema_well_formed(state),
        infer_all(state, doc).conflict is None,
    ensures
        infer_all(infer_all(state, doc).state, doc) == (Inference {
            state: infer_all(state, doc).state,
            added: Seq::empty(),
            conflict: None,
        }),
{
    assert forall|i: int| 0 <= i < doc.len() implies has_name(
        infer_all(state, doc).state.fields,
        (#[trigger] doc[i]).0,
    ) && types_compatible(
        (value_under(infer_all(state, doc).state.fields, doc[i].0)->0).data_type,
        inferred_type(doc[i].1),
    ) by {
        lemma_inferred_fields_known(state, doc, i);
    }
    lemma_known_fields_add_nothing(infer_all(state, doc).state, doc);
}

proof fn lemma_known_fields_add_nothing(state: SchemaState, doc: Seq<(Seq<char>, Json)>)
    requires
        forall|i: int|
            0 <= i < doc.len() ==> has_name(state.fields, (#[trigger] doc[i]).0) && types_compatible(
                (value_under(state.fields, doc[i].0)->0).data_type,
                inferred_type(doc[i].1),
            ),
    ensures
        infer_all(state, doc) == (Inference { state, added: Seq::empty(), conflict: None }),
    decreases doc.len(),
{
    if doc.len() > 0 {
        assert forall|i: int| 0 <= i < doc.drop_last().len() implies has_name(
            state.fields,
            (#[trigger] doc.drop_last()[i]).0,
        ) && types_compatible(
            (value_under(state.fields, doc.drop_last()[i].0)->0).data_type,
            inferred_type(doc.drop_last()[i].1),
        ) by {
            assert(doc.drop_last()[i] == doc[i]);
        }
        lemma_known_fields_add_nothing(state, doc.drop_last());
        assert(doc.last() == doc[doc.len() - 1]);
    }
}

/// Ids are given in order: as long as they last, the fields that are added get the next ones.
pub proof fn law_ids_are_consecutive(state: SchemaState, doc: Seq<(Seq<char>, Json)>)
    requires
        state.next_id + doc.len() <= u32::MAX,
    ensures
        ({
            let out = infer_all(state, doc);
            &&& out.state.next_id == state.next_id + out.added.len()
            &&& out.added.len() <= doc.len()
            &&& forall|i: int| 0 <= i < out.added.len() ==> (#[trigger] out.added[i]).id == state.next_id + i
        }),
    decreases doc.len(),
{
    if doc.len() > 0 {
        law_ids_are_consecutive(state, doc.drop_last());
    }
}

/// Keeping a schema and taking it back gives the schema.
pub proof fn law_snapshot_round_trip(fields: Seq<(Seq<char>, MetaView)>)
    requires
        names_distinct(fields),
        forall|i: int| 0 <= i < fields.len() ==> (#[trigger] fields[i]).0 == fields[i].1.name,
    ensures
        enter_metas(Seq::new(fields.len(), |i: int| fields[i].1)) == fields,
    decreases fields.len(),
{
    let metas = Seq::new(fields.len(), |i: int| fields[i].1);
    if fields.len() == 0 {
        assert(enter_metas(metas) =~= fields);
    } else {
        let init = fields.drop_last();
        assert forall|i: int| 0 <= i < init.len() implies (#[trigger] init[i]).0 == init[i].1.name by {
            assert(init[i] == fields[i]);
        }
        law_snapshot_round_trip(init);
        assert(metas.drop_last() =~= Seq::new(init.len(), |i: int| init[i].1));
        let last = fields.last();
        assert(last == fields[fields.len() - 1]);
        if has_name(init, last.0) {
            let k = position_of(init, last.0);
            assert(fields[k].0 != fields[fields.len() - 1].0);
        }
        assert(enter_metas(metas) =~= fields);
    }
}

} // verus!
