//! An index: documents with their schema, their postings and their vectors.
//!
//! A document is added by one batch of entries: the document itself, its postings, its vectors
//! and, if it brought new fields, the schema.

pub mod document;
pub mod laws;
pub mod vector;

use vstd::prelude::*;

pub use document::SchemalessDoc;
pub use vector::VectorEngine;

use crate::bytes::be_bytes;
use crate::json::JsonNumber;
use crate::lexical::analyzer::AnalyzerError;
use crate::lexical::search::{read_total_docs, stats_key};
use crate::lexical::{analyze_doc, are_partitions, occurrence_entries, LexicalEngine, LexicalState};
use crate::schema::{infer_all, DynamicSchema, SchemaConflict, SchemaState, TokenizerType};
use crate::storage::entry::{view_entries, Entry};
use crate::storage::key::{meta_id, number_value, read_bytes, read_number, stored_number};
use crate::storage::key::{LsmKey, LsmValue, NS_DOC, NS_META};
use crate::storage::lsm::LsmConfig;
use crate::storage::manifest::Manifest;
use crate::vector::partition::{PartitionView, VectorPartitionId};
use crate::vector::{are_vector_entries, doc_vectors, document_vectors, is_first_refusal, keys_fit, view_numbers};
use crate::vector::{EngineView, KeyedVector, VectorError};
use document::{decode_doc, doc_frame, enter_all, has_texts, texts_of, DocError};

verus! {

/// The number of a document.
pub type DocId = u64;

/// The configuration of an index.
#[derive(Debug)]
pub struct IndexConfig {
    /// The name of the index.
    pub name: String,
    /// The configuration of its storage.
    pub lsm: LsmConfig,
    /// The number of the index; 0 if one is to be given to it.
    pub index_id: u64,
}

impl Clone for IndexConfig {
    fn clone(&self) -> (c: Self)
        ensures
            c.name@ == self.name@,
            c.lsm == self.lsm,
            c.index_id == self.index_id,
    {
        IndexConfig { name: self.name.clone(), lsm: self.lsm.clone(), index_id: self.index_id }
    }
}

impl Default for IndexConfig {
    fn default() -> (c: Self)
        ensures
            c.name@ == "default"@,
            c.lsm == (LsmConfig {
                memtable_max_bytes: 67_108_864,
                sstable_compact_threshold: 4,
                wal_sync: crate::storage::wal::WalSync::EveryCommit,
                io_backend: crate::storage::io_backend::IoBackendKind::AsyncFs,
            }),
            c.index_id == 0,
    {
        IndexConfig { name: "default".to_string(), lsm: LsmConfig::default(), index_id: 0 }
    }
}

/// What is kept of the numbering of documents: the next number.
#[derive(Clone, Copy, Debug, PartialEq, Eq, Structural)]
pub struct DocIdCheckpoint {
    pub next_doc_id: u64,
}

/// Why a document is not added.
#[derive(Debug)]
pub enum IndexError {
    /// A value is not compatible with the type of its field.
    Schema(SchemaConflict),
    /// The document has no bytes.
    Document(DocError),
    /// The tokenizer of a field has no analyzer.
    Analyzer(AnalyzerError),
    /// A vector is refused.
    Vector(VectorError),
}

/// The number is the next one for a document: no less than 1 and than the number that was kept,
/// greater than that of every document, and the least such number.
pub open spec fn is_next_id(kept: u64, docs: Seq<(LsmKey, LsmValue)>, next: u64) -> bool {
    &&& next >= 1
    &&& next >= kept
    &&& forall|i: int| 0 <= i < docs.len() ==> (#[trigger] docs[i]).0.doc_id < next
    &&& next == 1 || next == kept || exists|i: int| 0 <= i < docs.len() && (#[trigger] docs[i]).0.doc_id + 1 == next
}

/// The next number for a document: the greatest of 1, the number that was kept, and one more than
/// the number of any document.
pub fn restore_next_doc_id(checkpoint: &Option<LsmValue>, docs: &Vec<(LsmKey, LsmValue)>) -> (next: u64)
    requires
        forall|i: int| 0 <= i < docs@.len() ==> (#[trigger] docs@[i]).0.doc_id < u64::MAX,
    ensures
        is_next_id(stored_number(read_bytes(*checkpoint)), docs@, next),
{
    let kept: u64 = read_number(checkpoint);
    let mut next: u64 = if kept > 1 {
        kept
    } else {
        1
    };
    let mut i: usize = 0;
    while i < docs.len()
        invariant
            i <= docs@.len(),
            forall|k: int| 0 <= k < docs@.len() ==> (#[trigger] docs@[k]).0.doc_id < u64::MAX,
            next >= 1,
            next >= kept,
            forall|k: int| 0 <= k < i ==> (#[trigger] docs@[k]).0.doc_id < next,
            next == 1 || next == kept || exists|k: int|
                0 <= k < docs@.len() && (#[trigger] docs@[k]).0.doc_id + 1 == next,
        decreases docs@.len() - i,
    {
        assert(docs@[i as int].0.doc_id < u64::MAX);
        let after: u64 = docs[i].0.doc_id + 1;
        if after > next {
            next = after;
        }
        i = i + 1;
    }
    next
}

/// The number of an index in its manifest: the one that is configured; else the time at which it
/// was created, or 0 if it was there before.
pub fn manifest_index_id(config: &IndexConfig, is_create: bool, now: u64) -> (id: u64)
    ensures
        id == if config.index_id != 0 {
            config.index_id
        } else if is_create {
            now
        } else {
            0
        },
{
    if config.index_id != 0 {
        config.index_id
    } else if is_create {
        now
    } else {
        0
    }
}

/// The key under which the next number for a document is stored.
pub open spec fn next_id_key() -> LsmKey {
    LsmKey { namespace: NS_META, partition_or_segment: 0, doc_id: meta_id("next_doc_id"@), lsn: 0 }
}

/// The key under which the schema is stored.
pub open spec fn schema_key() -> LsmKey {
    LsmKey { namespace: NS_META, partition_or_segment: 0, doc_id: meta_id("schema"@), lsn: 0 }
}

/// The key under which the next number for a document is stored.
pub fn next_doc_id_key() -> (key: LsmKey)
    ensures
        key == next_id_key(),
{
    LsmKey::meta("next_doc_id")
}

/// The key under which the schema is stored.
pub fn schema_snapshot_key() -> (key: LsmKey)
    ensures
        key == schema_key(),
{
    LsmKey::meta("schema")
}

/// The stored entry of a document.
pub open spec fn doc_entry(doc_id: u64, bytes: Seq<u8>) -> Entry {
    (LsmKey { namespace: NS_DOC, partition_or_segment: 0, doc_id, lsn: 0 }, Some(bytes))
}

/// A document that is being added: its number, the entries of the document and its postings,
/// whether the schema changed, and its vectors, if the index has a vector engine.
#[derive(Debug)]
pub struct PendingDocument {
    pub doc_id: DocId,
    pub entries: Vec<(LsmKey, LsmValue)>,
    pub schema_changed: bool,
    pub vectors: Option<Vec<Vec<JsonNumber>>>,
}

/// The batch by which a document is added, and the partitions that its vectors go to.
#[derive(Debug)]
pub struct DocumentBatch {
    pub entries: Vec<(LsmKey, LsmValue)>,
    pub partitions: Vec<VectorPartitionId>,
}

/// The entry of the schema, if it changed.
pub open spec fn schema_entries(changed: bool, bytes: Seq<u8>) -> Seq<Entry> {
    if changed {
        seq![(schema_key(), Some(bytes))]
    } else {
        Seq::empty()
    }
}

/// The state of an index.
pub struct IndexState {
    pub schema: SchemaState,
    pub next_doc_id: u64,
    pub lexical: LexicalState,
    pub vector: Option<EngineView>,
}

/// An index.
pub struct Index {
    pub schema: DynamicSchema,
    pub manifest: Manifest,
    pub config: IndexConfig,
    pub lexical: LexicalEngine,
    pub vector: Option<VectorEngine>,
    pub next_doc_id: u64,
}

impl View for Index {
    type V = IndexState;

    open spec fn view(&self) -> IndexState {
        IndexState {
            schema: self.schema@,
            next_doc_id: self.next_doc_id,
            lexical: self.lexical@,
            vector: match self.vector {
                Some(v) => Some(v@),
                None => None,
            },
        }
    }
}

impl Index {
    /// The parts of the index are well formed.
    pub open spec fn wf(&self) -> bool {
        &&& self.schema.wf()
        &&& self.lexical.wf()
        &&& self.vector matches Some(v) ==> v.wf()
    }

    /// Opens an index, out of what its storage holds: the schema, the next number that was kept,
    /// the documents, and the statistics of the lexical index.
    pub fn open(
        config: IndexConfig,
        schema: DynamicSchema,
        checkpoint: &Option<LsmValue>,
        docs: &Vec<(LsmKey, LsmValue)>,
        stats: &Option<LsmValue>,
        wal_path: String,
        is_create: bool,
        now: u64,
    ) -> (index: Self)
        requires
            schema.wf(),
            forall|i: int| 0 <= i < docs@.len() ==> (#[trigger] docs@[i]).0.doc_id < u64::MAX,
        ensures
            index.wf(),
            index.config == config,
            index@.schema == schema@,
            is_next_id(stored_number(read_bytes(*checkpoint)), docs@, index@.next_doc_id),
            index@.lexical.total_docs == stored_number(read_bytes(*stats)),
            index@.lexical.in_use == Map::<u32, TokenizerType>::empty(),
            index@.vector is None,
            index.manifest.index_id == if config.index_id != 0 {
                config.index_id
            } else if is_create {
                now
            } else {
                0
            },
            index.manifest.index_name@ == config.name@,
            index.manifest.wal_path == wal_path,
            index.manifest.sstables@.len() == 0,
            index.manifest.last_checkpoint_lsn == 0,
            index.manifest.created_at == now,
            index.manifest.updated_at == now,
    {
        let next_doc_id: u64 = restore_next_doc_id(checkpoint, docs);
        let id: u64 = manifest_index_id(&config, is_create, now);
        let manifest = Manifest::new(id, config.name.clone(), wal_path, now);
        let lexical = LexicalEngine::new(read_total_docs(stats));
        Index { schema, manifest, config, lexical, vector: None, next_doc_id }
    }

    /// The number of the next document.
    pub fn next_doc_id(&self) -> (id: u64)
        ensures
            id == self@.next_doc_id,
    {
        self.next_doc_id
    }

    /// Gives the index a vector engine, if it has none; says whether it did.
    pub fn set_vector(&mut self, engine: VectorEngine) -> (set: bool)
        requires
            old(self).wf(),
            engine.wf(),
        ensures
            final(self).wf(),
            final(self).manifest == old(self).manifest,
            final(self).config == old(self).config,
            set == (old(self)@.vector is None),
            final(self)@ == if old(self)@.vector is None {
                IndexState { vector: Some(engine@), ..old(self)@ }
            } else {
                old(self)@
            },
    {
        if self.vector.is_some() {
            return false;
        }
        self.vector = Some(engine);
        true
    }

    /// Starts to add a document: adds its new fields to the schema, gives it a number, and hands
    /// out the entries of the document and its postings. The schema keeps the new fields, and
    /// the number is used up, whatever comes of the rest. Each posting goes to the partition of
    /// its term.
    pub fn begin_add(&mut self, doc: &SchemalessDoc) -> (r: Result<PendingDocument, IndexError>)
        requires
            old(self).wf(),
            doc.wf(),
        ensures
            final(self).wf(),
            final(self).manifest == old(self).manifest,
            final(self).config == old(self).config,
            final(self)@.vector == old(self)@.vector,
            ({
                let before = old(self)@;
                let inferred = infer_all(before.schema, doc@);
                let analysis = analyze_doc(before.lexical.in_use, inferred.state.fields, doc@);
                &&& final(self)@.schema == inferred.state
                &&& if inferred.conflict is Some {
                    &&& r matches Err(IndexError::Schema(e)) && e@ == inferred.conflict->0
                    &&& final(self)@.next_doc_id == before.next_doc_id
                    &&& final(self)@.lexical == before.lexical
                } else if !has_texts(doc@) {
                    &&& r matches Err(IndexError::Document(e)) && e == DocError::Json
                    &&& final(self)@.next_doc_id == before.next_doc_id.wrapping_add(1)
                    &&& final(self)@.lexical == before.lexical
                } else {
                    &&& final(self)@.next_doc_id == before.next_doc_id.wrapping_add(1)
                    &&& final(self)@.lexical == (LexicalState {
                        in_use: analysis.in_use,
                        total_docs: before.lexical.total_docs.wrapping_add(1),
                    })
                    &&& match analysis.failed {
                        Some(t) => r matches Err(IndexError::Analyzer(e)) && t == (TokenizerType::Ngram { n: e.n }),
                        None => {
                            &&& r matches Ok(p)
                            &&& p.doc_id == before.next_doc_id
                            &&& p.schema_changed == (inferred.added.len() > 0)
                            &&& exists|partitions: Seq<u32>|
                                are_partitions(analysis.terms, partitions) && view_entries(p.entries@) == seq![
                                    doc_entry(p.doc_id, doc_frame(texts_of(doc@))),
                                ] + #[trigger] occurrence_entries(analysis.terms, p.doc_id, partitions)
                            &&& match p.vectors {
                                Some(v) => before.vector is Some && view_numbers(v@) == doc_vectors(doc@),
                                None => before.vector is None,
                            }
                        },
                    }
                }
            }),
    {
        let changes = match self.schema.infer_and_add(doc) {
            Ok(changes) => changes,
            Err(e) => {
                return Err(IndexError::Schema(e));
            },
        };
        let doc_id: u64 = self.next_doc_id;
        self.next_doc_id = doc_id.wrapping_add(1);
        let bytes = match doc.to_bytes() {
            Ok(bytes) => bytes,
            Err(e) => {
                return Err(IndexError::Document(e));
            },
        };
        let ghost frame = bytes@;
        let mut entries: Vec<(LsmKey, LsmValue)> = Vec::new();
        entries.push((LsmKey::doc(doc_id), LsmValue::Data(bytes)));
        let ghost first = entries@;
        let mut postings = match self.lexical.prepare_add_document(doc_id, doc, &self.schema) {
            Ok(postings) => postings,
            Err(e) => {
                return Err(IndexError::Analyzer(e));
            },
        };
        let ghost posted = postings@;
        entries.append(&mut postings);
        proof {
            assert(view_entries(first) =~= seq![doc_entry(doc_id, frame)]);
            assert(view_entries(entries@) =~= view_entries(first) + view_entries(posted));
        }
        let vectors = if self.vector.is_some() {
            Some(document_vectors(doc))
        } else {
            None
        };
        Ok(PendingDocument { doc_id, entries, schema_changed: changes.len() > 0, vectors })
    }

    /// The batch by which a document is added: its entries, those of its vectors, and the schema
    /// if it changed, whose bytes are given. The first vector that is refused is an error.
    pub fn finish_add(&self, pending: PendingDocument, vectors: &Vec<KeyedVector>, schema_bytes: Vec<u8>) -> (r: Result<
        DocumentBatch,
        IndexError,
    >)
        requires
            self.wf(),
            self@.vector is Some ==> keys_fit(self@.vector->0, vectors@),
        ensures
            match self@.vector {
                None => r matches Ok(batch) && batch.partitions@.len() == 0 && view_entries(batch.entries@)
                    == view_entries(pending.entries@) + schema_entries(pending.schema_changed, schema_bytes@),
                Some(e) => match r {
                    Ok(batch) => exists|stored: Seq<Entry>|
                        are_vector_entries(e, pending.doc_id, vectors@, batch.partitions@, stored) && view_entries(
                            batch.entries@,
                        ) == view_entries(pending.entries@) + #[trigger] (stored + schema_entries(
                            pending.schema_changed,
                            schema_bytes@,
                        )),
                    Err(error) => error matches IndexError::Vector(refused) && exists|i: int| #[trigger]
                        is_first_refusal(e, vectors@, i, refused),
                },
            },
    {
        let ghost start = view_entries(pending.entries@);
        let ghost tail = schema_entries(pending.schema_changed, schema_bytes@);
        let mut entries = pending.entries;
        let mut partitions: Vec<VectorPartitionId> = Vec::new();
        let ghost mut stored = Seq::<Entry>::empty();
        if let Some(engine) = &self.vector {
            match engine.prepare_add_document(pending.doc_id, vectors) {
                Ok((mut more, ids)) => {
                    let ghost added = more@;
                    let ghost before = entries@;
                    entries.append(&mut more);
                    partitions = ids;
                    proof {
                        stored = view_entries(added);
                        assert(view_entries(entries@) =~= view_entries(before) + stored);
                    }
                },
                Err(e) => {
                    return Err(IndexError::Vector(e));
                },
            }
        }
        assert(view_entries(entries@) =~= start + stored);
        if pending.schema_changed {
            let ghost before = entries@;
            entries.push((schema_snapshot_key(), LsmValue::Data(schema_bytes)));
            assert(view_entries(entries@) =~= view_entries(before).push((schema_key(), Some(schema_bytes@))));
        }
        assert(view_entries(entries@) =~= start + (stored + tail));
        assert(self@.vector is None ==> stored + tail =~= tail);
        Ok(DocumentBatch { entries, partitions })
    }

    /// Counts the vectors of a document that was added.
    pub fn count_vectors(&mut self, doc_id: DocId, partitions: &Vec<VectorPartitionId>)
        requires
            old(self).wf(),
        ensures
            final(self).wf(),
            final(self).manifest == old(self).manifest,
            final(self).config == old(self).config,
            final(self)@.schema == old(self)@.schema,
            final(self)@.next_doc_id == old(self)@.next_doc_id,
            final(self)@.lexical == old(self)@.lexical,
            match old(self)@.vector {
                None => final(self)@.vector is None,
                Some(e) => final(self)@.vector matches Some(f) && f.config == e.config && f.initialized
                    == e.initialized && f.ivf.centroids == e.ivf.centroids && f.ivf.next_partition_id
                    == e.ivf.next_partition_id && f.ivf.partitions == counted(e.ivf.partitions, partitions@),
            },
    {
        if let Some(engine) = self.vector.take() {
            let mut engine = engine;
            let ghost e = engine@;
            let ghost all = partitions@;
            let mut i: usize = 0;
            assert(all.take(0) =~= Seq::<VectorPartitionId>::empty());
            while i < partitions.len()
                invariant
                    i <= partitions@.len(),
                    all == partitions@,
                    engine.wf(),
                    engine@.config == e.config,
                    engine@.initialized == e.initialized,
                    engine@.ivf.centroids == e.ivf.centroids,
                    engine@.ivf.next_partition_id == e.ivf.next_partition_id,
                    engine@.ivf.partitions == counted(e.ivf.partitions, all.take(i as int)),
                decreases partitions@.len() - i,
            {
                assert(all.take(i + 1).drop_last() =~= all.take(i as int));
                engine.update_partition_count(doc_id, partitions[i]);
                i = i + 1;
            }
            assert(all.take(i as int) =~= all);
            self.vector = Some(engine);
        }
    }

    /// The entries that a commit stores, one after the other: the next number for a document, and
    /// the statistics of the lexical index.
    pub fn commit_entries(&self) -> (entries: Vec<(LsmKey, LsmValue)>)
        ensures
            view_entries(entries@) == seq![
                (next_id_key(), Some(be_bytes(self@.next_doc_id as nat, 8))),
                (stats_key(), Some(be_bytes(self@.lexical.total_docs as nat, 8))),
            ],
    {
        let mut entries: Vec<(LsmKey, LsmValue)> = Vec::new();
        entries.push((next_doc_id_key(), number_value(self.next_doc_id)));
        entries.push(self.lexical.stats_entry());
        assert(view_entries(entries@) =~= seq![
            (next_id_key(), Some(be_bytes(self@.next_doc_id as nat, 8))),
            (stats_key(), Some(be_bytes(self@.lexical.total_docs as nat, 8))),
        ]);
        entries
    }
}

/// The partitions after a vector has been counted in each of a list of partitions.
pub open spec fn counted(
    partitions: Map<VectorPartitionId, PartitionView>,
    ids: Seq<VectorPartitionId>,
) -> Map<VectorPartitionId, PartitionView>
    decreases ids.len(),
{
    if ids.len() == 0 {
        partitions
    } else {
        let before = counted(partitions, ids.drop_last());
        let id = ids.last();
        if before.contains_key(id) {
            before.insert(
                id,
                PartitionView { vector_count: before[id].vector_count.wrapping_add(1), ..before[id] },
            )
        } else {
            before
        }
    }
}

/// The document that a stored value stands for. There is none if nothing is stored or if it was
/// deleted.
pub fn read_document(value: &Option<LsmValue>) -> (r: Result<Option<SchemalessDoc>, DocError>)
    ensures
        match read_bytes(*value) {
            None => r matches Ok(doc) && doc is None,
            Some(bytes) => match decode_doc(bytes) {
                Err(e) => r matches Err(f) && f == e,
                Ok(fields) => r matches Ok(Some(doc)) && doc.wf() && doc@ == enter_all(Seq::empty(), fields),
            },
        },
{
    match value {
        Some(LsmValue::Data(bytes)) => match SchemalessDoc::from_bytes(bytes.as_slice()) {
            Ok(doc) => Ok(Some(doc)),
            Err(e) => Err(e),
        },
        _ => Ok(None),
    }
}

/// Counting the vectors of a document adds to each partition as many as it is named for, and
/// changes nothing else: there are the same partitions, with the same centroids and deletions.
pub proof fn law_every_vector_is_counted(
    partitions: Map<VectorPartitionId, PartitionView>,
    ids: Seq<VectorPartitionId>,
    id: VectorPartitionId,
)
    ensures
        counted(partitions, ids).contains_key(id) <==> partitions.contains_key(id),
        partitions.contains_key(id) ==> counted(partitions, ids)[id] == (PartitionView {
            vector_count: ((partitions[id].vector_count + ids.to_multiset().count(id)) % 0x1_0000_0000_0000_0000) as u64,
            ..partitions[id]
        }),
    decreases ids.len(),
{
    broadcast use vstd::seq_lib::group_to_multiset_ensures;

    if ids.len() > 0 {
        let init = ids.drop_last();
        law_every_vector_is_counted(partitions, init, id);
        assert(ids =~= init.push(ids.last()));
        assert(ids.to_multiset() =~= init.to_multiset().insert(ids.last()));
    }
}

/// There is only one next number for a document, whatever the order in which the documents are
/// listed and however often: it is behind every number that was given, and none in between is left
/// out.
pub proof fn law_next_number_is_unique(
    kept: u64,
    docs: Seq<(LsmKey, LsmValue)>,
    others: Seq<(LsmKey, LsmValue)>,
    next: u64,
    other: u64,
)
    requires
        is_next_id(kept, docs, next),
        is_next_id(kept, others, other),
        forall|i: int| 0 <= i < docs.len() ==> has_number(others, (#[trigger] docs[i]).0.doc_id),
        forall|i: int| 0 <= i < others.len() ==> has_number(docs, (#[trigger] others[i]).0.doc_id),
    ensures
        next == other,
{
    lemma_next_number_is_least(kept, docs, others, next, other);
    lemma_next_number_is_least(kept, others, docs, other, next);
}

/// A document with the number is listed.
pub open spec fn has_number(docs: Seq<(LsmKey, LsmValue)>, doc_id: u64) -> bool {
    exists|i: int| 0 <= i < docs.len() && (#[trigger] docs[i]).0.doc_id == doc_id
}

proof fn lemma_next_number_is_least(
    kept: u64,
    docs: Seq<(LsmKey, LsmValue)>,
    others: Seq<(LsmKey, LsmValue)>,
    next: u64,
    other: u64,
)
    requires
        is_next_id(kept, docs, next),
        is_next_id(kept, others, other),
        forall|i: int| 0 <= i < docs.len() ==> has_number(others, (#[trigger] docs[i]).0.doc_id),
    ensures
        next <= other,
{
    if next != 1 && next != kept {
        let i = choose|i: int| 0 <= i < docs.len() && (#[trigger] docs[i]).0.doc_id + 1 == next;
        assert(has_number(others, docs[i].0.doc_id));
        let j = choose|j: int| 0 <= j < others.len() && (#[trigger] others[j]).0.doc_id == docs[i].0.doc_id;
        assert(others[j].0.doc_id < other);
    }
}

} // verus!
