//! What holds of adding, reading and deleting documents.

use vstd::prelude::*;

use crate::bytes::be_bytes;
use crate::field_map::names_distinct;
use crate::index::document::{decode_doc, doc_fits, doc_frame, enter_all, texts_of, DocError};
use crate::index::document::{lemma_doc_round_trip, lemma_enter_distinct};
use crate::index::{doc_entry, is_next_id, next_id_key};
use crate::json::{json_of_bytes, Json};
use crate::lexical::laws::{law_deleted_documents_are_not_found, occurrence_fits};
use crate::lexical::posting::{decode_posting, law_posting_round_trip, posting_bytes, PostingError, PostingView};
use crate::lexical::search::{
    has_doc, hits_of, in_all, in_stretch, is_live, live_hits, matches_term, stats_key, stretches_fit, PostingHit,
};
use crate::lexical::{are_partitions, has_one_hash, in_partition, is_term_hash, occurrence_entries};
use crate::lexical::{occurrence_posting, OccurrenceView, PARTITION_SEED};
use crate::storage::entry::{last_entry, view_entries, Entry};
use crate::storage::history::{
    in_step, is_life, latest_data, new_life, takes_step, written_in, History, Life, Step,
};
use crate::storage::history::{
    law_batch_is_visible, law_new_engine_is_consistent, law_reads_yield_write_of_step, lemma_step,
};
use crate::storage::key::{law_number_round_trip, read_bytes, stored_number};
use crate::storage::key::{LsmKey, LsmValue, Slot, NS_DOC, NS_LEXICAL_POSTING, NS_VEC};
use crate::storage::layers::{
    all_layers, is_layered_scan, lsns_below, read_data, read_layers, Layer,
};
use crate::storage::layers::lemma_read_slot;
use crate::storage::lsm::insert_all;
use crate::storage::sstable::in_prefix;
use crate::storage::table_file::lemma_no_last_entry;
use crate::storage::wal::{entries_with_lsn, WalOpView};
use crate::vector::partition::{PartitionId, PartitionView};
use crate::vector::quantization::{bytes_vector, law_vector_round_trip};
use crate::vector::{candidates_of, passed_over, vector_entry};

verus! {

/// The slot of a document.
pub open spec fn doc_slot(doc_id: u64) -> Slot {
    Slot { namespace: NS_DOC, partition: 0, doc_id }
}

proof fn lemma_only_entry(es: Seq<Entry>, slot: Slot, j: int)
    requires
        0 <= j < es.len(),
        es[j].0.spec_slot() == slot,
        forall|k: int| 0 <= k < es.len() && k != j ==> (#[trigger] es[k]).0.spec_slot() != slot,
    ensures
        last_entry(es, slot) == Some(es[j]),
    decreases es.len(),
{
    if j < es.len() - 1 {
        assert(es[es.len() - 1].0.spec_slot() != slot);
        lemma_only_entry(es.drop_last(), slot, j);
    }
}

/// A document that was added is read again: after its batch, in which the other entries belong to
/// other namespaces, has been written, a read of the document finds its bytes, and they stand
/// for the document, if the text of each of its values stands for the value and the lengths fit
/// their fields.
pub proof fn law_added_document_is_read(
    mem: Map<LsmKey, Option<Seq<u8>>>,
    tables: Seq<Seq<Entry>>,
    lsn: u64,
    doc_id: u64,
    fields: Seq<(Seq<char>, Json)>,
    others: Seq<Entry>,
)
    requires
        lsns_below(mem, lsn as int),
        forall|i: int| 0 <= i < others.len() ==> (#[trigger] others[i]).0.namespace != NS_DOC,
        names_distinct(fields),
        doc_fits(texts_of(fields)),
        forall|i: int|
            0 <= i < fields.len() ==> json_of_bytes((#[trigger] texts_of(fields)[i]).1) == Some(fields[i].1),
    ensures
        ({
            let batch = entries_with_lsn(seq![doc_entry(doc_id, doc_frame(texts_of(fields)))] + others, lsn);
            let bytes = read_data(all_layers(insert_all(mem, batch), None, tables), doc_slot(doc_id));
            &&& bytes == Some(doc_frame(texts_of(fields)))
            &&& decode_doc(bytes->0) == Ok::<Seq<(Seq<char>, Json)>, DocError>(fields)
            &&& enter_all(Seq::empty(), fields) == fields
        }),
{
    let slot = doc_slot(doc_id);
    let frame = doc_frame(texts_of(fields));
    let all = seq![doc_entry(doc_id, frame)] + others;
    let batch = entries_with_lsn(all, lsn);
    assert forall|k: int| 0 <= k < batch.len() && k != 0 implies (#[trigger] batch[k]).0.spec_slot() != slot by {
        assert(all[k] == others[k - 1]);
    }
    lemma_only_entry(batch, slot, 0);
    law_batch_is_visible(mem, tables, batch, lsn, slot);
    lemma_doc_round_trip(fields, texts_of(fields));
    lemma_enter_distinct(fields);
}

/// A document that was deleted is not found any more, and every other slot reads as before.
pub proof fn law_deleted_document_is_gone(
    mem: Map<LsmKey, Option<Seq<u8>>>,
    tables: Seq<Seq<Entry>>,
    lsn: u64,
    doc_id: u64,
    other: Slot,
)
    requires
        lsns_below(mem, lsn as int),
        other != doc_slot(doc_id),
    ensures
        ({
            let key = LsmKey { namespace: NS_DOC, partition_or_segment: 0, doc_id, lsn };
            let after = all_layers(insert_all(mem, seq![(key, None::<Seq<u8>>)]), None, tables);
            &&& read_data(after, doc_slot(doc_id)) is None
            &&& read_data(after, other) == read_data(all_layers(mem, None, tables), other)
        }),
{
    let key = LsmKey { namespace: NS_DOC, partition_or_segment: 0, doc_id, lsn };
    let es = seq![(key, None::<Seq<u8>>)];
    assert(es.last() == (key, None::<Seq<u8>>));
    assert(es.drop_last() =~= Seq::<Entry>::empty());
    law_batch_is_visible(mem, tables, es, lsn, doc_slot(doc_id));
    law_batch_is_visible(mem, tables, es, lsn, other);
    assert(last_entry(es.drop_last(), other) is None);
}

/// Numbers of documents are not given twice: after an index is opened again, the next number is
/// greater than that of every stored document, and no less than the one that the last commit
/// stored.
pub proof fn law_document_ids_are_fresh(committed: u64, docs: Seq<(LsmKey, LsmValue)>, next: u64, i: int)
    requires
        is_next_id(stored_number(Some(be_bytes(committed as nat, 8))), docs, next),
        0 <= i < docs.len(),
    ensures
        docs[i].0.doc_id < next,
        committed <= next,
{
    law_number_round_trip(committed);
}

/// A term of a document that was added is found: after its batch has been written, a read of the
/// document's slot in the partition of the term finds the posting of the term, if no two terms
/// of the document share a partition and the lengths fit their fields.
pub proof fn law_indexed_term_is_found(
    mem: Map<LsmKey, Option<Seq<u8>>>,
    tables: Seq<Seq<Entry>>,
    lsn: u64,
    doc_id: u64,
    doc_bytes: Seq<u8>,
    terms: Seq<OccurrenceView>,
    partitions: Seq<u32>,
    others: Seq<Entry>,
    i: int,
)
    requires
        lsns_below(mem, lsn as int),
        partitions.len() == terms.len(),
        partitions.no_duplicates(),
        forall|k: int| 0 <= k < others.len() ==> (#[trigger] others[k]).0.namespace != NS_LEXICAL_POSTING,
        0 <= i < terms.len(),
        occurrence_fits(terms[i]),
    ensures
        ({
            let batch = entries_with_lsn(
                seq![doc_entry(doc_id, doc_bytes)] + occurrence_entries(terms, doc_id, partitions) + others,
                lsn,
            );
            let slot = Slot { namespace: NS_LEXICAL_POSTING, partition: partitions[i], doc_id };
            let bytes = read_data(all_layers(insert_all(mem, batch), None, tables), slot);
            let posting = occurrence_posting(terms[i], doc_id);
            &&& bytes == Some(posting_bytes(posting))
            &&& decode_posting(bytes->0) == Ok::<PostingView, PostingError>(posting)
        }),
{
    let posted = occurrence_entries(terms, doc_id, partitions);
    let all = seq![doc_entry(doc_id, doc_bytes)] + posted + others;
    let batch = entries_with_lsn(all, lsn);
    let slot = Slot { namespace: NS_LEXICAL_POSTING, partition: partitions[i], doc_id };
    let posting = occurrence_posting(terms[i], doc_id);
    assert(all[1 + i] == posted[i]);
    assert forall|k: int| 0 <= k < batch.len() && k != 1 + i implies (#[trigger] batch[k]).0.spec_slot() != slot by {
        if k == 0 {
            assert(all[k] == doc_entry(doc_id, doc_bytes));
        } else if k < 1 + posted.len() {
            assert(all[k] == posted[k - 1]);
            assert(partitions[k - 1] != partitions[i]);
        } else {
            assert(all[k] == others[k - 1 - posted.len()]);
        }
    }
    lemma_only_entry(batch, slot, 1 + i);
    law_batch_is_visible(mem, tables, batch, lsn, slot);
    law_posting_round_trip(posting, Seq::empty());
    assert(posting_bytes(posting) + Seq::<u8>::empty() =~= posting_bytes(posting));
}

proof fn lemma_entry_is_hit(entries: Seq<Entry>, hits: Seq<PostingHit>, x: int, p: PostingView)
    requires
        hits_of(entries) == Ok::<Seq<PostingHit>, PostingError>(hits),
        0 <= x < entries.len(),
        entries[x].1 is Some,
        decode_posting(entries[x].1->0) == Ok::<PostingView, PostingError>(p),
    ensures
        hits.contains(PostingHit { doc_id: entries[x].0.doc_id, term_freq: p.term_freq }),
    decreases entries.len(),
{
    let hit = PostingHit { doc_id: entries[x].0.doc_id, term_freq: p.term_freq };
    let init = entries.drop_last();
    assert(hits_of(init) is Ok);
    let before = hits_of(init)->Ok_0;
    if x == entries.len() - 1 {
        assert(hits == before.push(hit));
        assert(hits[before.len() as int] == hit);
    } else {
        lemma_entry_is_hit(init, before, x, p);
        let k = choose|k: int| 0 <= k < before.len() && before[k] == hit;
        assert(hits[k] == hit);
    }
}

/// An indexed term is looked up where it was stored: the partition that is scanned for a term of a
/// field is the one in which the posting of an equal term was put, where a term has one hash, as
/// it has on one machine.
pub proof fn law_lookup_scans_where_posted(field_id: u32, term: Seq<char>, posted: u32, looked_up: u32)
    requires
        has_one_hash(field_id, term),
        in_partition(field_id, term, posted),
        in_partition(field_id, term, looked_up),
    ensures
        looked_up == posted,
{
    let a = choose|a: u64| #[trigger]
        is_term_hash(PARTITION_SEED, field_id, term, a) && posted == a % 0x1_0000_0000;
    let b = choose|b: u64| #[trigger]
        is_term_hash(PARTITION_SEED, field_id, term, b) && looked_up == b % 0x1_0000_0000;
    assert(a == b);
}

/// A search finds a document that was added: after its batch has been written, what a scan of the
/// partition that is looked up for one of its terms yields holds a hit of the document, with the
/// number of times that the term occurs in it, if no two terms of the document share a partition,
/// the lengths fit their fields, and the term has one hash.
pub proof fn law_search_finds_added_document(
    mem: Map<LsmKey, Option<Seq<u8>>>,
    tables: Seq<Seq<Entry>>,
    lsn: u64,
    doc_id: u64,
    doc_bytes: Seq<u8>,
    terms: Seq<OccurrenceView>,
    partitions: Seq<u32>,
    others: Seq<Entry>,
    i: int,
    looked_up: u32,
    scan: Seq<Entry>,
    hits: Seq<PostingHit>,
)
    requires
        lsns_below(mem, lsn as int),
        are_partitions(terms, partitions),
        partitions.no_duplicates(),
        forall|k: int| 0 <= k < others.len() ==> (#[trigger] others[k]).0.namespace != NS_LEXICAL_POSTING,
        0 <= i < terms.len(),
        occurrence_fits(terms[i]),
        has_one_hash(terms[i].field_id, terms[i].term),
        in_partition(terms[i].field_id, terms[i].term, looked_up),
        ({
            let batch = entries_with_lsn(
                seq![doc_entry(doc_id, doc_bytes)] + occurrence_entries(terms, doc_id, partitions) + others,
                lsn,
            );
            is_layered_scan(
                scan,
                all_layers(insert_all(mem, batch), None, tables),
                NS_LEXICAL_POSTING,
                looked_up,
            )
        }),
        hits_of(scan) == Ok::<Seq<PostingHit>, PostingError>(hits),
    ensures
        hits.contains(PostingHit { doc_id, term_freq: terms[i].positions.len() as u32 }),
        has_doc(hits, doc_id),
{
    let batch = entries_with_lsn(
        seq![doc_entry(doc_id, doc_bytes)] + occurrence_entries(terms, doc_id, partitions) + others,
        lsn,
    );
    let layers = all_layers(insert_all(mem, batch), None, tables);
    let slot = Slot { namespace: NS_LEXICAL_POSTING, partition: partitions[i], doc_id };
    let posting = occurrence_posting(terms[i], doc_id);
    law_lookup_scans_where_posted(terms[i].field_id, terms[i].term, partitions[i], looked_up);
    law_indexed_term_is_found(mem, tables, lsn, doc_id, doc_bytes, terms, partitions, others, i);
    let entry = read_layers(layers, slot)->0;
    lemma_read_slot(layers, slot);
    assert(scan.contains(entry));
    let x = choose|x: int| 0 <= x < scan.len() && scan[x] == entry;
    lemma_entry_is_hit(scan, hits, x, posting);
    let hit = PostingHit { doc_id, term_freq: posting.term_freq };
    let k = choose|k: int| 0 <= k < hits.len() && hits[k] == hit;
    assert(hits[k].doc_id == doc_id);
}

proof fn lemma_entry_is_candidate(partition: Option<PartitionView>, entries: Seq<Entry>, x: int)
    requires
        0 <= x < entries.len(),
        !passed_over(partition, entries[x]),
    ensures
        candidates_of(partition, entries).contains((entries[x].0.doc_id, bytes_vector(entries[x].1->0))),
    decreases entries.len(),
{
    let all = candidates_of(partition, entries);
    let candidate = (entries[x].0.doc_id, bytes_vector(entries[x].1->0));
    if x == entries.len() - 1 {
        assert(all[all.len() - 1] == candidate);
    } else {
        let before = candidates_of(partition, entries.drop_last());
        lemma_entry_is_candidate(partition, entries.drop_last(), x);
        let k = choose|k: int| 0 <= k < before.len() && before[k] == candidate;
        assert(all[k] == candidate);
    }
}

/// A search finds a vector that was added: after the batch of its document has been written, in
/// which no other entry has its slot, what a scan of its partition yields holds the vector with
/// its document, unless it was deleted.
pub proof fn law_search_finds_added_vector(
    mem: Map<LsmKey, Option<Seq<u8>>>,
    tables: Seq<Seq<Entry>>,
    lsn: u64,
    id: PartitionId,
    doc_id: u64,
    vector: Seq<u32>,
    entries: Seq<Entry>,
    x: int,
    partition: Option<PartitionView>,
    scan: Seq<Entry>,
)
    requires
        lsns_below(mem, lsn as int),
        0 <= x < entries.len(),
        entries[x] == vector_entry(id, doc_id, vector),
        forall|k: int|
            0 <= k < entries.len() && k != x ==> (#[trigger] entries[k]).0.spec_slot() != entries[x].0.spec_slot(),
        is_layered_scan(
            scan,
            all_layers(insert_all(mem, entries_with_lsn(entries, lsn)), None, tables),
            NS_VEC,
            id,
        ),
        partition matches Some(p) ==> !p.tombstones.contains(doc_id),
    ensures
        candidates_of(partition, scan).contains((doc_id, vector)),
{
    let batch = entries_with_lsn(entries, lsn);
    let layers = all_layers(insert_all(mem, batch), None, tables);
    let slot = Slot { namespace: NS_VEC, partition: id, doc_id };
    assert forall|k: int| 0 <= k < batch.len() && k != x implies (#[trigger] batch[k]).0.spec_slot() != slot by {
        assert(entries[k].0.spec_slot() != slot);
    }
    lemma_only_entry(batch, slot, x);
    law_batch_is_visible(mem, tables, batch, lsn, slot);
    let entry = read_layers(layers, slot)->0;
    assert(scan.contains(entry));
    let y = choose|y: int| 0 <= y < scan.len() && scan[y] == entry;
    law_vector_round_trip(vector);
    lemma_entry_is_candidate(partition, scan, y);
}

/// A document is read through the life of the storage: if step `k` was the batch that added the
/// document, in which the other entries belong to other namespaces, and no later step wrote the
/// document's slot, a read finds its bytes, and they stand for the fields that the texts in it
/// say, if the lengths fit their fields.
pub proof fn law_document_is_read_through_life(
    states: Seq<Life>,
    steps: Seq<Step>,
    k: int,
    doc_id: u64,
    fields: Seq<(Seq<char>, Json)>,
    texts: Seq<(Seq<char>, Seq<u8>)>,
    others: Seq<Entry>,
)
    requires
        is_life(states, steps),
        steps.len() <= u64::MAX,
        0 <= k < steps.len(),
        steps[k] == Step::Write(
            WalOpView::BatchPut { entries: seq![doc_entry(doc_id, doc_frame(texts))] + others },
        ),
        forall|i: int| 0 <= i < others.len() ==> (#[trigger] others[i]).0.namespace != NS_DOC,
        forall|i: int|
            k < i < steps.len() ==> last_entry(written_in(states[i], #[trigger] steps[i]), doc_slot(doc_id)) is None,
        names_distinct(fields),
        doc_fits(texts),
        says(texts, fields),
    ensures
        ({
            let bytes = read_data(layers_of(states.last().h), doc_slot(doc_id));
            &&& bytes == Some(doc_frame(texts))
            &&& decode_doc(bytes->0) == Ok::<Seq<(Seq<char>, Json)>, DocError>(fields)
            &&& enter_all(Seq::empty(), fields) == fields
        }),
{
    let slot = doc_slot(doc_id);
    let all = seq![doc_entry(doc_id, doc_frame(texts))] + others;
    let batch = written_in(states[k], steps[k]);
    assert(batch == entries_with_lsn(all, states[k].h.next_lsn as u64));
    assert forall|j: int| 0 <= j < batch.len() && j != 0 implies (#[trigger] batch[j]).0.spec_slot() != slot by {
        assert(all[j] == others[j - 1]);
    }
    lemma_only_entry(batch, slot, 0);
    law_reads_yield_write_of_step(states, steps, k, slot);
    lemma_doc_round_trip(fields, texts);
    lemma_enter_distinct(fields);
}

/// A document that was deleted stays gone through the life of the storage: if step `k` deleted it
/// and no later step wrote its slot, a read finds nothing.
pub proof fn law_deleted_document_stays_gone(states: Seq<Life>, steps: Seq<Step>, k: int, doc_id: u64)
    requires
        is_life(states, steps),
        steps.len() <= u64::MAX,
        0 <= k < steps.len(),
        steps[k] == Step::Write(WalOpView::Delete { namespace: NS_DOC, doc_id }),
        forall|i: int|
            k < i < steps.len() ==> last_entry(written_in(states[i], #[trigger] steps[i]), doc_slot(doc_id)) is None,
    ensures
        read_data(layers_of(states.last().h), doc_slot(doc_id)) is None,
{
    let es = written_in(states[k], steps[k]);
    assert(es.last().0.spec_slot() == doc_slot(doc_id));
    law_reads_yield_write_of_step(states, steps, k, doc_slot(doc_id));
}

/// Every text says the value of its field.
pub open spec fn says(texts: Seq<(Seq<char>, Seq<u8>)>, fields: Seq<(Seq<char>, Json)>) -> bool {
    &&& texts.len() == fields.len()
    &&& forall|i: int|
        0 <= i < texts.len() ==> (#[trigger] texts[i]).0 == fields[i].0 && json_of_bytes(texts[i].1) == Some(fields[i].1)
}

/// A step in the life of an index.
pub enum IndexStep {
    /// A document with the given bytes is added, in a batch with entries of other namespaces.
    Add(Seq<u8>, Seq<Entry>),
    /// A document is refused because it conflicts with the schema.
    Refuse,
    /// A document is refused for another reason: its number is used up.
    Fail,
    /// The index is committed, with the given number of documents in its statistics.
    Commit(u64),
    /// The storage flushes or merges its tables, or rotates its log.
    Maintain(Step),
    /// The index is closed and opened again, over the log that is given; the documents that its
    /// storage lists are given too.
    Reopen(Seq<u8>, Seq<(LsmKey, LsmValue)>),
}

/// An index in the course of its life: its storage, the number of the next document, and the
/// documents that were added so far, each with its number and its bytes.
pub struct IndexLife {
    pub storage: Life,
    pub next: u64,
    pub added: Seq<(u64, Seq<u8>)>,
}

/// What reads of the storage of an index go through.
pub open spec fn layers_of(h: History) -> Seq<Layer> {
    all_layers(h.mem, None, h.tables)
}

/// What a commit writes, one after the other.
pub open spec fn commits(before: Life, between: Life, after: Life, next: u64, total_docs: u64) -> bool {
    &&& takes_step(
        before,
        Step::Write(WalOpView::Put { key: next_id_key(), value: Some(be_bytes(next as nat, 8)) }),
        between,
    )
    &&& takes_step(
        between,
        Step::Write(WalOpView::Put { key: stats_key(), value: Some(be_bytes(total_docs as nat, 8)) }),
        after,
    )
}

/// What a step does.
pub open spec fn takes_index_step(before: IndexLife, step: IndexStep, after: IndexLife) -> bool {
    match step {
        IndexStep::Add(bytes, others) => {
            &&& forall|i: int| 0 <= i < others.len() ==> (#[trigger] others[i]).0.namespace != NS_DOC
            &&& takes_step(
                before.storage,
                Step::Write(WalOpView::BatchPut { entries: seq![doc_entry(before.next, bytes)] + others }),
                after.storage,
            )
            &&& after.next == before.next.wrapping_add(1)
            &&& after.added == before.added.push((before.next, bytes))
        },
        IndexStep::Refuse => after == before,
        IndexStep::Fail => after == (IndexLife { next: before.next.wrapping_add(1), ..before }),
        IndexStep::Commit(total_docs) => {
            &&& exists|between: Life| #[trigger]
                commits(before.storage, between, after.storage, before.next, total_docs)
            &&& after.next == before.next
            &&& after.added == before.added
        },
        IndexStep::Maintain(work) => {
            &&& work is Flush || work is Merge || work is Rotate
            &&& takes_step(before.storage, work, after.storage)
            &&& after.next == before.next
            &&& after.added == before.added
        },
        IndexStep::Reopen(log, docs) => {
            &&& takes_step(before.storage, Step::Reopen(log), after.storage)
            &&& is_layered_scan(view_entries(docs), layers_of(after.storage.h), NS_DOC, 0)
            &&& is_next_id(
                stored_number(read_data(layers_of(after.storage.h), next_id_key().spec_slot())),
                docs,
                after.next,
            )
            &&& after.added == before.added
        },
    }
}

/// The states of a new index, from step to step, as long as the numbers of documents and the
/// sequence numbers last.
pub open spec fn is_index_life(states: Seq<IndexLife>, steps: Seq<IndexStep>) -> bool {
    &&& states.len() == steps.len() + 1
    &&& states[0] == (IndexLife { storage: new_life(), next: 1, added: Seq::empty() })
    &&& forall|i: int| 0 <= i < steps.len() ==> takes_index_step(states[i], #[trigger] steps[i], states[i + 1])
    &&& forall|i: int| 0 <= i < states.len() ==> (#[trigger] states[i]).next < u64::MAX
    &&& forall|i: int| 0 <= i < states.len() ==> (#[trigger] states[i]).storage.ops.len() < u64::MAX - 1
}

/// The numbers of the documents that were added ascend and lie below the next one, and every
/// document is stored.
pub open spec fn documents_stored(s: IndexLife) -> bool {
    &&& in_step(s.storage)
    &&& forall|i: int, j: int| 0 <= i < j < s.added.len() ==> (#[trigger] s.added[i]).0 < (#[trigger] s.added[j]).0
    &&& forall|i: int|
        0 <= i < s.added.len() ==> (#[trigger] s.added[i]).0 < s.next && read_data(
            layers_of(s.storage.h),
            doc_slot(s.added[i].0),
        ) == Some(s.added[i].1)
}

/// A write leaves what is stored under a slot that it does not write as it was.
proof fn lemma_write_elsewhere(before: Life, op: WalOpView, after: Life, slot: Slot)
    requires
        in_step(before),
        before.ops.len() < u64::MAX,
        takes_step(before, Step::Write(op), after),
        forall|i: int|
            0 <= i < written_in(before, Step::Write(op)).len() ==> (#[trigger] written_in(
                before,
                Step::Write(op),
            )[i]).0.spec_slot() != slot,
    ensures
        read_data(layers_of(after.h), slot) == read_data(layers_of(before.h), slot),
{
    let lsn = before.h.next_lsn as u64;
    let es = written_in(before, Step::Write(op));
    assert(lsns_below(before.h.mem, lsn as int));
    lemma_no_last_entry(es, slot);
    law_batch_is_visible(before.h.mem, before.h.tables, es, lsn, slot);
}

/// Where nothing was written, what was stored still is.
proof fn lemma_same_reads(before: IndexLife, after: IndexLife)
    requires
        documents_stored(before),
        in_step(after.storage),
        after.storage.h.all == before.storage.h.all,
        after.added == before.added,
    ensures
        forall|i: int|
            0 <= i < after.added.len() ==> read_data(
                layers_of(after.storage.h),
                doc_slot((#[trigger] after.added[i]).0),
            ) == Some(after.added[i].1),
{
    let (g, h) = (before.storage.h, after.storage.h);
    assert forall|i: int| 0 <= i < after.added.len() implies read_data(
        layers_of(h),
        doc_slot((#[trigger] after.added[i]).0),
    ) == Some(after.added[i].1) by {
        let slot = doc_slot(before.added[i].0);
        assert(read_data(layers_of(g), slot) == latest_data(g.all, slot));
        assert(read_data(layers_of(h), slot) == latest_data(h.all, slot));
    }
}

proof fn lemma_add(before: IndexLife, bytes: Seq<u8>, others: Seq<Entry>, after: IndexLife)
    requires
        documents_stored(before),
        takes_index_step(before, IndexStep::Add(bytes, others), after),
        before.next < u64::MAX,
        before.storage.ops.len() < u64::MAX,
    ensures
        documents_stored(after),
{
    let all = seq![doc_entry(before.next, bytes)] + others;
    let op = WalOpView::BatchPut { entries: all };
    let lsn = before.storage.h.next_lsn as u64;
    let batch = written_in(before.storage, Step::Write(op));
    let slot = doc_slot(before.next);
    let h = before.storage.h;
    lemma_step(before.storage, Step::Write(op), after.storage);
    assert(batch == entries_with_lsn(all, lsn));
    assert forall|k: int| 0 <= k < batch.len() && k != 0 implies (#[trigger] batch[k]).0.namespace != NS_DOC by {
        assert(all[k] == others[k - 1]);
    }
    lemma_only_entry(batch, slot, 0);
    assert(lsns_below(h.mem, lsn as int));
    law_batch_is_visible(h.mem, h.tables, batch, lsn, slot);
    assert forall|i: int| 0 <= i < after.added.len() implies (#[trigger] after.added[i]).0 < after.next && read_data(
        layers_of(after.storage.h),
        doc_slot(after.added[i].0),
    ) == Some(after.added[i].1) by {
        if i < before.added.len() {
            assert(after.added[i] == before.added[i]);
            lemma_write_elsewhere(before.storage, op, after.storage, doc_slot(before.added[i].0));
        }
    }
}

proof fn lemma_commit(before: IndexLife, total_docs: u64, after: IndexLife)
    requires
        documents_stored(before),
        takes_index_step(before, IndexStep::Commit(total_docs), after),
        before.storage.ops.len() < u64::MAX - 1,
    ensures
        documents_stored(after),
{
    let first = WalOpView::Put { key: next_id_key(), value: Some(be_bytes(before.next as nat, 8)) };
    let second = WalOpView::Put { key: stats_key(), value: Some(be_bytes(total_docs as nat, 8)) };
    let between = choose|between: Life| #[trigger]
        commits(before.storage, between, after.storage, before.next, total_docs);
    lemma_step(before.storage, Step::Write(first), between);
    lemma_step(between, Step::Write(second), after.storage);
    assert forall|i: int| 0 <= i < after.added.len() implies (#[trigger] after.added[i]).0 < after.next && read_data(
        layers_of(after.storage.h),
        doc_slot(after.added[i].0),
    ) == Some(after.added[i].1) by {
        assert(after.added[i] == before.added[i]);
        lemma_write_elsewhere(before.storage, first, between, doc_slot(after.added[i].0));
        lemma_write_elsewhere(between, second, after.storage, doc_slot(after.added[i].0));
    }
}

proof fn lemma_reopen(before: IndexLife, log: Seq<u8>, docs: Seq<(LsmKey, LsmValue)>, after: IndexLife)
    requires
        documents_stored(before),
        takes_index_step(before, IndexStep::Reopen(log, docs), after),
        before.storage.ops.len() < u64::MAX,
    ensures
        documents_stored(after),
{
    lemma_step(before.storage, Step::Reopen(log), after.storage);
    lemma_same_reads(before, after);
    let layers = layers_of(after.storage.h);
    assert forall|i: int| 0 <= i < after.added.len() implies (#[trigger] after.added[i]).0 < after.next by {
        let slot = doc_slot(after.added[i].0);
        assert(read_data(layers, slot) == Some(after.added[i].1));
        let entry = read_layers(layers, slot)->0;
        lemma_read_slot(layers, slot);
        assert(view_entries(docs).contains(entry));
        let k = choose|k: int| 0 <= k < view_entries(docs).len() && view_entries(docs)[k] == entry;
        assert(docs[k].0.doc_id == after.added[i].0);
    }
}

proof fn lemma_index_life(states: Seq<IndexLife>, steps: Seq<IndexStep>, n: int)
    requires
        is_index_life(states, steps),
        0 <= n <= steps.len(),
    ensures
        documents_stored(states[n]),
        n > 0 && steps[0] is Add ==> states[n].added.len() > 0 && states[n].added[0].0 == 1,
    decreases n,
{
    if n == 0 {
        law_new_engine_is_consistent();
    } else {
        let (before, step, after) = (states[n - 1], steps[n - 1], states[n]);
        lemma_index_life(states, steps, n - 1);
        assert(takes_index_step(before, step, after));
        assert(before.next < u64::MAX);
        assert(before.storage.ops.len() < u64::MAX - 1);
        match step {
            IndexStep::Add(bytes, others) => lemma_add(before, bytes, others, after),
            IndexStep::Refuse => {},
            IndexStep::Fail => {},
            IndexStep::Commit(total_docs) => lemma_commit(before, total_docs, after),
            IndexStep::Maintain(work) => {
                lemma_step(before.storage, work, after.storage);
                lemma_same_reads(before, after);
            },
            IndexStep::Reopen(log, docs) => lemma_reopen(before, log, docs, after),
        }
    }
}

/// The numbers of documents grow, and documents stay: over any sequence of additions, refused
/// documents, commits, flushes, merges, rotations of the log, and reopenings over a log that was
/// not rotated, every document gets a number that is greater than those of all documents before
/// it, and a read of each document yields its bytes. The first document of a new index gets
/// number 1. A document that conflicts with the schema uses up no number and is not stored.
pub proof fn law_document_numbers_grow(states: Seq<IndexLife>, steps: Seq<IndexStep>)
    requires
        is_index_life(states, steps),
    ensures
        ({
            let s = states.last();
            &&& forall|i: int, j: int|
                0 <= i < j < s.added.len() ==> (#[trigger] s.added[i]).0 < (#[trigger] s.added[j]).0
            &&& forall|i: int|
                0 <= i < s.added.len() ==> (#[trigger] s.added[i]).0 < s.next && read_data(
                    layers_of(s.storage.h),
                    doc_slot(s.added[i].0),
                ) == Some(s.added[i].1)
            &&& steps.len() > 0 && steps[0] is Add ==> s.added.len() > 0 && s.added[0].0 == 1
        }),
        forall|i: int|
            0 <= i < steps.len() && (#[trigger] steps[i]) is Refuse ==> states[i + 1].next == states[i].next
                && states[i + 1].added == states[i].added && states[i + 1].storage == states[i].storage,
{
    lemma_index_life(states, steps, steps.len() as int);
    assert forall|i: int| 0 <= i < steps.len() && (#[trigger] steps[i]) is Refuse implies states[i + 1].next
        == states[i].next && states[i + 1].added == states[i].added && states[i + 1].storage == states[i].storage by {
        assert(takes_index_step(states[i], steps[i], states[i + 1]));
    }
}

/// An added document is read with its fields through the life of an index: a read of it yields
/// bytes that stand for the fields that its texts say, if the lengths fit their fields.
pub proof fn law_added_documents_stay_readable(
    states: Seq<IndexLife>,
    steps: Seq<IndexStep>,
    i: int,
    fields: Seq<(Seq<char>, Json)>,
    texts: Seq<(Seq<char>, Seq<u8>)>,
)
    requires
        is_index_life(states, steps),
        0 <= i < states.last().added.len(),
        states.last().added[i].1 == doc_frame(texts),
        names_distinct(fields),
        doc_fits(texts),
        says(texts, fields),
    ensures
        ({
            let s = states.last();
            let bytes = read_data(layers_of(s.storage.h), doc_slot(s.added[i].0));
            &&& bytes is Some
            &&& decode_doc(bytes->0) == Ok::<Seq<(Seq<char>, Json)>, DocError>(fields)
            &&& enter_all(Seq::empty(), fields) == fields
        }),
{
    law_document_numbers_grow(states, steps);
    lemma_doc_round_trip(fields, texts);
    lemma_enter_distinct(fields);
}

/// The first document of an index whose storage holds nothing gets number 1.
pub proof fn law_first_document_number_is_one(next: u64)
    requires
        is_next_id(stored_number(None), Seq::empty(), next),
    ensures
        next == 1,
{
}

/// A document has a posting in a partition.
pub open spec fn is_posted(layers: Seq<Layer>, partition: u32, doc_id: u64) -> bool {
    read_data(layers, Slot { namespace: NS_LEXICAL_POSTING, partition, doc_id }) is Some
}

/// A document is stored: it was added and not deleted.
pub open spec fn is_stored(layers: Seq<Layer>, doc_id: u64) -> bool {
    read_data(layers, doc_slot(doc_id)) is Some
}

/// A document has a posting for a term of a field: one in the partition of the term.
pub open spec fn has_posting(layers: Seq<Layer>, lookup: (u32, Seq<char>), doc_id: u64) -> bool {
    exists|partition: u32| #[trigger]
        in_partition(lookup.0, lookup.1, partition) && is_posted(layers, partition, doc_id)
}

/// A document has postings for a stretch of what is looked up.
pub open spec fn stretch_posted(
    layers: Seq<Layer>,
    lookups: Seq<(u32, Seq<char>)>,
    stretch: (usize, usize),
    doc_id: u64,
) -> bool {
    forall|i: int| stretch.0 <= i < stretch.1 ==> has_posting(layers, #[trigger] lookups[i], doc_id)
}

/// A document has postings for one of the alternatives of a term.
pub open spec fn term_posted(
    layers: Seq<Layer>,
    lookups: Seq<(u32, Seq<char>)>,
    alternatives: Seq<(usize, usize)>,
    doc_id: u64,
) -> bool {
    exists|a: int|
        0 <= a < alternatives.len() && stretch_posted(layers, lookups, #[trigger] alternatives[a], doc_id)
}

/// What is read of the documents of hits.
pub open spec fn reads_documents(
    layers: Seq<Layer>,
    found: Seq<PostingHit>,
    docs: Seq<Option<LsmValue>>,
) -> bool {
    &&& docs.len() == found.len()
    &&& forall|k: int|
        0 <= k < docs.len() ==> read_bytes(#[trigger] docs[k]) == read_data(layers, doc_slot(found[k].doc_id))
}

/// One lookup of a search: the partition is scanned, the hits are matched, and those whose documents
/// are stored are kept.
pub open spec fn is_lookup(
    layers: Seq<Layer>,
    partition: u32,
    scan: Seq<Entry>,
    found: Seq<PostingHit>,
    docs: Seq<Option<LsmValue>>,
    hits: Seq<PostingHit>,
) -> bool {
    &&& is_layered_scan(scan, layers, NS_LEXICAL_POSTING, partition)
    &&& hits_of(scan) == Ok::<Seq<PostingHit>, PostingError>(found)
    &&& reads_documents(layers, found, docs)
    &&& hits == live_hits(found, docs)
}

proof fn lemma_hits_have_docs(entries: Seq<Entry>, hits: Seq<PostingHit>, doc_id: u64)
    requires
        hits_of(entries) == Ok::<Seq<PostingHit>, PostingError>(hits),
    ensures
        has_doc(hits, doc_id) <==> exists|x: int|
            0 <= x < entries.len() && (#[trigger] entries[x]).0.doc_id == doc_id && entries[x].1 is Some,
    decreases entries.len(),
{
    if entries.len() > 0 {
        let init = entries.drop_last();
        let n = entries.len() - 1;
        assert(hits_of(init) is Ok);
        let before = hits_of(init)->Ok_0;
        lemma_hits_have_docs(init, before, doc_id);
        if has_doc(before, doc_id) {
            let k = choose|k: int| 0 <= k < before.len() && (#[trigger] before[k]).doc_id == doc_id;
            assert(hits[k] == before[k]);
            let x = choose|x: int|
                0 <= x < init.len() && (#[trigger] init[x]).0.doc_id == doc_id && init[x].1 is Some;
            assert(entries[x] == init[x]);
        } else if entries[n].0.doc_id == doc_id && entries[n].1 is Some {
            assert(hits[before.len() as int].doc_id == doc_id);
        } else {
            assert forall|x: int|
                0 <= x < entries.len() && (#[trigger] entries[x]).0.doc_id == doc_id implies entries[x].1 is None by {
                if x < n {
                    assert(init[x] == entries[x]);
                }
            }
            if has_doc(hits, doc_id) {
                let k = choose|k: int| 0 <= k < hits.len() && (#[trigger] hits[k]).doc_id == doc_id;
                if k < before.len() {
                    assert(before[k] == hits[k]);
                }
            }
        }
    }
}

/// A lookup finds exactly the stored documents that have a posting in the partition.
proof fn lemma_lookup(
    layers: Seq<Layer>,
    partition: u32,
    scan: Seq<Entry>,
    found: Seq<PostingHit>,
    docs: Seq<Option<LsmValue>>,
    hits: Seq<PostingHit>,
    doc_id: u64,
)
    requires
        is_lookup(layers, partition, scan, found, docs, hits),
    ensures
        has_doc(hits, doc_id) <==> is_stored(layers, doc_id) && is_posted(layers, partition, doc_id),
{
    let slot = Slot { namespace: NS_LEXICAL_POSTING, partition, doc_id };
    law_deleted_documents_are_not_found(found, docs, doc_id);
    lemma_hits_have_docs(scan, found, doc_id);
    if has_doc(found, doc_id) {
        let x = choose|x: int| 0 <= x < scan.len() && (#[trigger] scan[x]).0.doc_id == doc_id && scan[x].1 is Some;
        assert(in_prefix(scan[x].0, NS_LEXICAL_POSTING, partition));
        assert(scan[x].0.spec_slot() == slot);
        assert(is_posted(layers, partition, doc_id));
        let k = choose|k: int| 0 <= k < found.len() && (#[trigger] found[k]).doc_id == doc_id;
        assert(read_bytes(docs[k]) == read_data(layers, doc_slot(doc_id)));
    }
    if is_posted(layers, partition, doc_id) {
        let entry = read_layers(layers, slot)->0;
        lemma_read_slot(layers, slot);
        assert(scan.contains(entry));
        let x = choose|x: int| 0 <= x < scan.len() && scan[x] == entry;
        assert(scan[x].0.doc_id == doc_id && scan[x].1 is Some);
    }
    if has_doc(hits, doc_id) {
        let k = choose|k: int| 0 <= k < found.len() && (#[trigger] found[k]).doc_id == doc_id && is_live(docs[k]);
        assert(found[k].doc_id == doc_id);
        assert(read_bytes(docs[k]) == read_data(layers, doc_slot(found[k].doc_id)));
    }
}

/// A search finds exactly the documents that are stored and match every term of the query: those
/// that, for every term, have postings for all parts of one of its alternatives. `lookups` and
/// `terms` are the plan of the query, `partitions` holds the partition that is scanned for each
/// part that is looked up, and the other lists hold what each lookup yields. What is looked up
/// has one hash, as it has on one machine.
pub proof fn law_search_finds_exactly_the_matching_documents(
    layers: Seq<Layer>,
    lookups: Seq<(u32, Seq<char>)>,
    terms: Seq<Seq<(usize, usize)>>,
    partitions: Seq<u32>,
    scans: Seq<Seq<Entry>>,
    found: Seq<Seq<PostingHit>>,
    docs: Seq<Seq<Option<LsmValue>>>,
    hits: Seq<Vec<PostingHit>>,
    doc_id: u64,
)
    requires
        stretches_fit(terms, lookups.len()),
        partitions.len() == lookups.len(),
        hits.len() == lookups.len(),
        forall|i: int|
            0 <= i < lookups.len() ==> has_one_hash((#[trigger] lookups[i]).0, lookups[i].1) && in_partition(
                lookups[i].0,
                lookups[i].1,
                partitions[i],
            ) && is_lookup(layers, partitions[i], scans[i], found[i], docs[i], hits[i]@),
    ensures
        in_all(hits, terms, doc_id) <==> terms.len() > 0 && is_stored(layers, doc_id) && forall|t: int|
            0 <= t < terms.len() ==> term_posted(layers, lookups, #[trigger] terms[t], doc_id),
{
    assert forall|i: int| 0 <= i < lookups.len() implies (has_doc(#[trigger] hits[i]@, doc_id) <==> is_stored(
        layers,
        doc_id,
    ) && has_posting(layers, lookups[i], doc_id)) by {
        let (field_id, term) = lookups[i];
        assert(in_partition(field_id, term, partitions[i]));
        lemma_lookup(layers, partitions[i], scans[i], found[i], docs[i], hits[i]@, doc_id);
        if has_posting(layers, lookups[i], doc_id) {
            let p = choose|p: u32| #[trigger] in_partition(field_id, term, p) && is_posted(layers, p, doc_id);
            law_lookup_scans_where_posted(field_id, term, p, partitions[i]);
        }
    }
    assert forall|t: int, a: int| 0 <= t < terms.len() && 0 <= a < terms[t].len() implies (in_stretch(
        hits,
        #[trigger] terms[t][a],
        doc_id,
    ) <==> is_stored(layers, doc_id) && stretch_posted(layers, lookups, terms[t][a], doc_id)) by {
        let stretch = terms[t][a];
        assert(stretch.0 < stretch.1 <= lookups.len());
        if in_stretch(hits, stretch, doc_id) {
            assert(has_doc(hits[stretch.0 as int]@, doc_id));
            assert forall|i: int| stretch.0 <= i < stretch.1 implies has_posting(
                layers,
                #[trigger] lookups[i],
                doc_id,
            ) by {
                assert(has_doc(hits[i]@, doc_id));
            }
        }
        if is_stored(layers, doc_id) && stretch_posted(layers, lookups, stretch, doc_id) {
            assert forall|i: int| stretch.0 <= i < stretch.1 implies has_doc((#[trigger] hits[i])@, doc_id) by {
                assert(has_posting(layers, lookups[i], doc_id));
            }
        }
    }
    assert forall|t: int| 0 <= t < terms.len() implies (matches_term(hits, #[trigger] terms[t], doc_id)
        <==> is_stored(layers, doc_id) && term_posted(layers, lookups, terms[t], doc_id)) by {
        let alternatives = terms[t];
        if matches_term(hits, alternatives, doc_id) {
            let a = choose|a: int|
                0 <= a < alternatives.len() && in_stretch(hits, #[trigger] alternatives[a], doc_id);
            assert(in_stretch(hits, terms[t][a], doc_id));
        }
        if is_stored(layers, doc_id) && term_posted(layers, lookups, alternatives, doc_id) {
            let a = choose|a: int|
                0 <= a < alternatives.len() && stretch_posted(layers, lookups, #[trigger] alternatives[a], doc_id);
            assert(stretch_posted(layers, lookups, terms[t][a], doc_id));
        }
    }
    if in_all(hits, terms, doc_id) {
        assert(matches_term(hits, terms[0], doc_id));
        assert forall|t: int| 0 <= t < terms.len() implies term_posted(
            layers,
            lookups,
            #[trigger] terms[t],
            doc_id,
        ) by {
            assert(matches_term(hits, terms[t], doc_id));
        }
    }
}

/// A document stays searchable through the life of the storage, restarts included: if step `k` was
/// the batch that added it, with its postings in the partitions of their terms, and no later step
/// wrote the slot of the posting of term `i`, the document has a posting for that term, and it
/// stands for the occurrences of the term, if no two terms of the document share a partition and
/// the lengths fit their fields.
pub proof fn law_document_stays_searchable(
    states: Seq<Life>,
    steps: Seq<Step>,
    k: int,
    doc_id: u64,
    doc_bytes: Seq<u8>,
    terms: Seq<OccurrenceView>,
    partitions: Seq<u32>,
    others: Seq<Entry>,
    i: int,
)
    requires
        is_life(states, steps),
        steps.len() <= u64::MAX,
        0 <= k < steps.len(),
        steps[k] == Step::Write(
            WalOpView::BatchPut {
                entries: seq![doc_entry(doc_id, doc_bytes)] + occurrence_entries(terms, doc_id, partitions) + others,
            },
        ),
        are_partitions(terms, partitions),
        partitions.no_duplicates(),
        forall|j: int| 0 <= j < others.len() ==> (#[trigger] others[j]).0.namespace != NS_LEXICAL_POSTING,
        0 <= i < terms.len(),
        occurrence_fits(terms[i]),
        forall|j: int|
            k < j < steps.len() ==> last_entry(
                written_in(states[j], #[trigger] steps[j]),
                Slot { namespace: NS_LEXICAL_POSTING, partition: partitions[i], doc_id },
            ) is None,
    ensures
        has_posting(layers_of(states.last().h), (terms[i].field_id, terms[i].term), doc_id),
        ({
            let slot = Slot { namespace: NS_LEXICAL_POSTING, partition: partitions[i], doc_id };
            let bytes = read_data(layers_of(states.last().h), slot);
            bytes is Some && decode_posting(bytes->0) == Ok::<PostingView, PostingError>(
                occurrence_posting(terms[i], doc_id),
            )
        }),
{
    let posted = occurrence_entries(terms, doc_id, partitions);
    let all = seq![doc_entry(doc_id, doc_bytes)] + posted + others;
    let batch = written_in(states[k], steps[k]);
    let slot = Slot { namespace: NS_LEXICAL_POSTING, partition: partitions[i], doc_id };
    let posting = occurrence_posting(terms[i], doc_id);
    assert(batch == entries_with_lsn(all, states[k].h.next_lsn as u64));
    assert(all[1 + i] == posted[i]);
    assert forall|j: int| 0 <= j < batch.len() && j != 1 + i implies (#[trigger] batch[j]).0.spec_slot() != slot by {
        if j == 0 {
            assert(all[j] == doc_entry(doc_id, doc_bytes));
        } else if j < 1 + posted.len() {
            assert(all[j] == posted[j - 1]);
            assert(partitions[j - 1] != partitions[i]);
        } else {
            assert(all[j] == others[j - 1 - posted.len()]);
        }
    }
    lemma_only_entry(batch, slot, 1 + i);
    law_reads_yield_write_of_step(states, steps, k, slot);
    law_posting_round_trip(posting, Seq::empty());
    assert(posting_bytes(posting) + Seq::<u8>::empty() =~= posting_bytes(posting));
    let lookup = (terms[i].field_id, terms[i].term);
    assert(in_partition(lookup.0, lookup.1, partitions[i]));
    assert(is_posted(layers_of(states.last().h), partitions[i], doc_id));
    assert(has_posting(layers_of(states.last().h), lookup, doc_id));
}

} // verus!
