//! The lexical engine: it turns the texts of documents into postings, and queries into the terms
//! whose postings are looked up.
//!
//! The postings of a document are stored with it in one batch. The partition of a posting is a
//! hash of its field and its term.

pub mod analyzer;
pub mod indexing_laws;
pub mod laws;
pub mod posting;
pub mod query;
pub mod query_laws;
pub mod search;
pub mod value;

use std::collections::HashMap;

use vstd::prelude::*;

pub use posting::Posting;
pub use query::{parse_query, LexicalQuery, TermQuery};

use crate::field_map::value_under;
use crate::index::document::SchemalessDoc;
use crate::json::Json;
use crate::schema::field::MetaView;
use crate::schema::{DynamicSchema, FieldMeta, TokenizerType};
use crate::storage::entry::view_entries;
use crate::storage::key::{LsmKey, LsmValue, NS_LEXICAL_POSTING};
use analyzer::{aggregate, build_analyzer, term_positions, tokens_of, valid_tokenizer, view_positions};
use analyzer::{Analyzer, AnalyzerError};
use posting::{posting_bytes, PostingView};
use query::view_words;
use value::{index_text, indexed_text, is_taken_whole, taken_whole};

verus! {

/// A term and where it occurs in a field of a document.
#[derive(Clone, Debug)]
pub struct TermOccurrence {
    pub field_id: u32,
    pub term: String,
    pub positions: Vec<u32>,
}

/// The model of an occurrence.
pub struct OccurrenceView {
    pub field_id: u32,
    pub term: Seq<char>,
    pub positions: Seq<u32>,
}

impl View for TermOccurrence {
    type V = OccurrenceView;

    open spec fn view(&self) -> OccurrenceView {
        OccurrenceView { field_id: self.field_id, term: self.term@, positions: self.positions@ }
    }
}

/// The models of a list of occurrences.
pub open spec fn view_occurrences(s: Seq<TermOccurrence>) -> Seq<OccurrenceView> {
    Seq::new(s.len(), |i: int| s[i]@)
}

/// The tokenizer by which a field is split: the one that is in use for it, else the one that the
/// schema names, else the default one.
pub open spec fn chosen_tokenizer(
    in_use: Map<u32, TokenizerType>,
    field_id: u32,
    named: Option<TokenizerType>,
) -> TokenizerType {
    if in_use.contains_key(field_id) {
        in_use[field_id]
    } else {
        match named {
            Some(t) => t,
            None => TokenizerType::Default,
        }
    }
}

/// What the terms of a document are found to be: the tokenizers in use, the terms, and the
/// tokenizer that there is no analyzer for, if one was met.
pub struct Analysis {
    pub in_use: Map<u32, TokenizerType>,
    pub terms: Seq<OccurrenceView>,
    pub failed: Option<TokenizerType>,
}

/// The terms of a text of a field, each with its positions.
pub open spec fn text_terms(field_id: u32, tokens: Seq<Seq<char>>) -> Seq<OccurrenceView> {
    let found = term_positions(tokens);
    Seq::new(found.len(), |i: int| OccurrenceView { field_id, term: found[i].0, positions: found[i].1 })
}

/// The terms that a text of a field is split into. A value that is taken whole is one term.
pub open spec fn field_tokens(in_use: Map<u32, TokenizerType>, meta: MetaView, text: Seq<char>) -> Seq<Seq<char>> {
    if taken_whole(meta.data_type) {
        seq![text]
    } else {
        tokens_of(chosen_tokenizer(in_use, meta.id, meta.tokenizer), text)
    }
}

/// The analysis after a text of a field of the lexical index.
pub open spec fn analyze_text(before: Analysis, meta: MetaView, text: Seq<char>) -> Analysis {
    let t = chosen_tokenizer(before.in_use, meta.id, meta.tokenizer);
    let tokens = field_tokens(before.in_use, meta, text);
    if taken_whole(meta.data_type) {
        Analysis { terms: before.terms + text_terms(meta.id, tokens), ..before }
    } else if !valid_tokenizer(t) {
        Analysis { failed: Some(t), ..before }
    } else {
        Analysis {
            in_use: before.in_use.insert(meta.id, t),
            terms: before.terms + text_terms(meta.id, tokens),
            failed: None,
        }
    }
}

/// The analysis after one more field of a document. Only fields count that the schema knows and
/// wants in the lexical index, and only values that stand there by a text.
pub open spec fn analyze_field(
    before: Analysis,
    schema: Seq<(Seq<char>, MetaView)>,
    name: Seq<char>,
    value: Json,
) -> Analysis {
    match value_under(schema, name) {
        Some(meta) => match indexed_text(meta.data_type, value) {
            Some(text) => if before.failed is Some || !meta.index_lexical {
                before
            } else {
                analyze_text(before, meta, text)
            },
            None => before,
        },
        None => before,
    }
}

/// The terms of a document.
pub open spec fn analyze_doc(
    in_use: Map<u32, TokenizerType>,
    schema: Seq<(Seq<char>, MetaView)>,
    doc: Seq<(Seq<char>, Json)>,
) -> Analysis
    decreases doc.len(),
{
    if doc.len() == 0 {
        Analysis { in_use, terms: Seq::empty(), failed: None }
    } else {
        analyze_field(analyze_doc(in_use, schema, doc.drop_last()), schema, doc.last().0, doc.last().1)
    }
}

/// The posting of an occurrence in a document.
pub open spec fn occurrence_posting(o: OccurrenceView, doc_id: u64) -> PostingView {
    PostingView {
        field_id: o.field_id,
        term: o.term,
        doc_id,
        term_freq: (o.positions.len() % 0x1_0000_0000) as u32,
        positions: o.positions,
    }
}

/// The stored entry of an occurrence in a document.
pub open spec fn occurrence_entry(o: OccurrenceView, doc_id: u64, partition: u32) -> (LsmKey, Option<Seq<u8>>) {
    (
        LsmKey { namespace: NS_LEXICAL_POSTING, partition_or_segment: partition, doc_id, lsn: 0 },
        Some(posting_bytes(occurrence_posting(o, doc_id))),
    )
}

/// The stored entries of the occurrences in a document, each in its partition.
pub open spec fn occurrence_entries(
    terms: Seq<OccurrenceView>,
    doc_id: u64,
    partitions: Seq<u32>,
) -> Seq<(LsmKey, Option<Seq<u8>>)> {
    Seq::new(terms.len(), |i: int| occurrence_entry(terms[i], doc_id, partitions[i]))
}

/// The seed of the hash by which postings are spread over partitions. Stored postings are looked
/// up by it, so it never changes.
pub const PARTITION_SEED: u64 = 0x5eed_0f7e_120b_5e00;

/// The number is a hash of a field and a term by a seed: one that `ahash::RandomState::hash_one`
/// returns for the pair of them, on some machine.
pub uninterp spec fn is_term_hash(seed: u64, field_id: u32, term: Seq<char>, hash: u64) -> bool;

/// `ahash::RandomState::hash_one` on the pair of a field and a term, where
/// `ahash::RandomState::with_seeds` makes the state with the given seed. The contract claims that
/// the number is such a hash of the two. It does not claim that there is only one: what the hasher
/// computes differs between machines.
#[verifier::external_body]
fn hash_field_term(seed: u64, field_id: u32, term: &str) -> (hash: u64)
    ensures
        is_term_hash(seed, field_id, term@, hash),
{
    ahash::RandomState::with_seeds(seed, seed, seed, seed).hash_one((field_id, term))
}

/// The partition is one in which the postings of a term of a field stand: the low-order half of a
/// hash of both.
pub open spec fn in_partition(field_id: u32, term: Seq<char>, partition: u32) -> bool {
    exists|hash: u64| #[trigger]
        is_term_hash(PARTITION_SEED, field_id, term, hash) && partition == hash % 0x1_0000_0000
}

/// A term of a field has one hash only, as it has on one machine.
pub open spec fn has_one_hash(field_id: u32, term: Seq<char>) -> bool {
    forall|a: u64, b: u64| #[trigger]
        is_term_hash(PARTITION_SEED, field_id, term, a) && #[trigger] is_term_hash(PARTITION_SEED, field_id, term, b)
            ==> a == b
}

/// The partitions are those of the terms.
pub open spec fn are_partitions(terms: Seq<OccurrenceView>, partitions: Seq<u32>) -> bool {
    &&& partitions.len() == terms.len()
    &&& forall|i: int|
        0 <= i < terms.len() ==> in_partition((#[trigger] terms[i]).field_id, terms[i].term, partitions[i])
}

/// The partition for a hash: its low-order half.
pub fn partition_of_hash(hash: u64) -> (partition: u32)
    ensures
        partition == hash % 0x1_0000_0000,
{
    (hash % 0x1_0000_0000) as u32
}

/// The partition in which the postings of a term of a field stand: the one for a hash of both, by a
/// seed that never changes.
pub fn term_partition(field_id: u32, term: &str) -> (partition: u32)
    ensures
        in_partition(field_id, term@, partition),
{
    partition_of_hash(hash_field_term(PARTITION_SEED, field_id, term))
}

/// The stored entry of an occurrence in a document.
pub fn posting_entry(occurrence: TermOccurrence, doc_id: u64, partition: u32) -> (entry: (LsmKey, LsmValue))
    ensures
        (entry.0, entry.1@) == occurrence_entry(occurrence@, doc_id, partition),
{
    let key = LsmKey { namespace: NS_LEXICAL_POSTING, partition_or_segment: partition, doc_id, lsn: 0 };
    let posting = Posting::new(occurrence.field_id, occurrence.term, doc_id, occurrence.positions);
    match posting.encode() {
        Ok(bytes) => (key, LsmValue::Data(bytes)),
        Err(_) => (key, LsmValue::Tombstone),
    }
}

/// The state of a lexical engine: the tokenizers that are in use for the fields, and the number
/// of documents that were added.
pub struct LexicalState {
    pub in_use: Map<u32, TokenizerType>,
    pub total_docs: u64,
}

/// The lexical engine.
pub struct LexicalEngine {
    tokenizers: HashMap<u32, Analyzer>,
    total_docs: u64,
}

impl View for LexicalEngine {
    type V = LexicalState;

    closed spec fn view(&self) -> LexicalState {
        LexicalState {
            in_use: self.tokenizers@.map_values(|a: Analyzer| a.spec_tokenizer()),
            total_docs: self.total_docs,
        }
    }
}

/// Every tokenizer in use has an analyzer.
pub open spec fn tokenizers_valid(in_use: Map<u32, TokenizerType>) -> bool {
    forall|id: u32| #[trigger] in_use.contains_key(id) ==> valid_tokenizer(in_use[id])
}

impl LexicalEngine {
    /// Every tokenizer in use has an analyzer.
    pub open spec fn wf(&self) -> bool {
        tokenizers_valid(self@.in_use)
    }

    /// An engine that counts on from a number of documents.
    pub fn new(total_docs: u64) -> (e: Self)
        ensures
            e.wf(),
            e@.in_use == Map::<u32, TokenizerType>::empty(),
            e@.total_docs == total_docs,
    {
        broadcast use vstd::std_specs::hash::group_hash_axioms;

        let e = LexicalEngine { tokenizers: HashMap::new(), total_docs };
        assert(e@.in_use =~= Map::<u32, TokenizerType>::empty());
        e
    }

    /// The number of documents that were added.
    pub fn total_docs(&self) -> (n: u64)
        ensures
            n == self@.total_docs,
    {
        self.total_docs
    }

    /// The analyzer of a field. The first one that a field gets stays in use for it.
    pub fn get_or_create_analyzer(
        &mut self,
        field_id: u32,
        tokenizer: &Option<TokenizerType>,
    ) -> (r: Result<Analyzer, AnalyzerError>)
        requires
            old(self).wf(),
        ensures
            final(self).wf(),
            final(self)@.total_docs == old(self)@.total_docs,
            ({
                let t = chosen_tokenizer(old(self)@.in_use, field_id, *tokenizer);
                if valid_tokenizer(t) {
                    &&& r matches Ok(a) && a.spec_tokenizer() == t
                    &&& final(self)@.in_use == old(self)@.in_use.insert(field_id, t)
                } else {
                    &&& r matches Err(e) && t == (TokenizerType::Ngram { n: e.n })
                    &&& final(self)@.in_use == old(self)@.in_use
                }
            }),
    {
        broadcast use vstd::std_specs::hash::group_hash_axioms;

        let ghost before = self@.in_use;
        match self.tokenizers.get(&field_id) {
            Some(a) => {
                assert(before.contains_key(field_id));
                assert(before.insert(field_id, before[field_id]) =~= before);
                return Ok(*a);
            },
            None => {},
        }
        assert(!before.contains_key(field_id));
        let tt = match tokenizer {
            Some(t) => *t,
            None => TokenizerType::Default,
        };
        let a = build_analyzer(&tt)?;
        self.tokenizers.insert(field_id, a);
        assert(self@.in_use =~= before.insert(field_id, tt));
        Ok(a)
    }

    /// The terms that a text of a field is split into. A value that is taken whole is one term and
    /// needs no analyzer.
    pub fn split_text(&mut self, meta: &FieldMeta, text: &str) -> (r: Result<Vec<String>, AnalyzerError>)
        requires
            old(self).wf(),
        ensures
            final(self).wf(),
            final(self)@.total_docs == old(self)@.total_docs,
            ({
                let t = chosen_tokenizer(old(self)@.in_use, meta.id, meta.tokenizer);
                if taken_whole(meta.data_type) || valid_tokenizer(t) {
                    &&& r matches Ok(tokens) && view_words(tokens@) == field_tokens(old(self)@.in_use, meta@, text@)
                    &&& final(self)@.in_use == if taken_whole(meta.data_type) {
                        old(self)@.in_use
                    } else {
                        old(self)@.in_use.insert(meta.id, t)
                    }
                } else {
                    &&& r matches Err(e) && t == (TokenizerType::Ngram { n: e.n })
                    &&& final(self)@.in_use == old(self)@.in_use
                }
            }),
    {
        if is_taken_whole(&meta.data_type) {
            let mut tokens: Vec<String> = Vec::new();
            tokens.push(text.to_string());
            assert(view_words(tokens@) =~= seq![text@]);
            return Ok(tokens);
        }
        let analyzer = self.get_or_create_analyzer(meta.id, &meta.tokenizer)?;
        Ok(analyzer.tokens(text))
    }

    /// The terms of a document, field by field. The fields that the schema does not know or does
    /// not want in the lexical index, and values that do not stand there by a text, are passed
    /// over. A field whose tokenizer has no analyzer is an error.
    pub fn document_terms(
        &mut self,
        doc: &SchemalessDoc,
        schema: &DynamicSchema,
    ) -> (r: Result<Vec<TermOccurrence>, AnalyzerError>)
        requires
            old(self).wf(),
            doc.wf(),
            schema.wf(),
        ensures
            final(self).wf(),
            final(self)@.total_docs == old(self)@.total_docs,
            ({
                let out = analyze_doc(old(self)@.in_use, schema@.fields, doc@);
                &&& final(self)@.in_use == out.in_use
                &&& match out.failed {
                    None => r matches Ok(terms) && view_occurrences(terms@) == out.terms,
                    Some(t) => r matches Err(e) && t == (TokenizerType::Ngram { n: e.n }),
                }
            }),
    {
        let mut terms: Vec<TermOccurrence> = Vec::new();
        let ghost start = self@.in_use;
        let ghost all = doc@;
        let mut i: usize = 0;
        assert(all.take(0) =~= Seq::<(Seq<char>, Json)>::empty());
        assert(view_occurrences(terms@) =~= Seq::<OccurrenceView>::empty());
        while i < doc.fields.len()
            invariant
                i <= doc@.len(),
                doc.wf(),
                schema.wf(),
                self.wf(),
                all == doc@,
                start == old(self)@.in_use,
                self@.total_docs == old(self)@.total_docs,
                self@.in_use == analyze_doc(start, schema@.fields, all.take(i as int)).in_use,
                view_occurrences(terms@) == analyze_doc(start, schema@.fields, all.take(i as int)).terms,
                analyze_doc(start, schema@.fields, all.take(i as int)).failed is None,
            decreases doc@.len() - i,
        {
            let name = doc.fields.name_at(i);
            let value = doc.fields.value_at(i);
            let ghost now = analyze_doc(start, schema@.fields, all.take(i as int));
            let ghost next = analyze_doc(start, schema@.fields, all.take(i + 1));
            proof {
                assert(all.take(i + 1).drop_last() =~= all.take(i as int));
                assert(all.take(i + 1).last() == (name@, value@));
                assert(next == analyze_field(now, schema@.fields, name@, value@));
            }
            if let Some(meta) = schema.get_field(name.as_str()) {
                let found = index_text(&meta.data_type, value);
                if let (Some(text), true) = (found, meta.index_lexical) {
                    match self.split_text(&meta, text.as_str()) {
                        Ok(tokens) => {
                            append_text_terms(&mut terms, meta.id, &tokens);
                        },
                        Err(e) => {
                            proof {
                                lemma_failure_stays(start, schema@.fields, all, i + 1);
                            }
                            return Err(e);
                        },
                    }
                }
            }
            i = i + 1;
        }
        assert(all.take(i as int) =~= all);
        Ok(terms)
    }

    /// The entries by which a document is added to the lexical index: its postings, each in the
    /// partition of its term. The document counts as added whatever comes of it.
    pub fn prepare_add_document(
        &mut self,
        doc_id: u64,
        doc: &SchemalessDoc,
        schema: &DynamicSchema,
    ) -> (r: Result<Vec<(LsmKey, LsmValue)>, AnalyzerError>)
        requires
            old(self).wf(),
            doc.wf(),
            schema.wf(),
        ensures
            final(self).wf(),
            final(self)@.total_docs == old(self)@.total_docs.wrapping_add(1),
            ({
                let out = analyze_doc(old(self)@.in_use, schema@.fields, doc@);
                &&& final(self)@.in_use == out.in_use
                &&& match out.failed {
                    None => r matches Ok(entries) && exists|partitions: Seq<u32>|
                        are_partitions(out.terms, partitions) && view_entries(entries@)
                            == #[trigger] occurrence_entries(out.terms, doc_id, partitions),
                    Some(t) => r matches Err(e) && t == (TokenizerType::Ngram { n: e.n }),
                }
            }),
    {
        self.total_docs = self.total_docs.wrapping_add(1);
        let terms = self.document_terms(doc, schema)?;
        let mut partitions: Vec<u32> = Vec::new();
        let mut i: usize = 0;
        while i < terms.len()
            invariant
                i <= terms@.len(),
                partitions@.len() == i,
                forall|k: int| 0 <= k < i ==> in_partition(terms@[k].field_id, terms@[k].term@, #[trigger] partitions@[k]),
            decreases terms@.len() - i,
        {
            partitions.push(term_partition(terms[i].field_id, terms[i].term.as_str()));
            i = i + 1;
        }
        proof {
            let all = view_occurrences(terms@);
            assert forall|k: int| 0 <= k < all.len() implies in_partition(
                (#[trigger] all[k]).field_id,
                all[k].term,
                partitions@[k],
            ) by {
                assert(in_partition(terms@[k].field_id, terms@[k].term@, partitions@[k]));
            }
        }
        Ok(posting_entries(terms, doc_id, &partitions))
    }
}

/// The stored entries of the occurrences in a document, each in its partition.
pub fn posting_entries(terms: Vec<TermOccurrence>, doc_id: u64, partitions: &Vec<u32>) -> (entries: Vec<
    (LsmKey, LsmValue),
>)
    requires
        partitions@.len() == terms@.len(),
    ensures
        view_entries(entries@) == occurrence_entries(view_occurrences(terms@), doc_id, partitions@),
{
    let ghost all = view_occurrences(terms@);
    let mut rest = terms;
    let mut backwards: Vec<(LsmKey, LsmValue)> = Vec::new();
    while rest.len() > 0
        invariant
            rest@.len() <= all.len(),
            partitions@.len() == all.len(),
            view_occurrences(rest@) == all.take(rest@.len() as int),
            backwards@.len() == all.len() - rest@.len(),
            forall|k: int|
                0 <= k < backwards@.len() ==> ((#[trigger] backwards@[k]).0, backwards@[k].1@) == occurrence_entry(
                    all[all.len() - 1 - k],
                    doc_id,
                    partitions@[all.len() - 1 - k],
                ),
        decreases rest@.len(),
    {
        let ghost before = rest@;
        let last: usize = rest.len() - 1;
        if let Some(o) = rest.pop() {
            proof {
                assert(view_occurrences(before)[last as int] == o@);
                assert(view_occurrences(rest@) =~= all.take(last as int)) by {
                    assert forall|k: int| 0 <= k < last implies view_occurrences(rest@)[k] == all[k] by {
                        assert(view_occurrences(before)[k] == all.take(before.len() as int)[k]);
                    }
                }
            }
            backwards.push(posting_entry(o, doc_id, partitions[last]));
        }
    }
    let mut entries: Vec<(LsmKey, LsmValue)> = Vec::new();
    while backwards.len() > 0
        invariant
            entries@.len() + backwards@.len() == all.len(),
            partitions@.len() == all.len(),
            forall|k: int|
                0 <= k < backwards@.len() ==> ((#[trigger] backwards@[k]).0, backwards@[k].1@) == occurrence_entry(
                    all[all.len() - 1 - k],
                    doc_id,
                    partitions@[all.len() - 1 - k],
                ),
            forall|k: int|
                0 <= k < entries@.len() ==> ((#[trigger] entries@[k]).0, entries@[k].1@) == occurrence_entry(
                    all[k],
                    doc_id,
                    partitions@[k],
                ),
        decreases backwards@.len(),
    {
        if let Some(e) = backwards.pop() {
            entries.push(e);
        }
    }
    assert(view_entries(entries@) =~= occurrence_entries(all, doc_id, partitions@));
    entries
}

/// Appends the terms of a text of a field.
fn append_text_terms(out: &mut Vec<TermOccurrence>, field_id: u32, tokens: &Vec<String>)
    ensures
        view_occurrences(final(out)@) == view_occurrences(old(out)@) + text_terms(field_id, view_words(tokens@)),
{
    let found = aggregate(tokens);
    let ghost before = view_occurrences(out@);
    let ghost all = text_terms(field_id, view_words(tokens@));
    let mut i: usize = 0;
    assert(view_occurrences(out@) =~= before + all.take(0));
    while i < found.len()
        invariant
            found.wf(),
            i <= found@.len(),
            view_positions(found@) == term_positions(view_words(tokens@)),
            all == text_terms(field_id, view_words(tokens@)),
            view_occurrences(out@) == before + all.take(i as int),
        decreases found@.len() - i,
    {
        let term = found.name_at(i);
        let positions = found.value_at(i).clone();
        let ghost now = view_occurrences(out@);
        proof {
            assert(positions@ =~= found@[i as int].1@);
            assert(view_positions(found@)[i as int] == (term@, positions@));
        }
        out.push(TermOccurrence { field_id, term, positions });
        proof {
            assert(view_occurrences(out@) =~= now.push(all[i as int]));
            assert(view_occurrences(out@) =~= before + all.take(i + 1));
        }
        i = i + 1;
    }
    assert(view_positions(found@).len() == found@.len());
    assert(all.take(i as int) =~= all);
}

proof fn lemma_failure_stays(
    in_use: Map<u32, TokenizerType>,
    schema: Seq<(Seq<char>, MetaView)>,
    doc: Seq<(Seq<char>, Json)>,
    n: int,
)
    requires
        0 <= n <= doc.len(),
        analyze_doc(in_use, schema, doc.take(n)).failed is Some,
    ensures
        analyze_doc(in_use, schema, doc) == analyze_doc(in_use, schema, doc.take(n)),
    decreases doc.len(),
{
    if n == doc.len() {
        assert(doc.take(n) =~= doc);
    } else {
        assert(doc.drop_last().take(n) =~= doc.take(n));
        lemma_failure_stays(in_use, schema, doc.drop_last(), n);
    }
}

} // verus!
