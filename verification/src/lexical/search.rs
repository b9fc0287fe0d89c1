//! Searching: the terms that a query asks for, the postings that match them, and the documents
//! that match every term.
//!
//! A term that names its field is looked up in that field, any other term in all text fields. Its
//! text is split as the texts of the field are, or stays whole if the values of the field do; a
//! field that has all parts of it contains the term. A document matches a term if one of the
//! fields contains it.

use vstd::prelude::*;

use crate::bytes::be_bytes;
use crate::field_map::value_under;
use crate::lexical::analyzer::{valid_tokenizer, AnalyzerError};
use crate::lexical::posting::{decode_posting, Posting, PostingError};
use crate::lexical::query::{all_terms, parse_query, term_of_word, view_words, words};
use crate::lexical::query::{LexicalQuery, QueryError, TermView};
use crate::lexical::value::taken_whole;
use crate::lexical::{chosen_tokenizer, field_tokens, LexicalEngine};
use crate::schema::field::MetaView;
use crate::schema::{view_meta_list, DynamicSchema, FieldMeta, FieldType, TokenizerType};
use crate::storage::entry::view_entries;
use crate::storage::key::{number_value, read_bytes, read_number, stored_number};
use crate::storage::key::{LsmKey, LsmValue, NS_LEXICAL_STATS};

verus! {

/// A term that a query asks for, and the field in which it is looked up.
#[derive(Clone, Debug)]
pub struct SearchTerm {
    pub field_id: u32,
    pub text: String,
}

impl View for SearchTerm {
    type V = (u32, Seq<char>);

    open spec fn view(&self) -> (u32, Seq<char>) {
        (self.field_id, self.text@)
    }
}

/// The models of a list of terms.
pub open spec fn view_terms(s: Seq<SearchTerm>) -> Seq<(u32, Seq<char>)> {
    Seq::new(s.len(), |i: int| s[i]@)
}

/// The models of a list of query terms.
pub open spec fn view_query(s: Seq<crate::lexical::query::TermQuery>) -> Seq<TermView> {
    Seq::new(s.len(), |i: int| s[i]@)
}

/// The fields in which a term is looked up that names no field: the texts of the lexical index.
pub open spec fn text_fields(schema: Seq<(Seq<char>, MetaView)>) -> Seq<MetaView>
    decreases schema.len(),
{
    if schema.len() == 0 {
        Seq::empty()
    } else {
        let before = text_fields(schema.drop_last());
        let meta = schema.last().1;
        if meta.data_type is Text && meta.index_lexical {
            before.push(meta)
        } else {
            before
        }
    }
}

/// The fields in which a term is looked up: the one that it names, if the schema knows it, or
/// else all texts of the lexical index.
pub open spec fn fields_searched(schema: Seq<(Seq<char>, MetaView)>, field: Option<Seq<char>>) -> Seq<MetaView> {
    match field {
        Some(name) => match value_under(schema, name) {
            Some(meta) => seq![meta],
            None => Seq::empty(),
        },
        None => text_fields(schema),
    }
}

/// What the fields of a term are found to ask for: the tokenizers in use; all that is looked up,
/// for this term and those before it; for each field that the term may stand in, the stretch of
/// what is looked up that the field has to have; and the tokenizer that there is no analyzer
/// for, if one was met.
pub struct TermExpansion {
    pub in_use: Map<u32, TokenizerType>,
    pub lookups: Seq<(u32, Seq<char>)>,
    pub alternatives: Seq<(usize, usize)>,
    pub failed: Option<TokenizerType>,
}

/// What the terms of a query are found to ask for: the tokenizers in use, what is looked up, the
/// alternatives of each term, and the tokenizer that there is no analyzer for, if one was met.
pub struct Expansion {
    pub in_use: Map<u32, TokenizerType>,
    pub lookups: Seq<(u32, Seq<char>)>,
    pub terms: Seq<Seq<(usize, usize)>>,
    pub failed: Option<TokenizerType>,
}

/// Terms, looked up in one field.
pub open spec fn terms_in_field(field_id: u32, tokens: Seq<Seq<char>>) -> Seq<(u32, Seq<char>)> {
    Seq::new(tokens.len(), |i: int| (field_id, tokens[i]))
}

/// The expansion after a text has been split for one more field. A field in which nothing is left
/// of the text is no alternative.
pub open spec fn expand_field(before: TermExpansion, meta: MetaView, text: Seq<char>) -> TermExpansion {
    let t = chosen_tokenizer(before.in_use, meta.id, meta.tokenizer);
    let tokens = field_tokens(before.in_use, meta, text);
    let start = before.lookups.len();
    if before.failed is Some {
        before
    } else if !taken_whole(meta.data_type) && !valid_tokenizer(t) {
        TermExpansion { failed: Some(t), ..before }
    } else {
        TermExpansion {
            in_use: if taken_whole(meta.data_type) {
                before.in_use
            } else {
                before.in_use.insert(meta.id, t)
            },
            lookups: before.lookups + terms_in_field(meta.id, tokens),
            alternatives: if tokens.len() == 0 {
                before.alternatives
            } else {
                before.alternatives.push((start as usize, (start + tokens.len()) as usize))
            },
            failed: None,
        }
    }
}

/// The expansion after a text has been split for more fields.
pub open spec fn expand_fields(before: TermExpansion, metas: Seq<MetaView>, text: Seq<char>) -> TermExpansion
    decreases metas.len(),
{
    if metas.len() == 0 {
        before
    } else {
        expand_field(expand_fields(before, metas.drop_last(), text), metas.last(), text)
    }
}

/// The expansion of a query before one more term of it.
pub open spec fn term_start(before: Expansion) -> TermExpansion {
    TermExpansion {
        in_use: before.in_use,
        lookups: before.lookups,
        alternatives: Seq::empty(),
        failed: before.failed,
    }
}

/// What the terms of a query ask for. A term that there is no field for, such as one of a field that
/// the schema does not know, has no alternatives, and so no document matches it. A term of which
/// no field leaves anything asks for nothing.
pub open spec fn expand_terms(
    in_use: Map<u32, TokenizerType>,
    schema: Seq<(Seq<char>, MetaView)>,
    terms: Seq<TermView>,
) -> Expansion
    decreases terms.len(),
{
    if terms.len() == 0 {
        Expansion { in_use, lookups: Seq::empty(), terms: Seq::empty(), failed: None }
    } else {
        let before = expand_terms(in_use, schema, terms.drop_last());
        let term = terms.last();
        let metas = fields_searched(schema, term.field);
        let after = expand_fields(term_start(before), metas, term.text);
        Expansion {
            in_use: after.in_use,
            lookups: after.lookups,
            terms: if after.failed is Some || (after.alternatives.len() == 0 && metas.len() > 0) {
                before.terms
            } else {
                before.terms.push(after.alternatives)
            },
            failed: after.failed,
        }
    }
}

/// What a search looks up, and which of it a document has to have: for every term, one of its
/// alternatives, each of which is a stretch of what is looked up.
#[derive(Debug)]
pub struct SearchPlan {
    pub lookups: Vec<SearchTerm>,
    pub terms: Vec<Vec<(usize, usize)>>,
}

/// The models of the alternatives of terms.
pub open spec fn view_alternatives(s: Seq<Vec<(usize, usize)>>) -> Seq<Seq<(usize, usize)>> {
    Seq::new(s.len(), |i: int| s[i]@)
}

/// Every alternative is a stretch of what is looked up.
pub open spec fn stretches_fit(terms: Seq<Seq<(usize, usize)>>, n: nat) -> bool {
    forall|t: int, a: int|
        0 <= t < terms.len() && 0 <= a < terms[t].len() ==> (#[trigger] terms[t][a]).0 < terms[t][a].1 <= n
}

/// The terms of a query text, each word read as `parse_query` reads it.
pub open spec fn query_terms(query: Seq<char>) -> Seq<TermView> {
    Seq::new(words(query).len(), |i: int| term_of_word(words(query)[i])->0)
}

/// Why a search finds nothing to look up.
#[derive(Debug)]
pub enum SearchError {
    /// The query is not well formed.
    Query(QueryError),
    /// The tokenizer of a field has no analyzer.
    Analyzer(AnalyzerError),
}

/// The fields in which a term is looked up.
pub fn fields_to_search(schema: &DynamicSchema, field: &Option<String>) -> (out: Vec<FieldMeta>)
    requires
        schema.wf(),
    ensures
        view_meta_list(out@) == fields_searched(
            schema@.fields,
            match *field {
                Some(name) => Some(name@),
                None => None,
            },
        ),
{
    let mut out: Vec<FieldMeta> = Vec::new();
    assert(view_meta_list(out@) =~= Seq::<MetaView>::empty());
    match field {
        Some(name) => {
            if let Some(meta) = schema.get_field(name.as_str()) {
                out.push(meta);
                assert(view_meta_list(out@) =~= seq![meta@]);
            }
        },
        None => {
            let metas = schema.snapshot();
            let ghost all = schema@.fields;
            let mut i: usize = 0;
            assert(all.take(0) =~= Seq::<(Seq<char>, MetaView)>::empty());
            while i < metas.len()
                invariant
                    i <= metas@.len(),
                    metas@.len() == all.len(),
                    forall|k: int| 0 <= k < metas@.len() ==> (#[trigger] metas@[k])@ == all[k].1,
                    view_meta_list(out@) == text_fields(all.take(i as int)),
                decreases metas@.len() - i,
            {
                let is_text: bool = match metas[i].data_type {
                    FieldType::Text => true,
                    _ => false,
                };
                let ghost before = view_meta_list(out@);
                proof {
                    assert(all.take(i + 1).drop_last() =~= all.take(i as int));
                    assert(metas@[i as int]@ == all[i as int].1);
                }
                if is_text && metas[i].index_lexical {
                    out.push(metas[i].clone());
                    assert(view_meta_list(out@) =~= before.push(metas@[i as int]@));
                }
                i = i + 1;
            }
            assert(all.take(i as int) =~= all);
        },
    }
    out
}

pub(crate) proof fn lemma_failed_expansion_stays(before: TermExpansion, metas: Seq<MetaView>, text: Seq<char>)
    requires
        before.failed is Some,
    ensures
        expand_fields(before, metas, text) == before,
    decreases metas.len(),
{
    if metas.len() > 0 {
        lemma_failed_expansion_stays(before, metas.drop_last(), text);
    }
}

proof fn lemma_failed_field_stays(before: TermExpansion, metas: Seq<MetaView>, text: Seq<char>, n: int)
    requires
        0 <= n <= metas.len(),
        expand_fields(before, metas.take(n), text).failed is Some,
    ensures
        expand_fields(before, metas, text) == expand_fields(before, metas.take(n), text),
    decreases metas.len(),
{
    if n == metas.len() {
        assert(metas.take(n) =~= metas);
    } else {
        assert(metas.drop_last().take(n) =~= metas.take(n));
        lemma_failed_field_stays(before, metas.drop_last(), text, n);
    }
}

proof fn lemma_failed_term_stays(
    in_use: Map<u32, TokenizerType>,
    schema: Seq<(Seq<char>, MetaView)>,
    terms: Seq<TermView>,
    n: int,
)
    requires
        0 <= n <= terms.len(),
        expand_terms(in_use, schema, terms.take(n)).failed is Some,
    ensures
        expand_terms(in_use, schema, terms) == expand_terms(in_use, schema, terms.take(n)),
    decreases terms.len(),
{
    if n == terms.len() {
        assert(terms.take(n) =~= terms);
    } else {
        assert(terms.drop_last().take(n) =~= terms.take(n));
        lemma_failed_term_stays(in_use, schema, terms.drop_last(), n);
        let before = expand_terms(in_use, schema, terms.drop_last());
        lemma_failed_expansion_stays(
            term_start(before),
            fields_searched(schema, terms.last().field),
            terms.last().text,
        );
    }
}

proof fn lemma_expanded_stretches(before: TermExpansion, metas: Seq<MetaView>, text: Seq<char>)
    requires
        forall|a: int|
            0 <= a < before.alternatives.len() ==> (#[trigger] before.alternatives[a]).0 < before.alternatives[a].1
                <= before.lookups.len(),
        expand_fields(before, metas, text).lookups.len() <= usize::MAX,
    ensures
        before.lookups.len() <= expand_fields(before, metas, text).lookups.len(),
        forall|a: int|
            0 <= a < expand_fields(before, metas, text).alternatives.len() ==> (#[trigger] expand_fields(
                before,
                metas,
                text,
            ).alternatives[a]).0 < expand_fields(before, metas, text).alternatives[a].1 <= expand_fields(
                before,
                metas,
                text,
            ).lookups.len(),
    decreases metas.len(),
{
    if metas.len() > 0 {
        let now = expand_fields(before, metas.drop_last(), text);
        let after = expand_fields(before, metas, text);
        assert(now.lookups.len() <= after.lookups.len());
        lemma_expanded_stretches(before, metas.drop_last(), text);
        assert forall|a: int| 0 <= a < after.alternatives.len() implies (#[trigger] after.alternatives[a]).0
            < after.alternatives[a].1 <= after.lookups.len() by {
            if a < now.alternatives.len() {
                assert(after.alternatives[a] == now.alternatives[a]);
            }
        }
    }
}

impl LexicalEngine {
    /// Splits a text for fields: appends what is looked up, and hands out the alternatives.
    fn expand_term(&mut self, lookups: &mut Vec<SearchTerm>, metas: &Vec<FieldMeta>, text: &str) -> (r: Result<
        Vec<(usize, usize)>,
        AnalyzerError,
    >)
        requires
            old(self).wf(),
        ensures
            final(self).wf(),
            final(self)@.total_docs == old(self)@.total_docs,
            ({
                let before = TermExpansion {
                    in_use: old(self)@.in_use,
                    lookups: view_terms(old(lookups)@),
                    alternatives: Seq::empty(),
                    failed: None,
                };
                let after = expand_fields(before, view_meta_list(metas@), text@);
                &&& final(self)@.in_use == after.in_use
                &&& view_terms(final(lookups)@) == after.lookups
                &&& match after.failed {
                    None => r matches Ok(alternatives) && alternatives@ == after.alternatives,
                    Some(t) => r matches Err(e) && t == (TokenizerType::Ngram { n: e.n }),
                }
            }),
    {
        let mut alternatives: Vec<(usize, usize)> = Vec::new();
        let ghost before = TermExpansion {
            in_use: self@.in_use,
            lookups: view_terms(lookups@),
            alternatives: Seq::empty(),
            failed: None,
        };
        let ghost all = view_meta_list(metas@);
        let mut i: usize = 0;
        assert(all.take(0) =~= Seq::<MetaView>::empty());
        while i < metas.len()
            invariant
                i <= metas@.len(),
                all == view_meta_list(metas@),
                self.wf(),
                self@.total_docs == old(self)@.total_docs,
                before == (TermExpansion {
                    in_use: old(self)@.in_use,
                    lookups: view_terms(old(lookups)@),
                    alternatives: Seq::empty(),
                    failed: None,
                }),
                self@.in_use == expand_fields(before, all.take(i as int), text@).in_use,
                view_terms(lookups@) == expand_fields(before, all.take(i as int), text@).lookups,
                alternatives@ == expand_fields(before, all.take(i as int), text@).alternatives,
                expand_fields(before, all.take(i as int), text@).failed is None,
            decreases metas@.len() - i,
        {
            let ghost now = expand_fields(before, all.take(i as int), text@);
            proof {
                assert(all.take(i + 1).drop_last() =~= all.take(i as int));
                assert(all.take(i + 1).last() == metas@[i as int]@);
                assert(expand_fields(before, all.take(i + 1), text@) == expand_field(now, metas@[i as int]@, text@));
            }
            match self.split_text(&metas[i], text) {
                Ok(tokens) => {
                    let ghost split = view_words(tokens@);
                    let start: usize = lookups.len();
                    append_terms(lookups, metas[i].id, tokens);
                    let end: usize = lookups.len();
                    assert(start == now.lookups.len());
                    assert(end == now.lookups.len() + split.len()) by {
                        assert(view_terms(lookups@).len() == lookups@.len());
                    }
                    if start < end {
                        alternatives.push((start, end));
                    }
                },
                Err(e) => {
                    proof {
                        lemma_failed_field_stays(before, all, text@, i + 1);
                    }
                    return Err(e);
                },
            }
            i = i + 1;
        }
        assert(all.take(i as int) =~= all);
        Ok(alternatives)
    }

    /// What a query asks for. A term of a field that the schema does not know is matched by no
    /// document; a term of which no field leaves anything asks for nothing. A field whose
    /// tokenizer has no analyzer is an error.
    pub fn expand_query(&mut self, query: &LexicalQuery, schema: &DynamicSchema) -> (r: Result<
        SearchPlan,
        AnalyzerError,
    >)
        requires
            old(self).wf(),
            schema.wf(),
        ensures
            final(self).wf(),
            final(self)@.total_docs == old(self)@.total_docs,
            ({
                let out = expand_terms(old(self)@.in_use, schema@.fields, view_query(query.terms@));
                &&& final(self)@.in_use == out.in_use
                &&& match out.failed {
                    None => r matches Ok(plan) && plan_matches(plan, out),
                    Some(t) => r matches Err(e) && t == (TokenizerType::Ngram { n: e.n }),
                }
            }),
    {
        let mut lookups: Vec<SearchTerm> = Vec::new();
        let mut terms: Vec<Vec<(usize, usize)>> = Vec::new();
        let ghost start = self@.in_use;
        let ghost all = view_query(query.terms@);
        let mut i: usize = 0;
        assert(all.take(0) =~= Seq::<TermView>::empty());
        assert(view_terms(lookups@) =~= Seq::<(u32, Seq<char>)>::empty());
        assert(view_alternatives(terms@) =~= Seq::<Seq<(usize, usize)>>::empty());
        while i < query.terms.len()
            invariant
                i <= query.terms@.len(),
                all == view_query(query.terms@),
                self.wf(),
                schema.wf(),
                start == old(self)@.in_use,
                self@.total_docs == old(self)@.total_docs,
                self@.in_use == expand_terms(start, schema@.fields, all.take(i as int)).in_use,
                view_terms(lookups@) == expand_terms(start, schema@.fields, all.take(i as int)).lookups,
                view_alternatives(terms@) == expand_terms(start, schema@.fields, all.take(i as int)).terms,
                stretches_fit(view_alternatives(terms@), lookups@.len()),
                expand_terms(start, schema@.fields, all.take(i as int)).failed is None,
            decreases query.terms@.len() - i,
        {
            let ghost now = expand_terms(start, schema@.fields, all.take(i as int));
            proof {
                assert(all.take(i + 1).drop_last() =~= all.take(i as int));
                assert(all.take(i + 1).last() == query.terms@[i as int]@);
            }
            let metas = fields_to_search(schema, &query.terms[i].field);
            match self.expand_term(&mut lookups, &metas, query.terms[i].text.as_str()) {
                Ok(alternatives) => {
                    proof {
                        assert(view_terms(lookups@).len() == lookups.len());
                        lemma_expanded_stretches(
                            term_start(now),
                            view_meta_list(metas@),
                            query.terms@[i as int].text@,
                        );
                    }
                    let ghost before = view_alternatives(terms@);
                    if alternatives.len() > 0 || metas.len() == 0 {
                        terms.push(alternatives);
                        assert(view_alternatives(terms@) =~= before.push(alternatives@));
                    }
                    assert(stretches_fit(view_alternatives(terms@), lookups@.len())) by {
                        assert forall|t: int, a: int|
                            0 <= t < view_alternatives(terms@).len() && 0 <= a < view_alternatives(
                                terms@,
                            )[t].len() implies (#[trigger] view_alternatives(terms@)[t][a]).0 < view_alternatives(
                            terms@,
                        )[t][a].1 <= lookups@.len() by {
                            if t < before.len() {
                                assert(before[t] == view_alternatives(terms@)[t]);
                                assert(before[t][a].1 <= now.lookups.len());
                            } else {
                                assert(view_alternatives(terms@)[t] == alternatives@);
                            }
                        }
                    }
                },
                Err(e) => {
                    proof {
                        lemma_failed_term_stays(start, schema@.fields, all, i + 1);
                    }
                    return Err(e);
                },
            }
            i = i + 1;
        }
        assert(all.take(i as int) =~= all);
        Ok(SearchPlan { lookups, terms })
    }

    /// What the text of a query asks for.
    pub fn begin_search(&mut self, query: &str, schema: &DynamicSchema) -> (r: Result<SearchPlan, SearchError>)
        requires
            old(self).wf(),
            schema.wf(),
        ensures
            final(self).wf(),
            final(self)@.total_docs == old(self)@.total_docs,
            ({
                let ws = words(query@);
                let out = expand_terms(old(self)@.in_use, schema@.fields, query_terms(query@));
                if ws.len() == 0 {
                    &&& r matches Err(SearchError::Query(QueryError::Empty))
                    &&& final(self)@.in_use == old(self)@.in_use
                } else if !all_terms(ws) {
                    &&& r matches Err(SearchError::Query(QueryError::InvalidTerm { term })) && exists|i: int|
                        0 <= i < ws.len() && (#[trigger] ws[i]) == term@ && term_of_word(ws[i]) is None && all_terms(
                            ws.take(i),
                        )
                    &&& final(self)@.in_use == old(self)@.in_use
                } else {
                    &&& final(self)@.in_use == out.in_use
                    &&& match out.failed {
                        None => r matches Ok(plan) && plan_matches(plan, out),
                        Some(t) => r matches Err(SearchError::Analyzer(e)) && t == (TokenizerType::Ngram { n: e.n }),
                    }
                }
            }),
    {
        let q = match parse_query(query) {
            Ok(q) => q,
            Err(e) => {
                return Err(SearchError::Query(e));
            },
        };
        proof {
            let ws = words(query@);
            assert(all_terms(ws) && ws.len() > 0);
            assert(view_query(q.terms@) =~= query_terms(query@)) by {
                assert forall|i: int| 0 <= i < ws.len() implies view_query(q.terms@)[i] == query_terms(query@)[i] by {
                    assert(Some(q.terms@[i]@) == term_of_word(ws[i]));
                }
            }
        }
        match self.expand_query(&q, schema) {
            Ok(plan) => Ok(plan),
            Err(e) => Err(SearchError::Analyzer(e)),
        }
    }
}

/// The plan is what a query was found to ask for.
pub open spec fn plan_matches(plan: SearchPlan, out: Expansion) -> bool {
    &&& view_terms(plan.lookups@) == out.lookups
    &&& view_alternatives(plan.terms@) == out.terms
    &&& stretches_fit(out.terms, out.lookups.len())
}

/// Appends terms that are looked up in one field.
fn append_terms(out: &mut Vec<SearchTerm>, field_id: u32, tokens: Vec<String>)
    ensures
        view_terms(final(out)@) == view_terms(old(out)@) + terms_in_field(field_id, view_words(tokens@)),
{
    let ghost before = view_terms(out@);
    let ghost all = terms_in_field(field_id, view_words(tokens@));
    let mut i: usize = 0;
    assert(view_terms(out@) =~= before + all.take(0));
    while i < tokens.len()
        invariant
            i <= tokens@.len(),
            all == terms_in_field(field_id, view_words(tokens@)),
            view_terms(out@) == before + all.take(i as int),
        decreases tokens@.len() - i,
    {
        let ghost now = view_terms(out@);
        out.push(SearchTerm { field_id, text: tokens[i].clone() });
        proof {
            assert(view_terms(out@) =~= now.push(all[i as int]));
            assert(view_terms(out@) =~= before + all.take(i + 1));
        }
        i = i + 1;
    }
    assert(all.take(i as int) =~= all);
}

/// A document with a term, and how often the term occurs in it.
#[derive(Clone, Copy, Debug, PartialEq, Eq, Structural)]
pub struct PostingHit {
    pub doc_id: u64,
    pub term_freq: u32,
}

/// The hits among stored entries, in order: deletions are passed over, and the first entry that
/// is not a posting is an error.
pub open spec fn hits_of(entries: Seq<(LsmKey, Option<Seq<u8>>)>) -> Result<Seq<PostingHit>, PostingError>
    decreases entries.len(),
{
    if entries.len() == 0 {
        Ok(Seq::empty())
    } else {
        match (hits_of(entries.drop_last()), entries.last().1) {
            (Ok(hits), Some(bytes)) => match decode_posting(bytes) {
                Ok(p) => Ok(hits.push(PostingHit { doc_id: entries.last().0.doc_id, term_freq: p.term_freq })),
                Err(e) => Err(e),
            },
            (before, _) => before,
        }
    }
}

proof fn lemma_error_stays(entries: Seq<(LsmKey, Option<Seq<u8>>)>, n: int)
    requires
        0 <= n <= entries.len(),
        hits_of(entries.take(n)) is Err,
    ensures
        hits_of(entries) == hits_of(entries.take(n)),
    decreases entries.len(),
{
    if n == entries.len() {
        assert(entries.take(n) =~= entries);
    } else {
        assert(entries.drop_last().take(n) =~= entries.take(n));
        lemma_error_stays(entries.drop_last(), n);
    }
}

/// The hits among the stored entries of a partition.
pub fn match_postings(entries: &Vec<(LsmKey, LsmValue)>) -> (r: Result<Vec<PostingHit>, PostingError>)
    ensures
        match hits_of(view_entries(entries@)) {
            Ok(hits) => r matches Ok(out) && out@ == hits,
            Err(e) => r matches Err(f) && f == e,
        },
{
    let mut out: Vec<PostingHit> = Vec::new();
    let ghost all = view_entries(entries@);
    let mut i: usize = 0;
    assert(all.take(0) =~= Seq::<(LsmKey, Option<Seq<u8>>)>::empty());
    while i < entries.len()
        invariant
            i <= entries@.len(),
            all == view_entries(entries@),
            hits_of(all.take(i as int)) == Ok::<Seq<PostingHit>, PostingError>(out@),
        decreases entries@.len() - i,
    {
        proof {
            assert(all.take(i + 1).drop_last() =~= all.take(i as int));
            assert(all.take(i + 1).last() == (entries@[i as int].0, entries@[i as int].1@));
        }
        if let LsmValue::Data(bytes) = &entries[i].1 {
            match Posting::decode(bytes.as_slice()) {
                Ok(p) => {
                    out.push(PostingHit { doc_id: entries[i].0.doc_id, term_freq: p.term_freq });
                },
                Err(e) => {
                    proof {
                        lemma_error_stays(all, i + 1);
                    }
                    return Err(e);
                },
            }
        }
        i = i + 1;
    }
    assert(all.take(i as int) =~= all);
    Ok(out)
}

/// A stored value is that of a document: it is there and not a deletion.
pub open spec fn is_live(value: Option<LsmValue>) -> bool {
    value matches Some(v) && v@ is Some
}

/// The hits whose documents are still there, in order.
pub open spec fn live_hits(hits: Seq<PostingHit>, docs: Seq<Option<LsmValue>>) -> Seq<PostingHit>
    decreases hits.len(),
{
    if hits.len() == 0 {
        Seq::empty()
    } else {
        let before = live_hits(hits.drop_last(), docs);
        if is_live(docs[hits.len() - 1]) {
            before.push(hits.last())
        } else {
            before
        }
    }
}

/// The hits whose documents are still there: `docs` holds what is stored under the document of
/// each hit.
pub fn keep_live(hits: &Vec<PostingHit>, docs: &Vec<Option<LsmValue>>) -> (out: Vec<PostingHit>)
    requires
        docs@.len() == hits@.len(),
    ensures
        out@ == live_hits(hits@, docs@),
{
    let mut out: Vec<PostingHit> = Vec::new();
    let ghost all = hits@;
    let mut i: usize = 0;
    assert(all.take(0) =~= Seq::<PostingHit>::empty());
    while i < hits.len()
        invariant
            i <= hits@.len(),
            all == hits@,
            docs@.len() == hits@.len(),
            out@ == live_hits(all.take(i as int), docs@),
        decreases hits@.len() - i,
    {
        proof {
            assert(all.take(i + 1).drop_last() =~= all.take(i as int));
        }
        if let Some(LsmValue::Data(_)) = &docs[i] {
            out.push(hits[i]);
        }
        i = i + 1;
    }
    assert(all.take(i as int) =~= all);
    out
}

/// The document has a hit.
pub open spec fn has_doc(hits: Seq<PostingHit>, doc_id: u64) -> bool {
    exists|i: int| 0 <= i < hits.len() && (#[trigger] hits[i]).doc_id == doc_id
}

/// The document has a hit for all of a stretch of what was looked up.
pub open spec fn in_stretch(hits: Seq<Vec<PostingHit>>, stretch: (usize, usize), doc_id: u64) -> bool {
    forall|i: int| stretch.0 <= i < stretch.1 ==> has_doc((#[trigger] hits[i])@, doc_id)
}

/// The document matches a term: one of its alternatives.
pub open spec fn matches_term(hits: Seq<Vec<PostingHit>>, alternatives: Seq<(usize, usize)>, doc_id: u64) -> bool {
    exists|a: int| 0 <= a < alternatives.len() && in_stretch(hits, #[trigger] alternatives[a], doc_id)
}

/// The document matches every term, and there are terms.
pub open spec fn in_all(hits: Seq<Vec<PostingHit>>, terms: Seq<Seq<(usize, usize)>>, doc_id: u64) -> bool {
    terms.len() > 0 && forall|t: int| 0 <= t < terms.len() ==> matches_term(hits, #[trigger] terms[t], doc_id)
}

/// Whether a document has a hit.
pub fn holds_doc(hits: &Vec<PostingHit>, doc_id: u64) -> (r: bool)
    ensures
        r == has_doc(hits@, doc_id),
{
    let mut i: usize = 0;
    while i < hits.len()
        invariant
            i <= hits@.len(),
            forall|k: int| 0 <= k < i ==> (#[trigger] hits@[k]).doc_id != doc_id,
        decreases hits@.len() - i,
    {
        if hits[i].doc_id == doc_id {
            return true;
        }
        i = i + 1;
    }
    false
}

/// Whether a document has a hit for all of a stretch of what was looked up.
fn holds_stretch(hits: &Vec<Vec<PostingHit>>, stretch: (usize, usize), doc_id: u64) -> (r: bool)
    requires
        stretch.0 < stretch.1 <= hits@.len(),
    ensures
        r == in_stretch(hits@, stretch, doc_id),
{
    let mut i: usize = stretch.0;
    while i < stretch.1
        invariant
            stretch.0 <= i <= stretch.1 <= hits@.len(),
            forall|k: int| stretch.0 <= k < i ==> has_doc((#[trigger] hits@[k])@, doc_id),
        decreases stretch.1 - i,
    {
        if !holds_doc(&hits[i], doc_id) {
            assert(!has_doc(hits@[i as int]@, doc_id));
            return false;
        }
        i = i + 1;
    }
    true
}

/// Whether a document matches a term.
fn holds_term(hits: &Vec<Vec<PostingHit>>, alternatives: &Vec<(usize, usize)>, doc_id: u64) -> (r: bool)
    requires
        forall|a: int|
            0 <= a < alternatives@.len() ==> (#[trigger] alternatives@[a]).0 < alternatives@[a].1 <= hits@.len(),
    ensures
        r == matches_term(hits@, alternatives@, doc_id),
{
    let mut a: usize = 0;
    while a < alternatives.len()
        invariant
            a <= alternatives@.len(),
            forall|k: int|
                0 <= k < alternatives@.len() ==> (#[trigger] alternatives@[k]).0 < alternatives@[k].1 <= hits@.len(),
            forall|k: int| 0 <= k < a ==> !in_stretch(hits@, #[trigger] alternatives@[k], doc_id),
        decreases alternatives@.len() - a,
    {
        if holds_stretch(hits, alternatives[a], doc_id) {
            return true;
        }
        a = a + 1;
    }
    false
}

/// Whether a document matches every term.
fn holds_all(hits: &Vec<Vec<PostingHit>>, terms: &Vec<Vec<(usize, usize)>>, doc_id: u64) -> (r: bool)
    requires
        stretches_fit(view_alternatives(terms@), hits@.len()),
        terms@.len() > 0,
    ensures
        r == in_all(hits@, view_alternatives(terms@), doc_id),
{
    let mut t: usize = 0;
    while t < terms.len()
        invariant
            t <= terms@.len(),
            stretches_fit(view_alternatives(terms@), hits@.len()),
            forall|k: int| 0 <= k < t ==> matches_term(hits@, #[trigger] view_alternatives(terms@)[k], doc_id),
        decreases terms@.len() - t,
    {
        proof {
            let alternatives = view_alternatives(terms@)[t as int];
            assert forall|a: int| 0 <= a < alternatives.len() implies (#[trigger] alternatives[a]).0
                < alternatives[a].1 <= hits@.len() by {
                assert(view_alternatives(terms@)[t as int][a] == alternatives[a]);
            }
        }
        if !holds_term(hits, &terms[t], doc_id) {
            assert(!matches_term(hits@, view_alternatives(terms@)[t as int], doc_id));
            return false;
        }
        t = t + 1;
    }
    true
}

/// Whether a list of documents holds one.
fn lists_doc(docs: &Vec<u64>, doc_id: u64) -> (r: bool)
    ensures
        r == docs@.contains(doc_id),
{
    let mut i: usize = 0;
    while i < docs.len()
        invariant
            i <= docs@.len(),
            forall|k: int| 0 <= k < i ==> docs@[k] != doc_id,
        decreases docs@.len() - i,
    {
        if docs[i] == doc_id {
            return true;
        }
        i = i + 1;
    }
    false
}

/// Appends the documents of hits that match every term, each once.
fn add_matching(
    docs: &mut Vec<u64>,
    found: &Vec<PostingHit>,
    hits: &Vec<Vec<PostingHit>>,
    terms: &Vec<Vec<(usize, usize)>>,
)
    requires
        old(docs)@.no_duplicates(),
        forall|k: int| 0 <= k < old(docs)@.len() ==> in_all(hits@, view_alternatives(terms@), #[trigger] old(docs)@[k]),
        stretches_fit(view_alternatives(terms@), hits@.len()),
        terms@.len() > 0,
    ensures
        final(docs)@.no_duplicates(),
        forall|k: int|
            0 <= k < final(docs)@.len() ==> in_all(hits@, view_alternatives(terms@), #[trigger] final(docs)@[k]),
        forall|d: u64| #[trigger] old(docs)@.contains(d) ==> final(docs)@.contains(d),
        forall|k: int|
            0 <= k < found@.len() && in_all(hits@, view_alternatives(terms@), (#[trigger] found@[k]).doc_id)
                ==> final(docs)@.contains(found@[k].doc_id),
{
    let ghost ts = view_alternatives(terms@);
    let ghost given = docs@;
    let mut i: usize = 0;
    while i < found.len()
        invariant
            i <= found@.len(),
            ts == view_alternatives(terms@),
            stretches_fit(ts, hits@.len()),
            terms@.len() > 0,
            docs@.no_duplicates(),
            forall|k: int| 0 <= k < docs@.len() ==> in_all(hits@, ts, #[trigger] docs@[k]),
            forall|d: u64| #[trigger] given.contains(d) ==> docs@.contains(d),
            forall|k: int|
                0 <= k < i && in_all(hits@, ts, (#[trigger] found@[k]).doc_id) ==> docs@.contains(found@[k].doc_id),
        decreases found@.len() - i,
    {
        let d: u64 = found[i].doc_id;
        let ghost before = docs@;
        let listed: bool = lists_doc(docs, d);
        if !listed && holds_all(hits, terms, d) {
            docs.push(d);
            proof {
                assert(docs@[before.len() as int] == d);
                assert forall|e: u64| before.contains(e) implies #[trigger] docs@.contains(e) by {
                    let j = choose|j: int| 0 <= j < before.len() && before[j] == e;
                    assert(docs@[j] == e);
                }
            }
        }
        i = i + 1;
    }
}

/// The documents that match every term, each once. `hits` holds the hits of what was looked up,
/// and `terms` the alternatives of the terms.
pub fn intersect_docs(hits: &Vec<Vec<PostingHit>>, terms: &Vec<Vec<(usize, usize)>>) -> (docs: Vec<u64>)
    requires
        stretches_fit(view_alternatives(terms@), hits@.len()),
    ensures
        docs@.no_duplicates(),
        forall|d: u64| #[trigger] docs@.contains(d) <==> in_all(hits@, view_alternatives(terms@), d),
{
    let mut docs: Vec<u64> = Vec::new();
    let ghost ts = view_alternatives(terms@);
    if terms.len() == 0 {
        return docs;
    }
    let first = &terms[0];
    let mut a: usize = 0;
    while a < first.len()
        invariant
            a <= first@.len(),
            ts == view_alternatives(terms@),
            stretches_fit(ts, hits@.len()),
            terms@.len() > 0,
            *first == terms@[0],
            docs@.no_duplicates(),
            forall|k: int| 0 <= k < docs@.len() ==> in_all(hits@, ts, #[trigger] docs@[k]),
            forall|b: int, d: u64|
                0 <= b < a && in_all(hits@, ts, d) && #[trigger] in_stretch(hits@, first@[b], d) ==> docs@.contains(d),
        decreases first@.len() - a,
    {
        let stretch: (usize, usize) = first[a];
        let ghost before = docs@;
        proof {
            assert(ts[0][a as int] == stretch);
        }
        add_matching(&mut docs, &hits[stretch.0], hits, terms);
        proof {
            assert forall|b: int, d: u64|
                0 <= b < a + 1 && in_all(hits@, ts, d) && #[trigger] in_stretch(hits@, first@[b], d) implies
                docs@.contains(d) by {
                if b < a {
                    assert(before.contains(d));
                } else {
                    let found = hits@[stretch.0 as int]@;
                    assert(has_doc(found, d));
                    let k = choose|k: int| 0 <= k < found.len() && (#[trigger] found[k]).doc_id == d;
                    assert(docs@.contains(found[k].doc_id));
                }
            }
        }
        a = a + 1;
    }
    proof {
        assert forall|d: u64| #[trigger] docs@.contains(d) <==> in_all(hits@, ts, d) by {
            if in_all(hits@, ts, d) {
                assert(matches_term(hits@, ts[0], d));
                let b = choose|b: int| 0 <= b < ts[0].len() && in_stretch(hits@, #[trigger] ts[0][b], d);
                assert(in_stretch(hits@, first@[b], d));
            }
        }
    }
    docs
}

/// How often a term occurs in a document, for each of its hits.
pub open spec fn freqs_of(hits: Seq<PostingHit>, doc_id: u64) -> Seq<u32>
    decreases hits.len(),
{
    if hits.len() == 0 {
        Seq::empty()
    } else {
        let before = freqs_of(hits.drop_last(), doc_id);
        if hits.last().doc_id == doc_id {
            before.push(hits.last().term_freq)
        } else {
            before
        }
    }
}

/// A document that matches every term: for all that was looked up, how often it occurs.
#[derive(Debug)]
pub struct MatchedDoc {
    pub doc_id: u64,
    pub freqs: Vec<Vec<u32>>,
}

/// The frequencies of a matched document are those of its hits, for all that was looked up.
pub open spec fn freqs_match(m: MatchedDoc, hits: Seq<Vec<PostingHit>>) -> bool {
    &&& m.freqs@.len() == hits.len()
    &&& forall|i: int| 0 <= i < hits.len() ==> (#[trigger] m.freqs@[i])@ == freqs_of(hits[i]@, m.doc_id)
}

/// How often a term occurs in a document, for each of its hits.
fn doc_freqs(hits: &Vec<PostingHit>, doc_id: u64) -> (freqs: Vec<u32>)
    ensures
        freqs@ == freqs_of(hits@, doc_id),
{
    let mut freqs: Vec<u32> = Vec::new();
    let ghost all = hits@;
    let mut i: usize = 0;
    assert(all.take(0) =~= Seq::<PostingHit>::empty());
    while i < hits.len()
        invariant
            i <= hits@.len(),
            all == hits@,
            freqs@ == freqs_of(all.take(i as int), doc_id),
        decreases hits@.len() - i,
    {
        assert(all.take(i + 1).drop_last() =~= all.take(i as int));
        if hits[i].doc_id == doc_id {
            freqs.push(hits[i].term_freq);
        }
        i = i + 1;
    }
    assert(all.take(i as int) =~= all);
    freqs
}

/// The documents that match every term, each once, with the frequencies of all that was looked up.
pub fn matched_docs(hits: &Vec<Vec<PostingHit>>, terms: &Vec<Vec<(usize, usize)>>) -> (out: Vec<MatchedDoc>)
    requires
        stretches_fit(view_alternatives(terms@), hits@.len()),
    ensures
        forall|i: int, j: int| 0 <= i < j < out@.len() ==> (#[trigger] out@[i]).doc_id != (#[trigger] out@[j]).doc_id,
        forall|i: int|
            0 <= i < out@.len() ==> in_all(hits@, view_alternatives(terms@), (#[trigger] out@[i]).doc_id)
                && freqs_match(out@[i], hits@),
        forall|d: u64| #[trigger]
            in_all(hits@, view_alternatives(terms@), d) ==> exists|i: int|
                0 <= i < out@.len() && (#[trigger] out@[i]).doc_id == d,
{
    let docs = intersect_docs(hits, terms);
    let ghost ts = view_alternatives(terms@);
    let mut out: Vec<MatchedDoc> = Vec::new();
    let mut i: usize = 0;
    while i < docs.len()
        invariant
            i <= docs@.len(),
            out@.len() == i,
            forall|k: int| 0 <= k < i ==> (#[trigger] out@[k]).doc_id == docs@[k] && freqs_match(out@[k], hits@),
        decreases docs@.len() - i,
    {
        let doc_id: u64 = docs[i];
        let mut freqs: Vec<Vec<u32>> = Vec::new();
        let mut t: usize = 0;
        while t < hits.len()
            invariant
                t <= hits@.len(),
                freqs@.len() == t,
                forall|u: int| 0 <= u < t ==> (#[trigger] freqs@[u])@ == freqs_of(hits@[u]@, doc_id),
            decreases hits@.len() - t,
        {
            freqs.push(doc_freqs(&hits[t], doc_id));
            t = t + 1;
        }
        out.push(MatchedDoc { doc_id, freqs });
        i = i + 1;
    }
    proof {
        assert forall|k: int| 0 <= k < out@.len() implies in_all(hits@, ts, (#[trigger] out@[k]).doc_id) by {
            assert(docs@.contains(docs@[k]));
        }
        assert forall|d: u64| #[trigger] in_all(hits@, ts, d) implies exists|k: int|
            0 <= k < out@.len() && (#[trigger] out@[k]).doc_id == d by {
            assert(docs@.contains(d));
            let k = choose|k: int| 0 <= k < docs@.len() && docs@[k] == d;
            assert(out@[k].doc_id == d);
        }
    }
    out
}

/// The key under which the statistics of the lexical index are stored.
pub open spec fn stats_key() -> LsmKey {
    LsmKey { namespace: NS_LEXICAL_STATS, partition_or_segment: 0, doc_id: 0, lsn: 0 }
}

/// The key under which the statistics of the lexical index are stored.
pub fn lexical_stats_key() -> (key: LsmKey)
    ensures
        key == stats_key(),
{
    LsmKey { namespace: NS_LEXICAL_STATS, partition_or_segment: 0, doc_id: 0, lsn: 0 }
}

/// The number of documents that the stored statistics tell.
pub fn read_total_docs(value: &Option<LsmValue>) -> (n: u64)
    ensures
        n == stored_number(read_bytes(*value)),
{
    read_number(value)
}

impl LexicalEngine {
    /// The entry that stores the number of documents.
    pub fn stats_entry(&self) -> (entry: (LsmKey, LsmValue))
        ensures
            entry.0 == stats_key(),
            entry.1@ == Some(be_bytes(self@.total_docs as nat, 8)),
    {
        (lexical_stats_key(), number_value(self.total_docs()))
    }
}

} // verus!
