//! What holds of indexing and searching together.

use vstd::prelude::*;
use vstd::utf8::encode_utf8;

use crate::field_map::{entered, has_name, names_distinct, position_of, value_under};
use crate::lexical::analyzer::term_positions;
use crate::lexical::posting::{law_posting_round_trip, posting_bytes, PostingError};
use crate::lexical::search::{expand_field, expand_fields, has_doc, hits_of, is_live, live_hits, terms_in_field};
use crate::lexical::search::{PostingHit, TermExpansion};
use crate::lexical::value::{indexed_text, taken_whole};
use crate::lexical::{analyze_field, analyze_text, chosen_tokenizer, field_tokens, occurrence_entries, occurrence_posting};
use crate::lexical::{text_terms, Analysis, OccurrenceView};
use crate::json::Json;
use crate::schema::field::MetaView;
use crate::storage::key::LsmValue;

verus! {

/// The positions ascend, and they are those of the tokens that are the term.
pub open spec fn positions_exact(tokens: Seq<Seq<char>>, term: Seq<char>, positions: Seq<u32>) -> bool {
    &&& forall|a: int, b: int| 0 <= a < b < positions.len() ==> (#[trigger] positions[a]) < (#[trigger] positions[b])
    &&& forall|a: int|
        0 <= a < positions.len() ==> (#[trigger] positions[a]) < tokens.len() && tokens[positions[a] as int] == term
    &&& forall|i: int|
        0 <= i < tokens.len() && (#[trigger] tokens[i]) == term ==> positions.contains(i as u32)
}

/// Every term of a text is listed once, with exactly the positions at which it occurs, in
/// ascending order; nothing else is listed.
pub proof fn law_positions_are_exact(tokens: Seq<Seq<char>>)
    requires
        tokens.len() <= 0x1_0000_0000,
    ensures
        names_distinct(term_positions(tokens)),
        forall|i: int| 0 <= i < tokens.len() ==> has_name(term_positions(tokens), #[trigger] tokens[i]),
        forall|k: int|
            0 <= k < term_positions(tokens).len() ==> positions_exact(
                tokens,
                (#[trigger] term_positions(tokens)[k]).0,
                term_positions(tokens)[k].1,
            ) && term_positions(tokens)[k].1.len() > 0,
    decreases tokens.len(),
{
    if tokens.len() > 0 {
        let init = tokens.drop_last();
        law_positions_are_exact(init);
        let before = term_positions(init);
        let after = term_positions(tokens);
        let term = tokens.last();
        let at = (tokens.len() - 1) as u32;
        assert((tokens.len() - 1) % 0x1_0000_0000 == tokens.len() - 1);
        let n = if has_name(before, term) {
            position_of(before, term)
        } else {
            before.len() as int
        };
        let grown = if has_name(before, term) {
            before[n].1.push(at)
        } else {
            seq![at]
        };
        assert(after == entered(before, term, grown));
        assert(after[n] == (term, grown));
        assert forall|k: int| 0 <= k < after.len() implies positions_exact(
            tokens,
            (#[trigger] after[k]).0,
            after[k].1,
        ) && after[k].1.len() > 0 by {
            if k == n {
                assert(grown.drop_last() =~= if has_name(before, term) {
                    before[n].1
                } else {
                    Seq::empty()
                });
                assert forall|i: int| 0 <= i < tokens.len() - 1 && !has_name(before, term) implies (
                #[trigger] tokens[i]) != term by {
                    assert(has_name(before, init[i]));
                }
                lemma_last_position(tokens, term, grown, has_name(before, term));
            } else {
                assert(after[k] == before[k]);
                assert(after[k].0 != term);
                let ps = after[k].1;
                assert forall|i: int| 0 <= i < tokens.len() && (#[trigger] tokens[i]) == after[k].0 implies ps.contains(
                    i as u32,
                ) by {
                    assert(init[i] == tokens[i]);
                }
                assert forall|a: int| 0 <= a < ps.len() implies (#[trigger] ps[a]) < tokens.len()
                    && tokens[ps[a] as int] == after[k].0 by {
                    assert(init[ps[a] as int] == tokens[ps[a] as int]);
                }
            }
        }
        assert forall|i: int| 0 <= i < tokens.len() implies has_name(after, #[trigger] tokens[i]) by {
            if i < init.len() && tokens[i] != term {
                assert(has_name(before, init[i]));
                let k = choose|k: int| 0 <= k < before.len() && (#[trigger] before[k]).0 == init[i];
                assert(after[k].0 == tokens[i]);
            } else {
                assert(after[n].0 == tokens[i]);
            }
        }
        assert forall|i: int, j: int| 0 <= i < j < after.len() implies (#[trigger] after[i]).0 != (
        #[trigger] after[j]).0 by {
            if j < before.len() {
                assert(before[i].0 == after[i].0 && before[j].0 == after[j].0);
            } else {
                assert(before[i].0 == after[i].0);
            }
        }
    }
}

proof fn lemma_last_position(tokens: Seq<Seq<char>>, term: Seq<char>, grown: Seq<u32>, known: bool)
    requires
        0 < tokens.len() <= 0x1_0000_0000,
        term == tokens.last(),
        grown.len() > 0,
        grown.last() == (tokens.len() - 1) as u32,
        known ==> positions_exact(tokens.drop_last(), term, grown.drop_last()),
        !known ==> grown.len() == 1 && forall|i: int| 0 <= i < tokens.len() - 1 ==> (#[trigger] tokens[i]) != term,
    ensures
        positions_exact(tokens, term, grown),
{
    let init = tokens.drop_last();
    let old_positions = grown.drop_last();
    assert forall|a: int| 0 <= a < grown.len() implies (#[trigger] grown[a]) < tokens.len()
        && tokens[grown[a] as int] == term by {
        if a < grown.len() - 1 {
            assert(old_positions[a] == grown[a]);
            assert(init[grown[a] as int] == tokens[grown[a] as int]);
        }
    }
    assert forall|a: int, b: int| 0 <= a < b < grown.len() implies (#[trigger] grown[a]) < (#[trigger] grown[b]) by {
        assert(old_positions[a] == grown[a]);
        if b < grown.len() - 1 {
            assert(old_positions[b] == grown[b]);
        }
    }
    assert forall|i: int| 0 <= i < tokens.len() && (#[trigger] tokens[i]) == term implies grown.contains(i as u32) by {
        if i < init.len() {
            assert(init[i] == term);
            assert(old_positions.contains(i as u32));
            let a = choose|a: int| 0 <= a < old_positions.len() && old_positions[a] == i as u32;
            assert(grown[a] == i as u32);
        } else {
            assert(grown[grown.len() - 1] == i as u32);
        }
    }
}

/// The sizes of an occurrence fit the length fields of a posting.
pub open spec fn occurrence_fits(o: OccurrenceView) -> bool {
    encode_utf8(o.term).len() < 0x1_0000_0000 && o.positions.len() < 0x1_0000_0000
}

/// The entries by which a document is added are matched again: every occurrence is a hit of the
/// document, with as many occurrences as it has positions.
#[verifier::rlimit(40)]
pub proof fn law_indexed_terms_are_matched(terms: Seq<OccurrenceView>, doc_id: u64, partitions: Seq<u32>)
    requires
        partitions.len() == terms.len(),
        forall|i: int| 0 <= i < terms.len() ==> occurrence_fits(#[trigger] terms[i]),
    ensures
        hits_of(occurrence_entries(terms, doc_id, partitions)) == Ok::<Seq<PostingHit>, PostingError>(
            Seq::new(
                terms.len(),
                |i: int| PostingHit { doc_id, term_freq: terms[i].positions.len() as u32 },
            ),
        ),
    decreases terms.len(),
{
    let entries = occurrence_entries(terms, doc_id, partitions);
    let hits = Seq::new(terms.len(), |i: int| PostingHit { doc_id, term_freq: terms[i].positions.len() as u32 });
    if terms.len() == 0 {
        assert(hits =~= Seq::<PostingHit>::empty());
    } else {
        let init = terms.drop_last();
        law_indexed_terms_are_matched(init, doc_id, partitions.drop_last());
        assert(entries.drop_last() =~= occurrence_entries(init, doc_id, partitions.drop_last()));
        let o = terms.last();
        assert(occurrence_fits(terms[terms.len() - 1]));
        let p = occurrence_posting(o, doc_id);
        law_posting_round_trip(p, Seq::empty());
        assert(posting_bytes(p) + Seq::<u8>::empty() =~= posting_bytes(p));
        assert(entries.last().1 == Some(posting_bytes(p)));
        let before = Seq::new(
            init.len(),
            |i: int| PostingHit { doc_id, term_freq: init[i].positions.len() as u32 },
        );
        assert(before.push(PostingHit { doc_id, term_freq: p.term_freq }) =~= hits);
    }
}

/// A document that was deleted is not found any more, though its postings are still there; every
/// other document is. `docs` holds what is stored under the document of each hit.
pub proof fn law_deleted_documents_are_not_found(hits: Seq<PostingHit>, docs: Seq<Option<LsmValue>>, doc_id: u64)
    requires
        docs.len() == hits.len(),
    ensures
        has_doc(live_hits(hits, docs), doc_id) <==> exists|i: int|
            0 <= i < hits.len() && (#[trigger] hits[i]).doc_id == doc_id && is_live(docs[i]),
        forall|i: int| 0 <= i < hits.len() && is_live(docs[i]) ==> live_hits(hits, docs).contains(#[trigger] hits[i]),
        forall|k: int| 0 <= k < live_hits(hits, docs).len() ==> hits.contains(#[trigger] live_hits(hits, docs)[k]),
    decreases hits.len(),
{
    if hits.len() > 0 {
        let init = hits.drop_last();
        let n = hits.len() - 1;
        let before = live_hits(init, docs);
        let out = live_hits(hits, docs);
        law_deleted_documents_are_not_found(init, docs.take(n), doc_id);
        lemma_live_prefix(init, docs, docs.take(n));
        assert forall|i: int| 0 <= i < hits.len() && is_live(docs[i]) implies out.contains(#[trigger] hits[i]) by {
            if i < n {
                assert(docs.take(n)[i] == docs[i]);
                assert(before.contains(init[i]));
                let k = choose|k: int| 0 <= k < before.len() && before[k] == init[i];
                assert(out[k] == hits[i]);
            } else {
                assert(out[out.len() - 1] == hits[i]);
            }
        }
        assert forall|k: int| 0 <= k < out.len() implies hits.contains(#[trigger] out[k]) by {
            if k < before.len() {
                assert(init.contains(before[k]));
                let i = choose|i: int| 0 <= i < init.len() && init[i] == before[k];
                assert(hits[i] == out[k]);
            } else {
                assert(hits[n] == out[k]);
            }
        }
        if has_doc(out, doc_id) {
            let k = choose|k: int| 0 <= k < out.len() && (#[trigger] out[k]).doc_id == doc_id;
            if k < before.len() {
                assert(before[k].doc_id == doc_id);
                assert(has_doc(before, doc_id));
                let i = choose|i: int|
                    0 <= i < init.len() && (#[trigger] init[i]).doc_id == doc_id && is_live(docs.take(n)[i]);
                assert(hits[i].doc_id == doc_id && is_live(docs[i]));
            } else {
                assert(hits[n].doc_id == doc_id);
            }
        }
        if exists|i: int| 0 <= i < hits.len() && (#[trigger] hits[i]).doc_id == doc_id && is_live(docs[i]) {
            let i = choose|i: int| 0 <= i < hits.len() && (#[trigger] hits[i]).doc_id == doc_id && is_live(docs[i]);
            assert(out.contains(hits[i]));
            let k = choose|k: int| 0 <= k < out.len() && out[k] == hits[i];
            assert(out[k].doc_id == doc_id);
        }
    }
}

pub(crate) proof fn lemma_live_prefix(hits: Seq<PostingHit>, a: Seq<Option<LsmValue>>, b: Seq<Option<LsmValue>>)
    requires
        hits.len() <= a.len(),
        hits.len() <= b.len(),
        forall|i: int| 0 <= i < hits.len() ==> (#[trigger] a[i]) == b[i],
    ensures
        live_hits(hits, a) == live_hits(hits, b),
    decreases hits.len(),
{
    if hits.len() > 0 {
        lemma_live_prefix(hits.drop_last(), a, b);
        assert(a[hits.len() - 1] == b[hits.len() - 1]);
    }
}

/// A term of a field is among occurrences.
pub open spec fn is_listed(occurrences: Seq<OccurrenceView>, term: (u32, Seq<char>)) -> bool {
    exists|k: int|
        0 <= k < occurrences.len() && (#[trigger] occurrences[k]).field_id == term.0 && occurrences[k].term == term.1
}

/// A query splits its text as the documents' values are split: a field keeps the tokenizer that it
/// was indexed with, and what the text of a value asks for in a field are the terms under which a
/// document with that value in the field is indexed. This goes for texts, and for numbers, truth
/// values and dates, which are one term each.
pub proof fn law_query_asks_for_indexed_terms(
    indexed: Analysis,
    schema: Seq<(Seq<char>, MetaView)>,
    name: Seq<char>,
    value: Json,
    text: Seq<char>,
)
    requires
        value_under(schema, name) is Some,
        (value_under(schema, name)->0).index_lexical,
        indexed_text((value_under(schema, name)->0).data_type, value) == Some(text),
        indexed.failed is None,
        analyze_field(indexed, schema, name, value).failed is None,
    ensures
        ({
            let meta = value_under(schema, name)->0;
            let after = analyze_field(indexed, schema, name, value);
            let asked = expand_field(
                TermExpansion {
                    in_use: after.in_use,
                    lookups: Seq::empty(),
                    alternatives: Seq::empty(),
                    failed: None,
                },
                meta,
                text,
            );
            let tokens = field_tokens(indexed.in_use, meta, text);
            &&& asked.failed is None
            &&& asked.in_use == after.in_use
            &&& asked.lookups == terms_in_field(meta.id, tokens)
            &&& after.terms == indexed.terms + text_terms(meta.id, tokens)
            &&& forall|i: int|
                0 <= i < asked.lookups.len() ==> is_listed(text_terms(meta.id, tokens), #[trigger] asked.lookups[i])
        }),
{
    let meta = value_under(schema, name)->0;
    let after = analyze_field(indexed, schema, name, value);
    let t = chosen_tokenizer(indexed.in_use, meta.id, meta.tokenizer);
    let start = TermExpansion {
        in_use: after.in_use,
        lookups: Seq::empty(),
        alternatives: Seq::empty(),
        failed: None,
    };
    let asked = expand_field(start, meta, text);
    let tokens = field_tokens(indexed.in_use, meta, text);
    assert(after == analyze_text(indexed, meta, text));
    if !taken_whole(meta.data_type) {
        assert(after.in_use == indexed.in_use.insert(meta.id, t));
        assert(chosen_tokenizer(after.in_use, meta.id, meta.tokenizer) == t);
        assert(after.in_use.insert(meta.id, t) =~= after.in_use);
    }
    assert(asked.lookups =~= terms_in_field(meta.id, tokens));
    let listed = text_terms(meta.id, tokens);
    let found = term_positions(tokens);
    assert forall|i: int| 0 <= i < asked.lookups.len() implies is_listed(listed, #[trigger] asked.lookups[i]) by {
        lemma_tokens_listed(tokens, i);
        let k = choose|k: int| 0 <= k < found.len() && (#[trigger] found[k]).0 == tokens[i];
        assert(listed[k].term == tokens[i]);
    }
}

pub(crate) proof fn lemma_tokens_listed(tokens: Seq<Seq<char>>, i: int)
    requires
        0 <= i < tokens.len(),
    ensures
        has_name(term_positions(tokens), tokens[i]),
    decreases tokens.len(),
{
    let init = tokens.drop_last();
    let before = term_positions(init);
    let after = term_positions(tokens);
    if tokens[i] == tokens.last() {
        let n = if has_name(before, tokens.last()) {
            position_of(before, tokens.last())
        } else {
            before.len() as int
        };
        assert(after[n].0 == tokens[i]);
    } else {
        lemma_tokens_listed(init, i);
        assert(has_name(before, init[i]));
        let k = choose|k: int| 0 <= k < before.len() && (#[trigger] before[k]).0 == init[i];
        assert(after[k].0 == tokens[i]);
    }
}

/// The stretch holds what a field has to have for a text: all that the text is split into.
pub open spec fn asks_in_field(
    out: TermExpansion,
    stretch: (usize, usize),
    meta: MetaView,
    text: Seq<char>,
) -> bool {
    let tokens = field_tokens(out.in_use, meta, text);
    &&& 0 < tokens.len()
    &&& stretch.0 < stretch.1 <= out.lookups.len()
    &&& out.lookups.subrange(stretch.0 as int, stretch.1 as int) == terms_in_field(meta.id, tokens)
}

/// How texts are split in the field is settled.
pub open spec fn is_settled(out: TermExpansion, meta: MetaView) -> bool {
    taken_whole(meta.data_type) || out.in_use.contains_key(meta.id)
}

/// One of the alternatives asks for the text in the field.
pub open spec fn is_asked(out: TermExpansion, meta: MetaView, text: Seq<char>) -> bool {
    exists|a: int| 0 <= a < out.alternatives.len() && asks_in_field(out, #[trigger] out.alternatives[a], meta, text)
}

/// The stretch asks for the text in one of the fields.
pub open spec fn asks_in_one(
    out: TermExpansion,
    stretch: (usize, usize),
    metas: Seq<MetaView>,
    text: Seq<char>,
) -> bool {
    exists|j: int| 0 <= j < metas.len() && asks_in_field(out, stretch, #[trigger] metas[j], text)
}

proof fn lemma_asked_stays(now: TermExpansion, meta: MetaView, text: Seq<char>, stretch: (usize, usize), known: MetaView)
    requires
        now.failed is None,
        expand_field(now, meta, text).failed is None,
        is_settled(now, known),
        asks_in_field(now, stretch, known, text),
    ensures
        asks_in_field(expand_field(now, meta, text), stretch, known, text),
{
    let out = expand_field(now, meta, text);
    assert(field_tokens(out.in_use, known, text) == field_tokens(now.in_use, known, text));
    assert(out.lookups.subrange(stretch.0 as int, stretch.1 as int) =~= now.lookups.subrange(
        stretch.0 as int,
        stretch.1 as int,
    ));
}

proof fn lemma_new_is_asked(now: TermExpansion, meta: MetaView, text: Seq<char>)
    requires
        now.failed is None,
        expand_field(now, meta, text).failed is None,
        expand_field(now, meta, text).lookups.len() <= usize::MAX,
    ensures
        ({
            let out = expand_field(now, meta, text);
            &&& field_tokens(out.in_use, meta, text).len() == 0 ==> out.alternatives == now.alternatives
            &&& field_tokens(out.in_use, meta, text).len() > 0 ==> out.alternatives.len() == now.alternatives.len() + 1
                && out.alternatives.drop_last() == now.alternatives && asks_in_field(
                out,
                out.alternatives.last(),
                meta,
                text,
            )
        }),
{
    let out = expand_field(now, meta, text);
    let tokens = field_tokens(now.in_use, meta, text);
    assert(field_tokens(out.in_use, meta, text) == tokens);
    if tokens.len() > 0 {
        let stretch = out.alternatives.last();
        assert(out.alternatives.drop_last() =~= now.alternatives);
        assert(out.lookups.subrange(stretch.0 as int, stretch.1 as int) =~= terms_in_field(meta.id, tokens));
    }
}

/// A field leaves something of a text.
pub open spec fn leaves_some(out: TermExpansion, meta: MetaView, text: Seq<char>) -> bool {
    field_tokens(out.in_use, meta, text).len() > 0
}

proof fn lemma_asked_field(now: TermExpansion, init: Seq<MetaView>, meta: MetaView, text: Seq<char>, j: int)
    requires
        now.failed is None,
        expand_field(now, meta, text).failed is None,
        expand_field(now, meta, text).lookups.len() <= usize::MAX,
        0 <= j <= init.len(),
        leaves_some(expand_field(now, meta, text), init.push(meta)[j], text),
        j < init.len() ==> is_settled(now, init[j]) && (leaves_some(now, init[j], text) ==> is_asked(
            now,
            init[j],
            text,
        )),
    ensures
        is_asked(expand_field(now, meta, text), init.push(meta)[j], text),
{
    let out = expand_field(now, meta, text);
    lemma_new_is_asked(now, meta, text);
    if j < init.len() {
        assert(field_tokens(out.in_use, init[j], text) == field_tokens(now.in_use, init[j], text));
        let a = choose|a: int|
            0 <= a < now.alternatives.len() && asks_in_field(now, #[trigger] now.alternatives[a], init[j], text);
        lemma_asked_stays(now, meta, text, now.alternatives[a], init[j]);
        assert(out.alternatives[a] == now.alternatives[a]);
    } else {
        assert(asks_in_field(out, out.alternatives[out.alternatives.len() - 1], meta, text));
    }
}

proof fn lemma_asking_stretch(now: TermExpansion, init: Seq<MetaView>, meta: MetaView, text: Seq<char>, a: int)
    requires
        now.failed is None,
        expand_field(now, meta, text).failed is None,
        expand_field(now, meta, text).lookups.len() <= usize::MAX,
        0 <= a < expand_field(now, meta, text).alternatives.len(),
        forall|j: int| 0 <= j < init.len() ==> is_settled(now, #[trigger] init[j]),
        a < now.alternatives.len() ==> asks_in_one(now, now.alternatives[a], init, text),
    ensures
        asks_in_one(expand_field(now, meta, text), expand_field(now, meta, text).alternatives[a], init.push(meta), text),
{
    let out = expand_field(now, meta, text);
    lemma_new_is_asked(now, meta, text);
    if a < now.alternatives.len() {
        let j = choose|j: int|
            0 <= j < init.len() && asks_in_field(now, now.alternatives[a], #[trigger] init[j], text);
        lemma_asked_stays(now, meta, text, now.alternatives[a], init[j]);
        assert(out.alternatives[a] == now.alternatives[a]);
        assert(init.push(meta)[j] == init[j]);
    } else {
        assert(init.push(meta)[init.len() as int] == meta);
    }
}

/// A term may stand in any of the fields in which it is searched: every field that leaves
/// something of the text is an alternative, which asks for all that the text is split into there,
/// and there are no other alternatives.
pub proof fn law_term_may_stand_in_any_field(before: TermExpansion, metas: Seq<MetaView>, text: Seq<char>)
    requires
        before.alternatives.len() == 0,
        expand_fields(before, metas, text).failed is None,
        expand_fields(before, metas, text).lookups.len() <= usize::MAX,
    ensures
        ({
            let out = expand_fields(before, metas, text);
            &&& forall|j: int| 0 <= j < metas.len() ==> is_settled(out, #[trigger] metas[j])
            &&& forall|j: int|
                0 <= j < metas.len() && leaves_some(out, #[trigger] metas[j], text) ==> is_asked(out, metas[j], text)
            &&& forall|a: int|
                0 <= a < out.alternatives.len() ==> asks_in_one(out, #[trigger] out.alternatives[a], metas, text)
        }),
    decreases metas.len(),
{
    if metas.len() > 0 {
        let init = metas.drop_last();
        let meta = metas.last();
        let now = expand_fields(before, init, text);
        let out = expand_field(now, meta, text);
        assert(out == expand_fields(before, metas, text));
        assert(init.push(meta) =~= metas);
        law_term_may_stand_in_any_field(before, init, text);
        assert forall|j: int| 0 <= j < metas.len() implies is_settled(out, #[trigger] metas[j]) by {
            assert(j < init.len() ==> metas[j] == init[j]);
        }
        assert forall|j: int| 0 <= j < metas.len() && leaves_some(out, #[trigger] metas[j], text) implies is_asked(
            out,
            metas[j],
            text,
        ) by {
            assert(j < init.len() ==> metas[j] == init[j]);
            lemma_asked_field(now, init, meta, text, j);
        }
        assert forall|a: int| 0 <= a < out.alternatives.len() implies asks_in_one(
            out,
            #[trigger] out.alternatives[a],
            metas,
            text,
        ) by {
            lemma_asking_stretch(now, init, meta, text, a);
        }
    }
}

} // verus!
