//! What holds of the terms under which a document is indexed: how texts are split, which of them
//! are listed, and what is stored of them.

use vstd::prelude::*;

use crate::field_map::{has_name, position_of, value_under};
use crate::json::Json;
use crate::lexical::analyzer::{is_alphanumeric, lowercased, marked_runs, simple_tokens, term_positions, valid_tokenizer};
use crate::lexical::laws::{occurrence_fits, law_positions_are_exact, lemma_tokens_listed, positions_exact};
use crate::lexical::posting::{decode_posting, law_posting_round_trip, posting_bytes};
use crate::lexical::value::{indexed_text, taken_whole};
use crate::lexical::{analyze_doc, analyze_field, analyze_text, chosen_tokenizer, field_tokens, text_terms};
use crate::lexical::{has_one_hash, in_partition, is_term_hash, occurrence_entry, occurrence_posting};
use crate::lexical::{Analysis, OccurrenceView, PARTITION_SEED};
use crate::schema::field::MetaView;
use crate::schema::TokenizerType;

verus! {

/// The schema knows the field and wants it in the lexical index, and its value stands there by a
/// text.
pub open spec fn is_indexed(schema: Seq<(Seq<char>, MetaView)>, field: (Seq<char>, Json)) -> bool {
    &&& value_under(schema, field.0) is Some
    &&& (value_under(schema, field.0)->0).index_lexical
    &&& indexed_text((value_under(schema, field.0)->0).data_type, field.1) is Some
}

/// What the schema says of a field of a document.
pub open spec fn meta_of(schema: Seq<(Seq<char>, MetaView)>, field: (Seq<char>, Json)) -> MetaView {
    value_under(schema, field.0)->0
}

/// The terms that the value of a field is split into.
pub open spec fn value_tokens(
    in_use: Map<u32, TokenizerType>,
    schema: Seq<(Seq<char>, MetaView)>,
    field: (Seq<char>, Json),
) -> Seq<Seq<char>> {
    let meta = meta_of(schema, field);
    field_tokens(in_use, meta, indexed_text(meta.data_type, field.1)->0)
}

/// The occurrence is that of a term of a field: it stands under the number of the field, and its
/// positions are those of the term.
pub open spec fn is_occurrence(o: OccurrenceView, field_id: u32, tokens: Seq<Seq<char>>) -> bool {
    &&& o.field_id == field_id
    &&& tokens.contains(o.term)
    &&& tokens.len() <= 0x1_0000_0000 ==> positions_exact(tokens, o.term, o.positions)
}

/// The term number `j` of a field is listed.
pub open spec fn lists_token(terms: Seq<OccurrenceView>, field_id: u32, tokens: Seq<Seq<char>>, j: int) -> bool {
    exists|k: int|
        0 <= k < terms.len() && (#[trigger] terms[k]).term == tokens[j] && is_occurrence(terms[k], field_id, tokens)
}

/// Every term of a field is listed.
pub open spec fn lists_tokens(terms: Seq<OccurrenceView>, field_id: u32, tokens: Seq<Seq<char>>) -> bool {
    forall|j: int| 0 <= j < tokens.len() ==> #[trigger] lists_token(terms, field_id, tokens, j)
}

/// The occurrence is that of a term of a field of a document that is indexed.
pub open spec fn comes_of_document(
    out: Analysis,
    schema: Seq<(Seq<char>, MetaView)>,
    doc: Seq<(Seq<char>, Json)>,
    o: OccurrenceView,
) -> bool {
    exists|i: int|
        0 <= i < doc.len() && is_indexed(schema, #[trigger] doc[i]) && is_occurrence(
            o,
            meta_of(schema, doc[i]).id,
            value_tokens(out.in_use, schema, doc[i]),
        )
}

/// How texts are split in the field is settled, in a way that there is an analyzer for.
pub open spec fn is_split_settled(in_use: Map<u32, TokenizerType>, meta: MetaView) -> bool {
    taken_whole(meta.data_type) || (in_use.contains_key(meta.id) && valid_tokenizer(in_use[meta.id]))
}

proof fn lemma_found_terms(tokens: Seq<Seq<char>>, k: int)
    requires
        0 <= k < term_positions(tokens).len(),
    ensures
        tokens.contains(term_positions(tokens)[k].0),
    decreases tokens.len(),
{
    let init = tokens.drop_last();
    let before = term_positions(init);
    let after = term_positions(tokens);
    let term = tokens.last();
    let n = if has_name(before, term) {
        position_of(before, term)
    } else {
        before.len() as int
    };
    if k == n {
        assert(after[k].0 == term);
        assert(tokens[tokens.len() - 1] == term);
    } else {
        assert(after[k] == before[k]);
        lemma_found_terms(init, k);
        let i = choose|i: int| 0 <= i < init.len() && init[i] == before[k].0;
        assert(tokens[i] == after[k].0);
    }
}

proof fn lemma_text_terms(field_id: u32, tokens: Seq<Seq<char>>)
    ensures
        lists_tokens(text_terms(field_id, tokens), field_id, tokens),
        forall|k: int|
            0 <= k < text_terms(field_id, tokens).len() ==> is_occurrence(
                #[trigger] text_terms(field_id, tokens)[k],
                field_id,
                tokens,
            ),
{
    let found = term_positions(tokens);
    let listed = text_terms(field_id, tokens);
    if tokens.len() <= 0x1_0000_0000 {
        law_positions_are_exact(tokens);
    }
    assert forall|k: int| 0 <= k < listed.len() implies is_occurrence(#[trigger] listed[k], field_id, tokens) by {
        lemma_found_terms(tokens, k);
        assert(listed[k].term == found[k].0 && listed[k].positions == found[k].1);
    }
    assert forall|j: int| 0 <= j < tokens.len() implies #[trigger] lists_token(listed, field_id, tokens, j) by {
        lemma_tokens_listed(tokens, j);
        let k = choose|k: int| 0 <= k < found.len() && (#[trigger] found[k]).0 == tokens[j];
        assert(listed[k].term == tokens[j]);
    }
}

proof fn lemma_listed_stays(
    terms: Seq<OccurrenceView>,
    more: Seq<OccurrenceView>,
    field_id: u32,
    tokens: Seq<Seq<char>>,
)
    ensures
        lists_tokens(terms, field_id, tokens) ==> lists_tokens(terms + more, field_id, tokens),
        lists_tokens(more, field_id, tokens) ==> lists_tokens(terms + more, field_id, tokens),
{
    let all = terms + more;
    if lists_tokens(terms, field_id, tokens) {
        assert forall|j: int| 0 <= j < tokens.len() implies #[trigger] lists_token(all, field_id, tokens, j) by {
            assert(lists_token(terms, field_id, tokens, j));
            let k = choose|k: int|
                0 <= k < terms.len() && (#[trigger] terms[k]).term == tokens[j] && is_occurrence(
                    terms[k],
                    field_id,
                    tokens,
                );
            assert(all[k] == terms[k]);
        }
    }
    if lists_tokens(more, field_id, tokens) {
        assert forall|j: int| 0 <= j < tokens.len() implies #[trigger] lists_token(all, field_id, tokens, j) by {
            assert(lists_token(more, field_id, tokens, j));
            let k = choose|k: int|
                0 <= k < more.len() && (#[trigger] more[k]).term == tokens[j] && is_occurrence(
                    more[k],
                    field_id,
                    tokens,
                );
            assert(all[terms.len() + k] == more[k]);
        }
    }
}

/// Every field of a document that the schema knows and wants in the lexical index, and whose value
/// stands there by a text, is indexed by all terms of that text, each with its positions, however
/// many fields there are. Nothing else is listed.
pub proof fn law_every_field_is_indexed(
    in_use: Map<u32, TokenizerType>,
    schema: Seq<(Seq<char>, MetaView)>,
    doc: Seq<(Seq<char>, Json)>,
)
    requires
        analyze_doc(in_use, schema, doc).failed is None,
    ensures
        ({
            let out = analyze_doc(in_use, schema, doc);
            &&& forall|i: int|
                0 <= i < doc.len() && is_indexed(schema, #[trigger] doc[i]) ==> lists_tokens(
                    out.terms,
                    meta_of(schema, doc[i]).id,
                    value_tokens(out.in_use, schema, doc[i]),
                )
            &&& forall|k: int|
                0 <= k < out.terms.len() ==> comes_of_document(out, schema, doc, #[trigger] out.terms[k])
            &&& forall|i: int|
                0 <= i < doc.len() && is_indexed(schema, #[trigger] doc[i]) ==> is_split_settled(
                    out.in_use,
                    meta_of(schema, doc[i]),
                )
        }),
    decreases doc.len(),
{
    if doc.len() > 0 {
        let init = doc.drop_last();
        let n = doc.len() - 1;
        let field = doc[n];
        let before = analyze_doc(in_use, schema, init);
        let out = analyze_doc(in_use, schema, doc);
        assert(out == analyze_field(before, schema, field.0, field.1));
        assert(before.failed is None);
        law_every_field_is_indexed(in_use, schema, init);
        lemma_field_analyzed(before, schema, field);
        let added = out.terms.skip(before.terms.len() as int);
        assert(out.terms =~= before.terms + added);
        assert forall|i: int| 0 <= i < doc.len() && is_indexed(schema, #[trigger] doc[i]) implies lists_tokens(
            out.terms,
            meta_of(schema, doc[i]).id,
            value_tokens(out.in_use, schema, doc[i]),
        ) && is_split_settled(out.in_use, meta_of(schema, doc[i])) by {
            let id = meta_of(schema, doc[i]).id;
            let tokens = value_tokens(out.in_use, schema, doc[i]);
            lemma_listed_stays(before.terms, added, id, tokens);
            if i < n {
                assert(init[i] == doc[i]);
                assert(tokens == value_tokens(before.in_use, schema, doc[i]));
            }
        }
        assert forall|k: int| 0 <= k < out.terms.len() implies comes_of_document(
            out,
            schema,
            doc,
            #[trigger] out.terms[k],
        ) by {
            if k < before.terms.len() {
                let o = before.terms[k];
                assert(comes_of_document(before, schema, init, o));
                let i = choose|i: int|
                    0 <= i < init.len() && is_indexed(schema, #[trigger] init[i]) && is_occurrence(
                        o,
                        meta_of(schema, init[i]).id,
                        value_tokens(before.in_use, schema, init[i]),
                    );
                assert(doc[i] == init[i]);
                assert(value_tokens(out.in_use, schema, doc[i]) == value_tokens(before.in_use, schema, doc[i]));
            } else {
                assert(out.terms[k] == added[k - before.terms.len()]);
                assert(is_indexed(schema, doc[n]));
            }
        }
    }
}

proof fn lemma_field_analyzed(before: Analysis, schema: Seq<(Seq<char>, MetaView)>, field: (Seq<char>, Json))
    requires
        before.failed is None,
        analyze_field(before, schema, field.0, field.1).failed is None,
    ensures
        ({
            let out = analyze_field(before, schema, field.0, field.1);
            let tokens = value_tokens(out.in_use, schema, field);
            let id = meta_of(schema, field).id;
            let added = out.terms.skip(before.terms.len() as int);
            &&& before.terms.len() <= out.terms.len()
            &&& out.terms.take(before.terms.len() as int) == before.terms
            &&& is_indexed(schema, field) ==> lists_tokens(added, id, tokens) && is_split_settled(
                out.in_use,
                meta_of(schema, field),
            ) && forall|k: int| 0 <= k < added.len() ==> is_occurrence(#[trigger] added[k], id, tokens)
            &&& !is_indexed(schema, field) ==> out == before
            &&& forall|other: u32|
                before.in_use.contains_key(other) ==> #[trigger] out.in_use.contains_key(other) && out.in_use[other]
                    == before.in_use[other]
        }),
{
    let out = analyze_field(before, schema, field.0, field.1);
    assert(out.terms.take(before.terms.len() as int) =~= before.terms);
    if is_indexed(schema, field) {
        let meta = meta_of(schema, field);
        let text = indexed_text(meta.data_type, field.1)->0;
        let tokens = field_tokens(before.in_use, meta, text);
        let t = chosen_tokenizer(before.in_use, meta.id, meta.tokenizer);
        assert(out == analyze_text(before, meta, text));
        assert(field_tokens(out.in_use, meta, text) == tokens);
        assert(out.terms.skip(before.terms.len() as int) =~= text_terms(meta.id, tokens));
        lemma_text_terms(meta.id, tokens);
    }
}

/// Analysing a document settles how the fields are split that it indexes, and no others: a field
/// keeps its tokenizer, and one that has none yet gets the one that the schema names for it. It
/// fails only if there is no analyzer for a tokenizer of such a field.
pub proof fn law_analysis_settles_tokenizers(
    in_use: Map<u32, TokenizerType>,
    schema: Seq<(Seq<char>, MetaView)>,
    doc: Seq<(Seq<char>, Json)>,
)
    ensures
        ({
            let out = analyze_doc(in_use, schema, doc);
            &&& forall|id: u32|
                in_use.contains_key(id) ==> #[trigger] out.in_use.contains_key(id) && out.in_use[id] == in_use[id]
            &&& forall|id: u32| #[trigger]
                out.in_use.contains_key(id) && !in_use.contains_key(id) ==> names_tokenizer(
                    schema,
                    doc,
                    id,
                    out.in_use[id],
                )
            &&& out.failed matches Some(t) ==> !valid_tokenizer(t) && exists|i: int|
                0 <= i < doc.len() && is_indexed(schema, #[trigger] doc[i]) && !taken_whole(
                    meta_of(schema, doc[i]).data_type,
                ) && t == chosen_tokenizer(
                    out.in_use,
                    meta_of(schema, doc[i]).id,
                    meta_of(schema, doc[i]).tokenizer,
                )
        }),
    decreases doc.len(),
{
    if doc.len() > 0 {
        let init = doc.drop_last();
        let n = doc.len() - 1;
        let before = analyze_doc(in_use, schema, init);
        let out = analyze_doc(in_use, schema, doc);
        assert(out == analyze_field(before, schema, doc[n].0, doc[n].1));
        law_analysis_settles_tokenizers(in_use, schema, init);
        assert forall|id: u32| in_use.contains_key(id) implies #[trigger] out.in_use.contains_key(id)
            && out.in_use[id] == in_use[id] by {
            assert(before.in_use.contains_key(id));
        }
        assert forall|id: u32| #[trigger] out.in_use.contains_key(id) && !in_use.contains_key(id) implies names_tokenizer(
            schema,
            doc,
            id,
            out.in_use[id],
        ) by {
            if before.in_use.contains_key(id) {
                assert(names_tokenizer(schema, init, id, before.in_use[id]));
                let i = choose|i: int|
                    0 <= i < init.len() && is_indexed(schema, #[trigger] init[i]) && names_for(
                        meta_of(schema, init[i]),
                        id,
                        before.in_use[id],
                    );
                assert(doc[i] == init[i]);
            } else {
                assert(is_indexed(schema, doc[n]) && names_for(meta_of(schema, doc[n]), id, out.in_use[id]));
            }
        }
        if let Some(t) = out.failed {
            if before.failed is Some {
                let i = choose|i: int|
                    0 <= i < init.len() && is_indexed(schema, #[trigger] init[i]) && !taken_whole(
                        meta_of(schema, init[i]).data_type,
                    ) && t == chosen_tokenizer(
                        before.in_use,
                        meta_of(schema, init[i]).id,
                        meta_of(schema, init[i]).tokenizer,
                    );
                assert(doc[i] == init[i]);
            } else {
                assert(is_indexed(schema, doc[n]));
            }
        }
    }
}

/// The field has the number, is split, and the schema names the tokenizer for it.
pub open spec fn names_for(meta: MetaView, id: u32, t: TokenizerType) -> bool {
    &&& meta.id == id
    &&& !taken_whole(meta.data_type)
    &&& t == match meta.tokenizer {
        Some(named) => named,
        None => TokenizerType::Default,
    }
}

/// The schema names the tokenizer for an indexed field of the document that has the number.
pub open spec fn names_tokenizer(
    schema: Seq<(Seq<char>, MetaView)>,
    doc: Seq<(Seq<char>, Json)>,
    id: u32,
    t: TokenizerType,
) -> bool {
    exists|i: int| 0 <= i < doc.len() && is_indexed(schema, #[trigger] doc[i]) && names_for(meta_of(schema, doc[i]), id, t)
}

/// Every character of the text is a letter or a digit.
pub open spec fn is_one_run(text: Seq<char>) -> bool {
    text.len() > 0 && forall|i: int| 0 <= i < text.len() ==> is_alphanumeric(#[trigger] text[i])
}

/// How a text is split. A field keeps the tokenizer in use; one that has none has the one that it
/// names, or else is split into words. Of words, every run of letters and digits is one, in lower
/// case, and any other character parts what stands before it from what stands behind it. Of
/// stretches, every one of the given length is a term, in lower case. A raw text is one term, and
/// so is a value that is taken whole.
pub proof fn law_texts_are_split(
    in_use: Map<u32, TokenizerType>,
    meta: MetaView,
    text: Seq<char>,
    c: char,
    more: Seq<char>,
    t: TokenizerType,
)
    requires
        in_use.contains_key(meta.id) ==> t == in_use[meta.id],
        !in_use.contains_key(meta.id) ==> t == match meta.tokenizer {
            Some(named) => named,
            None => TokenizerType::Default,
        },
    ensures
        taken_whole(meta.data_type) || t is Raw ==> field_tokens(in_use, meta, text) == seq![text],
        !taken_whole(meta.data_type) && t is Default ==> {
            &&& text.len() == 0 ==> field_tokens(in_use, meta, text).len() == 0
            &&& is_one_run(text) ==> field_tokens(in_use, meta, text) == seq![lowercased(text)]
            &&& !is_alphanumeric(c) ==> field_tokens(in_use, meta, text.push(c) + more) == field_tokens(
                in_use,
                meta,
                text,
            ) + field_tokens(in_use, meta, more)
        },
        !taken_whole(meta.data_type) && t is Ngram && t->n > 0 ==> {
            let n = t->n as int;
            &&& text.len() < n ==> field_tokens(in_use, meta, text).len() == 0
            &&& text.len() >= n ==> field_tokens(in_use, meta, text).len() == text.len() - n + 1
            &&& forall|i: int|
                0 <= i && i + n <= text.len() ==> (#[trigger] field_tokens(in_use, meta, text)[i]) == lowercased(
                    text.subrange(i, i + n),
                )
        },
{
    if !taken_whole(meta.data_type) {
        match t {
            TokenizerType::Raw => {},
            TokenizerType::Default => {
                let marks = |s: Seq<char>| Seq::new(s.len(), |i: int| is_alphanumeric(s[i]));
                if text.len() == 0 {
                    assert(simple_tokens(text).len() == 0);
                }
                if is_one_run(text) {
                    lemma_one_run(text, marks(text));
                    assert(field_tokens(in_use, meta, text) =~= seq![lowercased(text)]);
                }
                if !is_alphanumeric(c) {
                    let all = text.push(c) + more;
                    assert(marks(all) =~= marks(text).push(false) + marks(more));
                    lemma_runs_parted(text, marks(text), c, more, marks(more));
                    assert(field_tokens(in_use, meta, all) =~= field_tokens(in_use, meta, text) + field_tokens(
                        in_use,
                        meta,
                        more,
                    ));
                }
            },
            TokenizerType::Ngram { n } => {},
        }
    }
}

proof fn lemma_one_run(text: Seq<char>, marks: Seq<bool>)
    requires
        text.len() > 0,
        marks.len() == text.len(),
        forall|i: int| 0 <= i < marks.len() ==> #[trigger] marks[i],
    ensures
        marked_runs(text, marks) == seq![text],
    decreases text.len(),
{
    let init = text.drop_last();
    assert(marks[marks.len() - 1]);
    if text.len() == 1 {
        assert(marked_runs(init, marks.drop_last()) =~= Seq::<Seq<char>>::empty());
        assert(text =~= seq![text.last()]);
        assert(marked_runs(text, marks) =~= seq![text]);
    } else {
        assert forall|i: int| 0 <= i < init.len() implies #[trigger] marks.drop_last()[i] by {
            assert(marks[i]);
        }
        lemma_one_run(init, marks.drop_last());
        assert(marks[text.len() - 2]);
        assert(init.push(text.last()) =~= text);
        assert(marked_runs(text, marks) =~= seq![text]);
    }
}

proof fn lemma_runs_parted(a: Seq<char>, ma: Seq<bool>, c: char, b: Seq<char>, mb: Seq<bool>)
    requires
        a.len() == ma.len(),
        b.len() == mb.len(),
    ensures
        marked_runs(a.push(c) + b, ma.push(false) + mb) == marked_runs(a, ma) + marked_runs(b, mb),
    decreases b.len(),
{
    let all = a.push(c) + b;
    let marks = ma.push(false) + mb;
    if b.len() == 0 {
        assert(all =~= a.push(c));
        assert(marks =~= ma.push(false));
        assert(all.drop_last() =~= a);
        assert(marks.drop_last() =~= ma);
        assert(marked_runs(a, ma) + marked_runs(b, mb) =~= marked_runs(a, ma));
    } else {
        let init = b.drop_last();
        let rest = mb.drop_last();
        assert(all.drop_last() =~= a.push(c) + init);
        assert(marks.drop_last() =~= ma.push(false) + rest);
        assert(all.last() == b.last());
        assert(marks.last() == mb.last());
        lemma_runs_parted(a, ma, c, init, rest);
        let before = marked_runs(a, ma) + marked_runs(init, rest);
        if mb.last() {
            if b.len() == 1 {
                assert(!marks[all.len() - 2]);
                assert(marked_runs(init, rest) =~= Seq::<Seq<char>>::empty());
                assert(marked_runs(all, marks) =~= marked_runs(a, ma) + marked_runs(b, mb));
            } else {
                assert(marks[all.len() - 2] == mb[b.len() - 2]);
                assert(rest.last() == mb[b.len() - 2]);
                if rest.last() {
                    assert(marked_runs(init, rest).len() > 0);
                    assert(before.last() == marked_runs(init, rest).last());
                    assert(before.drop_last() =~= marked_runs(a, ma) + marked_runs(init, rest).drop_last());
                }
                assert(marked_runs(all, marks) =~= marked_runs(a, ma) + marked_runs(b, mb));
            }
        }
    }
}

/// The posting that is stored for an occurrence tells it: its field, its term, its positions and how
/// many there are, under the number of the document.
pub proof fn law_stored_occurrence_is_read_back(o: OccurrenceView, doc_id: u64, partition: u32)
    requires
        occurrence_fits(o),
    ensures
        ({
            let (key, value) = occurrence_entry(o, doc_id, partition);
            &&& key.doc_id == doc_id
            &&& key.partition_or_segment == partition
            &&& value is Some
            &&& decode_posting(value->0) matches Ok(p) && p.field_id == o.field_id && p.term == o.term && p.positions
                == o.positions && p.term_freq == o.positions.len() && p.doc_id == doc_id
        }),
{
    let p = occurrence_posting(o, doc_id);
    law_posting_round_trip(p, Seq::empty());
    assert(posting_bytes(p) + Seq::<u8>::empty() =~= posting_bytes(p));
}

/// The partition of a term of a field is the low-order half of the hash of both: with some other
/// half in front of it, it is the hash.
pub proof fn law_partition_is_low_half(field_id: u32, term: Seq<char>, hash: u64, partition: u32)
    requires
        is_term_hash(PARTITION_SEED, field_id, term, hash),
        has_one_hash(field_id, term),
    ensures
        in_partition(field_id, term, partition) <==> exists|high: u32| hash == #[trigger] (high * 0x1_0000_0000)
            + partition,
{
    if in_partition(field_id, term, partition) {
        let high = (hash / 0x1_0000_0000) as u32;
        assert(hash == high * 0x1_0000_0000 + partition);
    }
    if exists|high: u32| hash == #[trigger] (high * 0x1_0000_0000) + partition {
        assert(partition == hash % 0x1_0000_0000);
    }
}

/// There is an analyzer for every tokenizer but that of stretches without characters.
pub proof fn law_every_other_tokenizer_has_an_analyzer(t: TokenizerType)
    ensures
        !valid_tokenizer(t) <==> t == (TokenizerType::Ngram { n: 0 }),
{
}

} // verus!
