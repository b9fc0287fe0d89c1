//! What holds of queries: how they are read, the terms that they ask for, and the hits.

use vstd::prelude::*;

use crate::field_map::value_under;
use crate::lexical::analyzer::{ngrams, valid_tokenizer};
use crate::lexical::{chosen_tokenizer, field_tokens};
use crate::lexical::laws::{asks_in_field, asks_in_one, is_asked, is_settled, leaves_some};
use crate::lexical::laws::{law_term_may_stand_in_any_field, lemma_live_prefix};
use crate::lexical::posting::{decode_posting, PostingError};
use crate::lexical::query::{all_terms, colon_position, is_white, term_of_word, words, TermView};
use crate::lexical::search::{expand_field, expand_fields, expand_terms, fields_searched, term_start, text_fields};
use crate::lexical::search::{lemma_failed_expansion_stays, query_terms};
use crate::lexical::search::{freqs_of, has_doc, hits_of, live_hits, Expansion, PostingHit, TermExpansion};
use crate::lexical::value::taken_whole;
use crate::schema::field::MetaView;
use crate::schema::TokenizerType;
use crate::storage::key::{LsmKey, LsmValue};

verus! {

/// A meta is among the fields that a term without a field is looked up in exactly if the schema
/// has it, as a text of the lexical index. The fields come in the order of the schema. A term that
/// names a field is looked up in that field, if the schema knows it, and in no other one.
pub proof fn law_text_fields_are_searched(
    schema: Seq<(Seq<char>, MetaView)>,
    more: Seq<(Seq<char>, MetaView)>,
    meta: MetaView,
    name: Seq<char>,
)
    ensures
        fields_searched(schema, None).contains(meta) <==> meta.data_type is Text && meta.index_lexical && exists|i: int|
            0 <= i < schema.len() && (#[trigger] schema[i]).1 == meta,
        fields_searched(schema + more, None) == fields_searched(schema, None) + fields_searched(more, None),
        fields_searched(schema, Some(name)).contains(meta) <==> value_under(schema, name) == Some(meta),
        fields_searched(schema, Some(name)).len() <= 1,
{
    if value_under(schema, name) is Some {
        assert(fields_searched(schema, Some(name))[0] == value_under(schema, name)->0);
    }
    lemma_text_field(schema, meta);
    lemma_text_fields_joined(schema, more);
}

proof fn lemma_text_field(schema: Seq<(Seq<char>, MetaView)>, meta: MetaView)
    ensures
        text_fields(schema).contains(meta) <==> meta.data_type is Text && meta.index_lexical && exists|i: int|
            0 <= i < schema.len() && (#[trigger] schema[i]).1 == meta,
    decreases schema.len(),
{
    if schema.len() > 0 {
        let init = schema.drop_last();
        let n = schema.len() - 1;
        let before = text_fields(init);
        let out = text_fields(schema);
        lemma_text_field(init, meta);
        if out.contains(meta) {
            let k = choose|k: int| 0 <= k < out.len() && out[k] == meta;
            if k < before.len() {
                assert(before[k] == meta);
                assert(before.contains(meta));
                let i = choose|i: int| 0 <= i < init.len() && (#[trigger] init[i]).1 == meta;
                assert(schema[i].1 == meta);
            } else {
                assert(schema[n].1 == meta);
            }
        }
        if meta.data_type is Text && meta.index_lexical && exists|i: int|
            0 <= i < schema.len() && (#[trigger] schema[i]).1 == meta {
            let i = choose|i: int| 0 <= i < schema.len() && (#[trigger] schema[i]).1 == meta;
            if i < n {
                assert(init[i].1 == meta);
                let k = choose|k: int| 0 <= k < before.len() && before[k] == meta;
                assert(out[k] == meta);
            } else {
                assert(out[out.len() - 1] == meta);
            }
        }
    }
}

proof fn lemma_text_fields_joined(schema: Seq<(Seq<char>, MetaView)>, more: Seq<(Seq<char>, MetaView)>)
    ensures
        text_fields(schema + more) == text_fields(schema) + text_fields(more),
    decreases more.len(),
{
    let all = schema + more;
    if more.len() == 0 {
        assert(all =~= schema);
        assert(text_fields(schema) + text_fields(more) =~= text_fields(schema));
    } else {
        assert(all.drop_last() =~= schema + more.drop_last());
        assert(all.last() == more.last());
        lemma_text_fields_joined(schema, more.drop_last());
        assert(text_fields(all) =~= text_fields(schema) + text_fields(more));
    }
}

/// What a query asks for, with the alternatives of one of its terms.
pub open spec fn asked_by(out: Expansion, alternatives: Seq<(usize, usize)>) -> TermExpansion {
    TermExpansion { in_use: out.in_use, lookups: out.lookups, alternatives, failed: out.failed }
}

/// The alternatives are those of a text that is looked up in fields: every field that leaves
/// something of the text is one, which asks for all that the text is split into there, and there
/// are no others.
pub open spec fn asks_for(
    out: Expansion,
    alternatives: Seq<(usize, usize)>,
    metas: Seq<MetaView>,
    text: Seq<char>,
) -> bool {
    let o = asked_by(out, alternatives);
    &&& forall|j: int|
        0 <= j < metas.len() && leaves_some(o, #[trigger] metas[j], text) ==> is_asked(o, metas[j], text)
    &&& forall|a: int|
        0 <= a < alternatives.len() ==> asks_in_one(o, #[trigger] alternatives[a], metas, text)
}

/// A text that is looked up in fields asks for something: one of the fields leaves something of
/// it. If there is no field at all, nothing can match the text.
pub open spec fn asks_something(out: Expansion, metas: Seq<MetaView>, text: Seq<char>) -> bool {
    metas.len() == 0 || exists|j: int|
        0 <= j < metas.len() && leaves_some(asked_by(out, Seq::empty()), #[trigger] metas[j], text)
}

/// `places` tells for each item of a plan which term of the query it stands for: those that ask
/// for something, each of them once and in their order, and no others.
pub open spec fn stands_for_terms(
    places: Seq<int>,
    out: Expansion,
    schema: Seq<(Seq<char>, MetaView)>,
    terms: Seq<TermView>,
) -> bool {
    &&& places.len() == out.terms.len()
    &&& forall|t: int| 0 <= t < places.len() ==> 0 <= (#[trigger] places[t]) < terms.len()
    &&& forall|t: int, u: int| 0 <= t < u < places.len() ==> (#[trigger] places[t]) < (#[trigger] places[u])
    &&& forall|t: int|
        0 <= t < places.len() ==> asks_for(
            out,
            out.terms[t],
            fields_searched(schema, terms[#[trigger] places[t]].field),
            terms[places[t]].text,
        )
    &&& forall|i: int|
        0 <= i < terms.len() ==> (asks_something(
            out,
            fields_searched(schema, (#[trigger] terms[i]).field),
            terms[i].text,
        ) <==> places.contains(i))
}

/// Every term of a query that asks for something has its item in the plan, and every item is that
/// of a term: no term is lost, however many there are, and none is made up.
pub proof fn law_every_query_term_is_asked(
    in_use: Map<u32, TokenizerType>,
    schema: Seq<(Seq<char>, MetaView)>,
    terms: Seq<TermView>,
)
    requires
        expand_terms(in_use, schema, terms).failed is None,
        expand_terms(in_use, schema, terms).lookups.len() <= usize::MAX,
    ensures
        ({
            let out = expand_terms(in_use, schema, terms);
            &&& exists|places: Seq<int>| stands_for_terms(places, out, schema, terms)
            &&& forall|i: int|
                0 <= i < terms.len() && asks_something(
                    out,
                    fields_searched(schema, (#[trigger] terms[i]).field),
                    terms[i].text,
                ) ==> exists|t: int|
                    0 <= t < out.terms.len() && asks_for(
                        out,
                        #[trigger] out.terms[t],
                        fields_searched(schema, terms[i].field),
                        terms[i].text,
                    )
        }),
{
    let out = expand_terms(in_use, schema, terms);
    lemma_terms_asked(in_use, schema, terms);
    let places = choose|places: Seq<int>| stands_for_terms(places, out, schema, terms);
    assert forall|i: int|
        0 <= i < terms.len() && asks_something(
            out,
            fields_searched(schema, (#[trigger] terms[i]).field),
            terms[i].text,
        ) implies exists|t: int|
        0 <= t < out.terms.len() && asks_for(
            out,
            #[trigger] out.terms[t],
            fields_searched(schema, terms[i].field),
            terms[i].text,
        ) by {
        assert(places.contains(i));
        let t = choose|t: int| 0 <= t < places.len() && places[t] == i;
        assert(asks_for(out, out.terms[t], fields_searched(schema, terms[places[t]].field), terms[places[t]].text));
    }
}

/// How texts are split in the fields is settled.
spec fn all_settled(out: Expansion, metas: Seq<MetaView>) -> bool {
    forall|j: int| 0 <= j < metas.len() ==> is_settled(asked_by(out, Seq::empty()), #[trigger] metas[j])
}

/// What was settled and looked up stays.
spec fn grows(before: TermExpansion, out: TermExpansion) -> bool {
    &&& before.lookups.len() <= out.lookups.len()
    &&& forall|i: int| 0 <= i < before.lookups.len() ==> out.lookups[i] == #[trigger] before.lookups[i]
    &&& forall|id: u32|
        before.in_use.contains_key(id) ==> #[trigger] out.in_use.contains_key(id) && out.in_use[id]
            == before.in_use[id]
}

proof fn lemma_fields_grow(before: TermExpansion, metas: Seq<MetaView>, text: Seq<char>)
    ensures
        grows(before, expand_fields(before, metas, text)),
    decreases metas.len(),
{
    if metas.len() > 0 {
        let init = metas.drop_last();
        lemma_fields_grow(before, init, text);
        let now = expand_fields(before, init, text);
        let out = expand_fields(before, metas, text);
        assert(out == expand_field(now, metas.last(), text));
        assert forall|i: int| 0 <= i < before.lookups.len() implies out.lookups[i] == #[trigger] before.lookups[i] by {
            assert(now.lookups[i] == before.lookups[i]);
        }
        assert forall|id: u32| before.in_use.contains_key(id) implies #[trigger] out.in_use.contains_key(id)
            && out.in_use[id] == before.in_use[id] by {
            assert(now.in_use.contains_key(id));
        }
    }
}

proof fn lemma_stretch_stays(
    before: Expansion,
    out: Expansion,
    a: Seq<(usize, usize)>,
    b: Seq<(usize, usize)>,
    stretch: (usize, usize),
    meta: MetaView,
    text: Seq<char>,
)
    requires
        grows(asked_by(before, Seq::empty()), asked_by(out, Seq::empty())),
        is_settled(asked_by(before, Seq::empty()), meta),
    ensures
        field_tokens(out.in_use, meta, text) == field_tokens(before.in_use, meta, text),
        asks_in_field(asked_by(before, a), stretch, meta, text) ==> asks_in_field(
            asked_by(out, b),
            stretch,
            meta,
            text,
        ),
{
    if !taken_whole(meta.data_type) {
        assert(asked_by(out, Seq::empty()).in_use.contains_key(meta.id));
    }
    if asks_in_field(asked_by(before, a), stretch, meta, text) {
        let old_lookups = asked_by(before, Seq::empty()).lookups;
        assert forall|i: int| 0 <= i < before.lookups.len() implies out.lookups[i] == before.lookups[i] by {
            assert(out.lookups[i] == old_lookups[i]);
        }
        assert(out.lookups.subrange(stretch.0 as int, stretch.1 as int) =~= before.lookups.subrange(
            stretch.0 as int,
            stretch.1 as int,
        ));
    }
}

proof fn lemma_asking_stays(
    before: Expansion,
    out: Expansion,
    alternatives: Seq<(usize, usize)>,
    metas: Seq<MetaView>,
    text: Seq<char>,
)
    requires
        grows(asked_by(before, Seq::empty()), asked_by(out, Seq::empty())),
        all_settled(before, metas),
        asks_for(before, alternatives, metas, text),
    ensures
        asks_for(out, alternatives, metas, text),
{
    let b = asked_by(before, alternatives);
    let o = asked_by(out, alternatives);
    assert forall|j: int| 0 <= j < metas.len() && leaves_some(o, #[trigger] metas[j], text) implies is_asked(
        o,
        metas[j],
        text,
    ) by {
        assert(is_settled(asked_by(before, Seq::empty()), metas[j]));
        lemma_stretch_stays(before, out, alternatives, alternatives, (0, 0), metas[j], text);
        assert(leaves_some(b, metas[j], text));
        assert(is_asked(b, metas[j], text));
        let a = choose|a: int|
            0 <= a < b.alternatives.len() && asks_in_field(b, #[trigger] b.alternatives[a], metas[j], text);
        lemma_stretch_stays(before, out, alternatives, alternatives, b.alternatives[a], metas[j], text);
        assert(asks_in_field(o, o.alternatives[a], metas[j], text));
    }
    assert forall|a: int| 0 <= a < alternatives.len() implies asks_in_one(
        o,
        #[trigger] alternatives[a],
        metas,
        text,
    ) by {
        assert(asks_in_one(b, alternatives[a], metas, text));
        let j = choose|j: int| 0 <= j < metas.len() && asks_in_field(b, alternatives[a], #[trigger] metas[j], text);
        assert(is_settled(asked_by(before, Seq::empty()), metas[j]));
        lemma_stretch_stays(before, out, alternatives, alternatives, alternatives[a], metas[j], text);
    }
}

proof fn lemma_something_stays(before: Expansion, out: Expansion, metas: Seq<MetaView>, text: Seq<char>)
    requires
        grows(asked_by(before, Seq::empty()), asked_by(out, Seq::empty())),
        all_settled(before, metas),
    ensures
        all_settled(out, metas),
        asks_something(before, metas, text) == asks_something(out, metas, text),
{
    let b = asked_by(before, Seq::empty());
    let o = asked_by(out, Seq::empty());
    assert forall|j: int| 0 <= j < metas.len() implies is_settled(o, #[trigger] metas[j]) && leaves_some(
        o,
        metas[j],
        text,
    ) == leaves_some(b, metas[j], text) by {
        assert(is_settled(b, metas[j]));
        lemma_stretch_stays(before, out, Seq::empty(), Seq::empty(), (0, 0), metas[j], text);
        assert(b.in_use.contains_key(metas[j].id) ==> o.in_use.contains_key(metas[j].id));
    }
}

proof fn lemma_new_term(before: Expansion, metas: Seq<MetaView>, text: Seq<char>)
    requires
        expand_fields(term_start(before), metas, text).failed is None,
        expand_fields(term_start(before), metas, text).lookups.len() <= usize::MAX,
    ensures
        ({
            let after = expand_fields(term_start(before), metas, text);
            let out = Expansion {
                in_use: after.in_use,
                lookups: after.lookups,
                terms: before.terms,
                failed: after.failed,
            };
            &&& all_settled(out, metas)
            &&& asks_for(out, after.alternatives, metas, text)
            &&& asks_something(out, metas, text) <==> metas.len() == 0 || after.alternatives.len() > 0
        }),
{
    let after = expand_fields(term_start(before), metas, text);
    let out = Expansion { in_use: after.in_use, lookups: after.lookups, terms: before.terms, failed: after.failed };
    law_term_may_stand_in_any_field(term_start(before), metas, text);
    assert(asked_by(out, after.alternatives) == after);
    let o = asked_by(out, Seq::empty());
    assert forall|j: int| 0 <= j < metas.len() implies is_settled(o, #[trigger] metas[j]) by {
        assert(is_settled(after, metas[j]));
    }
    if asks_something(out, metas, text) && metas.len() > 0 {
        let j = choose|j: int| 0 <= j < metas.len() && leaves_some(o, #[trigger] metas[j], text);
        assert(leaves_some(after, metas[j], text));
        assert(is_asked(after, metas[j], text));
    }
    if after.alternatives.len() > 0 {
        assert(asks_in_one(after, after.alternatives[0], metas, text));
        let j = choose|j: int|
            0 <= j < metas.len() && asks_in_field(after, after.alternatives[0], #[trigger] metas[j], text);
        assert(leaves_some(o, metas[j], text));
    }
}

/// How texts are split is settled in all fields in which terms are looked up.
spec fn terms_settled(out: Expansion, schema: Seq<(Seq<char>, MetaView)>, terms: Seq<TermView>) -> bool {
    forall|i: int| 0 <= i < terms.len() ==> all_settled(out, fields_searched(schema, (#[trigger] terms[i]).field))
}

proof fn lemma_terms_asked(
    in_use: Map<u32, TokenizerType>,
    schema: Seq<(Seq<char>, MetaView)>,
    terms: Seq<TermView>,
)
    requires
        expand_terms(in_use, schema, terms).failed is None,
        expand_terms(in_use, schema, terms).lookups.len() <= usize::MAX,
    ensures
        exists|places: Seq<int>| stands_for_terms(places, expand_terms(in_use, schema, terms), schema, terms),
        terms_settled(expand_terms(in_use, schema, terms), schema, terms),
    decreases terms.len(),
{
    let out = expand_terms(in_use, schema, terms);
    if terms.len() == 0 {
        assert(stands_for_terms(Seq::empty(), out, schema, terms));
    } else {
        let init = terms.drop_last();
        let n = terms.len() - 1;
        let before = expand_terms(in_use, schema, init);
        let metas = fields_searched(schema, terms[n].field);
        let text = terms[n].text;
        let after = expand_fields(term_start(before), metas, text);
        if before.failed is Some {
            lemma_failed_expansion_stays(term_start(before), metas, text);
        }
        lemma_fields_grow(term_start(before), metas, text);
        assert(grows(asked_by(before, Seq::empty()), asked_by(out, Seq::empty())));
        lemma_terms_asked(in_use, schema, init);
        lemma_new_term(before, metas, text);
        let places = choose|places: Seq<int>| stands_for_terms(places, before, schema, init);
        lemma_one_more_term(places, before, out, schema, terms, after.alternatives);
    }
}

proof fn lemma_one_more_term(
    places: Seq<int>,
    before: Expansion,
    out: Expansion,
    schema: Seq<(Seq<char>, MetaView)>,
    terms: Seq<TermView>,
    alternatives: Seq<(usize, usize)>,
)
    requires
        terms.len() > 0,
        stands_for_terms(places, before, schema, terms.drop_last()),
        terms_settled(before, schema, terms.drop_last()),
        grows(asked_by(before, Seq::empty()), asked_by(out, Seq::empty())),
        all_settled(out, fields_searched(schema, terms.last().field)),
        asks_for(out, alternatives, fields_searched(schema, terms.last().field), terms.last().text),
        asks_something(out, fields_searched(schema, terms.last().field), terms.last().text) <==> fields_searched(
            schema,
            terms.last().field,
        ).len() == 0 || alternatives.len() > 0,
        out.terms == if alternatives.len() == 0 && fields_searched(schema, terms.last().field).len() > 0 {
            before.terms
        } else {
            before.terms.push(alternatives)
        },
    ensures
        exists|places: Seq<int>| stands_for_terms(places, out, schema, terms),
        terms_settled(out, schema, terms),
{
    let init = terms.drop_last();
    let n = terms.len() - 1;
    let asks = asks_something(out, fields_searched(schema, terms[n].field), terms[n].text);
    let more = if asks {
        places.push(n)
    } else {
        places
    };
    assert forall|i: int| 0 <= i < init.len() implies all_settled(
        out,
        fields_searched(schema, (#[trigger] init[i]).field),
    ) && asks_something(out, fields_searched(schema, init[i].field), init[i].text) == asks_something(
        before,
        fields_searched(schema, init[i].field),
        init[i].text,
    ) by {
        lemma_something_stays(before, out, fields_searched(schema, init[i].field), init[i].text);
    }
    assert forall|t: int| 0 <= t < more.len() implies 0 <= (#[trigger] more[t]) < terms.len() by {
        if t < places.len() {
            assert(more[t] == places[t]);
        }
    }
    assert forall|t: int, u: int| 0 <= t < u < more.len() implies (#[trigger] more[t]) < (#[trigger] more[u]) by {
        assert(more[t] == places[t]);
        if u < places.len() {
            assert(more[u] == places[u]);
        }
    }
    assert forall|t: int| 0 <= t < more.len() implies asks_for(
        out,
        out.terms[t],
        fields_searched(schema, terms[#[trigger] more[t]].field),
        terms[more[t]].text,
    ) by {
        if t < places.len() {
            assert(more[t] == places[t]);
            let i = places[t];
            assert(init[i] == terms[i]);
            assert(out.terms[t] == before.terms[t]);
            assert(all_settled(before, fields_searched(schema, init[i].field)));
            lemma_asking_stays(before, out, before.terms[t], fields_searched(schema, init[i].field), init[i].text);
        }
    }
    assert forall|i: int| 0 <= i < terms.len() implies (asks_something(
        out,
        fields_searched(schema, (#[trigger] terms[i]).field),
        terms[i].text,
    ) <==> more.contains(i)) by {
        if i < n {
            assert(init[i] == terms[i]);
            if places.contains(i) {
                let t = choose|t: int| 0 <= t < places.len() && places[t] == i;
                assert(more[t] == i);
            }
            if more.contains(i) {
                let t = choose|t: int| 0 <= t < more.len() && more[t] == i;
                assert(places[t] == i);
            }
        } else {
            if asks {
                assert(more[places.len() as int] == n);
            } else if more.contains(i) {
                let t = choose|t: int| 0 <= t < more.len() && more[t] == i;
                assert(places[t] == n);
            }
        }
    }
    assert(stands_for_terms(more, out, schema, terms));
    assert forall|i: int| 0 <= i < terms.len() implies all_settled(
        out,
        fields_searched(schema, (#[trigger] terms[i]).field),
    ) by {
        if i < n {
            assert(init[i] == terms[i]);
        }
    }
}

/// No character of the text is white.
pub open spec fn has_no_white(s: Seq<char>) -> bool {
    forall|i: int| 0 <= i < s.len() ==> !is_white(#[trigger] s[i])
}

/// What the words of a query are: a text without white characters is one word, and a white
/// character parts what stands before it from what stands behind it.
pub proof fn law_white_characters_part_words(a: Seq<char>, c: char, b: Seq<char>)
    ensures
        a.len() == 0 ==> words(a).len() == 0,
        a.len() > 0 && has_no_white(a) ==> words(a) == seq![a],
        is_white(c) ==> words(a.push(c) + b) == words(a) + words(b),
{
    if a.len() > 0 && has_no_white(a) {
        lemma_one_word(a);
    }
    if is_white(c) {
        lemma_words_parted(a, c, b);
    }
}

proof fn lemma_one_word(a: Seq<char>)
    requires
        a.len() > 0,
        has_no_white(a),
    ensures
        words(a) == seq![a],
    decreases a.len(),
{
    let init = a.drop_last();
    assert(!is_white(a[a.len() - 1]));
    if a.len() == 1 {
        assert(words(init) =~= Seq::<Seq<char>>::empty());
        assert(a =~= seq![a.last()]);
        assert(words(a) =~= seq![a]);
    } else {
        assert(has_no_white(init)) by {
            assert forall|i: int| 0 <= i < init.len() implies !is_white(#[trigger] init[i]) by {
                assert(init[i] == a[i]);
            }
        }
        lemma_one_word(init);
        assert(!is_white(a[a.len() - 2]));
        assert(init.push(a.last()) =~= a);
        assert(words(a) =~= seq![a]);
    }
}

proof fn lemma_last_word(s: Seq<char>)
    requires
        s.len() > 0,
        !is_white(s.last()),
    ensures
        words(s).len() > 0,
{
}

proof fn lemma_words_parted(a: Seq<char>, c: char, b: Seq<char>)
    requires
        is_white(c),
    ensures
        words(a.push(c) + b) == words(a) + words(b),
    decreases b.len(),
{
    let all = a.push(c) + b;
    if b.len() == 0 {
        assert(all =~= a.push(c));
        assert(all.drop_last() =~= a);
        assert(words(a) + words(b) =~= words(a));
    } else {
        let init = b.drop_last();
        assert(all.drop_last() =~= a.push(c) + init);
        assert(all.last() == b.last());
        lemma_words_parted(a, c, init);
        let before = words(a) + words(init);
        if !is_white(b.last()) {
            if b.len() == 1 {
                assert(all[all.len() - 2] == c);
                assert(words(init) =~= Seq::<Seq<char>>::empty());
                assert(words(all) =~= words(a) + words(b));
            } else {
                assert(all[all.len() - 2] == b[b.len() - 2]);
                assert(init.last() == b[b.len() - 2]);
                if !is_white(init.last()) {
                    lemma_last_word(init);
                    assert(before.last() == words(init).last());
                    assert(before.drop_last() =~= words(a) + words(init).drop_last());
                }
                assert(words(all) =~= words(a) + words(b));
            }
        }
    }
}

/// How a word is read: without a colon it is a text that may stand in any field; what stands
/// before the first colon is otherwise the field, and what stands behind it the text. A word that
/// starts with its first colon, or ends with it, is no term.
pub proof fn law_first_colon_parts_field_and_text(word: Seq<char>, field: Seq<char>, text: Seq<char>)
    ensures
        !word.contains(':') ==> term_of_word(word) == Some(TermView { field: None, text: word }),
        !field.contains(':') && word == field.push(':') + text ==> term_of_word(word) == if field.len() == 0
            || text.len() == 0 {
            None
        } else {
            Some(TermView { field: Some(field), text })
        },
{
    if !word.contains(':') {
        assert forall|i: int| 0 <= i < word.len() implies word[i] != ':' by {
            assert(word.contains(word[i]));
        }
        lemma_colon_at(word, word.len());
    }
    if !field.contains(':') && word == field.push(':') + text {
        assert forall|i: int| 0 <= i < field.len() implies word[i] != ':' by {
            assert(word[i] == field[i]);
            assert(field.contains(field[i]));
        }
        lemma_colon_at(word, field.len());
        assert(word.take(field.len() as int) =~= field);
        assert(word.skip(field.len() as int + 1) =~= text);
    }
}

proof fn lemma_colon_at(word: Seq<char>, n: nat)
    requires
        n <= word.len(),
        forall|i: int| 0 <= i < n ==> word[i] != ':',
        n < word.len() ==> word[n as int] == ':',
    ensures
        colon_position(word) == n,
    decreases word.len(),
{
    if n > 0 {
        let rest = word.drop_first();
        assert(word[0] != ':');
        assert forall|i: int| 0 <= i < n - 1 implies rest[i] != ':' by {
            assert(rest[i] == word[i + 1]);
        }
        lemma_colon_at(rest, (n - 1) as nat);
    }
}

/// The stretches of a text that are its terms: every one of the given length, and no other text.
pub proof fn law_every_stretch_is_a_term(text: Seq<char>, n: nat, gram: Seq<char>)
    requires
        n > 0,
    ensures
        forall|i: int| 0 <= i && i + n <= text.len() ==> ngrams(text, n).contains(#[trigger] text.subrange(i, i + n)),
        ngrams(text, n).contains(gram) ==> gram.len() == n && exists|i: int|
            0 <= i && i + n <= text.len() && gram == #[trigger] text.subrange(i, i + n),
        text.len() >= n ==> ngrams(text, n).len() + n == text.len() + 1,
{
    assert forall|i: int| 0 <= i && i + n <= text.len() implies ngrams(text, n).contains(
        #[trigger] text.subrange(i, i + n),
    ) by {
        assert(ngrams(text, n)[i] == text.subrange(i, i + n));
    }
    if ngrams(text, n).contains(gram) {
        let i = choose|i: int| 0 <= i < ngrams(text, n).len() && ngrams(text, n)[i] == gram;
        assert(gram == text.subrange(i, i + n));
    }
}

/// The hits of stored entries follow on each other as the entries do. A deletion is no hit; a
/// posting is a hit of its document; the first entry that is no posting is the error.
pub proof fn law_every_posting_is_a_hit(
    entries: Seq<(LsmKey, Option<Seq<u8>>)>,
    more: Seq<(LsmKey, Option<Seq<u8>>)>,
    entry: (LsmKey, Option<Seq<u8>>),
)
    ensures
        hits_of(entries + more) == match hits_of(entries) {
            Err(e) => Err(e),
            Ok(hits) => match hits_of(more) {
                Err(e) => Err(e),
                Ok(tail) => Ok::<Seq<PostingHit>, PostingError>(hits + tail),
            },
        },
        entry.1 is None ==> hits_of(seq![entry]) == Ok::<Seq<PostingHit>, PostingError>(Seq::empty()),
        entry.1 matches Some(bytes) ==> match decode_posting(bytes) {
            Err(e) => hits_of(seq![entry]) == Err::<Seq<PostingHit>, PostingError>(e),
            Ok(p) => hits_of(seq![entry]) == Ok::<Seq<PostingHit>, PostingError>(
                seq![PostingHit { doc_id: entry.0.doc_id, term_freq: p.term_freq }],
            ),
        },
{
    lemma_hits_joined(entries, more);
    assert(seq![entry].drop_last() =~= Seq::<(LsmKey, Option<Seq<u8>>)>::empty());
    assert(hits_of(seq![entry].drop_last()) == Ok::<Seq<PostingHit>, PostingError>(Seq::empty()));
    if let Some(bytes) = entry.1 {
        if let Ok(p) = decode_posting(bytes) {
            let hit = PostingHit { doc_id: entry.0.doc_id, term_freq: p.term_freq };
            assert(Seq::<PostingHit>::empty().push(hit) =~= seq![hit]);
        }
    }
}

proof fn lemma_hits_joined(entries: Seq<(LsmKey, Option<Seq<u8>>)>, more: Seq<(LsmKey, Option<Seq<u8>>)>)
    ensures
        hits_of(entries + more) == match hits_of(entries) {
            Err(e) => Err(e),
            Ok(hits) => match hits_of(more) {
                Err(e) => Err(e),
                Ok(tail) => Ok::<Seq<PostingHit>, PostingError>(hits + tail),
            },
        },
    decreases more.len(),
{
    let all = entries + more;
    if more.len() == 0 {
        assert(all =~= entries);
        if let Ok(hits) = hits_of(entries) {
            assert(hits + Seq::<PostingHit>::empty() =~= hits);
        }
    } else {
        let init = more.drop_last();
        assert(all.drop_last() =~= entries + init);
        assert(all.last() == more.last());
        lemma_hits_joined(entries, init);
        if hits_of(entries) is Ok && hits_of(init) is Ok {
            let (a, b) = (hits_of(entries)->Ok_0, hits_of(init)->Ok_0);
            if let Some(bytes) = more.last().1 {
                if let Ok(p) = decode_posting(bytes) {
                    let hit = PostingHit { doc_id: more.last().0.doc_id, term_freq: p.term_freq };
                    assert((a + b).push(hit) =~= a + b.push(hit));
                }
            }
        }
    }
}

/// The frequencies of a document are those of its hits, of all of them and in their order.
pub proof fn law_frequencies_are_those_of_hits(hits: Seq<PostingHit>, more: Seq<PostingHit>, hit: PostingHit, doc_id: u64)
    ensures
        freqs_of(hits + more, doc_id) == freqs_of(hits, doc_id) + freqs_of(more, doc_id),
        hit.doc_id == doc_id ==> freqs_of(seq![hit], doc_id) == seq![hit.term_freq],
        hit.doc_id != doc_id ==> freqs_of(seq![hit], doc_id).len() == 0,
        freqs_of(hits, doc_id).len() > 0 <==> has_doc(hits, doc_id),
{
    lemma_freqs_joined(hits, more, doc_id);
    assert(seq![hit].drop_last() =~= Seq::<PostingHit>::empty());
    assert(freqs_of(seq![hit].drop_last(), doc_id) =~= Seq::<u32>::empty());
    assert(Seq::<u32>::empty().push(hit.term_freq) =~= seq![hit.term_freq]);
    lemma_freqs_of_doc(hits, doc_id);
}

proof fn lemma_freqs_joined(hits: Seq<PostingHit>, more: Seq<PostingHit>, doc_id: u64)
    ensures
        freqs_of(hits + more, doc_id) == freqs_of(hits, doc_id) + freqs_of(more, doc_id),
    decreases more.len(),
{
    let all = hits + more;
    if more.len() == 0 {
        assert(all =~= hits);
        assert(freqs_of(hits, doc_id) + freqs_of(more, doc_id) =~= freqs_of(hits, doc_id));
    } else {
        assert(all.drop_last() =~= hits + more.drop_last());
        assert(all.last() == more.last());
        lemma_freqs_joined(hits, more.drop_last(), doc_id);
        assert(freqs_of(all, doc_id) =~= freqs_of(hits, doc_id) + freqs_of(more, doc_id));
    }
}

proof fn lemma_freqs_of_doc(hits: Seq<PostingHit>, doc_id: u64)
    ensures
        freqs_of(hits, doc_id).len() > 0 <==> has_doc(hits, doc_id),
    decreases hits.len(),
{
    if hits.len() > 0 {
        let init = hits.drop_last();
        lemma_freqs_of_doc(init, doc_id);
        if has_doc(init, doc_id) {
            let i = choose|i: int| 0 <= i < init.len() && (#[trigger] init[i]).doc_id == doc_id;
            assert(hits[i].doc_id == doc_id);
        }
        if has_doc(hits, doc_id) {
            let i = choose|i: int| 0 <= i < hits.len() && (#[trigger] hits[i]).doc_id == doc_id;
            if i < init.len() {
                assert(init[i].doc_id == doc_id);
            }
        }
        if hits.last().doc_id == doc_id {
            assert(hits[hits.len() - 1].doc_id == doc_id);
        }
    }
}

/// The hits whose documents are still there follow on each other as the hits do: each hit counts
/// by the document that was read for it, and by no other.
pub proof fn law_live_hits_keep_order(
    hits: Seq<PostingHit>,
    docs: Seq<Option<LsmValue>>,
    more: Seq<PostingHit>,
    more_docs: Seq<Option<LsmValue>>,
)
    requires
        docs.len() == hits.len(),
        more_docs.len() == more.len(),
    ensures
        live_hits(hits + more, docs + more_docs) == live_hits(hits, docs) + live_hits(more, more_docs),
    decreases more.len(),
{
    let all = hits + more;
    let all_docs = docs + more_docs;
    if more.len() == 0 {
        assert(all =~= hits);
        assert(all_docs =~= docs);
        assert(live_hits(hits, docs) + live_hits(more, more_docs) =~= live_hits(hits, docs));
    } else {
        let init = more.drop_last();
        let init_docs = more_docs.drop_last();
        assert(all.drop_last() =~= hits + init);
        assert(all.last() == more.last());
        law_live_hits_keep_order(hits, docs, init, init_docs);
        lemma_live_prefix(init, more_docs, init_docs);
        lemma_live_prefix(hits + init, all_docs, docs + init_docs);
        assert(all_docs[all.len() - 1] == more_docs[more.len() - 1]);
        assert(live_hits(all, all_docs) =~= live_hits(hits, docs) + live_hits(more, more_docs));
    }
}

/// Expanding a query fails only if there is no analyzer for the tokenizer of a field in which one
/// of its terms is looked up. It touches no tokenizer that is in use.
pub proof fn law_query_fails_for_tokenizer_only(
    in_use: Map<u32, TokenizerType>,
    schema: Seq<(Seq<char>, MetaView)>,
    terms: Seq<TermView>,
)
    ensures
        ({
            let out = expand_terms(in_use, schema, terms);
            &&& forall|id: u32|
                in_use.contains_key(id) ==> #[trigger] out.in_use.contains_key(id) && out.in_use[id] == in_use[id]
            &&& out.failed matches Some(t) ==> exists|i: int|
                0 <= i < terms.len() && lacks_analyzer(
                    out.in_use,
                    fields_searched(schema, (#[trigger] terms[i]).field),
                    t,
                )
        }),
    decreases terms.len(),
{
    if terms.len() > 0 {
        let init = terms.drop_last();
        let n = terms.len() - 1;
        let before = expand_terms(in_use, schema, init);
        let metas = fields_searched(schema, terms[n].field);
        let after = expand_fields(term_start(before), metas, terms[n].text);
        let out = expand_terms(in_use, schema, terms);
        law_query_fails_for_tokenizer_only(in_use, schema, init);
        lemma_fields_grow(term_start(before), metas, terms[n].text);
        assert forall|id: u32| in_use.contains_key(id) implies #[trigger] out.in_use.contains_key(id)
            && out.in_use[id] == in_use[id] by {
            assert(before.in_use.contains_key(id));
            assert(term_start(before).in_use.contains_key(id));
            assert(after.in_use.contains_key(id));
        }
        if before.failed is Some {
            lemma_failed_expansion_stays(term_start(before), metas, terms[n].text);
            let t = before.failed->0;
            let i = choose|i: int|
                0 <= i < init.len() && lacks_analyzer(
                    before.in_use,
                    fields_searched(schema, (#[trigger] init[i]).field),
                    t,
                );
            assert(terms[i] == init[i]);
        } else {
            lemma_field_fails(term_start(before), metas, terms[n].text);
            assert(out.failed is Some ==> lacks_analyzer(
                out.in_use,
                fields_searched(schema, terms[n].field),
                out.failed->0,
            ));
        }
    }
}

/// One of the fields is to be split by the tokenizer, which there is no analyzer for.
pub open spec fn lacks_analyzer(in_use: Map<u32, TokenizerType>, metas: Seq<MetaView>, t: TokenizerType) -> bool {
    !valid_tokenizer(t) && exists|j: int|
        0 <= j < metas.len() && !taken_whole((#[trigger] metas[j]).data_type) && t == chosen_tokenizer(
            in_use,
            metas[j].id,
            metas[j].tokenizer,
        )
}

proof fn lemma_field_fails(before: TermExpansion, metas: Seq<MetaView>, text: Seq<char>)
    requires
        before.failed is None,
    ensures
        expand_fields(before, metas, text).failed matches Some(t) ==> lacks_analyzer(
            expand_fields(before, metas, text).in_use,
            metas,
            t,
        ),
    decreases metas.len(),
{
    if metas.len() > 0 {
        let init = metas.drop_last();
        let n = metas.len() - 1;
        let now = expand_fields(before, init, text);
        let out = expand_fields(before, metas, text);
        assert(out == expand_field(now, metas[n], text));
        lemma_field_fails(before, init, text);
        if now.failed is Some {
            let t = now.failed->0;
            let j = choose|j: int|
                0 <= j < init.len() && !taken_whole((#[trigger] init[j]).data_type) && t == chosen_tokenizer(
                    now.in_use,
                    init[j].id,
                    init[j].tokenizer,
                );
            assert(metas[j] == init[j]);
        } else if out.failed is Some {
            assert(!taken_whole(metas[n].data_type));
        }
    }
}

/// The terms of a query are those of its words, one for each and in their order.
pub proof fn law_every_word_is_a_term(query: Seq<char>, c: char, more: Seq<char>)
    ensures
        query_terms(query).len() == words(query).len(),
        all_terms(words(query)) ==> forall|i: int|
            0 <= i < words(query).len() ==> Some(#[trigger] query_terms(query)[i]) == term_of_word(words(query)[i]),
        is_white(c) ==> query_terms(query.push(c) + more) == query_terms(query) + query_terms(more),
{
    if all_terms(words(query)) {
        assert forall|i: int| 0 <= i < words(query).len() implies Some(#[trigger] query_terms(query)[i])
            == term_of_word(words(query)[i]) by {
            assert(term_of_word(words(query)[i]) is Some);
        }
    }
    if is_white(c) {
        lemma_words_parted(query, c, more);
        assert(query_terms(query.push(c) + more) =~= query_terms(query) + query_terms(more));
    }
}

/// A hit counts if its document is there: if a value was read for it that is no deletion.
pub proof fn law_hit_of_stored_document_is_live(hit: PostingHit, value: Option<LsmValue>)
    ensures
        value matches Some(LsmValue::Data(_)) ==> live_hits(seq![hit], seq![value]) == seq![hit],
        !(value matches Some(LsmValue::Data(_))) ==> live_hits(seq![hit], seq![value]).len() == 0,
{
    let docs = seq![value];
    assert(seq![hit].drop_last() =~= Seq::<PostingHit>::empty());
    assert(live_hits(seq![hit].drop_last(), docs) =~= Seq::<PostingHit>::empty());
    assert(Seq::<PostingHit>::empty().push(hit) =~= seq![hit]);
}

/// Which characters part words: the tabulators and line ends, the spaces of every width, and the
/// separators of lines and paragraphs.
pub proof fn law_white_characters(c: char)
    ensures
        is_white(c) <==> c == '\t' || c == '\n' || c == '\u{b}' || c == '\u{c}' || c == '\r' || c == ' ' || c == '\u{85}'
            || c == '\u{a0}' || c == '\u{1680}' || '\u{2000}' <= c <= '\u{200a}' || c == '\u{2028}' || c == '\u{2029}'
            || c == '\u{202f}' || c == '\u{205f}' || c == '\u{3000}',
{
}

} // verus!
