//! Analyzers: they split a text into terms.

use tantivy::tokenizer::{LowerCaser, NgramTokenizer, RawTokenizer, SimpleTokenizer, TextAnalyzer, TokenStream};

use vstd::prelude::*;

use crate::field_map::{entered, has_name, names_distinct, position_of, value_under, FieldMap};
use crate::lexical::query::view_words;
use crate::schema::field::TokenizerType;

verus! {

/// The character is a letter or a digit: what `char::is_alphanumeric`, by which `tantivy`'s
/// `SimpleTokenizer` splits, says of it.
pub uninterp spec fn is_alphanumeric(c: char) -> bool;

/// The longest stretches of a text whose characters are all marked, in order.
pub open spec fn marked_runs(text: Seq<char>, marks: Seq<bool>) -> Seq<Seq<char>>
    decreases text.len(),
{
    if text.len() == 0 {
        Seq::empty()
    } else {
        let before = marked_runs(text.drop_last(), marks.drop_last());
        if !marks.last() {
            before
        } else if text.len() >= 2 && marks[text.len() - 2] {
            before.drop_last().push(before.last().push(text.last()))
        } else {
            before.push(seq![text.last()])
        }
    }
}

/// The words of a text: the longest stretches of letters and digits, in order.
pub open spec fn simple_tokens(text: Seq<char>) -> Seq<Seq<char>> {
    marked_runs(text, Seq::new(text.len(), |i: int| is_alphanumeric(text[i])))
}

/// A term in lower case, as `tantivy`'s `LowerCaser` writes it.
pub uninterp spec fn lowercased(term: Seq<char>) -> Seq<char>;

/// Terms in lower case.
pub open spec fn all_lowercased(terms: Seq<Seq<char>>) -> Seq<Seq<char>> {
    Seq::new(terms.len(), |i: int| lowercased(terms[i]))
}

/// All stretches of `n` characters of a text.
pub open spec fn ngrams(text: Seq<char>, n: nat) -> Seq<Seq<char>> {
    if text.len() < n {
        Seq::empty()
    } else {
        Seq::new((text.len() - n + 1) as nat, |i: int| text.subrange(i, i + n))
    }
}

/// The tokenizer makes sense: stretches are not empty.
pub open spec fn valid_tokenizer(tt: TokenizerType) -> bool {
    tt matches TokenizerType::Ngram { n } ==> n > 0
}

/// The terms of a text.
pub open spec fn tokens_of(tt: TokenizerType, text: Seq<char>) -> Seq<Seq<char>> {
    match tt {
        TokenizerType::Default => all_lowercased(simple_tokens(text)),
        TokenizerType::Raw => seq![text],
        TokenizerType::Ngram { n } => all_lowercased(ngrams(text, n as nat)),
    }
}

/// A `tantivy::tokenizer::TextAnalyzer` of a `SimpleTokenizer` and a `LowerCaser`: the words of
/// the text, which are its longest stretches of letters and digits, each in lower case.
#[verifier::external_body]
fn default_tokens(text: &str) -> (tokens: Vec<String>)
    ensures
        tokens@.len() == marked_runs(text@, Seq::new(text@.len(), |i: int| is_alphanumeric(text@[i]))).len(),
        forall|i: int| 0 <= i < tokens@.len() ==> (#[trigger] tokens@[i])@ == lowercased(simple_tokens(text@)[i]),
{
    let mut analyzer = TextAnalyzer::builder(SimpleTokenizer::default()).filter(LowerCaser).build();
    let mut tokens = Vec::new();
    analyzer.token_stream(text).process(&mut |t| tokens.push(t.text.clone()));
    tokens
}

/// A `tantivy::tokenizer::TextAnalyzer` of a `RawTokenizer`: the whole text as one term.
#[verifier::external_body]
fn raw_tokens(text: &str) -> (tokens: Vec<String>)
    ensures
        view_words(tokens@) == seq![text@],
{
    let mut analyzer = TextAnalyzer::builder(RawTokenizer::default()).build();
    let mut tokens = Vec::new();
    analyzer.token_stream(text).process(&mut |t| tokens.push(t.text.clone()));
    tokens
}

/// A `tantivy::tokenizer::TextAnalyzer` of an `NgramTokenizer` for one length and a `LowerCaser`:
/// all stretches of that many characters, each in lower case. The tokenizer refuses the length 0,
/// and then there is nothing.
#[verifier::external_body]
fn ngram_tokens(text: &str, n: u8) -> (tokens: Option<Vec<String>>)
    ensures
        tokens is Some <==> n > 0,
        tokens is Some ==> tokens->0@.len() == ngrams(text@, n as nat).len(),
        tokens is Some ==> forall|i: int|
            0 <= i < tokens->0@.len() ==> (#[trigger] tokens->0@[i])@ == lowercased(ngrams(text@, n as nat)[i]),
{
    let ngram = NgramTokenizer::new(n.into(), n.into(), false).ok()?;
    let mut analyzer = TextAnalyzer::builder(ngram).filter(LowerCaser).build();
    let mut tokens = Vec::new();
    analyzer.token_stream(text).process(&mut |t| tokens.push(t.text.clone()));
    Some(tokens)
}

/// Why there is no analyzer: stretches of no characters were asked for.
#[derive(Clone, Copy, Debug, PartialEq, Eq, Structural)]
pub struct AnalyzerError {
    pub n: u8,
}

/// An analyzer: it splits a text into terms.
#[derive(Clone, Copy, Debug, PartialEq, Eq, Structural)]
pub struct Analyzer {
    tokenizer: TokenizerType,
}

impl Analyzer {
    /// How this analyzer splits a text.
    pub closed spec fn spec_tokenizer(&self) -> TokenizerType {
        self.tokenizer
    }

    /// The terms of a text, in order.
    pub fn tokens(&self, text: &str) -> (tokens: Vec<String>)
        requires
            valid_tokenizer(self.spec_tokenizer()),
        ensures
            view_words(tokens@) == tokens_of(self.spec_tokenizer(), text@),
    {
        match self.tokenizer {
            TokenizerType::Default => {
                let tokens = default_tokens(text);
                assert(view_words(tokens@) =~= all_lowercased(simple_tokens(text@)));
                tokens
            },
            TokenizerType::Raw => raw_tokens(text),
            TokenizerType::Ngram { n } => match ngram_tokens(text, n) {
                Some(tokens) => {
                    assert(view_words(tokens@) =~= all_lowercased(ngrams(text@, n as nat)));
                    tokens
                },
                None => Vec::new(),
            },
        }
    }
}

/// The analyzer for a tokenizer. Stretches of no characters are an error.
pub fn build_analyzer(tt: &TokenizerType) -> (r: Result<Analyzer, AnalyzerError>)
    ensures
        r is Ok <==> valid_tokenizer(*tt),
        r matches Ok(a) ==> a.spec_tokenizer() == *tt,
        r matches Err(e) ==> *tt == (TokenizerType::Ngram { n: e.n }),
{
    if let TokenizerType::Ngram { n } = *tt {
        if ngram_tokens("", n).is_none() {
            return Err(AnalyzerError { n });
        }
    }
    Ok(Analyzer { tokenizer: *tt })
}

/// Where each term occurs among tokens: the terms in the order in which they occur first, with
/// the numbers of the tokens.
pub open spec fn term_positions(tokens: Seq<Seq<char>>) -> Seq<(Seq<char>, Seq<u32>)>
    decreases tokens.len(),
{
    if tokens.len() == 0 {
        Seq::empty()
    } else {
        let before = term_positions(tokens.drop_last());
        let term = tokens.last();
        let at = ((tokens.len() - 1) % 0x1_0000_0000) as u32;
        match value_under(before, term) {
            Some(positions) => entered(before, term, positions.push(at)),
            None => entered(before, term, seq![at]),
        }
    }
}

/// The models of terms with positions.
pub open spec fn view_positions(s: Seq<(Seq<char>, Vec<u32>)>) -> Seq<(Seq<char>, Seq<u32>)> {
    Seq::new(s.len(), |i: int| (s[i].0, s[i].1@))
}

/// Where each term occurs among tokens.
pub fn aggregate(tokens: &Vec<String>) -> (out: FieldMap<Vec<u32>>)
    ensures
        out.wf(),
        view_positions(out@) == term_positions(view_words(tokens@)),
{
    let ghost all = view_words(tokens@);
    let mut out: FieldMap<Vec<u32>> = FieldMap::new();
    let mut i: usize = 0;
    assert(all.take(0) =~= Seq::<Seq<char>>::empty());
    assert(view_positions(out@) =~= Seq::<(Seq<char>, Seq<u32>)>::empty());
    while i < tokens.len()
        invariant
            i <= tokens@.len(),
            all == view_words(tokens@),
            out.wf(),
            view_positions(out@) == term_positions(all.take(i as int)),
        decreases tokens@.len() - i,
    {
        let at: u32 = (i as u64 % 0x1_0000_0000) as u32;
        let ghost before = out@;
        let ghost model = view_positions(before);
        let ghost term = tokens@[i as int]@;
        proof {
            assert(all.take(i + 1).drop_last() =~= all.take(i as int));
            assert(all.take(i + 1).last() == term);
            out.lemma_names_distinct();
            lemma_positions_lookup(before, term);
        }
        match out.position(tokens[i].as_str()) {
            Some(k) => {
                let mut positions = out.replace_at(k, Vec::new());
                positions.push(at);
                let ghost grown = positions@;
                let placeholder = out.replace_at(k, positions);
                assert(view_positions(out@) =~= entered(model, term, grown));
            },
            None => {
                let mut positions: Vec<u32> = Vec::new();
                positions.push(at);
                assert(positions@ =~= seq![at]);
                out.insert(tokens[i].clone(), positions);
                assert(view_positions(out@) =~= entered(model, term, seq![at]));
            },
        }
        i = i + 1;
    }
    assert(all.take(i as int) =~= all);
    out
}

proof fn lemma_positions_lookup(s: Seq<(Seq<char>, Vec<u32>)>, term: Seq<char>)
    requires
        names_distinct(s),
    ensures
        has_name(s, term) == has_name(view_positions(s), term),
        has_name(s, term) ==> position_of(s, term) == position_of(view_positions(s), term) && value_under(
            view_positions(s),
            term,
        ) == Some(s[position_of(s, term)].1@),
{
    let m = view_positions(s);
    if has_name(s, term) {
        let i = position_of(s, term);
        assert(m[i].0 == term);
        let j = position_of(m, term);
        assert(s[j].0 == term);
        if i < j {
            assert(s[i].0 != s[j].0);
        } else if j < i {
            assert(s[j].0 != s[i].0);
        }
    } else if has_name(m, term) {
        let j = position_of(m, term);
        assert(s[j].0 == term);
    }
}

} // verus!
