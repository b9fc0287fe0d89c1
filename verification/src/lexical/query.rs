//! Lexical queries.
//!
//! A query is a list of terms with white space between them; all of them have to match. A term
//! may name the field that is searched, with a colon between the name and the text; else all
//! indexed text fields are searched.

use vstd::prelude::*;

verus! {

/// A lexical query: terms that all have to match.
#[derive(Clone, Debug)]
pub struct LexicalQuery {
    pub terms: Vec<TermQuery>,
}

/// One term of a query.
#[derive(Clone, Debug)]
pub struct TermQuery {
    /// The field that is searched; all indexed text fields if there is none.
    pub field: Option<String>,
    /// The text that is searched for.
    pub text: String,
}

/// The model of a term of a query.
pub struct TermView {
    pub field: Option<Seq<char>>,
    pub text: Seq<char>,
}

impl View for TermQuery {
    type V = TermView;

    open spec fn view(&self) -> TermView {
        TermView {
            field: match self.field {
                Some(f) => Some(f@),
                None => None,
            },
            text: self.text@,
        }
    }
}

/// Why a text is not a query.
#[derive(Clone, Debug)]
pub enum QueryError {
    /// There are no terms.
    Empty,
    /// A term with a colon lacks the name of the field or the text.
    InvalidTerm { term: String },
}

/// The character is white space, as Unicode has it.
pub open spec fn is_white(c: char) -> bool {
    let u = c as u32;
    ||| 0x09 <= u <= 0x0d
    ||| u == 0x20
    ||| u == 0x85
    ||| u == 0xa0
    ||| u == 0x1680
    ||| 0x2000 <= u <= 0x200a
    ||| u == 0x2028
    ||| u == 0x2029
    ||| u == 0x202f
    ||| u == 0x205f
    ||| u == 0x3000
}

/// Whether a character is white space.
pub fn is_white_space(c: char) -> (r: bool)
    ensures
        r == is_white(c),
{
    let u: u32 = c as u32;
    (0x09 <= u && u <= 0x0d) || u == 0x20 || u == 0x85 || u == 0xa0 || u == 0x1680 || (0x2000 <= u && u <= 0x200a)
        || u == 0x2028 || u == 0x2029 || u == 0x202f || u == 0x205f || u == 0x3000
}

/// The words of a text: the longest stretches without white space, in order.
pub open spec fn words(s: Seq<char>) -> Seq<Seq<char>>
    decreases s.len(),
{
    if s.len() == 0 {
        Seq::empty()
    } else {
        let before = words(s.drop_last());
        if is_white(s.last()) {
            before
        } else if s.len() >= 2 && !is_white(s[s.len() - 2]) {
            before.drop_last().push(before.last().push(s.last()))
        } else {
            before.push(seq![s.last()])
        }
    }
}

/// Where the first colon stands; the length of the word if there is none.
pub open spec fn colon_position(word: Seq<char>) -> nat
    decreases word.len(),
{
    if word.len() == 0 || word[0] == ':' {
        0
    } else {
        1 + colon_position(word.drop_first())
    }
}

/// The term that a word stands for: what is in front of its first colon is the field. Nothing if
/// either part is missing.
pub open spec fn term_of_word(word: Seq<char>) -> Option<TermView> {
    let n = colon_position(word) as int;
    if n == word.len() {
        Some(TermView { field: None, text: word })
    } else if n == 0 || n + 1 == word.len() {
        None
    } else {
        Some(TermView { field: Some(word.take(n)), text: word.skip(n + 1) })
    }
}

/// Every word stands for a term.
pub open spec fn all_terms(ws: Seq<Seq<char>>) -> bool {
    forall|i: int| 0 <= i < ws.len() ==> term_of_word(#[trigger] ws[i]) is Some
}

/// The models of a list of words.
pub open spec fn view_words(s: Seq<String>) -> Seq<Seq<char>> {
    Seq::new(s.len(), |i: int| s[i]@)
}

/// The characters of a text.
fn chars_of(text: &str) -> (out: Vec<char>)
    ensures
        out@ == text@,
{
    let mut out: Vec<char> = Vec::new();
    for c in it: text.chars()
        invariant
            it.seq() == text@,
            out@ == text@.take(it.index() as int),
    {
        out.push(c);
        assert(out@ =~= text@.take(it.index() + 1));
    }
    assert(text@.take(text@.len() as int) =~= text@);
    out
}

proof fn lemma_word_stretch(s: Seq<char>, start: int)
    requires
        0 <= start < s.len(),
        start == 0 || is_white(s[start - 1]),
        forall|i: int| start <= i < s.len() ==> !is_white(#[trigger] s[i]),
    ensures
        words(s) == words(s.take(start)).push(s.skip(start)),
    decreases s.len(),
{
    let init = s.drop_last();
    if start == s.len() - 1 {
        assert(s.take(start) =~= init);
        assert(s.skip(start) =~= seq![s.last()]);
    } else {
        assert(init.take(start) =~= s.take(start));
        lemma_word_stretch(init, start);
        let before = words(init);
        assert(!is_white(s[s.len() - 2]));
        assert(before.drop_last() =~= words(s.take(start)));
        assert(before.last().push(s.last()) =~= s.skip(start));
    }
}

/// Splits a text into its words.
pub fn split_words(text: &str) -> (out: Vec<String>)
    ensures
        view_words(out@) == words(text@),
{
    let chars = chars_of(text);
    let ghost s = text@;
    let mut out: Vec<String> = Vec::new();
    let mut i: usize = 0;
    assert(s.take(0) =~= Seq::<char>::empty());
    assert(view_words(out@) =~= Seq::<Seq<char>>::empty());
    while i < chars.len()
        invariant
            chars@ == s,
            s == text@,
            i <= s.len(),
            i == 0 || i == s.len() || is_white(s[i - 1]) || is_white(s[i as int]),
            view_words(out@) == words(s.take(i as int)),
        decreases s.len() - i,
    {
        if is_white_space(chars[i]) {
            proof {
                assert(s.take(i + 1).drop_last() =~= s.take(i as int));
                assert(s.take(i + 1).last() == s[i as int]);
            }
            i = i + 1;
        } else {
            let start: usize = i;
            while i < chars.len() && !is_white_space(chars[i])
                invariant
                    chars@ == s,
                    start <= i <= s.len(),
                    forall|k: int| start <= k < i ==> !is_white(#[trigger] s[k]),
                decreases s.len() - i,
            {
                i = i + 1;
            }
            let word = text.substring_char(start, i).to_string();
            let ghost before = out@;
            out.push(word);
            proof {
                let t = s.take(i as int);
                assert forall|k: int| start <= k < t.len() implies !is_white(#[trigger] t[k]) by {
                    assert(t[k] == s[k]);
                }
                assert(t.take(start as int) =~= s.take(start as int));
                lemma_word_stretch(t, start as int);
                assert(t.skip(start as int) =~= s.subrange(start as int, i as int));
                assert(view_words(out@) =~= view_words(before).push(s.subrange(start as int, i as int)));
            }
        }
    }
    assert(s.take(i as int) =~= s);
    out
}

/// The term that a word stands for, if it stands for one.
pub fn parse_term(word: &str) -> (r: Option<TermQuery>)
    ensures
        match term_of_word(word@) {
            None => r is None,
            Some(t) => r matches Some(q) && q@ == t,
        },
{
    let chars = chars_of(word);
    let ghost s = word@;
    let mut n: usize = 0;
    assert(s.skip(0) =~= s);
    while n < chars.len() && chars[n] != ':'
        invariant
            chars@ == s,
            n <= s.len(),
            n + colon_position(s.skip(n as int)) == colon_position(s),
        decreases s.len() - n,
    {
        proof {
            assert(s.skip(n as int)[0] == s[n as int]);
            assert(s.skip(n as int).drop_first() =~= s.skip(n + 1));
        }
        n = n + 1;
    }
    proof {
        if n < s.len() {
            assert(s.skip(n as int)[0] == s[n as int]);
        } else {
            assert(s.skip(n as int).len() == 0);
        }
    }
    let len: usize = chars.len();
    if n == len {
        return Some(TermQuery { field: None, text: word.to_string() });
    }
    if n == 0 || n + 1 == len {
        return None;
    }
    let field = word.substring_char(0, n).to_string();
    let text = word.substring_char(n + 1, len).to_string();
    proof {
        assert(field@ =~= s.take(n as int));
        assert(text@ =~= s.skip(n + 1));
    }
    Some(TermQuery { field: Some(field), text })
}

/// Parses a query. A query without terms is an error, and so is a term with a colon that lacks
/// the name of the field or the text; of several such terms the first one counts.
pub fn parse_query(query: &str) -> (r: Result<LexicalQuery, QueryError>)
    ensures
        ({
            let ws = words(query@);
            if all_terms(ws) {
                if ws.len() == 0 {
                    r matches Err(e) && e is Empty
                } else {
                    r matches Ok(q) && q.terms@.len() == ws.len() && forall|i: int|
                        0 <= i < ws.len() ==> Some((#[trigger] q.terms@[i])@) == term_of_word(ws[i])
                }
            } else {
                r matches Err(e) && e matches QueryError::InvalidTerm { term } && exists|i: int|
                    0 <= i < ws.len() && (#[trigger] ws[i]) == term@ && term_of_word(ws[i]) is None && all_terms(
                        ws.take(i),
                    )
            }
        }),
{
    let parts = split_words(query);
    let ghost ws = words(query@);
    let mut terms: Vec<TermQuery> = Vec::new();
    let mut i: usize = 0;
    while i < parts.len()
        invariant
            i <= parts@.len(),
            ws == view_words(parts@),
            ws == words(query@),
            terms@.len() == i,
            forall|k: int| 0 <= k < i ==> Some((#[trigger] terms@[k])@) == term_of_word(ws[k]),
        decreases parts@.len() - i,
    {
        let part = parts[i].as_str();
        assert(ws[i as int] == part@);
        match parse_term(part) {
            Some(t) => {
                terms.push(t);
            },
            None => {
                proof {
                    assert(all_terms(ws.take(i as int))) by {
                        assert forall|k: int| 0 <= k < ws.take(i as int).len() implies term_of_word(
                            #[trigger] ws.take(i as int)[k],
                        ) is Some by {
                            assert(Some(terms@[k]@) == term_of_word(ws[k]));
                        }
                    }
                    assert(term_of_word(ws[i as int]) is None);
                }
                return Err(QueryError::InvalidTerm { term: part.to_string() });
            },
        }
        i = i + 1;
    }
    proof {
        assert(all_terms(ws)) by {
            assert forall|k: int| 0 <= k < ws.len() implies term_of_word(#[trigger] ws[k]) is Some by {
                assert(Some(terms@[k]@) == term_of_word(ws[k]));
            }
        }
    }
    if terms.len() == 0 {
        return Err(QueryError::Empty);
    }
    Ok(LexicalQuery { terms })
}

} // verus!
