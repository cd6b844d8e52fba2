//! The stemming tokenizer: the scan of the lexer, with letters folded to
//! lower case and each word reduced to its English stem.

use vstd::prelude::*;
use crate::chars::{alphabetic, chars_of, numeric, string_of, to_lower, views};
use crate::lexer::{
    after_first_term, lemma_term_advances, scan_len, trimmed, Lexer,
};

verus! {

/// The English Snowball stem of the lower-case word `word`.
pub uninterp spec fn english_stem(word: Seq<char>) -> Seq<char>;

/// `Stemmer::stem` of rust_stemmers, on a stemmer made by `Stemmer::create`
/// for `Algorithm::English`: the result is the stem of `word`, which this
/// library only names.
#[verifier::external_body]
fn stem_english(word: &str) -> (stem: String)
    ensures
        stem@ == english_stem(word@),
{
    let stemmer = rust_stemmers::Stemmer::create(rust_stemmers::Algorithm::English);
    stemmer.stem(word).into_owned()
}

/// The term that is emitted for the scanned run `run`.
pub open spec fn stemmed(run: Seq<char>) -> Seq<char> {
    if !numeric(run[0]) && alphabetic(run[0]) {
        english_stem(run.map_values(|c: char| to_lower(c)))
    } else {
        run
    }
}

/// The next term of `s`, if there is one.
pub open spec fn first_stem(s: Seq<char>) -> Option<Seq<char>> {
    let t = trimmed(s);
    if t.len() == 0 {
        None
    } else {
        Some(stemmed(t.take(scan_len(t) as int)))
    }
}

/// All the terms of `s`, in order.
pub open spec fn stems(s: Seq<char>) -> Seq<Seq<char>>
    decreases s.len(),
    via stems_decreases
{
    match first_stem(s) {
        None => Seq::empty(),
        Some(term) => seq![term] + stems(after_first_term(s)),
    }
}

#[via_fn]
proof fn stems_decreases(s: Seq<char>) {
    if first_stem(s) is Some {
        lemma_term_advances(s);
    }
}

/// A cursor over the characters that are still to be scanned.
#[derive(Debug)]
pub struct Tokenizer<'a> {
    lexer: Lexer<'a>,
}

impl<'a> View for Tokenizer<'a> {
    type V = Seq<char>;

    closed spec fn view(&self) -> Seq<char> {
        self.lexer@
    }
}

impl<'a> Tokenizer<'a> {
    /// A tokenizer at the start of `content`.
    pub fn new(content: &'a [char]) -> (tokenizer: Self)
        ensures
            tokenizer@ == content@,
    {
        Self { lexer: Lexer::new(content) }
    }

    /// Skips the leading whitespace.
    pub fn trim_left(&mut self)
        ensures
            final(self)@ == trimmed(old(self)@),
    {
        self.lexer.trim_left();
    }

    /// Takes the first `length` characters.
    pub fn chop(&mut self, length: usize) -> (token: &'a [char])
        requires
            length <= old(self)@.len(),
        ensures
            token@ == old(self)@.take(length as int),
            final(self)@ == old(self)@.skip(length as int),
    {
        self.lexer.chop(length)
    }

    /// Takes the longest prefix whose characters all pass `predicate`.
    pub fn chop_while<P>(&mut self, predicate: P) -> (token: &'a [char]) where
        P: Fn(&char) -> bool,

        requires
            forall|c: char| predicate.requires((&c,)),
        ensures
            token@.len() <= old(self)@.len(),
            token@ == old(self)@.take(token@.len() as int),
            final(self)@ == old(self)@.skip(token@.len() as int),
            forall|i: int| 0 <= i < token@.len() ==> predicate.ensures((&#[trigger] token@[i],), true),
            token@.len() < old(self)@.len() ==> predicate.ensures(
                (&old(self)@[token@.len() as int],),
                false,
            ),
    {
        self.lexer.chop_while(predicate)
    }

    /// Scans the next term, or returns `None` at the end of the input.
    pub fn next_token(&mut self) -> (token: Option<String>)
        ensures
            token is Some == first_stem(old(self)@) is Some,
            token is Some ==> token->0@ == first_stem(old(self)@)->0,
            final(self)@ == after_first_term(old(self)@),
    {
        let scanned = self.lexer.next_run();
        match scanned {
            None => None,
            Some(run) => Some(stem_of_run(run)),
        }
    }

    /// The next term, as an iterator would hand it out.
    pub fn next(&mut self) -> (token: Option<String>)
        ensures
            token is Some == first_stem(old(self)@) is Some,
            token is Some ==> token->0@ == first_stem(old(self)@)->0,
            final(self)@ == after_first_term(old(self)@),
    {
        self.next_token()
    }
}

/// The term for the scanned run `run`: a word is folded to lower case and
/// stemmed, anything else is taken as it is.
pub fn stem_of_run(run: &[char]) -> (term: String)
    requires
        run@.len() > 0,
    ensures
        term@ == stemmed(run@),
{
    if !run[0].is_numeric() && run[0].is_alphabetic() {
        let word = lower_string_of(run);
        stem_english(word.as_str())
    } else {
        string_of(run)
    }
}

/// The string made of `chars` with ASCII letters folded to lower case.
pub fn lower_string_of(chars: &[char]) -> (text: String)
    ensures
        text@ == chars@.map_values(|c: char| to_lower(c)),
{
    let mut text = String::new();
    let mut i: usize = 0;
    while i < chars.len()
        invariant
            i <= chars.len(),
            text@ == chars@.take(i as int).map_values(|c: char| to_lower(c)),
        decreases chars.len() - i,
    {
        let c = chars[i];
        text.push(c.to_ascii_lowercase());
        proof {
            assert(chars@.take(i + 1) == chars@.take(i as int).push(chars@[i as int]));
        }
        i += 1;
    }
    proof {
        assert(chars@.take(chars.len() as int) == chars@);
    }
    text
}

/// All the stemmed terms of `text`, in order.
pub fn tokenize_stemmed(text: &str) -> (tokens: Vec<String>)
    ensures
        views(tokens@) == stems(text@),
{
    let chars = chars_of(text);
    let mut tokenizer = Tokenizer::new(chars.as_slice());
    let mut tokens: Vec<String> = Vec::new();
    loop
        invariant
            views(tokens@) + stems(tokenizer@) == stems(text@),
        ensures
            views(tokens@) == stems(text@),
        decreases tokenizer@.len(),
    {
        let ghost before = tokenizer@;
        let ghost done = views(tokens@);
        match tokenizer.next_token() {
            Some(token) => {
                proof {
                    lemma_term_advances(before);
                    assert(views(tokens@.push(token)) == done.push(token@));
                    assert(done.push(token@) + stems(tokenizer@) == done + stems(before));
                }
                tokens.push(token);
            },
            None => {
                assert(done + Seq::<Seq<char>>::empty() == done);
                break;
            },
        }
    }
    tokens
}

} // verus!
