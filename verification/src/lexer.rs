//! The tokenizer: a single forward scan that turns characters into terms.
//!
//! A term is a run of numeric characters taken verbatim, a run of
//! alphanumeric characters that starts with a letter, folded to upper case,
//! or one other character on its own. Whitespace separates terms, and no
//! term is scanned from a run that starts with it.

use vstd::prelude::*;
use crate::chars::{
    alphabetic, alphanumeric, chars_of, numeric, string_of, to_upper, views, white_space,
};

verus! {

/// The length of the longest prefix of `s` whose characters all satisfy `pred`.
pub open spec fn run_len(s: Seq<char>, pred: spec_fn(char) -> bool) -> nat
    decreases s.len(),
{
    if s.len() > 0 && pred(s[0]) {
        1 + run_len(s.drop_first(), pred)
    } else {
        0
    }
}

/// `n` is the length of the longest prefix of `s` that satisfies `pred`.
pub open spec fn is_run(s: Seq<char>, pred: spec_fn(char) -> bool, n: int) -> bool {
    &&& 0 <= n <= s.len()
    &&& forall|i: int| 0 <= i < n ==> pred(#[trigger] s[i])
    &&& n < s.len() ==> !pred(s[n])
}

/// `run_len` is the only length that `is_run` accepts.
pub proof fn lemma_run_len(s: Seq<char>, pred: spec_fn(char) -> bool, n: int)
    requires
        is_run(s, pred, n),
    ensures
        run_len(s, pred) == n,
    decreases s.len(),
{
    if s.len() > 0 && pred(s[0]) {
        assert(n > 0);
        let t = s.drop_first();
        assert forall|i: int| 0 <= i < n - 1 implies pred(#[trigger] t[i]) by {
            assert(t[i] == s[i + 1]);
        }
        if n - 1 < t.len() {
            assert(t[n - 1] == s[n]);
        }
        lemma_run_len(t, pred, n - 1);
    } else {
        if n > 0 {
            assert(pred(s[0]));
        }
    }
}

/// `run_len` is a run: it stays inside `s`, covers only characters that
/// satisfy `pred`, and stops at the end or at the first that does not.
pub proof fn lemma_run_len_is_run(s: Seq<char>, pred: spec_fn(char) -> bool)
    ensures
        is_run(s, pred, run_len(s, pred) as int),
    decreases s.len(),
{
    if s.len() > 0 && pred(s[0]) {
        let t = s.drop_first();
        lemma_run_len_is_run(t, pred);
        let n = run_len(s, pred) as int;
        assert forall|i: int| 0 <= i < n implies pred(#[trigger] s[i]) by {
            if i > 0 {
                assert(s[i] == t[i - 1]);
            }
        }
        if n < s.len() {
            assert(s[n] == t[n - 1]);
        }
    }
}

/// `s` without its leading whitespace.
pub open spec fn trimmed(s: Seq<char>) -> Seq<char> {
    s.skip(run_len(s, |c: char| white_space(c)) as int)
}

/// The number of characters of `s`, which starts a term, that the term is
/// scanned from. `s` is not empty and does not start with whitespace.
pub open spec fn scan_len(s: Seq<char>) -> nat {
    if numeric(s[0]) {
        run_len(s, |c: char| numeric(c))
    } else if alphabetic(s[0]) {
        run_len(s, |c: char| alphanumeric(c))
    } else {
        1
    }
}

/// The term that is emitted for the scanned run `run`.
pub open spec fn normalized(run: Seq<char>) -> Seq<char> {
    if !numeric(run[0]) && alphabetic(run[0]) {
        run.map_values(|c: char| to_upper(c))
    } else {
        run
    }
}

/// The next term of `s`, if there is one.
pub open spec fn first_term(s: Seq<char>) -> Option<Seq<char>> {
    let t = trimmed(s);
    if t.len() == 0 {
        None
    } else {
        Some(normalized(t.take(scan_len(t) as int)))
    }
}

/// What is left of `s` once its next term has been taken.
pub open spec fn after_first_term(s: Seq<char>) -> Seq<char> {
    let t = trimmed(s);
    if t.len() == 0 {
        t
    } else {
        t.skip(scan_len(t) as int)
    }
}

/// A scanned run is never empty and never longer than what is left.
pub proof fn lemma_scan_len_bounds(t: Seq<char>)
    requires
        t.len() > 0,
    ensures
        1 <= scan_len(t) <= t.len(),
{
    lemma_run_len_is_run(t, |c: char| numeric(c));
    lemma_run_len_is_run(t, |c: char| alphanumeric(c));
}

/// Taking a term consumes at least one character.
pub proof fn lemma_term_advances(s: Seq<char>)
    requires
        first_term(s) is Some,
    ensures
        after_first_term(s).len() < s.len(),
{
    lemma_run_len_is_run(s, |c: char| white_space(c));
    lemma_scan_len_bounds(trimmed(s));
}

/// All the terms of `s`, in order.
pub open spec fn terms(s: Seq<char>) -> Seq<Seq<char>>
    decreases s.len(),
    via terms_decreases
{
    match first_term(s) {
        None => Seq::empty(),
        Some(term) => seq![term] + terms(after_first_term(s)),
    }
}

#[via_fn]
proof fn terms_decreases(s: Seq<char>) {
    if first_term(s) is Some {
        lemma_term_advances(s);
    }
}

/// A term is scanned from a run that is not empty and does not start with
/// whitespace, and has as many characters as the run. A number or a symbol
/// is its run, so that it does not start with whitespace either; a word
/// starts with the upper case of the letter that its run starts with.
pub proof fn lemma_first_term_start(s: Seq<char>)
    requires
        first_term(s) is Some,
    ensures
        trimmed(s).len() > 0,
        !white_space(trimmed(s)[0]),
        first_term(s)->0.len() == scan_len(trimmed(s)) >= 1,
        numeric(trimmed(s)[0]) || !alphabetic(trimmed(s)[0]) ==> first_term(s)->0[0] == trimmed(s)[0],
        !numeric(trimmed(s)[0]) && alphabetic(trimmed(s)[0]) ==> first_term(s)->0[0] == to_upper(
            trimmed(s)[0],
        ),
{
    let space = |c: char| white_space(c);
    lemma_run_len_is_run(s, space);
    lemma_scan_len_bounds(trimmed(s));
    assert(trimmed(s)[0] == s[run_len(s, space) as int]);
}

/// No term is empty.
pub proof fn lemma_terms_not_empty(s: Seq<char>)
    ensures
        forall|i: int| 0 <= i < terms(s).len() ==> (#[trigger] terms(s)[i]).len() > 0,
    decreases s.len(),
{
    if first_term(s) is Some {
        lemma_first_term_start(s);
        lemma_term_advances(s);
        lemma_terms_not_empty(after_first_term(s));
        let rest = terms(after_first_term(s));
        assert forall|i: int| 0 <= i < terms(s).len() implies (#[trigger] terms(s)[i]).len() > 0 by {
            if i > 0 {
                assert(terms(s)[i] == rest[i - 1]);
            }
        }
    }
}

/// A text of whitespace alone, and the empty text among them, has no terms.
pub proof fn lemma_blank_has_no_terms(s: Seq<char>)
    requires
        forall|i: int| 0 <= i < s.len() ==> white_space(#[trigger] s[i]),
    ensures
        terms(s) == Seq::<Seq<char>>::empty(),
{
    lemma_run_len(s, |c: char| white_space(c), s.len() as int);
}

/// A cursor over the characters that are still to be scanned.
#[derive(Debug)]
pub struct Lexer<'a> {
    content: &'a [char],
}

impl<'a> View for Lexer<'a> {
    type V = Seq<char>;

    closed spec fn view(&self) -> Seq<char> {
        self.content@
    }
}

impl<'a> Lexer<'a> {
    /// A lexer at the start of `content`.
    pub fn new(content: &'a [char]) -> (lexer: Self)
        ensures
            lexer@ == content@,
    {
        Self { content }
    }

    /// Skips the leading whitespace.
    pub fn trim_left(&mut self)
        ensures
            final(self)@ == trimmed(old(self)@),
    {
        let mut n: usize = 0;
        while n < self.content.len() && self.content[n].is_whitespace()
            invariant
                n <= self.content@.len(),
                self.content@ == old(self).content@,
                forall|i: int| 0 <= i < n ==> white_space(#[trigger] self.content@[i]),
            decreases self.content@.len() - n,
        {
            n += 1;
        }
        proof {
            lemma_run_len(self.content@, |c: char| white_space(c), n as int);
        }
        self.content = &self.content[n..self.content.len()];
    }

    /// Takes the first `length` characters.
    pub fn chop(&mut self, length: usize) -> (token: &'a [char])
        requires
            length <= old(self)@.len(),
        ensures
            token@ == old(self)@.take(length as int),
            final(self)@ == old(self)@.skip(length as int),
    {
        let token = &self.content[0..length];
        self.content = &self.content[length..self.content.len()];
        token
    }

    /// Takes the longest prefix whose characters all pass `predicate`.
    pub fn chop_while<P>(&mut self, predicate: P) -> (token: &'a [char]) where
        P: Fn(&char) -> bool,

        requires
            forall|c: char| predicate.requires((&c,)),
        ensures
            token@.len() <= old(self)@.len(),
            token@ == old(self)@.take(token@.len() as int),
            final(self)@ == old(self)@.skip(token@.len() as int),
            forall|i: int| 0 <= i < token@.len() ==> predicate.ensures((&#[trigger] token@[i],), true),
            token@.len() < old(self)@.len() ==> predicate.ensures(
                (&old(self)@[token@.len() as int],),
                false,
            ),
    {
        let mut n: usize = 0;
        while n < self.content.len() && predicate(&self.content[n])
            invariant
                n <= self.content@.len(),
                self.content@ == old(self).content@,
                forall|c: char| predicate.requires((&c,)),
                forall|i: int|
                    0 <= i < n ==> predicate.ensures((&#[trigger] self.content@[i],), true),
            ensures
                n <= self.content@.len(),
                n < self.content@.len() ==> predicate.ensures((&self.content@[n as int],), false),
            decreases self.content@.len() - n,
        {
            n += 1;
        }
        self.chop(n)
    }

    /// Scans the run of characters that the next term is made from, or
    /// returns `None` at the end of the input.
    pub fn next_run(&mut self) -> (run: Option<&'a [char]>)
        ensures
            run is Some == (trimmed(old(self)@).len() > 0),
            run is Some ==> run->0@ == trimmed(old(self)@).take(scan_len(trimmed(old(self)@)) as int),
            run is Some ==> run->0@.len() > 0,
            final(self)@ == after_first_term(old(self)@),
    {
        self.trim_left();

        if self.content.is_empty() {
            return None;
        }
        proof {
            lemma_scan_len_bounds(self@);
        }
        let ghost rest = self@;

        if self.content[0].is_numeric() {
            let digit = |c: &char| -> (b: bool)
                ensures
                    b == numeric(*c),
                { c.is_numeric() };
            let run = self.chop_while(digit);
            proof {
                assert forall|i: int| 0 <= i < run@.len() implies numeric(#[trigger] rest[i]) by {
                    assert(run@[i] == rest[i]);
                }
                lemma_run_len(rest, |c: char| numeric(c), run@.len() as int);
            }
            return Some(run);
        }
        if self.content[0].is_alphabetic() {
            let letter_or_digit = |c: &char| -> (b: bool)
                ensures
                    b == alphanumeric(*c),
                { c.is_alphanumeric() };
            let run = self.chop_while(letter_or_digit);
            proof {
                assert forall|i: int| 0 <= i < run@.len() implies alphanumeric(
                    #[trigger] rest[i],
                ) by {
                    assert(run@[i] == rest[i]);
                }
                lemma_run_len(rest, |c: char| alphanumeric(c), run@.len() as int);
            }
            return Some(run);
        }
        Some(self.chop(1))
    }

    /// Scans the next term, or returns `None` at the end of the input.
    pub fn next_token(&mut self) -> (token: Option<String>)
        ensures
            token is Some == first_term(old(self)@) is Some,
            token is Some ==> token->0@ == first_term(old(self)@)->0,
            final(self)@ == after_first_term(old(self)@),
    {
        match self.next_run() {
            None => None,
            Some(run) => {
                if !run[0].is_numeric() && run[0].is_alphabetic() {
                    Some(upper_string_of(run))
                } else {
                    Some(string_of(run))
                }
            },
        }
    }

    /// The next term, as an iterator would hand it out.
    pub fn next(&mut self) -> (token: Option<String>)
        ensures
            token is Some == first_term(old(self)@) is Some,
            token is Some ==> token->0@ == first_term(old(self)@)->0,
            final(self)@ == after_first_term(old(self)@),
    {
        self.next_token()
    }
}

/// The string made of `chars` with ASCII letters folded to upper case.
pub fn upper_string_of(chars: &[char]) -> (text: String)
    ensures
        text@ == chars@.map_values(|c: char| to_upper(c)),
{
    let mut text = String::new();
    let mut i: usize = 0;
    while i < chars.len()
        invariant
            i <= chars.len(),
            text@ == chars@.take(i as int).map_values(|c: char| to_upper(c)),
        decreases chars.len() - i,
    {
        let c = chars[i];
        text.push(c.to_ascii_uppercase());
        proof {
            assert(chars@.take(i + 1) == chars@.take(i as int).push(chars@[i as int]));
        }
        i += 1;
    }
    proof {
        assert(chars@.take(chars.len() as int) == chars@);
    }
    text
}

/// All the terms of `text`, in order.
pub fn tokenize(text: &str) -> (tokens: Vec<String>)
    ensures
        views(tokens@) == terms(text@),
{
    let chars = chars_of(text);
    let mut lexer = Lexer::new(chars.as_slice());
    let mut tokens: Vec<String> = Vec::new();
    loop
        invariant
            views(tokens@) + terms(lexer@) == terms(text@),
        ensures
            views(tokens@) == terms(text@),
        decreases lexer@.len(),
    {
        let ghost before = lexer@;
        let ghost done = views(tokens@);
        match lexer.next_token() {
            Some(token) => {
                proof {
                    lemma_term_advances(before);
                    assert(views(tokens@.push(token)) == done.push(token@));
                    assert(done.push(token@) + terms(lexer@) == done + terms(before));
                }
                tokens.push(token);
            },
            None => {
                assert(done + Seq::<Seq<char>>::empty() == done);
                break;
            },
        }
    }
    tokens
}

} // verus!
