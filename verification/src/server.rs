//! The search endpoint: how the target of a request is taken apart, and
//! which reply a request gets.

use vstd::prelude::*;
use crate::chars::{chars_of, string_of};
use crate::lexer::{lemma_run_len, lemma_run_len_is_run, run_len};
use crate::table::str_eq;

verus! {

/// The characters other than `c`.
pub open spec fn other_than(c: char) -> spec_fn(char) -> bool {
    |x: char| x != c
}

/// The number of characters of `s` before the first `c`: the length of `s`
/// where it holds none.
pub open spec fn index_of_char(s: Seq<char>, c: char) -> nat {
    run_len(s, other_than(c))
}

/// `s` split at its first `c`: what stands before it and what stands after
/// it, or `None` where `s` holds no `c`.
pub open spec fn split_once(s: Seq<char>, c: char) -> Option<(Seq<char>, Seq<char>)> {
    let n = index_of_char(s, c) as int;
    if n >= s.len() {
        None
    } else {
        Some((s.take(n), s.skip(n + 1)))
    }
}

/// The pieces of `s` between its occurrences of `c`: one more than there are
/// occurrences, empty pieces among them.
pub open spec fn pieces(s: Seq<char>, c: char) -> Seq<Seq<char>>
    decreases s.len(),
    via pieces_decreases
{
    match split_once(s, c) {
        None => seq![s],
        Some((head, tail)) => seq![head] + pieces(tail, c),
    }
}

#[via_fn]
proof fn pieces_decreases(s: Seq<char>, c: char) {
    lemma_run_len_is_run(s, other_than(c));
}

/// The pairs of key and value among `parts`, in order: each part that holds
/// a `=` is split at its first one, the others are left out.
pub open spec fn pairs_of(parts: Seq<Seq<char>>) -> Seq<(Seq<char>, Seq<char>)>
    decreases parts.len(),
{
    if parts.len() == 0 {
        Seq::empty()
    } else {
        let before = pairs_of(parts.drop_last());
        match split_once(parts.last(), '=') {
            Some(pair) => before.push(pair),
            None => before,
        }
    }
}

/// The pairs of key and value of the query string `query`.
pub open spec fn query_pairs(query: Seq<char>) -> Seq<(Seq<char>, Seq<char>)> {
    pairs_of(pieces(query, '&'))
}

/// The value that `pairs` gives for `key`: that of the last pair with this
/// key, for a later pair replaces an earlier one.
pub open spec fn value_of(pairs: Seq<(Seq<char>, Seq<char>)>, key: Seq<char>) -> Option<Seq<char>>
    decreases pairs.len(),
{
    if pairs.len() == 0 {
        None
    } else if pairs.last().0 == key {
        Some(pairs.last().1)
    } else {
        value_of(pairs.drop_last(), key)
    }
}

/// The path of the request target `url`: what stands before the first `?`.
pub open spec fn url_path(url: Seq<char>) -> Seq<char> {
    match split_once(url, '?') {
        Some((path, _)) => path,
        None => url,
    }
}

/// The query of the request target `url`: the pairs after the first `?`,
/// or `None` where there is no `?` or nothing after it.
pub open spec fn url_query(url: Seq<char>) -> Option<Seq<(Seq<char>, Seq<char>)>> {
    match split_once(url, '?') {
        Some((_, query)) => if query.len() == 0 {
            None
        } else {
            Some(query_pairs(query))
        },
        None => None,
    }
}

/// What the strings of `pairs` hold.
pub open spec fn pair_views(pairs: Seq<(String, String)>) -> Seq<(Seq<char>, Seq<char>)> {
    pairs.map_values(|p: (String, String)| (p.0@, p.1@))
}

/// The position of the first `c` in `chars` at or after `from`, or the
/// length of `chars` where there is none.
pub fn find_char(chars: &[char], from: usize, c: char) -> (at: usize)
    requires
        from <= chars@.len(),
    ensures
        at == from + index_of_char(chars@.skip(from as int), c),
        from <= at <= chars@.len(),
{
    let mut at = from;
    while at < chars.len() && chars[at] != c
        invariant
            from <= at <= chars@.len(),
            forall|i: int| from <= i < at ==> chars@[i] != c,
        decreases chars@.len() - at,
    {
        at += 1;
    }
    proof {
        let rest = chars@.skip(from as int);
        assert forall|i: int| 0 <= i < at - from implies other_than(c)(#[trigger] rest[i]) by {
            assert(rest[i] == chars@[from + i]);
        }
        if at - from < rest.len() {
            assert(rest[at - from] == chars@[at as int]);
        }
        lemma_run_len(rest, other_than(c), at - from);
    }
    at
}

/// Splits `chars` at its first `c`.
pub fn split_chars_once(chars: &[char], c: char) -> (halves: Option<(String, String)>)
    ensures
        halves is Some == split_once(chars@, c) is Some,
        halves matches Some(h) ==> (h.0@, h.1@) == split_once(chars@, c)->0,
{
    proof {
        assert(chars@.skip(0) == chars@);
    }
    let at = find_char(chars, 0, c);
    if at >= chars.len() {
        None
    } else {
        let head = string_of(&chars[0..at]);
        let tail = string_of(&chars[at + 1..chars.len()]);
        Some((head, tail))
    }
}

/// Takes a query string apart into its pairs of key and value.
pub fn parse_query(query: &str) -> (pairs: Vec<(String, String)>)
    ensures
        pair_views(pairs@) == query_pairs(query@),
{
    let chars = chars_of(query);
    let mut pairs: Vec<(String, String)> = Vec::new();
    let mut start: usize = 0;
    let ghost mut done: Seq<Seq<char>> = Seq::empty();
    proof {
        assert(chars@.skip(0) == chars@);
        assert(done + pieces(chars@.skip(0), '&') == pieces(query@, '&'));
        assert(pair_views(pairs@) =~= pairs_of(done));
    }
    loop
        invariant_except_break
            chars@ == query@,
            start <= chars@.len(),
            done + pieces(chars@.skip(start as int), '&') == pieces(query@, '&'),
            pair_views(pairs@) == pairs_of(done),
        ensures
            pair_views(pairs@) == query_pairs(query@),
        decreases chars@.len() - start,
    {
        let end = find_char(chars.as_slice(), start, '&');
        let part = &chars.as_slice()[start..end];
        let ghost rest = chars@.skip(start as int);
        proof {
            assert(part@ == rest.take(end - start));
            assert(done.push(part@).drop_last() == done);
        }
        let ghost before = pair_views(pairs@);
        match split_chars_once(part, '=') {
            Some(pair) => {
                proof {
                    assert(pair_views(pairs@.push(pair)) == before.push((pair.0@, pair.1@)));
                }
                pairs.push(pair);
            },
            None => {},
        }
        proof {
            done = done.push(part@);
        }
        if end >= chars.len() {
            proof {
                assert(part@ == rest);
                assert(pieces(rest, '&') == seq![rest]);
                assert(done == pieces(query@, '&'));
            }
            break;
        }
        proof {
            assert(rest.skip(end - start + 1) == chars@.skip(end + 1));
            assert(pieces(rest, '&') == seq![part@] + pieces(chars@.skip(end + 1), '&'));
            assert(done + pieces(chars@.skip(end + 1), '&') == pieces(query@, '&'));
        }
        start = end + 1;
    }
    pairs
}

/// Takes a request target apart into its path and its query.
pub fn parse_url(url: &str) -> (parts: (String, Option<Vec<(String, String)>>))
    ensures
        parts.0@ == url_path(url@),
        parts.1 is Some == url_query(url@) is Some,
        parts.1 is Some ==> pair_views(parts.1->0@) == url_query(url@)->0,
{
    let chars = chars_of(url);
    match split_chars_once(chars.as_slice(), '?') {
        Some((path, query)) => {
            if query.as_str().unicode_len() == 0 {
                (path, None)
            } else {
                let query = parse_query(query.as_str());
                (path, Some(query))
            }
        },
        None => (string_of(chars.as_slice()), None),
    }
}

/// Looks up the value of `key` among `pairs`.
pub fn query_value(pairs: &Vec<(String, String)>, key: &str) -> (value: Option<String>)
    ensures
        value is Some == value_of(pair_views(pairs@), key@) is Some,
        value is Some ==> value->0@ == value_of(pair_views(pairs@), key@)->0,
{
    let mut i = pairs.len();
    proof {
        assert(pair_views(pairs@).take(i as int) == pair_views(pairs@));
    }
    while i > 0
        invariant
            i <= pairs@.len(),
            value_of(pair_views(pairs@), key@) == value_of(pair_views(pairs@).take(i as int), key@),
        decreases i,
    {
        let ghost prefix = pair_views(pairs@).take(i as int);
        proof {
            assert(prefix.last() == (pairs@[i - 1].0@, pairs@[i - 1].1@));
            assert(prefix.drop_last() == pair_views(pairs@).take(i - 1));
        }
        if str_eq(pairs[i - 1].0.as_str(), key) {
            return Some(pairs[i - 1].1.clone());
        }
        i -= 1;
    }
    None
}

/// The method of a request, as far as the endpoint tells methods apart.
#[derive(Clone, Copy, Debug, PartialEq, Eq, Structural)]
pub enum Method {
    Get,
    Other,
}

/// What a request is answered with.
#[derive(Debug)]
pub enum Reply {
    /// The results of a search for this phrase, as a JSON array.
    Search { keyword_phrase: String },
    /// Status 404, with the body `404`.
    NotFound,
}

/// The phrase that a request for `url` searches for: the value of `q`, and
/// the empty phrase where the target gives none.
pub open spec fn phrase_of(url: Seq<char>) -> Seq<char> {
    match url_query(url) {
        Some(pairs) => match value_of(pairs, "q"@) {
            Some(phrase) => phrase,
            None => Seq::empty(),
        },
        None => Seq::empty(),
    }
}

/// Whether a request is a search: a `GET` of the path `/api/search`.
pub open spec fn is_search(method: Method, url: Seq<char>) -> bool {
    method == Method::Get && url_path(url) == "/api/search"@
}

/// What a reply says.
pub ghost enum ReplyView {
    Search { keyword_phrase: Seq<char> },
    NotFound,
}

impl View for Reply {
    type V = ReplyView;

    open spec fn view(&self) -> ReplyView {
        match self {
            Reply::Search { keyword_phrase } => ReplyView::Search { keyword_phrase: keyword_phrase@ },
            Reply::NotFound => ReplyView::NotFound,
        }
    }
}

/// The reply that a request is owed.
pub open spec fn reply_to(method: Method, url: Seq<char>) -> ReplyView {
    if is_search(method, url) {
        ReplyView::Search { keyword_phrase: phrase_of(url) }
    } else {
        ReplyView::NotFound
    }
}

/// Decides the reply to a request: a search for the phrase under `q` where
/// the request is a `GET` of `/api/search`, and otherwise not found.
pub fn serve_request(method: Method, url: &str) -> (reply: Reply)
    ensures
        reply@ == reply_to(method, url@),
{
    let (path, query) = parse_url(url);
    if method == Method::Get && str_eq(path.as_str(), "/api/search") {
        let found = match &query {
            Some(pairs) => query_value(pairs, "q"),
            None => None,
        };
        let keyword_phrase = match found {
            Some(phrase) => phrase,
            None => String::new(),
        };
        Reply::Search { keyword_phrase }
    } else {
        Reply::NotFound
    }
}

/// The status code of a reply.
pub fn status_code(reply: &Reply) -> (code: u16)
    ensures
        code == if reply is NotFound {
            404u16
        } else {
            200u16
        },
{
    match reply {
        Reply::Search { .. } => 200,
        Reply::NotFound => 404,
    }
}

} // verus!
