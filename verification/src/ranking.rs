//! Ranking: documents in the order of their scores, best first, and in the
//! order of their identifiers where scores are equal.
//!
//! A score stands here as its key: a number that is larger exactly where the
//! score is larger.

use vstd::prelude::*;
use crate::chars::chars_of;

verus! {

/// Whether `a` comes before `b` or equals it, character by character.
pub open spec fn lex_le(a: Seq<char>, b: Seq<char>) -> bool
    decreases a.len(),
{
    if a.len() == 0 {
        true
    } else if b.len() == 0 {
        false
    } else if a[0] != b[0] {
        a[0] < b[0]
    } else {
        lex_le(a.drop_first(), b.drop_first())
    }
}

/// Of two strings one comes before the other or equals it.
pub proof fn lemma_lex_le_total(a: Seq<char>, b: Seq<char>)
    ensures
        lex_le(a, b) || lex_le(b, a),
    decreases a.len(),
{
    if a.len() > 0 && b.len() > 0 && a[0] == b[0] {
        lemma_lex_le_total(a.drop_first(), b.drop_first());
    }
}

/// What comes before something that comes before a third comes before it.
pub proof fn lemma_lex_le_transitive(a: Seq<char>, b: Seq<char>, c: Seq<char>)
    requires
        lex_le(a, b),
        lex_le(b, c),
    ensures
        lex_le(a, c),
    decreases a.len(),
{
    if a.len() > 0 && b.len() > 0 && c.len() > 0 && a[0] == b[0] && b[0] == c[0] {
        lemma_lex_le_transitive(a.drop_first(), b.drop_first(), c.drop_first());
    }
}

/// Whether `a` comes before `b` or equals it, character by character.
pub fn str_le(a: &str, b: &str) -> (le: bool)
    ensures
        le == lex_le(a@, b@),
{
    let a_chars = chars_of(a);
    let b_chars = chars_of(b);
    let mut i: usize = 0;
    proof {
        assert(a@.skip(0) == a@);
        assert(b@.skip(0) == b@);
    }
    while i < a_chars.len() && i < b_chars.len()
        invariant
            i <= a_chars@.len(),
            i <= b_chars@.len(),
            a_chars@ == a@,
            b_chars@ == b@,
            lex_le(a@, b@) == lex_le(a@.skip(i as int), b@.skip(i as int)),
        decreases a_chars@.len() - i,
    {
        proof {
            assert(a@.skip(i as int).drop_first() == a@.skip(i + 1));
            assert(b@.skip(i as int).drop_first() == b@.skip(i + 1));
            assert(a@.skip(i as int)[0] == a@[i as int]);
            assert(b@.skip(i as int)[0] == b@[i as int]);
        }
        if a_chars[i] != b_chars[i] {
            return a_chars[i] < b_chars[i];
        }
        i += 1;
    }
    i == a_chars.len()
}

/// A document with the key of its score.
#[derive(Debug)]
pub struct Ranked {
    pub id: String,
    pub key: u32,
}

impl View for Ranked {
    type V = (Seq<char>, u32);

    open spec fn view(&self) -> (Seq<char>, u32) {
        (self.id@, self.key)
    }
}

/// What `entries` say, in order.
pub open spec fn ranked_views(entries: Seq<Ranked>) -> Seq<(Seq<char>, u32)> {
    entries.map_values(|r: Ranked| r@)
}

/// Whether `a` may stand before `b`: its key is larger, or the keys are
/// equal and its identifier does not come after that of `b`.
pub open spec fn may_precede(a: (Seq<char>, u32), b: (Seq<char>, u32)) -> bool {
    a.1 > b.1 || (a.1 == b.1 && lex_le(a.0, b.0))
}

/// Every entry may stand before each that follows it.
pub open spec fn is_ranked(entries: Seq<(Seq<char>, u32)>) -> bool {
    forall|i: int, j: int|
        0 <= i < j < entries.len() ==> may_precede(#[trigger] entries[i], #[trigger] entries[j])
}

/// Whether `a` may stand before `b`.
pub fn precedes(a: &Ranked, b: &Ranked) -> (before: bool)
    ensures
        before == may_precede(a@, b@),
{
    a.key > b.key || (a.key == b.key && str_le(a.id.as_str(), b.id.as_str()))
}

/// Puts `entries` in order: larger keys first, and among equal keys the
/// identifiers ascending. Nothing is added and nothing is lost.
pub fn rank(entries: Vec<Ranked>) -> (ranked: Vec<Ranked>)
    ensures
        is_ranked(ranked_views(ranked@)),
        ranked_views(ranked@).to_multiset() == ranked_views(entries@).to_multiset(),
{
    let mut rest = entries;
    let mut ranked: Vec<Ranked> = Vec::new();
    proof {
        broadcast use vstd::seq_lib::group_to_multiset_ensures;

        assert(ranked_views(ranked@) =~= Seq::<(Seq<char>, u32)>::empty());
        assert(ranked_views(ranked@).to_multiset().add(ranked_views(rest@).to_multiset())
            =~= ranked_views(entries@).to_multiset());
    }
    while rest.len() > 0
        invariant
            is_ranked(ranked_views(ranked@)),
            ranked_views(ranked@).to_multiset().add(ranked_views(rest@).to_multiset())
                == ranked_views(entries@).to_multiset(),
        decreases rest@.len(),
    {
        let ghost rest_before = ranked_views(rest@);
        let ghost done_before = ranked_views(ranked@);
        let entry = rest.pop().unwrap();
        proof {
            broadcast use vstd::seq_lib::group_to_multiset_ensures;

            assert(ranked_views(rest@) =~= rest_before.drop_last());
            assert(rest_before =~= ranked_views(rest@).push(entry@));
        }
        let mut at: usize = 0;
        while at < ranked.len() && precedes(&ranked[at], &entry)
            invariant
                at <= ranked@.len(),
                forall|k: int| 0 <= k < at ==> may_precede(#[trigger] ranked_views(ranked@)[k], entry@),
            decreases ranked@.len() - at,
        {
            at += 1;
        }
        proof {
            let done = ranked_views(ranked@);
            let next = done.insert(at as int, entry@);
            assert forall|i: int, j: int| 0 <= i < j < next.len() implies may_precede(
                #[trigger] next[i],
                #[trigger] next[j],
            ) by {
                if j == at {
                    assert(next[i] == done[i]);
                } else if i == at {
                    assert(next[j] == done[j - 1]);
                    lemma_lex_le_total(done[at as int].0, entry@.0);
                    if j - 1 > at {
                        assert(may_precede(done[at as int], done[j - 1]));
                        lemma_may_precede_transitive(entry@, done[at as int], done[j - 1]);
                    }
                } else {
                    let i0 = if i < at { i } else { i - 1 };
                    let j0 = if j < at { j } else { j - 1 };
                    assert(next[i] == done[i0]);
                    assert(next[j] == done[j0]);
                }
            }
            assert(next.remove(at as int) =~= done);
            assert(next[at as int] == entry@);
            assert(next.to_multiset() =~= done.to_multiset().insert(entry@)) by {
                broadcast use vstd::seq_lib::group_to_multiset_ensures;

                assert(next.remove(at as int).to_multiset() =~= next.to_multiset().remove(
                    next[at as int],
                ));
                assert(next.contains(entry@));
            }
        }
        ranked.insert(at, entry);
        proof {
            broadcast use vstd::seq_lib::group_to_multiset_ensures;

            assert(ranked_views(ranked@) =~= done_before.insert(at as int, entry@));
            assert(ranked_views(ranked@).to_multiset().add(ranked_views(rest@).to_multiset())
                =~= done_before.to_multiset().add(rest_before.to_multiset()));
        }
    }
    proof {
        assert(ranked_views(rest@) =~= Seq::<(Seq<char>, u32)>::empty());
        assert(ranked_views(rest@).to_multiset() =~= vstd::multiset::Multiset::empty()) by {
            broadcast use vstd::seq_lib::group_to_multiset_ensures;

        }
        assert(ranked_views(ranked@).to_multiset().add(ranked_views(rest@).to_multiset())
            =~= ranked_views(ranked@).to_multiset());
    }
    ranked
}

/// What may stand before something that may stand before a third may stand
/// before it.
pub proof fn lemma_may_precede_transitive(
    a: (Seq<char>, u32),
    b: (Seq<char>, u32),
    c: (Seq<char>, u32),
)
    requires
        may_precede(a, b),
        may_precede(b, c),
    ensures
        may_precede(a, c),
{
    if a.1 == b.1 && b.1 == c.1 {
        lemma_lex_le_transitive(a.0, b.0, c.0);
    }
}

/// Where all keys are equal, the ranked entries stand in the order of their
/// identifiers.
pub proof fn lemma_equal_keys_in_id_order(entries: Seq<(Seq<char>, u32)>)
    requires
        is_ranked(entries),
        forall|i: int, j: int|
            0 <= i < entries.len() && 0 <= j < entries.len() ==> (#[trigger] entries[i]).1 == (
            #[trigger] entries[j]).1,
    ensures
        forall|i: int, j: int|
            0 <= i < j < entries.len() ==> lex_le((#[trigger] entries[i]).0, (#[trigger] entries[j]).0),
{
    assert forall|i: int, j: int| 0 <= i < j < entries.len() implies lex_le(
        (#[trigger] entries[i]).0,
        (#[trigger] entries[j]).0,
    ) by {
        assert(may_precede(entries[i], entries[j]));
    }
}

/// In ranked entries no key is followed by a larger one.
pub proof fn lemma_ranked_keys_descend(entries: Seq<(Seq<char>, u32)>)
    requires
        is_ranked(entries),
    ensures
        forall|i: int, j: int|
            0 <= i < j < entries.len() ==> (#[trigger] entries[i]).1 >= (#[trigger] entries[j]).1,
{
    assert forall|i: int, j: int| 0 <= i < j < entries.len() implies (#[trigger] entries[i]).1 >= (
    #[trigger] entries[j]).1 by {
        assert(may_precede(entries[i], entries[j]));
    }
}

/// The number of results that the command line shows.
pub const CLI_RESULTS: usize = 10;

/// The number of results that the endpoint sends.
pub const API_RESULTS: usize = 20;

/// `limit`, or `len` where that is less.
pub open spec fn at_most(limit: usize, len: nat) -> int {
    if limit <= len {
        limit as int
    } else {
        len as int
    }
}

/// The `limit` best of `scores`, best first.
pub fn search(scores: Vec<Ranked>, limit: usize) -> (best: Vec<Ranked>)
    ensures
        exists|ranked: Seq<(Seq<char>, u32)>|
            {
                &&& #[trigger] is_ranked(ranked)
                &&& ranked.to_multiset() == ranked_views(scores@).to_multiset()
                &&& ranked_views(best@) == ranked.take(at_most(limit, ranked.len()))
            },
{
    let ranked = rank(scores);
    let ghost all = ranked_views(ranked@);
    let best = top(ranked, limit);
    proof {
        assert(ranked_views(best@) =~= all.take(at_most(limit, all.len())));
        assert(is_ranked(all));
    }
    best
}

/// The first `limit` entries, or all where there are fewer.
pub fn top(entries: Vec<Ranked>, limit: usize) -> (first: Vec<Ranked>)
    ensures
        first@ == entries@.take(at_most(limit, entries@.len())),
{
    let mut first = entries;
    first.truncate(limit);
    proof {
        if limit > entries@.len() {
            assert(entries@.take(entries@.len() as int) == entries@);
        }
    }
    first
}

} // verus!
