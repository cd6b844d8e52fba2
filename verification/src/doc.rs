//! The statistics of one document: how often each term occurs in it, and how
//! many terms it has in all.

use vstd::prelude::*;
use crate::chars::views;
use crate::lexer::{terms, tokenize};
use crate::table::Table;

verus! {

/// How often each term occurs in one document.
pub type DocumentTermsFrequencies = Table<usize>;

/// The number of times that `term` occurs in `words`.
pub open spec fn occurrences(words: Seq<Seq<char>>, term: Seq<char>) -> nat
    decreases words.len(),
{
    if words.len() == 0 {
        0
    } else {
        occurrences(words.drop_last(), term) + if words.last() == term {
            1nat
        } else {
            0nat
        }
    }
}

/// The terms of `words`, each with the number of times it occurs.
pub open spec fn term_counts(words: Seq<Seq<char>>) -> Map<Seq<char>, usize> {
    Map::new(|t: Seq<char>| words.contains(t), |t: Seq<char>| occurrences(words, t) as usize)
}

/// The sum of `counts`.
pub open spec fn total(counts: Seq<usize>) -> nat
    decreases counts.len(),
{
    if counts.len() == 0 {
        0
    } else {
        total(counts.drop_last()) + counts.last() as nat
    }
}

/// A term occurs in `words` exactly when it is counted at least once, and
/// never more often than `words` is long.
pub proof fn lemma_occurrences(words: Seq<Seq<char>>, term: Seq<char>)
    ensures
        occurrences(words, term) <= words.len(),
        words.contains(term) <==> occurrences(words, term) > 0,
    decreases words.len(),
{
    if words.len() > 0 {
        let front = words.drop_last();
        lemma_occurrences(front, term);
        if front.contains(term) {
            let i = front.index_of(term);
            assert(words[i] == term);
        }
        if words.contains(term) && words.last() != term {
            let i = words.index_of(term);
            assert(front[i] == term);
        }
        if words.last() == term {
            assert(words[words.len() - 1] == term);
        }
    }
}

/// Counting one more word adds one to the count of that word and leaves the
/// other counts as they were.
pub proof fn lemma_term_counts_push(words: Seq<Seq<char>>, term: Seq<char>)
    requires
        words.len() < usize::MAX,
    ensures
        term_counts(words.push(term)) == term_counts(words).insert(
            term,
            (occurrences(words, term) + 1) as usize,
        ),
{
    let more = words.push(term);
    assert(more.drop_last() == words);
    assert(more.last() == term);
    assert forall|t: Seq<char>| more.contains(t) == (words.contains(t) || t == term) by {
        if words.contains(t) {
            let i = words.index_of(t);
            assert(more[i] == t);
        }
        if t == term {
            assert(more[more.len() - 1] == t);
        }
        if more.contains(t) && t != term {
            let i = more.index_of(t);
            assert(words[i] == t);
        }
    }
    assert(term_counts(more) =~= term_counts(words).insert(
        term,
        (occurrences(words, term) + 1) as usize,
    ));
}

/// Replacing one count changes the sum by the difference.
pub proof fn lemma_total_update(counts: Seq<usize>, i: int, count: usize)
    requires
        0 <= i < counts.len(),
    ensures
        total(counts.update(i, count)) == total(counts) - counts[i] + count,
        counts[i] <= total(counts),
    decreases counts.len(),
{
    let changed = counts.update(i, count);
    if i == counts.len() - 1 {
        assert(changed.drop_last() == counts.drop_last());
    } else {
        assert(changed.drop_last() == counts.drop_last().update(i, count));
        lemma_total_update(counts.drop_last(), i, count);
    }
}

/// Appending one count adds it to the sum.
pub proof fn lemma_total_push(counts: Seq<usize>, count: usize)
    ensures
        total(counts.push(count)) == total(counts) + count,
{
    assert(counts.push(count).drop_last() == counts);
}

/// What a document's statistics say: the count of each of its terms, and
/// the number of terms in all.
pub ghost struct DocView {
    pub dtf: Map<Seq<char>, usize>,
    pub dtc: usize,
}

/// The statistics of one document.
#[derive(Debug)]
pub struct Doc {
    dtf: DocumentTermsFrequencies,
    dtc: usize,
}

impl View for Doc {
    type V = DocView;

    closed spec fn view(&self) -> DocView {
        DocView { dtf: self.dtf@, dtc: self.dtc }
    }
}

impl Doc {
    /// The table of term counts.
    pub closed spec fn table(&self) -> DocumentTermsFrequencies {
        self.dtf
    }

    /// The table is sound, no term is counted zero times, and the counts add
    /// up to the document's length.
    pub open spec fn wf(&self) -> bool {
        &&& self.table().wf()
        &&& self.table()@ == self@.dtf
        &&& forall|i: int| 0 <= i < self.table().values().len() ==> #[trigger] self.table().values()[i] > 0
        &&& total(self.table().values()) == self@.dtc
    }

    /// The term counts.
    pub fn dtf(&self) -> (dtf: &DocumentTermsFrequencies)
        ensures
            *dtf == self.table(),
            dtf@ == self@.dtf,
    {
        &self.dtf
    }

    /// The term counts, without the document around them.
    pub fn into_dtf(self) -> (dtf: DocumentTermsFrequencies)
        ensures
            dtf == self.table(),
            dtf@ == self@.dtf,
    {
        self.dtf
    }

    /// The number of terms in the document, repeated ones counted each time.
    pub fn dtc(&self) -> (dtc: usize)
        ensures
            dtc == self@.dtc,
    {
        self.dtc
    }

    /// How often `term` occurs in the document.
    pub fn count_of(&self, term: &str) -> (count: usize)
        requires
            self.wf(),
        ensures
            count == count_in(self@, term@),
    {
        match self.dtf.get(term) {
            Some(count) => *count,
            None => 0,
        }
    }

    /// The document with the term counts `dtf` and the length `dtc`, where
    /// these agree: no count is zero, and the counts add up to `dtc`.
    pub fn from_parts(dtf: DocumentTermsFrequencies, dtc: usize) -> (doc: Option<Doc>)
        requires
            dtf.wf(),
        ensures
            doc is Some == (total(dtf.values()) == dtc && forall|i: int|
                0 <= i < dtf.values().len() ==> #[trigger] dtf.values()[i] > 0),
            doc is Some ==> doc->0.wf() && doc->0.table() == dtf && doc->0@.dtc == dtc,
    {
        let mut sum: usize = 0;
        let mut i: usize = 0;
        while i < dtf.len()
            invariant
                dtf.wf(),
                i <= dtf.values().len(),
                sum == total(dtf.values().take(i as int)),
                sum <= dtc,
                forall|j: int| 0 <= j < i ==> #[trigger] dtf.values()[j] > 0,
            decreases dtf.values().len() - i,
        {
            let count = *dtf.value_at(i);
            proof {
                assert(dtf.values().take(i + 1).drop_last() == dtf.values().take(i as int));
                lemma_total_prefix(dtf.values(), i + 1);
            }
            if count == 0 || count > dtc - sum {
                return None;
            }
            sum += count;
            i += 1;
        }
        proof {
            assert(dtf.values().take(i as int) == dtf.values());
        }
        if sum == dtc {
            Some(Doc { dtf, dtc })
        } else {
            None
        }
    }
}

impl Default for Doc {
    /// The document without terms.
    fn default() -> (doc: Self)
        ensures
            doc.wf(),
            doc@.dtc == 0,
            doc@.dtf == Map::<Seq<char>, usize>::empty(),
    {
        Doc { dtf: Table::new(), dtc: 0 }
    }
}

/// The parts of a sound document can be put together again: no count is
/// zero and the counts add up to the length, so that `from_parts` accepts
/// the table and the length of the document.
pub proof fn lemma_parts_round_trip(doc: Doc)
    requires
        doc.wf(),
    ensures
        total(doc.table().values()) == doc@.dtc,
        forall|i: int| 0 <= i < doc.table().values().len() ==> #[trigger] doc.table().values()[i] > 0,
{
}

/// The sum of a prefix is at most the sum of the whole.
pub proof fn lemma_total_prefix(counts: Seq<usize>, n: int)
    requires
        0 <= n <= counts.len(),
    ensures
        total(counts.take(n)) <= total(counts),
    decreases counts.len(),
{
    if n < counts.len() {
        assert(counts.drop_last().take(n) == counts.take(n));
        lemma_total_prefix(counts.drop_last(), n);
    } else {
        assert(counts.take(n) == counts);
    }
}

/// How often `term` occurs in a document: its count, or zero where the
/// document does not hold it.
pub open spec fn count_in(doc: DocView, term: Seq<char>) -> usize {
    if doc.dtf.dom().contains(term) {
        doc.dtf[term]
    } else {
        0
    }
}

/// The document that `words` make: each term with its count, and their number.
pub open spec fn doc_of(words: Seq<Seq<char>>) -> DocView {
    DocView { dtf: term_counts(words), dtc: words.len() as usize }
}

/// Counts the `words` of a document.
pub fn count_terms(words: &Vec<String>) -> (doc: Doc)
    ensures
        doc.wf(),
        doc@ == doc_of(views(words@)),
{
    let ghost all = views(words@);
    let mut dtf: DocumentTermsFrequencies = Table::new();
    let mut i: usize = 0;
    proof {
        assert(term_counts(all.take(0)) =~= Map::<Seq<char>, usize>::empty());
    }
    while i < words.len()
        invariant
            i <= words@.len(),
            all == views(words@),
            dtf.wf(),
            dtf@ == term_counts(all.take(i as int)),
            total(dtf.values()) == i,
            forall|j: int| 0 <= j < dtf.values().len() ==> #[trigger] dtf.values()[j] > 0,
        decreases words@.len() - i,
    {
        let word = &words[i];
        let ghost seen = all.take(i as int);
        proof {
            assert(word@ == all[i as int]);
            assert(all.take(i + 1) == seen.push(word@));
            lemma_term_counts_push(seen, word@);
            lemma_occurrences(seen, word@);
        }
        let found = dtf.find(word.as_str());
        let count: usize = match found {
            Some(j) => {
                proof {
                    dtf.lemma_entry(j as int);
                    lemma_total_update(dtf.values(), j as int, 0);
                    assert(dtf.keys().contains(word@));
                    assert(dtf.keys().index_of(word@) == j);
                    lemma_total_update(dtf.values(), j as int, (dtf.values()[j as int] + 1) as usize);
                }
                *dtf.value_at(j)
            },
            None => {
                proof {
                    lemma_total_push(dtf.values(), 1);
                }
                0
            },
        };
        dtf.insert(word.clone(), count + 1);
        i += 1;
    }
    proof {
        assert(all.take(i as int) == all);
    }
    Doc { dtf, dtc: i }
}

/// The statistics of the document with the text `text`.
pub fn index_text(text: &str) -> (doc: Doc)
    ensures
        doc.wf(),
        doc@ == doc_of(terms(text@)),
        doc@.dtc == terms(text@).len(),
        text@.len() == 0 ==> doc@.dtc == 0 && doc@.dtf == Map::<Seq<char>, usize>::empty(),
{
    let words = tokenize(text);
    let doc = count_terms(&words);
    proof {
        assert(terms(text@).len() == words@.len());
        assert(words@.len() == words.len());
        assert(doc@.dtc == words@.len() as usize);
        if text@.len() == 0 {
            assert(terms(text@) =~= Seq::<Seq<char>>::empty());
            assert(term_counts(terms(text@)) =~= Map::<Seq<char>, usize>::empty());
        }
    }
    doc
}

} // verus!
