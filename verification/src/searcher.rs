//! Scoring: what each document of a corpus scores against a query.
//!
//! A score is the sum, over the terms of the query, of the term's frequency
//! in the document times the logarithm to base ten of a ratio that grows as
//! the term gets rarer in the corpus. The library keeps every score exact, as
//! the list of these factors; only their evaluation needs real numbers.

use vstd::prelude::*;
use crate::chars::views;
use crate::doc::{count_in, Doc, DocView};
use crate::lexer::{terms, tokenize};
use crate::model::{document_frequency, lemma_frequency_bound, Model};

verus! {

/// An exact fraction of two natural numbers, the second not zero.
#[derive(Clone, Copy, Debug, PartialEq, Eq, Structural)]
pub struct Ratio {
    pub numerator: u128,
    pub denominator: u128,
}

/// The frequency of `term` in `doc`: its count over the length of the
/// document, and zero for a document without terms.
pub open spec fn tf_ratio(term: Seq<char>, doc: DocView) -> Ratio {
    if doc.dtc == 0 {
        Ratio { numerator: 0, denominator: 1 }
    } else {
        Ratio { numerator: count_in(doc, term) as u128, denominator: doc.dtc as u128 }
    }
}

/// The ratio whose logarithm to base ten is the inverse document frequency
/// of `term` in `index`: one more than the number of documents, over one more
/// than the number of documents that hold the term.
pub open spec fn idf_ratio(term: Seq<char>, index: Map<Seq<char>, DocView>) -> Ratio {
    Ratio {
        numerator: (1 + index.dom().len()) as u128,
        denominator: (1 + document_frequency(index, term)) as u128,
    }
}

/// The ratio under the logarithm is never below one, and is one exactly for a
/// term that every document holds: so the inverse document frequency is
/// never negative, and zero exactly for such a term.
pub proof fn lemma_idf_ratio_bounds(term: Seq<char>, model: Model)
    requires
        model.wf(),
    ensures
        document_frequency(model@, term) <= model@.dom().len(),
        idf_ratio(term, model@).denominator >= 1,
        idf_ratio(term, model@).numerator >= idf_ratio(term, model@).denominator,
        idf_ratio(term, model@).numerator == idf_ratio(term, model@).denominator
            <==> document_frequency(model@, term) == model@.dom().len(),
{
    model.lemma_index_len();
    model.docs().lemma_len_bound();
    lemma_frequency_bound(model@, term);
}

/// The frequency of `term` in `doc`, as an exact fraction.
pub fn compute_tf(term: &str, doc: &Doc) -> (tf: Ratio)
    requires
        doc.wf(),
    ensures
        tf == tf_ratio(term@, doc@),
        tf.denominator > 0,
{
    let s = doc.dtc();
    if s == 0 {
        Ratio { numerator: 0, denominator: 1 }
    } else {
        let t = doc.count_of(term);
        Ratio { numerator: t as u128, denominator: s as u128 }
    }
}

/// The ratio whose logarithm to base ten is the inverse document frequency
/// of `term` in the corpus.
pub fn compute_idf(term: &str, model: &Model) -> (idf: Ratio)
    requires
        model.wf(),
    ensures
        idf == idf_ratio(term@, model@),
        idf.numerator >= idf.denominator >= 1,
        idf.numerator == idf.denominator <==> document_frequency(model@, term@)
            == model@.dom().len(),
{
    let n = model.len();
    let d = model.frequency_of(term);
    Ratio { numerator: 1 + n as u128, denominator: 1 + d as u128 }
}

/// What one term of a query adds to a document's score: `tf` times the
/// logarithm to base ten of `idf`.
#[derive(Clone, Copy, Debug, PartialEq, Eq, Structural)]
pub struct Weight {
    pub tf: Ratio,
    pub idf: Ratio,
}

/// A document with its exact score: the sum of its weights.
#[derive(Debug)]
pub struct Scored {
    pub id: String,
    pub weights: Vec<Weight>,
}

/// The weights of the document `doc` of `index` against the terms `query`,
/// one for each term, in order.
pub open spec fn weights_of(query: Seq<Seq<char>>, doc: DocView, index: Map<Seq<char>, DocView>) -> Seq<
    Weight,
> {
    Seq::new(
        query.len(),
        |j: int| Weight { tf: tf_ratio(query[j], doc), idf: idf_ratio(query[j], index) },
    )
}

/// Whether the score that `weights` add up to is zero: every weight has a
/// term that the document does not hold, or one that every document holds.
pub open spec fn score_is_zero(weights: Seq<Weight>) -> bool {
    forall|j: int|
        0 <= j < weights.len() ==> (#[trigger] weights[j]).tf.numerator == 0 || weights[j].idf.numerator
            == weights[j].idf.denominator
}

/// Against a query without terms every document scores zero.
pub proof fn lemma_empty_query_scores_zero(
    query: Seq<Seq<char>>,
    doc: DocView,
    index: Map<Seq<char>, DocView>,
)
    requires
        query.len() == 0,
    ensures
        weights_of(query, doc, index).len() == 0,
        score_is_zero(weights_of(query, doc, index)),
{
}

/// A document that holds no term of the query scores zero.
pub proof fn lemma_no_term_scores_zero(
    query: Seq<Seq<char>>,
    doc: DocView,
    index: Map<Seq<char>, DocView>,
)
    requires
        forall|j: int| 0 <= j < query.len() ==> !doc.dtf.dom().contains(#[trigger] query[j]),
    ensures
        score_is_zero(weights_of(query, doc, index)),
{
    assert forall|j: int| 0 <= j < query.len() implies (#[trigger] weights_of(
        query,
        doc,
        index,
    )[j]).tf.numerator == 0 by {
        assert(!doc.dtf.dom().contains(query[j]));
    }
}

/// Whether the score that `weights` add up to is zero.
pub fn is_zero(weights: &Vec<Weight>) -> (zero: bool)
    ensures
        zero == score_is_zero(weights@),
{
    let mut j: usize = 0;
    while j < weights.len()
        invariant
            j <= weights@.len(),
            score_is_zero(weights@.take(j as int)),
        decreases weights@.len() - j,
    {
        let w = weights[j];
        if w.tf.numerator != 0 && w.idf.numerator != w.idf.denominator {
            return false;
        }
        proof {
            assert forall|k: int| 0 <= k < j + 1 implies (#[trigger] weights@.take(
                j + 1,
            )[k]).tf.numerator == 0 || weights@.take(j + 1)[k].idf.numerator == weights@.take(
                j + 1,
            )[k].idf.denominator by {
                if k < j {
                    assert(weights@.take(j + 1)[k] == weights@.take(j as int)[k]);
                }
            }
        }
        j += 1;
    }
    proof {
        assert(weights@.take(j as int) == weights@);
    }
    true
}

/// The identifiers of `scored`, in order.
pub open spec fn scored_ids(scored: Seq<Scored>) -> Seq<Seq<char>> {
    scored.map_values(|s: Scored| s.id@)
}

/// The weights of `doc` against the terms `query`.
pub fn compute_weights(query: &Vec<String>, doc: &Doc, model: &Model) -> (weights: Vec<Weight>)
    requires
        model.wf(),
        doc.wf(),
    ensures
        weights@ == weights_of(views(query@), doc@, model@),
{
    let mut weights: Vec<Weight> = Vec::new();
    let mut j: usize = 0;
    while j < query.len()
        invariant
            j <= query@.len(),
            model.wf(),
            doc.wf(),
            weights@ == weights_of(views(query@), doc@, model@).take(j as int),
        decreases query@.len() - j,
    {
        let term = query[j].as_str();
        let weight = Weight { tf: compute_tf(term, doc), idf: compute_idf(term, model) };
        proof {
            let all = weights_of(views(query@), doc@, model@);
            assert(term@ == views(query@)[j as int]);
            assert(all.take(j + 1) == all.take(j as int).push(weight));
        }
        weights.push(weight);
        j += 1;
    }
    proof {
        let all = weights_of(views(query@), doc@, model@);
        assert(all.take(j as int) == all);
    }
    weights
}

/// Scores every document of the corpus against the phrase `keyword_phrase`:
/// each document once, with one weight for each term of the phrase.
pub fn compute_search(keyword_phrase: &str, model: &Model) -> (result: Vec<Scored>)
    requires
        model.wf(),
    ensures
        scored_ids(result@).no_duplicates(),
        scored_ids(result@).to_set() == model@.dom(),
        result@.len() == model@.dom().len(),
        forall|i: int|
            0 <= i < result@.len() ==> (#[trigger] result@[i]).weights@ == weights_of(
                terms(keyword_phrase@),
                model@[result@[i].id@],
                model@,
            ),
{
    let query = tokenize(keyword_phrase);
    let docs = model.doc_index();
    let mut result: Vec<Scored> = Vec::new();
    let mut i: usize = 0;
    proof {
        model.lemma_index_len();
    }
    while i < docs.len()
        invariant
            i <= docs.keys().len(),
            model.wf(),
            *docs == model.docs(),
            views(query@) == terms(keyword_phrase@),
            scored_ids(result@) == docs.keys().take(i as int),
            forall|k: int|
                0 <= k < result@.len() ==> (#[trigger] result@[k]).weights@ == weights_of(
                    terms(keyword_phrase@),
                    model@[result@[k].id@],
                    model@,
                ),
        decreases docs.keys().len() - i,
    {
        let id = docs.key_at(i);
        let doc = docs.value_at(i);
        proof {
            docs.lemma_entry(i as int);
            assert(doc.wf());
            assert(model@[id@] == doc@);
        }
        let weights = compute_weights(&query, doc, model);
        let entry = Scored { id: id.clone(), weights };
        proof {
            assert(scored_ids(result@.push(entry)) == scored_ids(result@).push(entry.id@));
            assert(docs.keys().take(i + 1) == docs.keys().take(i as int).push(docs.keys()[i as int]));
        }
        result.push(entry);
        i += 1;
    }
    proof {
        assert(docs.keys().take(i as int) == docs.keys());
        assert(scored_ids(result@).to_set() =~= model@.dom());
    }
    result
}

} // verus!
