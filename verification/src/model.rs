//! The corpus model: the statistics of every document under its identifier,
//! and for each term the number of documents that hold it.

use vstd::prelude::*;
use crate::doc::{index_text, Doc, DocView, doc_of};
use crate::indexer::{indexed_text, outcome_of, text_to_index, Outcome, SourceFile};
use crate::lexer::terms;
use crate::searcher::{compute_search, scored_ids, weights_of, Scored};
use crate::table::Table;

verus! {

/// The documents of a corpus, each under its identifier.
pub type DocumentIndex = Table<Doc>;

/// For each term, the number of documents that hold it.
pub type TermCorpuswideFrequencyTable = Table<usize>;

/// The identifiers of the documents of `index` that hold `term`.
pub open spec fn docs_containing(index: Map<Seq<char>, DocView>, term: Seq<char>) -> Set<
    Seq<char>,
> {
    Set::new(|id: Seq<char>| index.dom().contains(id) && index[id].dtf.dom().contains(term))
}

/// The number of documents of `index` that hold `term`.
pub open spec fn document_frequency(index: Map<Seq<char>, DocView>, term: Seq<char>) -> nat {
    docs_containing(index, term).len()
}

/// The count that `table` gives for `term`: zero where it has no entry.
pub open spec fn table_count(table: Map<Seq<char>, usize>, term: Seq<char>) -> nat {
    if table.dom().contains(term) {
        table[term] as nat
    } else {
        0
    }
}

/// What the documents of a table say, each under its identifier.
pub open spec fn index_view(docs: Map<Seq<char>, Doc>) -> Map<Seq<char>, DocView> {
    Map::new(|id: Seq<char>| docs.dom().contains(id), |id: Seq<char>| docs[id]@)
}

/// The documents that hold a term are finitely many, and no more than the
/// documents of the index.
pub proof fn lemma_frequency_bound(index: Map<Seq<char>, DocView>, term: Seq<char>)
    requires
        index.dom().finite(),
    ensures
        docs_containing(index, term).finite(),
        document_frequency(index, term) <= index.dom().len(),
{
    let holds = |id: Seq<char>| index[id].dtf.dom().contains(term);
    index.dom().lemma_len_filter(holds);
    assert(docs_containing(index, term) =~= index.dom().filter(holds));
}

/// A document adds one to the frequency of each term that it holds, and
/// nothing to the frequency of any other term.
pub proof fn lemma_frequency_split(index: Map<Seq<char>, DocView>, id: Seq<char>, term: Seq<char>)
    requires
        index.dom().finite(),
        index.dom().contains(id),
    ensures
        document_frequency(index, term) == document_frequency(index.remove(id), term) + if index[id].dtf.dom().contains(
            term,
        ) {
            1nat
        } else {
            0nat
        },
{
    let rest = index.remove(id);
    lemma_frequency_bound(rest, term);
    let with = docs_containing(index, term);
    let without = docs_containing(rest, term);
    assert(!without.contains(id));
    if index[id].dtf.dom().contains(term) {
        assert(with =~= without.insert(id));
    } else {
        assert(with =~= without);
    }
}

/// A new document adds one to the frequency of each term that it holds,
/// however often it holds it, and leaves every other frequency as it was.
pub proof fn lemma_frequency_after_insert(
    index: Map<Seq<char>, DocView>,
    id: Seq<char>,
    doc: DocView,
    term: Seq<char>,
)
    requires
        index.dom().finite(),
        !index.dom().contains(id),
    ensures
        document_frequency(index.insert(id, doc), term) == document_frequency(index, term) + if doc.dtf.dom().contains(
            term,
        ) {
            1nat
        } else {
            0nat
        },
{
    let after = index.insert(id, doc);
    assert(after.remove(id) =~= index);
    lemma_frequency_split(after, id, term);
}

/// The index after the files `files` have been added to `index`, in turn:
/// each file with text to index puts its document under its path.
pub open spec fn index_after(index: Map<Seq<char>, DocView>, files: Seq<SourceFile>) -> Map<
    Seq<char>,
    DocView,
>
    decreases files.len(),
{
    if files.len() == 0 {
        index
    } else {
        let before = index_after(index, files.drop_last());
        match indexed_text(files.last()) {
            Some(text) => before.insert(files.last().path@, doc_of(terms(text))),
            None => before,
        }
    }
}

/// A corpus: the index of its documents, and the table of document
/// frequencies that is kept beside it.
#[derive(Debug)]
pub struct Model {
    doc_index: DocumentIndex,
    tcf_table: TermCorpuswideFrequencyTable,
}

impl View for Model {
    type V = Map<Seq<char>, DocView>;

    /// The document index: what each document says, under its identifier.
    open spec fn view(&self) -> Map<Seq<char>, DocView> {
        index_view(self.docs()@)
    }
}

impl Model {
    /// The table of documents.
    pub closed spec fn docs(&self) -> DocumentIndex {
        self.doc_index
    }

    /// The table of document frequencies.
    pub closed spec fn frequencies(&self) -> TermCorpuswideFrequencyTable {
        self.tcf_table
    }

    /// Both tables are sound, every document is, and the frequency table
    /// gives for every term the number of documents that hold it.
    pub open spec fn wf(&self) -> bool {
        &&& self.docs().wf()
        &&& self.frequencies().wf()
        &&& forall|i: int| 0 <= i < self.docs().values().len() ==> (#[trigger] self.docs().values()[i]).wf()
        &&& forall|term: Seq<char>| #[trigger]
            table_count(self.frequencies()@, term) == document_frequency(self@, term)
    }

    /// The index is finite and has one document for each entry of the table.
    pub proof fn lemma_index_len(&self)
        requires
            self.docs().wf(),
        ensures
            self@.dom().finite(),
            self@.dom().len() == self.docs().keys().len(),
    {
        self.docs().lemma_dom_len();
        assert(self@.dom() =~= self.docs()@.dom());
    }

    /// The model of the empty corpus.
    pub fn new() -> (model: Self)
        ensures
            model.wf(),
            model@ == Map::<Seq<char>, DocView>::empty(),
    {
        let model = Model { doc_index: Table::new(), tcf_table: Table::new() };
        proof {
            assert(model@ =~= Map::<Seq<char>, DocView>::empty());
            assert forall|term: Seq<char>| #[trigger]
                table_count(model.frequencies()@, term) == document_frequency(model@, term) by {
                assert(docs_containing(model@, term) =~= Set::<Seq<char>>::empty());
            }
        }
        model
    }

    /// The table of documents.
    pub fn doc_index(&self) -> (docs: &DocumentIndex)
        ensures
            *docs == self.docs(),
    {
        &self.doc_index
    }

    /// The table of document frequencies.
    pub fn tcf_table(&self) -> (table: &TermCorpuswideFrequencyTable)
        ensures
            *table == self.frequencies(),
    {
        &self.tcf_table
    }

    /// The number of documents.
    pub fn len(&self) -> (n: usize)
        requires
            self.wf(),
        ensures
            n == self@.dom().len(),
    {
        proof {
            self.lemma_index_len();
        }
        self.doc_index.len()
    }

    /// The number of documents that hold `term`, as the frequency table has it.
    pub fn frequency_of(&self, term: &str) -> (count: usize)
        requires
            self.wf(),
        ensures
            count == document_frequency(self@, term@),
            count <= self@.dom().len(),
    {
        proof {
            self.lemma_index_len();
            lemma_frequency_bound(self@, term@);
            assert(table_count(self.frequencies()@, term@) == document_frequency(self@, term@));
        }
        match self.tcf_table.get(term) {
            Some(count) => *count,
            None => 0,
        }
    }

    /// The number of documents that hold `term`, counted over the index.
    pub fn count_documents_with(&self, term: &str) -> (count: usize)
        requires
            self.wf(),
        ensures
            count == document_frequency(self@, term@),
    {
        count_docs(&self.doc_index, term)
    }

    /// Scores every document of the corpus against the phrase
    /// `keyword_phrase`: each document once, with one weight for each term of
    /// the phrase.
    pub fn search(&self, keyword_phrase: &str) -> (result: Vec<Scored>)
        requires
            self.wf(),
        ensures
            scored_ids(result@).no_duplicates(),
            scored_ids(result@).to_set() == self@.dom(),
            result@.len() == self@.dom().len(),
            forall|i: int|
                0 <= i < result@.len() ==> (#[trigger] result@[i]).weights@ == weights_of(
                    terms(keyword_phrase@),
                    self@[result@[i].id@],
                    self@,
                ),
    {
        compute_search(keyword_phrase, self)
    }

    /// The two tables of the model.
    pub fn into_tables(self) -> (tables: (DocumentIndex, TermCorpuswideFrequencyTable))
        requires
            self.wf(),
        ensures
            tables.0 == self.docs(),
            tables.1 == self.frequencies(),
            tables_sound(tables.0, tables.1),
            tables_agree(tables.0, tables.1),
    {
        (self.doc_index, self.tcf_table)
    }

    /// The model with the documents `doc_index` and the frequency table
    /// `tcf_table`, where the table agrees with the documents: for every
    /// term it gives the number of documents that hold the term.
    pub fn from_tables(doc_index: DocumentIndex, tcf_table: TermCorpuswideFrequencyTable) -> (model:
        Option<Model>)
        requires
            tables_sound(doc_index, tcf_table),
        ensures
            model is Some == tables_agree(doc_index, tcf_table),
            model is Some ==> model->0.wf() && model->0.docs() == doc_index
                && model->0.frequencies() == tcf_table && model->0@ == index_view(doc_index@),
    {
        let ghost index = index_view(doc_index@);
        let mut i: usize = 0;
        while i < tcf_table.len()
            invariant
                tables_sound(doc_index, tcf_table),
                index == index_view(doc_index@),
                i <= tcf_table.keys().len(),
                forall|k: int|
                    0 <= k < i ==> table_count(tcf_table@, #[trigger] tcf_table.keys()[k])
                        == document_frequency(index, tcf_table.keys()[k]),
            decreases tcf_table.keys().len() - i,
        {
            let term = tcf_table.key_at(i);
            let stored = *tcf_table.value_at(i);
            proof {
                tcf_table.lemma_entry(i as int);
            }
            if count_docs(&doc_index, term.as_str()) != stored {
                proof {
                    assert(table_count(tcf_table@, term@) != document_frequency(index, term@));
                }
                return None;
            }
            i += 1;
        }
        let mut d: usize = 0;
        while d < doc_index.len()
            invariant
                tables_sound(doc_index, tcf_table),
                index == index_view(doc_index@),
                d <= doc_index.keys().len(),
                forall|k: int, t: Seq<char>|
                    0 <= k < d && (#[trigger] doc_index.values()[k])@.dtf.dom().contains(t)
                        ==> #[trigger] tcf_table@.dom().contains(t),
            decreases doc_index.keys().len() - d,
        {
            let terms = doc_index.value_at(d).dtf();
            let ghost doc = doc_index.values()[d as int];
            let ghost id = doc_index.keys()[d as int];
            proof {
                assert(doc.wf());
                doc_index.lemma_entry(d as int);
            }
            let mut j: usize = 0;
            while j < terms.len()
                invariant
                    tables_sound(doc_index, tcf_table),
                    index == index_view(doc_index@),
                    0 <= d < doc_index.keys().len(),
                    doc == doc_index.values()[d as int],
                    id == doc_index.keys()[d as int],
                    index.dom().contains(id),
                    index[id] == doc@,
                    doc.wf(),
                    *terms == doc.table(),
                    j <= terms.keys().len(),
                    forall|k: int|
                        0 <= k < j ==> tcf_table@.dom().contains(#[trigger] terms.keys()[k]),
                decreases terms.keys().len() - j,
            {
                let term = terms.key_at(j);
                if tcf_table.find(term.as_str()).is_none() {
                    proof {
                        terms.lemma_entry(j as int);
                        doc_index.lemma_dom_len();
                        assert(index.dom() =~= doc_index@.dom());
                        assert(docs_containing(index, term@).contains(id));
                        lemma_frequency_bound(index, term@);
                        assert(document_frequency(index, term@) > 0);
                        assert(table_count(tcf_table@, term@) == 0);
                    }
                    return None;
                }
                j += 1;
            }
            proof {
                assert forall|t: Seq<char>| doc@.dtf.dom().contains(t) implies tcf_table@.dom().contains(
                    t,
                ) by {
                    let k = terms.lemma_position(t);
                }
            }
            d += 1;
        }
        proof {
            assert forall|t: Seq<char>| #[trigger]
                table_count(tcf_table@, t) == document_frequency(index, t) by {
                if tcf_table@.dom().contains(t) {
                    let k = tcf_table.lemma_position(t);
                } else {
                    assert forall|id: Seq<char>| !docs_containing(index, t).contains(id) by {
                        if index.dom().contains(id) && index[id].dtf.dom().contains(t) {
                            let k = doc_index.lemma_position(id);
                            assert(doc_index.values()[k]@.dtf.dom().contains(t));
                        }
                    }
                    assert(docs_containing(index, t) =~= Set::<Seq<char>>::empty());
                }
            }
        }
        Some(Model { doc_index, tcf_table })
    }

    /// Puts `doc` into the index under `id`, in place of the document that
    /// was there if there was one, and brings the frequency table up to date.
    pub fn insert_doc(&mut self, id: String, doc: Doc)
        requires
            old(self).wf(),
            doc.wf(),
        ensures
            final(self).wf(),
            final(self)@ == old(self)@.insert(id@, doc@),
    {
        let ghost before = self@;
        let ghost after = before.insert(id@, doc@);
        let ghost rest = before.remove(id@);
        proof {
            self.lemma_index_len();
            assert(after.remove(id@) =~= rest);
        }
        let found = self.doc_index.find(id.as_str());
        match found {
            Some(p) => {
                proof {
                    self.docs().lemma_entry(p as int);
                    let gone = self.docs().values()[p as int];
                    assert(gone.wf());
                    assert(before[id@] == gone@);
                    assert forall|t: Seq<char>| gone.table()@.dom().contains(t) implies table_count(
                        self.frequencies()@,
                        t,
                    ) > 0 by {
                        lemma_frequency_split(before, id@, t);
                        assert(table_count(self.frequencies()@, t) == document_frequency(
                            before,
                            t,
                        ));
                    }
                }
                adjust_counts(&mut self.tcf_table, self.doc_index.value_at(p).dtf(), false);
                proof {
                    assert forall|t: Seq<char>| #[trigger]
                        table_count(self.frequencies()@, t) == document_frequency(rest, t) by {
                        lemma_frequency_split(before, id@, t);
                        assert(table_count(old(self).frequencies()@, t) == document_frequency(
                            before,
                            t,
                        ));
                    }
                }
            },
            None => {
                proof {
                    assert(rest =~= before);
                }
            },
        }
        let ghost base = self.tcf_table;
        proof {
            assert forall|t: Seq<char>| #[trigger]
                table_count(base@, t) == document_frequency(rest, t) by {
                assert(table_count(self.frequencies()@, t) == document_frequency(rest, t));
            }
        }
        self.doc_index.insert(id, doc);
        let n = self.doc_index.len();
        let at = match found {
            Some(p) => p,
            None => n - 1,
        };
        proof {
            assert(self@ =~= after);
            self.lemma_index_len();
            assert(self.docs().values()[at as int] == doc);
            assert forall|i: int| 0 <= i < self.docs().values().len() implies (
            #[trigger] self.docs().values()[i]).wf() by {
                if i != at {
                    assert(self.docs().values()[i] == old(self).docs().values()[i]);
                }
            }
            assert(rest.dom() =~= after.dom().remove(id@));
            assert(after.dom().contains(id@));
            assert(after.dom().finite());
            assert(rest.dom().finite());
            assert(rest.dom().len() == after.dom().len() - 1);
            assert(after.dom().len() == self.docs().keys().len());
            assert forall|t: Seq<char>| doc.table()@.dom().contains(t) implies table_count(base@, t)
                < usize::MAX by {
                lemma_frequency_bound(rest, t);
                assert(table_count(base@, t) == document_frequency(rest, t));
            }
        }
        adjust_counts(&mut self.tcf_table, self.doc_index.value_at(at).dtf(), true);
        proof {
            assert forall|t: Seq<char>| #[trigger]
                table_count(self.frequencies()@, t) == document_frequency(self@, t) by {
                lemma_frequency_split(after, id@, t);
                assert(table_count(base@, t) == document_frequency(rest, t));
            }
        }
    }

    /// Adds the files that the walk of a directory found: each page that was
    /// read and holds text is indexed under its path, every other file is
    /// passed over. Says of each file what became of it.
    pub fn add_documents(&mut self, files: &Vec<SourceFile>) -> (outcomes: Vec<Outcome>)
        requires
            old(self).wf(),
        ensures
            final(self).wf(),
            final(self)@ == index_after(old(self)@, files@),
            outcomes@.len() == files@.len(),
            forall|i: int| 0 <= i < files@.len() ==> outcomes@[i] == outcome_of(#[trigger] files@[i]),
    {
        let mut outcomes: Vec<Outcome> = Vec::new();
        let mut i: usize = 0;
        while i < files.len()
            invariant
                i <= files@.len(),
                self.wf(),
                self@ == index_after(old(self)@, files@.take(i as int)),
                outcomes@.len() == i,
                forall|j: int| 0 <= j < i ==> outcomes@[j] == outcome_of(#[trigger] files@[j]),
            decreases files@.len() - i,
        {
            let file = &files[i];
            proof {
                assert(files@.take(i + 1).drop_last() == files@.take(i as int));
                assert(files@.take(i + 1).last() == files@[i as int]);
            }
            match text_to_index(file) {
                Ok(text) => {
                    self.add_document(file.path.clone(), text.as_str());
                    outcomes.push(Outcome::Indexed);
                },
                Err(outcome) => {
                    outcomes.push(outcome);
                },
            }
            i += 1;
        }
        proof {
            assert(files@.take(i as int) == files@);
        }
        outcomes
    }

    /// Indexes `text` and puts the result into the index under `id`.
    pub fn add_document(&mut self, id: String, text: &str)
        requires
            old(self).wf(),
        ensures
            final(self).wf(),
            final(self)@ == old(self)@.insert(id@, doc_of(terms(text@))),
    {
        let doc = index_text(text);
        self.insert_doc(id, doc);
    }
}

impl Default for Model {
    /// The model of the empty corpus.
    fn default() -> (model: Self)
        ensures
            model.wf(),
            model@ == Map::<Seq<char>, DocView>::empty(),
    {
        Model::new()
    }
}

/// The frequency table of a sound model gives for every term the number of
/// documents that hold it: at least one for a term that some document holds,
/// and never more than there are documents.
pub proof fn lemma_frequency_table(model: Model, term: Seq<char>)
    requires
        model.wf(),
    ensures
        table_count(model.frequencies()@, term) == document_frequency(model@, term),
        document_frequency(model@, term) <= model@.dom().len(),
        document_frequency(model@, term) > 0 <==> exists|id: Seq<char>|
            model@.dom().contains(id) && (#[trigger] model@[id]).dtf.dom().contains(term),
{
    model.lemma_index_len();
    lemma_frequency_bound(model@, term);
    let holders = docs_containing(model@, term);
    if holders.len() > 0 {
        let id = holders.choose();
        assert(holders.contains(id));
    }
    if exists|id: Seq<char>|
        model@.dom().contains(id) && (#[trigger] model@[id]).dtf.dom().contains(term) {
        let id = choose|id: Seq<char>|
            model@.dom().contains(id) && (#[trigger] model@[id]).dtf.dom().contains(term);
        assert(holders.contains(id));
    }
}

/// The tables of a sound model can be put together again: they are sound and
/// agree, so that `from_tables` accepts what `into_tables` hands out and
/// gives back a model with the same documents and the same frequencies.
pub proof fn lemma_tables_round_trip(model: Model)
    requires
        model.wf(),
    ensures
        tables_sound(model.docs(), model.frequencies()),
        tables_agree(model.docs(), model.frequencies()),
{
}

/// Both tables are sound, and so is every document.
pub open spec fn tables_sound(doc_index: DocumentIndex, tcf_table: TermCorpuswideFrequencyTable) -> bool {
    &&& doc_index.wf()
    &&& tcf_table.wf()
    &&& forall|i: int| 0 <= i < doc_index.values().len() ==> (#[trigger] doc_index.values()[i]).wf()
}

/// The frequency table gives for every term the number of documents that
/// hold it.
pub open spec fn tables_agree(doc_index: DocumentIndex, tcf_table: TermCorpuswideFrequencyTable) -> bool {
    forall|term: Seq<char>| #[trigger]
        table_count(tcf_table@, term) == document_frequency(index_view(doc_index@), term)
}

/// The number of documents of `docs` that hold `term`.
pub fn count_docs(docs: &DocumentIndex, term: &str) -> (count: usize)
    requires
        docs.wf(),
        forall|i: int| 0 <= i < docs.values().len() ==> (#[trigger] docs.values()[i]).wf(),
    ensures
        count == document_frequency(index_view(docs@), term@),
{
    let mut count: usize = 0;
    let mut i: usize = 0;
    let ghost index = index_view(docs@);
    let ghost mut seen: Map<Seq<char>, DocView> = Map::empty();
    proof {
        assert(docs_containing(seen, term@) =~= Set::<Seq<char>>::empty());
    }
    while i < docs.len()
        invariant
            docs.wf(),
            forall|k: int| 0 <= k < docs.values().len() ==> (#[trigger] docs.values()[k]).wf(),
            index == index_view(docs@),
            i <= docs.keys().len(),
            seen.dom().finite(),
            seen.dom().len() == i,
            forall|id: Seq<char>| seen.dom().contains(id) <==> docs.keys().take(i as int).contains(id),
            forall|id: Seq<char>| seen.dom().contains(id) ==> #[trigger] seen[id] == index[id],
            count == document_frequency(seen, term@),
        decreases docs.keys().len() - i,
    {
        let doc = docs.value_at(i);
        let ghost id = docs.keys()[i as int];
        let ghost next = seen.insert(id, doc@);
        proof {
            docs.lemma_entry(i as int);
            lemma_take_contains(docs.keys(), i as int);
            assert(!seen.dom().contains(id));
            assert(next.remove(id) =~= seen);
            lemma_frequency_split(next, id, term@);
            lemma_frequency_bound(next, term@);
            assert(doc.wf());
        }
        if doc.dtf().find(term).is_some() {
            count += 1;
        }
        proof {
            seen = next;
        }
        i += 1;
    }
    proof {
        assert(docs.keys().take(i as int) == docs.keys());
        assert(seen =~= index);
    }
    count
}

/// A key is among the first `n + 1` exactly when it is among the first `n`
/// or is the next one; where no key repeats, the next one is not among them.
pub proof fn lemma_take_contains(keys: Seq<Seq<char>>, n: int)
    requires
        0 <= n < keys.len(),
    ensures
        forall|k: Seq<char>| #[trigger]
            keys.take(n + 1).contains(k) <==> keys.take(n).contains(k) || k == keys[n],
        keys.no_duplicates() ==> !keys.take(n).contains(keys[n]),
{
    assert forall|k: Seq<char>| #[trigger]
        keys.take(n + 1).contains(k) <==> keys.take(n).contains(k) || k == keys[n] by {
        if keys.take(n).contains(k) {
            let i = keys.take(n).index_of(k);
            assert(keys.take(n + 1)[i] == k);
        }
        if k == keys[n] {
            assert(keys.take(n + 1)[n] == k);
        }
        if keys.take(n + 1).contains(k) {
            let i = keys.take(n + 1).index_of(k);
            if i < n {
                assert(keys.take(n)[i] == k);
            }
        }
    }
    if keys.no_duplicates() && keys.take(n).contains(keys[n]) {
        let i = keys.take(n).index_of(keys[n]);
        assert(keys[i] == keys[n]);
    }
}

/// Adds one to the count of every term of `terms`, or takes one from it.
fn adjust_counts(table: &mut Table<usize>, terms: &Table<usize>, up: bool)
    requires
        old(table).wf(),
        terms.wf(),
        up ==> forall|t: Seq<char>|
            terms@.dom().contains(t) ==> table_count(old(table)@, t) < usize::MAX,
        !up ==> forall|t: Seq<char>| terms@.dom().contains(t) ==> table_count(old(table)@, t) > 0,
    ensures
        final(table).wf(),
        forall|t: Seq<char>| #[trigger]
            table_count(final(table)@, t) == table_count(old(table)@, t) + if terms@.dom().contains(
                t,
            ) {
                if up {
                    1int
                } else {
                    -1int
                }
            } else {
                0int
            },
{
    let mut i: usize = 0;
    while i < terms.len()
        invariant
            table.wf(),
            terms.wf(),
            i <= terms.keys().len(),
            up ==> forall|t: Seq<char>|
                terms@.dom().contains(t) ==> table_count(old(table)@, t) < usize::MAX,
            !up ==> forall|t: Seq<char>|
                terms@.dom().contains(t) ==> table_count(old(table)@, t) > 0,
            forall|t: Seq<char>| #[trigger]
                table_count(table@, t) == table_count(old(table)@, t) + if terms.keys().take(
                    i as int,
                ).contains(t) {
                    if up {
                        1int
                    } else {
                        -1int
                    }
                } else {
                    0int
                },
        decreases terms.keys().len() - i,
    {
        let term = terms.key_at(i);
        let ghost prior = table@;
        proof {
            terms.lemma_entry(i as int);
            lemma_take_contains(terms.keys(), i as int);
            assert(table_count(prior, term@) == table_count(old(table)@, term@));
        }
        let count: usize = match table.get(term.as_str()) {
            Some(count) => *count,
            None => 0,
        };
        assert(count == table_count(prior, term@));
        let changed: usize = if up {
            count + 1
        } else {
            count - 1
        };
        table.insert(term.clone(), changed);
        proof {
            assert forall|t: Seq<char>| #[trigger]
                table_count(table@, t) == table_count(old(table)@, t) + if terms.keys().take(
                    i + 1,
                ).contains(t) {
                    if up {
                        1int
                    } else {
                        -1int
                    }
                } else {
                    0int
                } by {
                assert(table_count(prior, t) == table_count(old(table)@, t) + if terms.keys().take(
                    i as int,
                ).contains(t) {
                    if up {
                        1int
                    } else {
                        -1int
                    }
                } else {
                    0int
                });
            }
        }
        i += 1;
    }
    proof {
        assert(terms.keys().take(i as int) == terms.keys());
        assert forall|t: Seq<char>| terms@.dom().contains(t) == terms.keys().contains(t) by {}
    }
}

} // verus!
