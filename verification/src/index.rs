//! A batch of documents behind one search.
use crate::document::{lemma_search_hits, Document, DocumentModel};
use crate::filter::{
    lemma_insert_all_concat, lemma_insert_all_undegraded, lemma_insert_all_with_room, FilterModel,
    PreFilter,
};
use crate::text::{first_occurrences, tokens_of, unique, Normalisation, Tokeniser};
use vstd::prelude::*;

verus! {

/// The number of sentences that a search result shows at most.
pub const SAMPLE_LIMIT: usize = 5;

/// What a search found in one document.
pub struct SearchResult<'a> {
    /// The name of the document.
    pub name: &'a str,
    /// The number of matches, those that `samples` leaves out included.
    pub hit_count: usize,
    /// The first matches, at most `SAMPLE_LIMIT` of them.
    pub samples: Vec<String>,
}

/// What a search result is, as a value.
pub struct ResultModel {
    pub name: Seq<char>,
    pub hit_count: nat,
    pub samples: Seq<Seq<char>>,
}

impl<'a> View for SearchResult<'a> {
    type V = ResultModel;

    open spec fn view(&self) -> ResultModel {
        ResultModel {
            name: self.name@,
            hit_count: self.hit_count as nat,
            samples: self.samples.deep_view(),
        }
    }
}

impl<'a> DeepView for SearchResult<'a> {
    type V = ResultModel;

    open spec fn deep_view(&self) -> ResultModel {
        self@
    }
}

/// The result that a document's matches make: their number, and the first of
/// them up to the limit.
pub open spec fn result_of(name: Seq<char>, found: Seq<Seq<char>>) -> ResultModel {
    ResultModel {
        name,
        hit_count: found.len(),
        samples: if found.len() <= SAMPLE_LIMIT {
            found
        } else {
            found.take(SAMPLE_LIMIT as int)
        },
    }
}

impl<'a> SearchResult<'a> {
    /// Wraps the matches of one document.
    pub fn new(name: &'a str, found: Vec<String>) -> (result: SearchResult<'a>)
        ensures
            result@ == result_of(name@, found.deep_view()),
    {
        let hit_count = found.len();
        let ghost all = found.deep_view();
        let mut samples = found;
        samples.truncate(SAMPLE_LIMIT);
        proof {
            if all.len() <= SAMPLE_LIMIT {
                assert(samples.deep_view() =~= all);
            } else {
                assert(samples.deep_view() =~= all.take(SAMPLE_LIMIT as int));
            }
        }
        SearchResult { name, hit_count, samples }
    }
}

/// The number of tokens in the vocabularies of a batch, repetitions between
/// documents counted.
pub open spec fn total_vocabulary(documents: Seq<DocumentModel>) -> nat
    decreases documents.len(),
{
    if documents.len() == 0 {
        0
    } else {
        total_vocabulary(documents.drop_last()) + documents.last().vocabulary.len()
    }
}

/// The tokens of the vocabularies of a batch, document after document.
pub open spec fn corpus_tokens(documents: Seq<DocumentModel>) -> Seq<Seq<char>>
    decreases documents.len(),
{
    if documents.len() == 0 {
        Seq::empty()
    } else {
        corpus_tokens(documents.drop_last()) + documents.last().vocabulary
    }
}

/// The bound of the corpus filter: room for every token of the batch, as far as
/// the machine can count.
pub open spec fn corpus_capacity(documents: Seq<DocumentModel>) -> nat {
    if total_vocabulary(documents) <= usize::MAX {
        total_vocabulary(documents)
    } else {
        usize::MAX as nat
    }
}

/// The keys of a batch of the given size: `0, 1, 2, ...`.
pub open spec fn keys_of(size: nat) -> Seq<usize> {
    Seq::new(size, |i: int| i as usize)
}

/// The results that a run of documents gives for a run of terms: one for each
/// document whose filter accepts at least one of the terms, in order.
pub open spec fn results_for(documents: Seq<DocumentModel>, terms: Seq<Seq<char>>) -> Seq<
    ResultModel,
> {
    documents.filter(|d: DocumentModel| d.passes(terms)).map_values(
        |d: DocumentModel| result_of(d.name, d.search(terms)),
    )
}

/// What an index is, as a value.
pub struct IndexModel {
    pub name: Seq<char>,
    pub documents: Seq<DocumentModel>,
    pub keys: Seq<usize>,
    pub filter: FilterModel,
    pub mode: Normalisation,
}

/// The index that a batch of documents gives.
pub open spec fn index_of(
    name: Seq<char>,
    documents: Seq<DocumentModel>,
    mode: Normalisation,
) -> IndexModel {
    IndexModel {
        name,
        documents,
        keys: keys_of(documents.len()),
        filter: FilterModel::empty(corpus_capacity(documents)).insert_all(corpus_tokens(documents)),
        mode,
    }
}

impl IndexModel {
    /// Every document is well formed, the keys are the places of the documents
    /// in the order of insertion, and the corpus filter is well formed; unless
    /// it is degraded, it accepts every token of every document.
    pub open spec fn wf(self) -> bool {
        &&& forall|i: int| 0 <= i < self.documents.len() ==> (#[trigger] self.documents[i]).wf()
        &&& self.documents.len() <= usize::MAX
        &&& self.keys == keys_of(self.documents.len())
        &&& self.filter.wf()
        &&& !self.filter.degraded ==> forall|i: int, j: int|
            0 <= i < self.documents.len() && 0 <= j < self.documents[i].vocabulary.len()
                ==> self.filter.contains(#[trigger] self.documents[i].vocabulary[j])
    }

    /// The terms of a query: its tokens, each once, in the order in which the
    /// query first shows them.
    pub open spec fn query_terms(self, query: Seq<char>) -> Seq<Seq<char>> {
        first_occurrences(tokens_of(self.mode, query))
    }

    /// The results for a run of terms: one for each document whose filter
    /// accepts at least one of the terms, in the order of the keys.
    pub open spec fn search_terms(self, terms: Seq<Seq<char>>) -> Seq<ResultModel> {
        results_for(self.documents, terms)
    }

    /// The results for a query.
    pub open spec fn search(self, query: Seq<char>) -> Seq<ResultModel> {
        self.search_terms(self.query_terms(query))
    }
}

/// The tokens of a batch are as many as its vocabularies hold together.
pub proof fn lemma_corpus_tokens_len(documents: Seq<DocumentModel>)
    ensures
        corpus_tokens(documents).len() == total_vocabulary(documents),
    decreases documents.len(),
{
    if documents.len() > 0 {
        lemma_corpus_tokens_len(documents.drop_last());
    }
}

/// Where the machine can count the tokens of a batch, the corpus filter of its
/// index lets none go: it is not degraded, and it accepts every token of every
/// document.
pub proof fn lemma_corpus_filter_complete(
    name: Seq<char>,
    documents: Seq<DocumentModel>,
    mode: Normalisation,
    place: int,
    token: Seq<char>,
)
    requires
        total_vocabulary(documents) <= usize::MAX,
        0 <= place < documents.len(),
        documents[place].vocabulary.contains(token),
    ensures
        !index_of(name, documents, mode).filter.degraded,
        index_of(name, documents, mode).filter.contains(token),
{
    let empty = FilterModel::empty(corpus_capacity(documents));
    let tokens = corpus_tokens(documents);
    lemma_corpus_tokens_len(documents);
    lemma_insert_all_with_room(empty, tokens);
    lemma_corpus_tokens_hold(documents, place, token);
    let i = choose|i: int| 0 <= i < tokens.len() && tokens[i] == token;
    assert(empty.insert_all(tokens).contains(tokens[i]));
}

/// The tokens of a batch hold every token of each of its documents.
proof fn lemma_corpus_tokens_hold(documents: Seq<DocumentModel>, place: int, token: Seq<char>)
    requires
        0 <= place < documents.len(),
        documents[place].vocabulary.contains(token),
    ensures
        corpus_tokens(documents).contains(token),
    decreases documents.len(),
{
    let front = corpus_tokens(documents.drop_last());
    let last = documents.last().vocabulary;
    if place < documents.len() - 1 {
        lemma_corpus_tokens_hold(documents.drop_last(), place, token);
        let i = choose|i: int| 0 <= i < front.len() && front[i] == token;
        assert((front + last)[i] == token);
    } else {
        let i = choose|i: int| 0 <= i < last.len() && last[i] == token;
        assert((front + last)[front.len() + i] == token);
    }
}

/// The shape of the results while the documents are taken one by one. Among
/// the first `n` documents, where only document `k` mentions any of the terms:
/// the results with a hit are as many as `k` lies among them, and each is the
/// result of document `k`.
proof fn lemma_hits_among(documents: Seq<DocumentModel>, terms: Seq<Seq<char>>, k: int, n: int)
    requires
        0 <= k < documents.len(),
        0 <= n <= documents.len(),
        forall|i: int| 0 <= i < documents.len() ==> (#[trigger] documents[i]).wf(),
        exists|t: int| 0 <= t < terms.len() && documents[k].mentions(#[trigger] terms[t]),
        forall|i: int, t: int|
            0 <= i < documents.len() && i != k && 0 <= t < terms.len() ==> !(
            #[trigger] documents[i]).mentions(#[trigger] terms[t]),
    ensures
        results_for(documents.take(n), terms).filter(|r: ResultModel| r.hit_count > 0).len()
            == (if k < n {
            1nat
        } else {
            0nat
        }),
        forall|j: int|
            0 <= j < results_for(documents.take(n), terms).len() && (#[trigger] results_for(
                documents.take(n),
                terms,
            )[j]).hit_count > 0 ==> results_for(documents.take(n), terms)[j] == result_of(
                documents[k].name,
                documents[k].search(terms),
            ),
        k < n ==> results_for(documents.take(n), terms).contains(
            result_of(documents[k].name, documents[k].search(terms)),
        ),
    decreases n,
{
    let passes = |d: DocumentModel| d.passes(terms);
    let wrap = |d: DocumentModel| result_of(d.name, d.search(terms));
    let hit = |r: ResultModel| r.hit_count > 0;
    reveal_with_fuel(Seq::filter, 1);
    if n == 0 {
        assert(documents.take(0) =~= Seq::empty());
        assert(documents.take(0).filter(passes) =~= Seq::empty());
        assert(results_for(documents.take(0), terms) =~= Seq::empty());
        assert(results_for(documents.take(0), terms).filter(hit) =~= Seq::empty());
    } else {
        lemma_hits_among(documents, terms, k, n - 1);
        let front = documents.take(n - 1);
        let d = documents[n - 1];
        let before = results_for(front, terms);
        let now = results_for(documents.take(n), terms);
        assert(documents.take(n) =~= front.push(d));
        Seq::lemma_filter_push(front, d, passes);
        lemma_search_hits(d, terms);
        if n - 1 == k {
            let t = choose|t: int| 0 <= t < terms.len() && d.mentions(#[trigger] terms[t]);
            assert(d.vocabulary.contains(terms[t]));
            let at = choose|at: int| 0 <= at < d.vocabulary.len() && d.vocabulary[at] == terms[t];
            assert(d.filter.contains(d.vocabulary[at]));
            assert(d.passes(terms));
        } else {
            assert forall|t: int| 0 <= t < terms.len() implies !d.mentions(#[trigger] terms[t]) by {
                assert(!documents[n - 1].mentions(terms[t]));
            }
        }
        if passes(d) {
            assert(now =~= before.push(wrap(d)));
            Seq::lemma_filter_push(before, wrap(d), hit);
            assert(now[now.len() - 1] == wrap(d));
            if k < n - 1 {
                let j = choose|j: int|
                    0 <= j < before.len() && before[j] == result_of(
                        documents[k].name,
                        documents[k].search(terms),
                    );
                assert(now[j] == before[j]);
            }
        } else {
            assert(now =~= before);
        }
    }
}

/// Pruning is sound. Where one document alone mentions any of the terms, its
/// result is among the results and has a hit, and no other result has one:
/// the results with a hit are one, that of this document.
pub proof fn lemma_only_hit(index: IndexModel, terms: Seq<Seq<char>>, k: int)
    requires
        index.wf(),
        0 <= k < index.documents.len(),
        exists|t: int| 0 <= t < terms.len() && index.documents[k].mentions(#[trigger] terms[t]),
        forall|i: int, t: int|
            0 <= i < index.documents.len() && i != k && 0 <= t < terms.len() ==> !(
            #[trigger] index.documents[i]).mentions(#[trigger] terms[t]),
    ensures
        result_of(index.documents[k].name, index.documents[k].search(terms)).hit_count > 0,
        index.search_terms(terms).contains(
            result_of(index.documents[k].name, index.documents[k].search(terms)),
        ),
        forall|j: int|
            0 <= j < index.search_terms(terms).len() && (#[trigger] index.search_terms(
                terms,
            )[j]).hit_count > 0 ==> index.search_terms(terms)[j] == result_of(
                index.documents[k].name,
                index.documents[k].search(terms),
            ),
        index.search_terms(terms).filter(|r: ResultModel| r.hit_count > 0).len() == 1,
{
    let n = index.documents.len() as int;
    lemma_hits_among(index.documents, terms, k, n);
    assert(index.documents.take(n) =~= index.documents);
    lemma_search_hits(index.documents[k], terms);
}

/// Pruning is sound for a query: where one document alone mentions any term of
/// the query, the results of the search with a hit are one, that of this
/// document.
pub proof fn lemma_pruning_sound(index: IndexModel, query: Seq<char>, k: int)
    requires
        index.wf(),
        0 <= k < index.documents.len(),
        exists|t: int|
            0 <= t < index.query_terms(query).len() && index.documents[k].mentions(
                #[trigger] index.query_terms(query)[t],
            ),
        forall|i: int, t: int|
            0 <= i < index.documents.len() && i != k && 0 <= t < index.query_terms(query).len()
                ==> !(#[trigger] index.documents[i]).mentions(
                #[trigger] index.query_terms(query)[t],
            ),
    ensures
        index.search(query).contains(
            result_of(
                index.documents[k].name,
                index.documents[k].search(index.query_terms(query)),
            ),
        ),
        forall|j: int|
            0 <= j < index.search(query).len() && (#[trigger] index.search(query)[j]).hit_count > 0
                ==> index.search(query)[j] == result_of(
                index.documents[k].name,
                index.documents[k].search(index.query_terms(query)),
            ),
        index.search(query).filter(|r: ResultModel| r.hit_count > 0).len() == 1,
{
    lemma_only_hit(index, index.query_terms(query), k);
}

/// Building and searching are functions of what they are given: two indexes
/// built from the same batch under the same name and rule answer every query
/// with the same results, in the same order.
pub proof fn lemma_deterministic(
    first: Index,
    second: Index,
    name: Seq<char>,
    documents: Seq<DocumentModel>,
    mode: Normalisation,
    query: Seq<char>,
)
    requires
        first@ == index_of(name, documents, mode),
        second@ == index_of(name, documents, mode),
    ensures
        first@.search(query) == second@.search(query),
{
}

/// A corpus of documents, fixed when it is built.
pub struct Index {
    name: String,
    documents: Vec<Document>,
    keys: Vec<usize>,
    filter: PreFilter,
    tokeniser: Tokeniser,
}

impl View for Index {
    type V = IndexModel;

    closed spec fn view(&self) -> IndexModel {
        IndexModel {
            name: self.name@,
            documents: self.documents.deep_view(),
            keys: self.keys@,
            filter: self.filter@,
            mode: self.tokeniser.spec_mode(),
        }
    }
}

impl Index {
    /// The parts are well formed, and so is the index as a value.
    pub closed spec fn wf(&self) -> bool {
        &&& self.tokeniser.wf()
        &&& self.filter.wf()
        &&& forall|i: int| 0 <= i < self.documents.len() ==> (#[trigger] self.documents@[i]).wf()
        &&& self@.wf()
    }

    /// A well-formed index is well formed as a value.
    pub proof fn lemma_wf(&self)
        requires
            self.wf(),
        ensures
            self@.wf(),
    {
    }

    /// Unless the corpus filter is degraded, it accepts every token of every
    /// document.
    pub proof fn lemma_corpus_complete(&self, key: int, token: Seq<char>)
        requires
            self.wf(),
            !self@.filter.degraded,
            0 <= key < self@.documents.len(),
            self@.documents[key].vocabulary.contains(token),
        ensures
            self@.filter.contains(token),
    {
        let vocabulary = self@.documents[key].vocabulary;
        let j = choose|j: int| 0 <= j < vocabulary.len() && vocabulary[j] == token;
        assert(self@.filter.contains(self@.documents[key].vocabulary[j]));
    }

    /// Builds the index of a batch of documents. Each document gets the next
    /// key, starting at zero, and its tokens go into the corpus filter, which
    /// has room for the tokens of the whole batch.
    pub fn new(name: String, documents: Vec<Document>, tokeniser: Tokeniser) -> (index: Index)
        requires
            tokeniser.wf(),
            forall|i: int| 0 <= i < documents.len() ==> (#[trigger] documents@[i]).wf(),
        ensures
            index.wf(),
            index@ == index_of(name@, documents.deep_view(), tokeniser.spec_mode()),
    {
        let ghost batch = documents.deep_view();
        let ghost mode = tokeniser.spec_mode();
        let mut capacity: usize = 0;
        let mut i: usize = 0;
        assert(batch.take(0) =~= Seq::empty());
        while i < documents.len()
            invariant
                i <= documents.len(),
                batch == documents.deep_view(),
                forall|k: int| 0 <= k < documents.len() ==> (#[trigger] documents@[k]).wf(),
                capacity == corpus_capacity(batch.take(i as int)),
            decreases documents.len() - i,
        {
            proof {
                assert(batch.take(i + 1).drop_last() =~= batch.take(i as int));
                assert(batch.take(i + 1).last() == documents@[i as int]@);
            }
            capacity = capacity.saturating_add(documents[i].dictionary().len());
            i += 1;
        }
        assert(batch.take(i as int) =~= batch);
        let mut index = Index {
            name,
            documents: Vec::new(),
            keys: Vec::new(),
            filter: PreFilter::new(capacity),
            tokeniser,
        };
        proof {
            assert(index.documents.deep_view() =~= batch.take(0));
            assert(index.keys@ =~= keys_of(0));
        }
        for document in iter: documents
            invariant
                iter.seq() == documents@,
                batch == documents.deep_view(),
                forall|k: int| 0 <= k < documents.len() ==> (#[trigger] documents@[k]).wf(),
                index.parts_wf(),
                index@.name == name@,
                index@.mode == mode,
                index@.documents == batch.take(iter.index() as int),
                index@.keys == keys_of(iter.index() as nat),
                index@.filter == FilterModel::empty(corpus_capacity(batch)).insert_all(
                    corpus_tokens(batch.take(iter.index() as int)),
                ),
        {
            proof {
                let n = iter.index() as int;
                assert(batch.take(n + 1).drop_last() =~= batch.take(n));
                assert(batch.take(n + 1).last() == document@);
                lemma_insert_all_concat(
                    FilterModel::empty(corpus_capacity(batch)),
                    corpus_tokens(batch.take(n)),
                    document@.vocabulary,
                );
            }
            index.insert(document);
        }
        proof {
            assert(batch.take(batch.len() as int) =~= batch);
            index.filter.lemma_wf();
            let built = index@.documents;
            assert forall|k: int| 0 <= k < built.len() implies (#[trigger] built[k]).wf() by {
                index.documents@[k].lemma_wf();
            }
            if !index@.filter.degraded {
                let empty = FilterModel::empty(corpus_capacity(batch));
                let tokens = corpus_tokens(batch);
                lemma_insert_all_undegraded(empty, tokens);
                assert forall|i: int, j: int|
                    0 <= i < batch.len() && 0 <= j
                        < batch[i].vocabulary.len() implies index@.filter.contains(
                    #[trigger] batch[i].vocabulary[j],
                ) by {
                    let token = batch[i].vocabulary[j];
                    lemma_corpus_tokens_hold(batch, i, token);
                    let at = choose|at: int| 0 <= at < tokens.len() && tokens[at] == token;
                    assert(empty.insert_all(tokens).contains(tokens[at]));
                }
            }
        }
        index
    }

    /// The name of the index.
    pub fn name(&self) -> (name: &str)
        ensures
            name@ == self@.name,
    {
        self.name.as_str()
    }

    /// The number of documents.
    pub fn len(&self) -> (len: usize)
        ensures
            len == self@.documents.len(),
    {
        self.documents.len()
    }

    /// The keys of the documents, in the order of insertion.
    pub fn keys(&self) -> (keys: &Vec<usize>)
        ensures
            keys@ == self@.keys,
    {
        &self.keys
    }

    /// The document in the slot of a key, if the key was given out.
    pub fn document(&self, key: usize) -> (document: Option<&Document>)
        ensures
            match document {
                Some(d) => key < self@.documents.len() && d@ == self@.documents[key as int] && (
                self.wf() ==> d.wf()),
                None => key >= self@.documents.len(),
            },
    {
        if key < self.documents.len() {
            Some(&self.documents[key])
        } else {
            None
        }
    }

    /// The filter over the vocabularies of all documents.
    pub fn filter(&self) -> (filter: &PreFilter)
        ensures
            filter@ == self@.filter,
            self.wf() ==> filter.wf(),
    {
        &self.filter
    }

    /// Whether the corpus filter accepts a term. While the filter is not
    /// degraded it accepts every token of every document.
    pub fn may_contain(&self, term: &str) -> (found: bool)
        requires
            self.wf(),
        ensures
            found == self@.filter.contains(term@),
    {
        self.filter.contains(term)
    }

    /// Whether the corpus filter ever let a token go while the index was built.
    /// From then on `may_contain` may miss a token that a document holds; the
    /// search does not depend on it.
    pub fn is_degraded(&self) -> (degraded: bool)
        ensures
            degraded == self@.filter.degraded,
    {
        self.filter.is_degraded()
    }

    /// The tokens of a text, by the rule of this index.
    pub fn tokenise(&self, text: &str) -> (out: Vec<String>)
        requires
            self.wf(),
        ensures
            out.deep_view() == tokens_of(self@.mode, text@),
    {
        self.tokeniser.tokenise(text)
    }

    /// The terms of a query: its tokens, each once, in the order in which the
    /// query first shows them.
    pub fn query_terms(&self, query: &str) -> (terms: Vec<String>)
        requires
            self.wf(),
        ensures
            terms.deep_view() == self@.query_terms(query@),
    {
        let tokens = self.tokenise(query);
        unique(&tokens)
    }

    /// Searches for a run of terms. The documents are visited in the order of
    /// their keys. One whose filter accepts none of the terms is passed over;
    /// every other one is searched and gives a result, also where the search
    /// finds nothing in it.
    pub fn search_terms(&self, terms: &Vec<String>) -> (out: Vec<SearchResult<'_>>)
        requires
            self.wf(),
        ensures
            out.deep_view() == self@.search_terms(terms.deep_view()),
    {
        let mut out: Vec<SearchResult<'_>> = Vec::new();
        let ghost all = self.documents.deep_view();
        let ghost wanted = terms.deep_view();
        let ghost passes = |d: DocumentModel| d.passes(wanted);
        let ghost wrap = |d: DocumentModel| result_of(d.name, d.search(wanted));
        let mut k: usize = 0;
        proof {
            reveal_with_fuel(Seq::filter, 1);
            assert(all.take(0).filter(passes) =~= Seq::empty());
            assert(out.deep_view() =~= all.take(0).filter(passes).map_values(wrap));
        }
        while k < self.keys.len()
            invariant
                k <= self.keys.len(),
                self.wf(),
                all == self.documents.deep_view(),
                wanted == terms.deep_view(),
                passes == |d: DocumentModel| d.passes(wanted),
                wrap == |d: DocumentModel| result_of(d.name, d.search(wanted)),
                out.deep_view() == all.take(k as int).filter(passes).map_values(wrap),
            decreases self.keys.len() - k,
        {
            let key = self.keys[k];
            let document = &self.documents[key];
            let ghost kept = out.deep_view();
            proof {
                assert(all[k as int] == document@);
                assert(all.take(k + 1) =~= all.take(k as int).push(all[k as int]));
                Seq::lemma_filter_push(all.take(k as int), all[k as int], passes);
            }
            if document.passes(terms) {
                let found = document.search(terms);
                let result = SearchResult::new(document.name(), found);
                out.push(result);
                proof {
                    assert(out.deep_view() =~= kept.push(wrap(all[k as int])));
                    assert(all.take(k + 1).filter(passes).map_values(wrap) =~= all.take(
                        k as int,
                    ).filter(passes).map_values(wrap).push(wrap(all[k as int])));
                }
            }
            k += 1;
        }
        assert(all.take(k as int) =~= all);
        out
    }

    /// Searches for a free-text query: the query is cut into terms as the
    /// texts were, and the terms are searched for.
    pub fn search(&self, query: &str) -> (out: Vec<SearchResult<'_>>)
        requires
            self.wf(),
        ensures
            out.deep_view() == self@.search(query@),
    {
        let terms = self.query_terms(query);
        self.search_terms(&terms)
    }

    /// What holds of an index while it is being filled.
    closed spec fn parts_wf(&self) -> bool {
        &&& self.tokeniser.wf()
        &&& self.filter.wf()
        &&& forall|i: int| 0 <= i < self.documents.len() ==> (#[trigger] self.documents@[i]).wf()
        &&& self.keys@ == keys_of(self.documents@.len())
    }

    /// Puts a document into the next free slot, under the next key, and its
    /// tokens into the corpus filter.
    fn insert(&mut self, document: Document)
        requires
            old(self).parts_wf(),
            document.wf(),
        ensures
            final(self).parts_wf(),
            final(self)@.name == old(self)@.name,
            final(self)@.mode == old(self)@.mode,
            final(self)@.documents == old(self)@.documents.push(document@),
            final(self)@.keys == old(self)@.keys.push(old(self)@.documents.len() as usize),
            final(self)@.filter == old(self)@.filter.insert_all(document@.vocabulary),
    {
        let key = self.documents.len();
        let dictionary = document.dictionary();
        let size = dictionary.len();
        let ghost vocabulary = dictionary@;
        let ghost start = self.filter@;
        let mut id: usize = 0;
        proof {
            assert(vocabulary.take(0) =~= Seq::empty());
        }
        while id < size
            invariant
                id <= size,
                size == vocabulary.len(),
                vocabulary == dictionary@,
                dictionary.wf(),
                self.filter.wf(),
                self.tokeniser == old(self).tokeniser,
                self.name == old(self).name,
                self.documents == old(self).documents,
                self.keys == old(self).keys,
                self.filter@ == start.insert_all(vocabulary.take(id as int)),
            decreases size - id,
        {
            proof {
                assert(vocabulary.take(id + 1).drop_last() =~= vocabulary.take(id as int));
            }
            match dictionary.token_of(id) {
                Some(token) => {
                    let _ = self.filter.insert(token.as_str());
                },
                None => {},
            }
            id += 1;
        }
        proof {
            assert(vocabulary.take(id as int) =~= vocabulary);
        }
        let ghost before = self.documents.deep_view();
        self.documents.push(document);
        self.keys.push(key);
        proof {
            assert(self.documents.deep_view() =~= before.push(document@));
            assert(self.keys@ =~= keys_of(self.documents@.len()));
        }
    }
}

} // verus!
