//! One indexed text: its dictionary, the ids of its sentences' words, and a
//! filter over its vocabulary.
use crate::dictionary::{lemma_bijection, lookup, resolve, Dictionary};
use crate::filter::{lemma_insert_all_with_room, FilterModel, PreFilter};
use crate::pipeline::{
    assign_ids, covers, first_gap, lemma_postings_within, postings_of, postings_within, segment,
    sentence_tokens, vocabulary_of, NormalizationInvariantViolation,
};
use crate::text::{first_occurrences, hash, hash_of, tokens_of, Normalisation, Tokeniser};
use vstd::prelude::*;
use vstd::string::StringExecFns;

verus! {

/// Words joined by single spaces.
pub open spec fn join(words: Seq<Seq<char>>) -> Seq<char>
    decreases words.len(),
{
    if words.len() == 0 {
        Seq::empty()
    } else if words.len() == 1 {
        words[0]
    } else {
        join(words.drop_last()) + seq![' '] + words.last()
    }
}

/// The tokens that a run of ids stands for.
pub open spec fn surface(vocabulary: Seq<Seq<char>>, ids: Seq<usize>) -> Seq<Seq<char>> {
    ids.map_values(|id: usize| vocabulary[id as int])
}

/// A sentence written out again from its ids: its tokens, joined by single
/// spaces. Case, punctuation and spacing of the source are not recovered.
pub open spec fn reconstruct(vocabulary: Seq<Seq<char>>, ids: Seq<usize>) -> Seq<char> {
    join(surface(vocabulary, ids))
}

/// Whether a sentence holds an id.
pub fn holds_id(ids: &Vec<usize>, id: usize) -> (found: bool)
    ensures
        found == ids@.contains(id),
{
    let mut j: usize = 0;
    while j < ids.len()
        invariant
            j <= ids.len(),
            forall|k: int| 0 <= k < j ==> ids@[k] != id,
        decreases ids.len() - j,
    {
        if ids[j] == id {
            return true;
        }
        j += 1;
    }
    false
}

/// What a document is, as a value.
pub struct DocumentModel {
    pub name: Seq<char>,
    pub vocabulary: Seq<Seq<char>>,
    pub postings: Seq<Seq<usize>>,
    pub filter: FilterModel,
}

impl DocumentModel {
    /// The vocabulary holds no token twice, every id in the postings stands for
    /// a token, and the filter finds every token of the vocabulary.
    pub open spec fn wf(self) -> bool {
        &&& self.vocabulary.no_duplicates()
        &&& self.vocabulary.len() <= usize::MAX
        &&& postings_within(self.postings, self.vocabulary.len())
        &&& self.filter.wf()
        &&& !self.filter.degraded
        &&& forall|i: int|
            0 <= i < self.vocabulary.len() ==> self.filter.contains(#[trigger] self.vocabulary[i])
    }

    /// The sentences that hold a term, written out, in the order of the text;
    /// none where the vocabulary lacks the term.
    pub open spec fn matches(self, term: Seq<char>) -> Seq<Seq<char>> {
        match lookup(self.vocabulary, term) {
            None => Seq::empty(),
            Some(id) => self.postings.filter(|s: Seq<usize>| s.contains(id)).map_values(
                |s: Seq<usize>| reconstruct(self.vocabulary, s),
            ),
        }
    }

    /// The matches of each term, one term after the other.
    pub open spec fn search(self, terms: Seq<Seq<char>>) -> Seq<Seq<char>> {
        terms.flat_map(|term: Seq<char>| self.matches(term))
    }

    /// Whether some sentence holds a term.
    pub open spec fn mentions(self, term: Seq<char>) -> bool {
        match lookup(self.vocabulary, term) {
            None => false,
            Some(id) => exists|i: int|
                0 <= i < self.postings.len() && (#[trigger] self.postings[i]).contains(id),
        }
    }

    /// Whether the filter accepts at least one of the terms.
    pub open spec fn passes(self, terms: Seq<Seq<char>>) -> bool {
        exists|i: int| 0 <= i < terms.len() && self.filter.contains(#[trigger] terms[i])
    }
}

/// A search for one term gives the matches of that term.
pub proof fn lemma_single_term(document: DocumentModel, term: Seq<char>)
    ensures
        document.search(seq![term]) == document.matches(term),
{
    seq![term].lemma_flat_map_singleton(|t: Seq<char>| document.matches(t));
}

/// The matches of a term are exactly the sentences that hold its id: each
/// such sentence is among them, each of them is such a sentence, and there are
/// as many of them as there are such sentences. A term without an id matches
/// nothing.
pub proof fn lemma_matches_exact(document: DocumentModel, term: Seq<char>)
    ensures
        lookup(document.vocabulary, term) is None ==> document.matches(term).len() == 0,
        lookup(document.vocabulary, term) matches Some(id) ==> {
            &&& document.matches(term).len() == document.postings.filter(
                |s: Seq<usize>| s.contains(id),
            ).len()
            &&& forall|i: int|
                0 <= i < document.postings.len() && (#[trigger] document.postings[i]).contains(id)
                    ==> document.matches(term).contains(
                    reconstruct(document.vocabulary, document.postings[i]),
                )
            &&& forall|r: Seq<char>| #[trigger]
                document.matches(term).contains(r) ==> exists|i: int|
                    0 <= i < document.postings.len() && (#[trigger] document.postings[i]).contains(
                        id,
                    ) && r == reconstruct(document.vocabulary, document.postings[i])
        },
{
    if let Some(id) = lookup(document.vocabulary, term) {
        let holds = |s: Seq<usize>| s.contains(id);
        let write = |s: Seq<usize>| reconstruct(document.vocabulary, s);
        let kept = document.postings.filter(holds);
        let found = document.matches(term);
        assert(found == kept.map_values(write));
        assert forall|i: int|
            0 <= i < document.postings.len() && (#[trigger] document.postings[i]).contains(
                id,
            ) implies found.contains(reconstruct(document.vocabulary, document.postings[i])) by {
            document.postings.lemma_filter_contains(holds, i);
            let j = choose|j: int| 0 <= j < kept.len() && kept[j] == document.postings[i];
            assert(found[j] == write(kept[j]));
        }
        assert forall|r: Seq<char>| #[trigger] found.contains(r) implies exists|i: int|
            0 <= i < document.postings.len() && (#[trigger] document.postings[i]).contains(id) && r
                == reconstruct(document.vocabulary, document.postings[i]) by {
            let j = choose|j: int| 0 <= j < found.len() && found[j] == r;
            document.postings.lemma_filter_pred(holds, j);
            assert(kept.contains(kept[j]));
            document.postings.lemma_filter_contains_rev(holds, kept[j]);
            let i = choose|i: int|
                0 <= i < document.postings.len() && document.postings[i] == kept[j];
            assert(document.postings[i].contains(id));
        }
    }
}

/// A term has matches exactly where some sentence holds it.
pub proof fn lemma_matches_iff_mentions(document: DocumentModel, term: Seq<char>)
    ensures
        document.matches(term).len() > 0 <==> document.mentions(term),
{
    lemma_matches_exact(document, term);
    if let Some(id) = lookup(document.vocabulary, term) {
        let found = document.matches(term);
        if document.mentions(term) {
            let i = choose|i: int|
                0 <= i < document.postings.len() && (#[trigger] document.postings[i]).contains(id);
            assert(found.contains(reconstruct(document.vocabulary, document.postings[i])));
        }
        if found.len() > 0 {
            assert(found.contains(found[0]));
        }
    }
}

/// A search for two terms gives the matches of the first, then those of the
/// second, and drops nothing: a sentence that holds both terms is given twice,
/// once among the matches of each.
pub proof fn lemma_two_terms(
    document: DocumentModel,
    first: Seq<char>,
    second: Seq<char>,
    sentence: int,
)
    requires
        0 <= sentence < document.postings.len(),
        lookup(document.vocabulary, first) matches Some(id) && document.postings[sentence].contains(
            id,
        ),
        lookup(document.vocabulary, second) matches Some(id)
            && document.postings[sentence].contains(id),
    ensures
        document.search(seq![first, second]) == document.matches(first) + document.matches(second),
        document.matches(first).contains(
            reconstruct(document.vocabulary, document.postings[sentence]),
        ),
        document.matches(second).contains(
            reconstruct(document.vocabulary, document.postings[sentence]),
        ),
{
    lemma_search_push(document, seq![first], second);
    lemma_single_term(document, first);
    assert(seq![first].push(second) =~= seq![first, second]);
    lemma_matches_exact(document, first);
    lemma_matches_exact(document, second);
}

/// A search for a run of terms and one more gives the results for the run,
/// then the matches of the last term.
pub proof fn lemma_search_push(document: DocumentModel, terms: Seq<Seq<char>>, last: Seq<char>)
    ensures
        document.search(terms.push(last)) == document.search(terms) + document.matches(last),
{
    terms.lemma_flat_map_push(|t: Seq<char>| document.matches(t), last);
}

/// A search finds something exactly where some sentence holds one of the
/// terms.
pub proof fn lemma_search_hits(document: DocumentModel, terms: Seq<Seq<char>>)
    ensures
        document.search(terms).len() > 0 <==> exists|t: int|
            0 <= t < terms.len() && document.mentions(#[trigger] terms[t]),
    decreases terms.len(),
{
    if terms.len() == 0 {
        assert(terms.flat_map(|t: Seq<char>| document.matches(t)) =~= Seq::empty());
    } else {
        let front = terms.drop_last();
        let last = terms.last();
        lemma_search_hits(document, front);
        lemma_search_push(document, front, last);
        lemma_matches_iff_mentions(document, last);
        assert(front.push(last) =~= terms);
        if document.search(terms).len() > 0 {
            if document.matches(last).len() > 0 {
                assert(document.mentions(terms[terms.len() - 1]));
            } else {
                let t = choose|t: int|
                    0 <= t < front.len() && document.mentions(#[trigger] front[t]);
                assert(document.mentions(terms[t]));
            }
        }
        if exists|t: int| 0 <= t < terms.len() && document.mentions(#[trigger] terms[t]) {
            let t = choose|t: int| 0 <= t < terms.len() && document.mentions(#[trigger] terms[t]);
            if t < front.len() {
                assert(document.mentions(front[t]));
            }
        }
    }
}

/// Whether a text can be normalised: the tokens of its sentences all occur
/// among the tokens of the whole text.
pub open spec fn normalises(mode: Normalisation, text: Seq<char>) -> bool {
    covers(vocabulary_of(mode, text), sentence_tokens(mode, text))
}

/// The document that a name, the tokens of a text and the tokens of its
/// sentences give: the vocabulary holds the tokens in the order in which the
/// text first shows them, the postings hold the ids of the sentences' tokens,
/// and the filter, made with room for the vocabulary, was given its tokens.
pub open spec fn document_from(
    name: Seq<char>,
    stream: Seq<Seq<char>>,
    sentences: Seq<Seq<Seq<char>>>,
) -> DocumentModel {
    let vocabulary = first_occurrences(stream);
    DocumentModel {
        name,
        vocabulary,
        postings: postings_of(vocabulary, sentences),
        filter: FilterModel::empty(vocabulary.len()).insert_all(vocabulary),
    }
}

/// The document that a name and a text give.
pub open spec fn document_of(
    name: Seq<char>,
    text: Seq<char>,
    mode: Normalisation,
) -> DocumentModel {
    document_from(name, tokens_of(mode, text), sentence_tokens(mode, text))
}

/// One indexed text. It is made once and not changed afterwards.
pub struct Document {
    name: String,
    dictionary: Dictionary,
    postings: Vec<Vec<usize>>,
    filter: PreFilter,
}

impl View for Document {
    type V = DocumentModel;

    closed spec fn view(&self) -> DocumentModel {
        DocumentModel {
            name: self.name@,
            vocabulary: self.dictionary@,
            postings: self.postings.deep_view(),
            filter: self.filter@,
        }
    }
}

impl DeepView for Document {
    type V = DocumentModel;

    open spec fn deep_view(&self) -> DocumentModel {
        self@
    }
}

impl Document {
    /// The parts are well formed, and so is the document as a value.
    pub closed spec fn wf(&self) -> bool {
        &&& self.dictionary.wf()
        &&& self.filter.wf()
        &&& self@.wf()
    }

    /// A well-formed document is well formed as a value.
    pub proof fn lemma_wf(&self)
        requires
            self.wf(),
        ensures
            self@.wf(),
    {
    }

    /// The dictionary is a bijection: the token of every id in range has that
    /// id, the id of every token stands for that token, and no two tokens share
    /// an id.
    pub proof fn lemma_bijection(&self)
        requires
            self.wf(),
        ensures
            forall|id: usize|
                id < self@.vocabulary.len() ==> lookup(
                    self@.vocabulary,
                    #[trigger] resolve(self@.vocabulary, id)->0,
                ) == Some(id),
            forall|token: Seq<char>| #[trigger]
                self@.vocabulary.contains(token) ==> resolve(
                    self@.vocabulary,
                    lookup(self@.vocabulary, token)->0,
                ) == Some(token),
            forall|a: Seq<char>, b: Seq<char>|
                self@.vocabulary.contains(a) && #[trigger] lookup(self@.vocabulary, a)
                    == #[trigger] lookup(self@.vocabulary, b) ==> a == b,
    {
        lemma_bijection(self@.vocabulary);
    }

    /// Every id in every sentence stands for a token of the dictionary.
    pub proof fn lemma_postings_valid(&self)
        requires
            self.wf(),
        ensures
            forall|i: int, j: int|
                0 <= i < self@.postings.len() && 0 <= j < self@.postings[i].len() ==> resolve(
                    self@.vocabulary,
                    #[trigger] self@.postings[i][j],
                ) is Some,
    {
    }

    /// The filter finds every token of the dictionary.
    pub proof fn lemma_no_false_negative(&self, token: Seq<char>)
        requires
            self.wf(),
            self@.vocabulary.contains(token),
        ensures
            self@.filter.contains(token),
    {
    }

    /// Indexes a text under a name: normalises the text, then fills a filter
    /// with the tokens of its dictionary. The filter has room for all of them.
    pub fn new(name: &str, raw_text: &str, tokeniser: &Tokeniser) -> (out: Result<
        Document,
        NormalizationInvariantViolation,
    >)
        requires
            tokeniser.wf(),
        ensures
            out is Ok <==> normalises(tokeniser.spec_mode(), raw_text@),
            match out {
                Ok(document) => {
                    &&& document.wf()
                    &&& document@ == document_of(name@, raw_text@, tokeniser.spec_mode())
                },
                Err(e) => first_gap(
                    vocabulary_of(tokeniser.spec_mode(), raw_text@),
                    sentence_tokens(tokeniser.spec_mode(), raw_text@),
                    e.sentence as int,
                    e.word as int,
                ),
            },
    {
        let (stream, sentences) = segment(raw_text, tokeniser);
        Document::from_tokens(name, &stream, &sentences)
    }

    /// Indexes a text that is already cut into tokens: `stream` holds the
    /// tokens of the whole text, `sentences` those of each sentence. Fails
    /// where a sentence holds a token that the stream lacks.
    pub fn from_tokens(name: &str, stream: &Vec<String>, sentences: &Vec<Vec<String>>) -> (out:
        Result<Document, NormalizationInvariantViolation>)
        ensures
            out is Ok <==> covers(first_occurrences(stream.deep_view()), sentences.deep_view()),
            match out {
                Ok(document) => {
                    &&& document.wf()
                    &&& document@ == document_from(name@, stream.deep_view(), sentences.deep_view())
                },
                Err(e) => first_gap(
                    first_occurrences(stream.deep_view()),
                    sentences.deep_view(),
                    e.sentence as int,
                    e.word as int,
                ),
            },
    {
        match assign_ids(stream, sentences) {
            Err(e) => Err(e),
            Ok((dictionary, postings)) => {
                let size = dictionary.len();
                let mut filter = PreFilter::new(size);
                let ghost vocabulary = dictionary@;
                let ghost empty = FilterModel::empty(size as nat);
                let mut id: usize = 0;
                proof {
                    dictionary.lemma_wf();
                    assert(vocabulary.take(0) =~= Seq::empty());
                }
                while id < size
                    invariant
                        id <= size,
                        size == vocabulary.len(),
                        vocabulary == dictionary@,
                        dictionary.wf(),
                        filter.wf(),
                        empty == FilterModel::empty(size as nat),
                        filter@ == empty.insert_all(vocabulary.take(id as int)),
                    decreases size - id,
                {
                    proof {
                        assert(vocabulary.take(id + 1).drop_last() =~= vocabulary.take(id as int));
                    }
                    match dictionary.token_of(id) {
                        Some(token) => {
                            let _ = filter.insert(token.as_str());
                        },
                        None => {},
                    }
                    id += 1;
                }
                proof {
                    assert(vocabulary.take(id as int) =~= vocabulary);
                    lemma_insert_all_with_room(empty, vocabulary);
                    lemma_postings_within(vocabulary, sentences.deep_view());
                }
                Ok(Document { name: name.to_owned(), dictionary, postings, filter })
            },
        }
    }

    /// The name that the document was indexed under.
    pub fn name(&self) -> (name: &str)
        ensures
            name@ == self@.name,
    {
        self.name.as_str()
    }

    /// A number that stands for the document wherever its name is too long to
    /// carry: the hash of the name.
    pub fn id(&self) -> (id: u64)
        ensures
            id == hash_of(self@.name),
    {
        hash(self.name.as_str())
    }

    /// The document's dictionary.
    pub fn dictionary(&self) -> (dictionary: &Dictionary)
        ensures
            dictionary@ == self@.vocabulary,
            self.wf() ==> dictionary.wf(),
    {
        &self.dictionary
    }

    /// For each sentence of the text, in order, the ids of its tokens.
    pub fn postings(&self) -> (postings: &Vec<Vec<usize>>)
        ensures
            postings.deep_view() == self@.postings,
    {
        &self.postings
    }

    /// The sentence at a place of the text, written out again from its ids.
    pub fn sentence(&self, index: usize) -> (sentence: Option<String>)
        requires
            self.wf(),
        ensures
            match sentence {
                Some(s) => index < self@.postings.len() && s@ == reconstruct(
                    self@.vocabulary,
                    self@.postings[index as int],
                ),
                None => index >= self@.postings.len(),
            },
    {
        if index < self.postings.len() {
            assert(self.postings.deep_view()[index as int] == self.postings@[index as int]@);
            Some(self.reconstruct(index))
        } else {
            None
        }
    }

    /// Writes out the sentence at a place that the postings hold.
    fn reconstruct(&self, index: usize) -> (sentence: String)
        requires
            self.wf(),
            index < self.postings@.len(),
        ensures
            sentence@ == reconstruct(self@.vocabulary, self.postings@[index as int]@),
    {
        let ids = &self.postings[index];
        let ghost vocabulary = self.dictionary@;
        let mut out = String::new();
        let mut j: usize = 0;
        proof {
            reveal_strlit(" ");
            assert(" "@ =~= seq![' ']);
            assert(self.postings.deep_view()[index as int] == ids@);
            assert(surface(vocabulary, ids@.take(0)) =~= Seq::empty());
        }
        while j < ids.len()
            invariant
                j <= ids.len(),
                self.wf(),
                vocabulary == self.dictionary@,
                " "@ == seq![' '],
                forall|k: int| 0 <= k < ids.len() ==> (#[trigger] ids@[k]) < vocabulary.len(),
                out@ == join(surface(vocabulary, ids@.take(j as int))),
            decreases ids.len() - j,
        {
            let ghost before = surface(vocabulary, ids@.take(j as int));
            let ghost now = surface(vocabulary, ids@.take(j + 1));
            proof {
                assert(ids@.take(j + 1) =~= ids@.take(j as int).push(ids@[j as int]));
                assert(now =~= before.push(vocabulary[ids@[j as int] as int]));
                assert(now.drop_last() =~= before);
            }
            if j > 0 {
                out.append(" ");
            }
            match self.dictionary.token_of(ids[j]) {
                Some(token) => {
                    out.append(token.as_str());
                },
                None => {},
            }
            proof {
                if j == 0 {
                    assert(out@ =~= now[0]);
                }
            }
            j += 1;
        }
        assert(ids@.take(j as int) =~= ids@);
        out
    }

    /// The sentences that hold a term, written out, in the order of the text.
    pub fn matches(&self, term: &str) -> (out: Vec<String>)
        requires
            self.wf(),
        ensures
            out.deep_view() == self@.matches(term@),
    {
        let mut out: Vec<String> = Vec::new();
        match self.dictionary.id_of(term) {
            None => {
                assert(out.deep_view() =~= Seq::empty());
            },
            Some(id) => {
                let ghost holds = |s: Seq<usize>| s.contains(id);
                let ghost write = |s: Seq<usize>| reconstruct(self@.vocabulary, s);
                let ghost all = self.postings.deep_view();
                let mut i: usize = 0;
                proof {
                    reveal_with_fuel(Seq::filter, 1);
                    assert(all.take(0).filter(holds) =~= Seq::empty());
                    assert(out.deep_view() =~= all.take(0).filter(holds).map_values(write));
                }
                while i < self.postings.len()
                    invariant
                        i <= self.postings.len(),
                        self.wf(),
                        all == self.postings.deep_view(),
                        holds == |s: Seq<usize>| s.contains(id),
                        write == |s: Seq<usize>| reconstruct(self@.vocabulary, s),
                        out.deep_view() == all.take(i as int).filter(holds).map_values(write),
                    decreases self.postings.len() - i,
                {
                    let ghost kept = out.deep_view();
                    proof {
                        assert(all[i as int] == self.postings@[i as int]@);
                        assert(all.take(i + 1) =~= all.take(i as int).push(all[i as int]));
                        Seq::lemma_filter_push(all.take(i as int), all[i as int], holds);
                    }
                    if holds_id(&self.postings[i], id) {
                        let sentence = self.reconstruct(i);
                        out.push(sentence);
                        proof {
                            assert(out.deep_view() =~= kept.push(write(all[i as int])));
                            assert(all.take(i + 1).filter(holds).map_values(write) =~= all.take(
                                i as int,
                            ).filter(holds).map_values(write).push(write(all[i as int])));
                        }
                    }
                    i += 1;
                }
                assert(all.take(i as int) =~= all);
            },
        }
        out
    }

    /// Searches the document for each term in turn. For a term that the
    /// dictionary holds, every sentence that holds the term is written out, in
    /// the order of the text; a term that it lacks adds nothing. A sentence that
    /// holds two of the terms is given twice, once for each.
    pub fn search(&self, terms: &Vec<String>) -> (out: Vec<String>)
        requires
            self.wf(),
        ensures
            out.deep_view() == self@.search(terms.deep_view()),
    {
        let mut out: Vec<String> = Vec::new();
        let ghost all = terms.deep_view();
        let ghost each = |term: Seq<char>| self@.matches(term);
        let mut t: usize = 0;
        proof {
            assert(all.take(0) =~= Seq::empty());
            assert(all.take(0).flat_map(each) =~= Seq::empty());
            assert(out.deep_view() =~= all.take(0).flat_map(each));
        }
        while t < terms.len()
            invariant
                t <= terms.len(),
                self.wf(),
                all == terms.deep_view(),
                each == |term: Seq<char>| self@.matches(term),
                out.deep_view() == all.take(t as int).flat_map(each),
            decreases terms.len() - t,
        {
            let ghost kept = out.deep_view();
            let mut found = self.matches(terms[t].as_str());
            let ghost added = found.deep_view();
            out.append(&mut found);
            proof {
                assert(all[t as int] == terms@[t as int]@);
                assert(out.deep_view() =~= kept + added);
                all.lemma_flat_map_take_append(each, t as int);
            }
            t += 1;
        }
        assert(all.take(t as int) =~= all);
        out
    }

    /// Whether the document's filter accepts a term. A term of the vocabulary
    /// is always accepted; another one seldom.
    pub fn may_contain(&self, term: &str) -> (found: bool)
        requires
            self.wf(),
        ensures
            found == self@.filter.contains(term@),
    {
        self.filter.contains(term)
    }

    /// Whether the document's filter accepts at least one of the terms.
    pub fn passes(&self, terms: &Vec<String>) -> (found: bool)
        requires
            self.wf(),
        ensures
            found == self@.passes(terms.deep_view()),
    {
        let mut t: usize = 0;
        while t < terms.len()
            invariant
                t <= terms.len(),
                self.wf(),
                forall|k: int|
                    0 <= k < t ==> !self@.filter.contains(#[trigger] terms.deep_view()[k]),
            decreases terms.len() - t,
        {
            if self.filter.contains(terms[t].as_str()) {
                assert(self@.filter.contains(terms.deep_view()[t as int]));
                return true;
            }
            t += 1;
        }
        false
    }

    /// The filter over the document's vocabulary.
    pub fn filter(&self) -> (filter: &PreFilter)
        ensures
            filter@ == self@.filter,
            self.wf() ==> filter.wf(),
    {
        &self.filter
    }
}

} // verus!
