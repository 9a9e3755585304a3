//! Words, sentences and tokens: the boundary to the Unicode segmentation,
//! stop-word and stemming libraries, and the normalisation built on them.
use rust_stemmers::{Algorithm, Stemmer};
use unicode_segmentation::UnicodeSegmentation;
use vstd::prelude::*;
use vstd::utf8::encode_utf8;
use xxhash_rust::xxh3::xxh3_64;

verus! {

/// The languages for which tokens can be stemmed and stop words dropped.
#[derive(Clone, Copy, Debug, PartialEq, Eq, Structural)]
pub enum Language {
    English,
    French,
    German,
    Italian,
    Portuguese,
    Spanish,
}

/// How words become tokens.
#[derive(Clone, Copy, Debug, PartialEq, Eq, Structural)]
pub enum Normalisation {
    /// Every word is a token as it stands.
    Surface,
    /// Stop words of the language are dropped and the other words are reduced
    /// to their stems. The surface word cannot be recovered from its stem.
    Stemmed(Language),
}

/// The lowercase form of a text, as `str::to_lowercase` gives it.
pub uninterp spec fn lowercase_of(text: Seq<char>) -> Seq<char>;

/// The words of a text, in order, as `unicode_words` of the crate
/// `unicode_segmentation` gives them.
pub uninterp spec fn unicode_words_of(text: Seq<char>) -> Seq<Seq<char>>;

/// The sentences of a text, in order, as `unicode_sentences` of the crate
/// `unicode_segmentation` gives them.
pub uninterp spec fn unicode_sentences_of(text: Seq<char>) -> Seq<Seq<char>>;

/// The stop words of a language, as `get` of the crate `stop_words` lists them.
pub uninterp spec fn stop_words_of(language: Language) -> Seq<Seq<char>>;

/// The stem of a word, as `Stemmer::stem` of the crate `rust_stemmers` gives it
/// for the algorithm of the language.
pub uninterp spec fn stem_of(language: Language, word: Seq<char>) -> Seq<char>;

/// The hash of a run of bytes, as `xxh3_64` of the crate `xxhash_rust` gives it.
pub uninterp spec fn xxh3_64_of(input: Seq<u8>) -> u64;

/// Calls `xxh3_64` on the bytes; the contract only names the hash.
#[verifier::external_body]
fn xxh3(input: &[u8]) -> (hash: u64)
    ensures
        hash == xxh3_64_of(input@),
{
    xxh3_64(input)
}

/// Calls `str::to_lowercase`; the contract only names its result.
#[verifier::external_body]
pub(crate) fn lowercase(text: &str) -> (out: String)
    ensures
        out@ == lowercase_of(text@),
{
    text.to_lowercase()
}

/// Calls `UnicodeSegmentation::unicode_words` and copies each word; the
/// contract only names the sequence of words.
#[verifier::external_body]
fn unicode_words(text: &str) -> (out: Vec<String>)
    ensures
        out.deep_view() == unicode_words_of(text@),
{
    text.unicode_words().map(|w| w.to_string()).collect()
}

/// Calls `UnicodeSegmentation::unicode_sentences` and copies each sentence;
/// the contract only names the sequence of sentences.
#[verifier::external_body]
pub(crate) fn unicode_sentences(text: &str) -> (out: Vec<String>)
    ensures
        out.deep_view() == unicode_sentences_of(text@),
{
    text.unicode_sentences().map(|s| s.to_string()).collect()
}

/// Calls `stop_words::get` for the language and copies each word; the contract
/// only names the list. `get` panics for a language whose list was not built
/// in; the six languages here are among those that the crate builds in by
/// default.
#[verifier::external_body]
fn stop_words(language: Language) -> (out: Vec<String>)
    ensures
        out.deep_view() == stop_words_of(language),
{
    let of = match language {
        Language::English => stop_words::Language::English,
        Language::French => stop_words::Language::French,
        Language::German => stop_words::Language::German,
        Language::Italian => stop_words::Language::Italian,
        Language::Portuguese => stop_words::Language::Portuguese,
        Language::Spanish => stop_words::Language::Spanish,
    };
    stop_words::get(of).iter().map(|w| w.to_string()).collect()
}

/// Calls `Stemmer::create` for the language's algorithm and `Stemmer::stem` on
/// the word; the contract only names the stem.
#[verifier::external_body]
fn stem(language: Language, word: &str) -> (out: String)
    ensures
        out@ == stem_of(language, word@),
{
    let algorithm = match language {
        Language::English => Algorithm::English,
        Language::French => Algorithm::French,
        Language::German => Algorithm::German,
        Language::Italian => Algorithm::Italian,
        Language::Portuguese => Algorithm::Portuguese,
        Language::Spanish => Algorithm::Spanish,
    };
    Stemmer::create(algorithm).stem(word).into_owned()
}


/// The tokens that a mode makes of a text's words: the words themselves, or,
/// when stemming, the stems of the words that are no stop words.
pub open spec fn normal_words(mode: Normalisation, text: Seq<char>) -> Seq<Seq<char>> {
    match mode {
        Normalisation::Surface => unicode_words_of(text),
        Normalisation::Stemmed(language) => unicode_words_of(text).filter(
            |w: Seq<char>| !stop_words_of(language).contains(w),
        ).map_values(|w: Seq<char>| stem_of(language, w)),
    }
}

/// The tokens of a raw text: those of its lowercase form.
pub open spec fn tokens_of(mode: Normalisation, text: Seq<char>) -> Seq<Seq<char>> {
    normal_words(mode, lowercase_of(text))
}

/// The hash of a text: that of its UTF-8 bytes.
pub open spec fn hash_of(text: Seq<char>) -> u64 {
    xxh3_64_of(encode_utf8(text))
}

/// Hashes a text by its UTF-8 bytes.
pub fn hash(text: &str) -> (hash: u64)
    ensures
        hash == hash_of(text@),
{
    xxh3(text.as_bytes())
}

/// A sequence without its repetitions: each item stays where it first occurs.
pub open spec fn first_occurrences<T>(items: Seq<T>) -> Seq<T>
    decreases items.len(),
{
    if items.len() == 0 {
        Seq::empty()
    } else {
        let before = first_occurrences(items.drop_last());
        if before.contains(items.last()) {
            before
        } else {
            before.push(items.last())
        }
    }
}

/// Removing repetitions keeps exactly the items of the sequence, each once.
pub proof fn lemma_first_occurrences<T>(items: Seq<T>)
    ensures
        first_occurrences(items).no_duplicates(),
        first_occurrences(items).len() <= items.len(),
        forall|x: T| #[trigger] first_occurrences(items).contains(x) <==> items.contains(x),
    decreases items.len(),
{
    if items.len() > 0 {
        let front = items.drop_last();
        lemma_first_occurrences(front);
        let before = first_occurrences(front);
        let out = first_occurrences(items);
        assert forall|x: T| out.contains(x) implies items.contains(x) by {
            let j = choose|j: int| 0 <= j < out.len() && out[j] == x;
            if j < before.len() {
                assert(before[j] == x);
                assert(before.contains(x));
                let i = choose|i: int| 0 <= i < front.len() && front[i] == x;
                assert(items[i] == x);
            } else {
                assert(items[items.len() - 1] == x);
            }
        }
        assert forall|x: T| items.contains(x) implies out.contains(x) by {
            let i = choose|i: int| 0 <= i < items.len() && items[i] == x;
            if i < items.len() - 1 {
                assert(front[i] == x);
                assert(before.contains(x));
                let j = choose|j: int| 0 <= j < before.len() && before[j] == x;
                assert(out[j] == x);
            } else if !before.contains(x) {
                assert(out[before.len() as int] == x);
            } else {
                let j = choose|j: int| 0 <= j < before.len() && before[j] == x;
                assert(out[j] == x);
            }
        }
    }
}

/// Removing repetitions keeps the order of first occurrences: of two items
/// that are kept, the earlier one occurs in the sequence at a place before
/// which, and at which, the later one does not occur.
pub proof fn lemma_first_occurrences_order<T>(items: Seq<T>, i: int, j: int)
    requires
        0 <= i < j < first_occurrences(items).len(),
    ensures
        exists|p: int|
            0 <= p < items.len() && #[trigger] items[p] == first_occurrences(items)[i]
                && !items.take(p + 1).contains(first_occurrences(items)[j]),
    decreases items.len(),
{
    let out = first_occurrences(items);
    let front = items.drop_last();
    let before = first_occurrences(front);
    lemma_first_occurrences(front);
    assert(before[i] == out[i]);
    if j < before.len() {
        lemma_first_occurrences_order(front, i, j);
        let p = choose|p: int|
            0 <= p < front.len() && #[trigger] front[p] == before[i] && !front.take(p + 1).contains(
                before[j],
            );
        assert(items.take(p + 1) =~= front.take(p + 1));
        assert(items[p] == out[i]);
    } else {
        assert(before.contains(out[i]));
        let p = choose|p: int| 0 <= p < front.len() && front[p] == out[i];
        assert(items[p] == out[i]);
        assert(!front.contains(out[j]));
        if items.take(p + 1).contains(out[j]) {
            let head = items.take(p + 1);
            let q = choose|q: int| 0 <= q < head.len() && head[q] == out[j];
            assert(front[q] == out[j]);
        }
    }
}

/// Whether a list holds a word.
pub fn contains_word(list: &Vec<String>, word: &String) -> (found: bool)
    ensures
        found == list.deep_view().contains(word@),
{
    let mut i: usize = 0;
    while i < list.len()
        invariant
            i <= list.len(),
            forall|k: int| 0 <= k < i ==> list.deep_view()[k] != word@,
        decreases list.len() - i,
    {
        if list[i] == *word {
            assert(list.deep_view()[i as int] == word@);
            return true;
        }
        i += 1;
    }
    false
}

/// Drops the repetitions of a list of words; each word stays where it first
/// occurs.
pub fn unique(words: &Vec<String>) -> (out: Vec<String>)
    ensures
        out.deep_view() == first_occurrences(words.deep_view()),
{
    let mut out: Vec<String> = Vec::new();
    let mut i: usize = 0;
    assert(words.deep_view().take(0) =~= Seq::empty());
    assert(out.deep_view() =~= Seq::empty());
    while i < words.len()
        invariant
            i <= words.len(),
            out.deep_view() == first_occurrences(words.deep_view().take(i as int)),
        decreases words.len() - i,
    {
        let ghost all = words.deep_view();
        let ghost kept = out.deep_view();
        assert(all.take(i + 1).drop_last() =~= all.take(i as int));
        assert(all.take(i + 1).last() == words@[i as int]@);
        if !contains_word(&out, &words[i]) {
            out.push(words[i].clone());
            assert(out.deep_view() =~= kept.push(words@[i as int]@));
        }
        i += 1;
    }
    assert(words.deep_view().take(i as int) =~= words.deep_view());
    out
}

/// The words of a list that another list does not hold, in order.
pub fn without(words: &Vec<String>, dropped: &Vec<String>) -> (out: Vec<String>)
    ensures
        out.deep_view() == words.deep_view().filter(
            |w: Seq<char>| !dropped.deep_view().contains(w),
        ),
{
    let ghost all = words.deep_view();
    let ghost keep = |w: Seq<char>| !dropped.deep_view().contains(w);
    let mut out: Vec<String> = Vec::new();
    let mut i: usize = 0;
    proof {
        reveal_with_fuel(Seq::filter, 1);
        assert(all.take(0).filter(keep) =~= Seq::empty());
        assert(out.deep_view() =~= all.take(0).filter(keep));
    }
    while i < words.len()
        invariant
            i <= words.len(),
            all == words.deep_view(),
            keep == |w: Seq<char>| !dropped.deep_view().contains(w),
            out.deep_view() == all.take(i as int).filter(keep),
        decreases words.len() - i,
    {
        let ghost kept = out.deep_view();
        proof {
            assert(all.take(i + 1) =~= all.take(i as int).push(all[i as int]));
            Seq::lemma_filter_push(all.take(i as int), all[i as int], keep);
        }
        if !contains_word(dropped, &words[i]) {
            out.push(words[i].clone());
            assert(out.deep_view() =~= kept.push(all[i as int]));
        }
        i += 1;
    }
    assert(all.take(i as int) =~= all);
    out
}

/// The stems of a list of words, in order.
fn stems(language: Language, words: &Vec<String>) -> (out: Vec<String>)
    ensures
        out.deep_view() == words.deep_view().map_values(|w: Seq<char>| stem_of(language, w)),
{
    let ghost all = words.deep_view();
    let ghost reduce = |w: Seq<char>| stem_of(language, w);
    let mut out: Vec<String> = Vec::new();
    let mut i: usize = 0;
    assert(out.deep_view() =~= all.take(0).map_values(reduce));
    while i < words.len()
        invariant
            i <= words.len(),
            all == words.deep_view(),
            reduce == |w: Seq<char>| stem_of(language, w),
            out.deep_view() == all.take(i as int).map_values(reduce),
        decreases words.len() - i,
    {
        let ghost kept = out.deep_view();
        out.push(stem(language, words[i].as_str()));
        proof {
            assert(all.take(i + 1) =~= all.take(i as int).push(all[i as int]));
            assert(out.deep_view() =~= kept.push(reduce(all[i as int])));
        }
        i += 1;
    }
    assert(all.take(i as int) =~= all);
    out
}

/// The rule by which texts become tokens, with the stop words it needs.
pub struct Tokeniser {
    mode: Normalisation,
    stop_words: Vec<String>,
}

impl Tokeniser {
    /// The stop words at hand are those of the mode's language.
    pub closed spec fn wf(&self) -> bool {
        match self.mode {
            Normalisation::Surface => true,
            Normalisation::Stemmed(language) => self.stop_words.deep_view() == stop_words_of(
                language,
            ),
        }
    }

    /// The mode that this tokeniser applies.
    pub closed spec fn spec_mode(&self) -> Normalisation {
        self.mode
    }

    /// A tokeniser for the given mode.
    pub fn new(mode: Normalisation) -> (tokeniser: Tokeniser)
        ensures
            tokeniser.wf(),
            tokeniser.spec_mode() == mode,
    {
        let stop_words = match mode {
            Normalisation::Surface => Vec::new(),
            Normalisation::Stemmed(language) => stop_words(language),
        };
        Tokeniser { mode, stop_words }
    }

    /// The mode that this tokeniser applies.
    #[verifier::when_used_as_spec(spec_mode)]
    pub fn mode(&self) -> (mode: Normalisation)
        ensures
            mode == self.spec_mode(),
    {
        self.mode
    }

    /// The tokens of a text that is taken as it stands, without changing case.
    pub fn words(&self, text: &str) -> (out: Vec<String>)
        requires
            self.wf(),
        ensures
            out.deep_view() == normal_words(self.spec_mode(), text@),
    {
        let words = unicode_words(text);
        match self.mode {
            Normalisation::Surface => words,
            Normalisation::Stemmed(language) => {
                let kept = without(&words, &self.stop_words);
                stems(language, &kept)
            },
        }
    }

    /// The tokens of a raw text: it is put in lowercase, cut into words, and the
    /// words are normalised.
    pub fn tokenise(&self, text: &str) -> (out: Vec<String>)
        requires
            self.wf(),
        ensures
            out.deep_view() == tokens_of(self.spec_mode(), text@),
    {
        let lowered = lowercase(text);
        self.words(lowered.as_str())
    }
}

} // verus!
