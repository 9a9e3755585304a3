//! From a raw text to its dictionary and the ids of its sentences' words.
use crate::dictionary::{ids_of, Dictionary};
use crate::text::{
    first_occurrences, lowercase, lowercase_of, normal_words, unicode_sentences,
    unicode_sentences_of, Normalisation, Tokeniser,
};
use vstd::prelude::*;

verus! {

/// A sentence holds a word that the dictionary of its text lacks. `sentence`
/// and `word` give the place of the first such word.
#[derive(Clone, Copy, Debug, PartialEq, Eq, Structural)]
pub struct NormalizationInvariantViolation {
    pub sentence: usize,
    pub word: usize,
}

/// The vocabulary of a text: the tokens of its lowercase form, each at the
/// place where the text first shows it.
pub open spec fn vocabulary_of(mode: Normalisation, text: Seq<char>) -> Seq<Seq<char>> {
    first_occurrences(normal_words(mode, lowercase_of(text)))
}

/// The tokens of each sentence of a text's lowercase form.
pub open spec fn sentence_tokens(mode: Normalisation, text: Seq<char>) -> Seq<Seq<Seq<char>>> {
    unicode_sentences_of(lowercase_of(text)).map_values(|s: Seq<char>| normal_words(mode, s))
}

/// Whether a vocabulary holds every token of every sentence.
pub open spec fn covers(vocabulary: Seq<Seq<char>>, sentences: Seq<Seq<Seq<char>>>) -> bool {
    forall|i: int, j: int|
        0 <= i < sentences.len() && 0 <= j < sentences[i].len() ==> vocabulary.contains(
            #[trigger] sentences[i][j],
        )
}

/// Whether the token at place `word` of sentence `sentence` is the first, in
/// reading order, that the vocabulary lacks.
pub open spec fn first_gap(
    vocabulary: Seq<Seq<char>>,
    sentences: Seq<Seq<Seq<char>>>,
    sentence: int,
    word: int,
) -> bool {
    &&& 0 <= sentence < sentences.len()
    &&& 0 <= word < sentences[sentence].len()
    &&& !vocabulary.contains(sentences[sentence][word])
    &&& covers(vocabulary, sentences.take(sentence))
    &&& forall|j: int| 0 <= j < word ==> vocabulary.contains(#[trigger] sentences[sentence][j])
}

/// The postings of a text: for each sentence the ids of its tokens, in order.
pub open spec fn postings_of(vocabulary: Seq<Seq<char>>, sentences: Seq<Seq<Seq<char>>>) -> Seq<
    Seq<usize>,
> {
    sentences.map_values(|s: Seq<Seq<char>>| ids_of(vocabulary, s))
}

/// Whether every id in the postings stands for a token of a vocabulary of the
/// given size.
pub open spec fn postings_within(postings: Seq<Seq<usize>>, size: nat) -> bool {
    forall|i: int, j: int|
        0 <= i < postings.len() && 0 <= j < postings[i].len() ==> (#[trigger] postings[i][j]) < size
}

/// The postings of sentences that a vocabulary covers hold ids of that
/// vocabulary only.
pub proof fn lemma_postings_within(vocabulary: Seq<Seq<char>>, sentences: Seq<Seq<Seq<char>>>)
    requires
        covers(vocabulary, sentences),
        vocabulary.len() <= usize::MAX,
    ensures
        postings_within(postings_of(vocabulary, sentences), vocabulary.len()),
{
    let postings = postings_of(vocabulary, sentences);
    assert forall|i: int, j: int|
        0 <= i < postings.len() && 0 <= j < postings[i].len() implies (#[trigger] postings[i][j])
        < vocabulary.len() by {
        assert(vocabulary.contains(sentences[i][j]));
    }
}

/// Cuts a text into tokens, twice: the tokens of the whole text in lowercase,
/// and the tokens of each sentence of that lowercase text.
pub fn segment(data: &str, tokeniser: &Tokeniser) -> (out: (Vec<String>, Vec<Vec<String>>))
    requires
        tokeniser.wf(),
    ensures
        out.0.deep_view() == normal_words(tokeniser.spec_mode(), lowercase_of(data@)),
        out.1.deep_view() == sentence_tokens(tokeniser.spec_mode(), data@),
{
    let lowered = lowercase(data);
    let stream = tokeniser.words(lowered.as_str());
    let sentences = unicode_sentences(lowered.as_str());
    let ghost mode = tokeniser.spec_mode();
    let ghost cut = |s: Seq<char>| normal_words(mode, s);
    let mut tokens: Vec<Vec<String>> = Vec::new();
    let mut i: usize = 0;
    assert(tokens.deep_view() =~= sentences.deep_view().take(0).map_values(cut));
    while i < sentences.len()
        invariant
            i <= sentences.len(),
            tokeniser.wf(),
            mode == tokeniser.spec_mode(),
            cut == |s: Seq<char>| normal_words(mode, s),
            tokens.deep_view() == sentences.deep_view().take(i as int).map_values(cut),
        decreases sentences.len() - i,
    {
        let ghost before = tokens.deep_view();
        let words = tokeniser.words(sentences[i].as_str());
        tokens.push(words);
        proof {
            let all = sentences.deep_view();
            assert(all.take(i + 1) =~= all.take(i as int).push(all[i as int]));
            assert(tokens.deep_view() =~= before.push(words.deep_view()));
            assert(tokens.deep_view() =~= all.take(i + 1).map_values(cut));
        }
        i += 1;
    }
    assert(sentences.deep_view().take(i as int) =~= sentences.deep_view());
    (stream, tokens)
}

/// Gives ids to tokens. The dictionary is made from the stream of tokens, each
/// token getting the next id when the stream first shows it; then each token of
/// each sentence is replaced by its id. Fails where a sentence holds a token
/// that the stream did not show, and names the first such token.
pub fn assign_ids(stream: &Vec<String>, sentences: &Vec<Vec<String>>) -> (out: Result<
    (Dictionary, Vec<Vec<usize>>),
    NormalizationInvariantViolation,
>)
    ensures
        match out {
            Ok((dictionary, postings)) => {
                &&& dictionary.wf()
                &&& dictionary@ == first_occurrences(stream.deep_view())
                &&& covers(dictionary@, sentences.deep_view())
                &&& postings.deep_view() == postings_of(dictionary@, sentences.deep_view())
                &&& postings_within(postings.deep_view(), dictionary@.len())
            },
            Err(e) => first_gap(
                first_occurrences(stream.deep_view()),
                sentences.deep_view(),
                e.sentence as int,
                e.word as int,
            ),
        },
{
    let dictionary = Dictionary::from_words(stream);
    let ghost all = sentences.deep_view();
    let mut postings: Vec<Vec<usize>> = Vec::new();
    let mut i: usize = 0;
    assert(postings.deep_view() =~= postings_of(dictionary@, all.take(0)));
    while i < sentences.len()
        invariant
            i <= sentences.len(),
            dictionary.wf(),
            dictionary@ == first_occurrences(stream.deep_view()),
            all == sentences.deep_view(),
            covers(dictionary@, all.take(i as int)),
            postings.deep_view() == postings_of(dictionary@, all.take(i as int)),
        decreases sentences.len() - i,
    {
        assert(sentences@[i as int].deep_view() == all[i as int]);
        let ghost before = postings.deep_view();
        match dictionary.ids_of(&sentences[i]) {
            Ok(ids) => {
                postings.push(ids);
                proof {
                    assert(all.take(i + 1) =~= all.take(i as int).push(all[i as int]));
                    assert(ids.deep_view() =~= ids@);
                    assert(postings.deep_view() =~= before.push(ids@));
                    assert(postings.deep_view() =~= postings_of(dictionary@, all.take(i + 1)));
                    let now = all.take(i + 1);
                    assert forall|a: int, b: int|
                        0 <= a < now.len() && 0 <= b < now[a].len() implies dictionary@.contains(
                        #[trigger] now[a][b],
                    ) by {
                        if a < i {
                            assert(all.take(i as int)[a][b] == all[a][b]);
                        }
                    }
                }
            },
            Err(gap) => {
                return Err(NormalizationInvariantViolation { sentence: i, word: gap });
            },
        }
        i += 1;
    }
    proof {
        assert(all.take(i as int) =~= all);
        dictionary.lemma_wf();
        lemma_postings_within(dictionary@, all);
    }
    Ok((dictionary, postings))
}

/// Normalises a text. The text is put in lowercase; the dictionary is made
/// from the tokens of the whole text, each token getting the next id when it
/// first occurs; then every sentence is cut into tokens and each token replaced
/// by its id. Fails where a sentence holds a token that the whole text did not
/// show.
pub fn normalise(data: &str, tokeniser: &Tokeniser) -> (out: Result<
    (Dictionary, Vec<Vec<usize>>),
    NormalizationInvariantViolation,
>)
    requires
        tokeniser.wf(),
    ensures
        out is Ok <==> covers(
            vocabulary_of(tokeniser.spec_mode(), data@),
            sentence_tokens(tokeniser.spec_mode(), data@),
        ),
        match out {
            Ok((dictionary, postings)) => {
                &&& dictionary.wf()
                &&& dictionary@ == vocabulary_of(tokeniser.spec_mode(), data@)
                &&& postings.deep_view() == postings_of(
                    dictionary@,
                    sentence_tokens(tokeniser.spec_mode(), data@),
                )
                &&& postings_within(postings.deep_view(), dictionary@.len())
            },
            Err(e) => first_gap(
                vocabulary_of(tokeniser.spec_mode(), data@),
                sentence_tokens(tokeniser.spec_mode(), data@),
                e.sentence as int,
                e.word as int,
            ),
        },
{
    let (stream, sentences) = segment(data, tokeniser);
    assign_ids(&stream, &sentences)
}

} // verus!
