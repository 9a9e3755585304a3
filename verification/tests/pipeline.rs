use docsearch::{
    assign_ids, normalise, segment, Language, Normalisation, NormalizationInvariantViolation,
    Tokeniser,
};

fn strings(words: &[&str]) -> Vec<String> {
    words.iter().map(|w| w.to_string()).collect()
}

#[test]
fn normalise_gives_ids_in_the_order_of_the_text() {
    let tokeniser = Tokeniser::new(Normalisation::Surface);
    let (dictionary, postings) =
        normalise("The cat sat on the mat! The dog sat.", &tokeniser).unwrap();
    assert_eq!(dictionary.len(), 6);
    for (id, token) in ["the", "cat", "sat", "on", "mat", "dog"].iter().enumerate() {
        assert_eq!(dictionary.id_of(token), Some(id));
        assert_eq!(dictionary.token_of(id).map(|t| t.as_str()), Some(*token));
    }
    assert_eq!(postings, vec![vec![0, 1, 2, 3, 0, 4], vec![0, 5, 2]]);
}

#[test]
fn normalise_folds_case() {
    let tokeniser = Tokeniser::new(Normalisation::Surface);
    let (dictionary, postings) = normalise("Cat CAT cat", &tokeniser).unwrap();
    assert_eq!(dictionary.len(), 1);
    assert_eq!(dictionary.id_of("cat"), Some(0));
    assert_eq!(dictionary.id_of("Cat"), None);
    assert_eq!(postings, vec![vec![0, 0, 0]]);
}

#[test]
fn normalise_of_an_empty_text() {
    let tokeniser = Tokeniser::new(Normalisation::Surface);
    let (dictionary, postings) = normalise("", &tokeniser).unwrap();
    assert_eq!(dictionary.len(), 0);
    assert!(postings.is_empty());
}

#[test]
fn normalise_passes_over_fragments_without_words() {
    let tokeniser = Tokeniser::new(Normalisation::Surface);
    let (dictionary, postings) =
        normalise("Mr. Fox jumped. [...] The dog was too lazy.", &tokeniser).unwrap();
    assert_eq!(dictionary.len(), 8);
    assert_eq!(postings, vec![vec![0, 1, 2], vec![3, 4, 5, 6, 7]]);
}

#[test]
fn normalise_with_stemming() {
    let tokeniser = Tokeniser::new(Normalisation::Stemmed(Language::English));
    let (dictionary, postings) =
        normalise("The cats are running! A cat runs.", &tokeniser).unwrap();
    assert_eq!(dictionary.len(), 2);
    assert_eq!(dictionary.id_of("cat"), Some(0));
    assert_eq!(dictionary.id_of("run"), Some(1));
    assert_eq!(dictionary.id_of("the"), None);
    assert_eq!(postings, vec![vec![0, 1], vec![0, 1]]);
}

#[test]
fn normalise_reports_a_word_that_only_a_sentence_shows() {
    let tokeniser = Tokeniser::new(Normalisation::Surface);
    let outcome = normalise("\u{5d0}.\u{5d1}", &tokeniser);
    assert_eq!(outcome.err(), Some(NormalizationInvariantViolation { sentence: 0, word: 0 }));
}

#[test]
fn normalise_reports_the_first_such_word() {
    let tokeniser = Tokeniser::new(Normalisation::Surface);
    let outcome = normalise("A cat sat? Then \u{5d0}.\u{5d1}", &tokeniser);
    assert_eq!(outcome.err(), Some(NormalizationInvariantViolation { sentence: 1, word: 1 }));
}

#[test]
fn normalise_sees_no_break_at_a_full_stop_before_a_lowercase_word() {
    let tokeniser = Tokeniser::new(Normalisation::Surface);
    let (_, postings) = normalise("The cat sat. The dog sat.", &tokeniser).unwrap();
    assert_eq!(postings, vec![vec![0, 1, 2, 0, 3, 2]]);
    let (_, postings) = normalise("The cat sat.\nThe dog sat.", &tokeniser).unwrap();
    assert_eq!(postings, vec![vec![0, 1, 2], vec![0, 3, 2]]);
}

#[test]
fn segment_cuts_the_text_and_its_sentences() {
    let tokeniser = Tokeniser::new(Normalisation::Surface);
    let (stream, sentences) = segment("The Cat sat! The DOG, too.", &tokeniser);
    assert_eq!(stream, strings(&["the", "cat", "sat", "the", "dog", "too"]));
    assert_eq!(sentences, vec![strings(&["the", "cat", "sat"]), strings(&["the", "dog", "too"])]);
}

#[test]
fn segment_with_stemming() {
    let tokeniser = Tokeniser::new(Normalisation::Stemmed(Language::English));
    let (stream, sentences) = segment("The cats are running! A dog sleeps.", &tokeniser);
    assert_eq!(stream, strings(&["cat", "run", "dog", "sleep"]));
    assert_eq!(sentences, vec![strings(&["cat", "run"]), strings(&["dog", "sleep"])]);
}

#[test]
fn assign_ids_numbers_tokens_by_first_occurrence() {
    let stream = strings(&["b", "a", "b", "c"]);
    let sentences = vec![strings(&["c", "b"]), Vec::new(), strings(&["a", "a"])];
    let (dictionary, postings) = assign_ids(&stream, &sentences).unwrap();
    assert_eq!(dictionary.len(), 3);
    assert_eq!(dictionary.id_of("b"), Some(0));
    assert_eq!(dictionary.id_of("a"), Some(1));
    assert_eq!(dictionary.id_of("c"), Some(2));
    assert_eq!(postings, vec![vec![2, 0], vec![], vec![1, 1]]);
}

#[test]
fn assign_ids_names_the_first_token_that_the_stream_lacks() {
    let stream = strings(&["a", "b"]);
    let sentences = vec![strings(&["a"]), strings(&["b", "a", "x", "y"]), strings(&["z"])];
    assert_eq!(
        assign_ids(&stream, &sentences).err(),
        Some(NormalizationInvariantViolation { sentence: 1, word: 2 })
    );
}

#[test]
fn assign_ids_of_nothing() {
    let (dictionary, postings) = assign_ids(&Vec::new(), &Vec::new()).unwrap();
    assert_eq!(dictionary.len(), 0);
    assert!(postings.is_empty());
    assert_eq!(
        assign_ids(&Vec::new(), &vec![strings(&["a"])]).err(),
        Some(NormalizationInvariantViolation { sentence: 0, word: 0 })
    );
}
