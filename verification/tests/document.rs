use docsearch::{Document, Language, Normalisation, NormalizationInvariantViolation, Tokeniser};

fn strings(words: &[&str]) -> Vec<String> {
    words.iter().map(|w| w.to_string()).collect()
}

fn surface() -> Tokeniser {
    Tokeniser::new(Normalisation::Surface)
}

const PETS: &str = "The cat sat on the mat! A dog saw the cat? The dog ran.";

#[test]
fn a_document_keeps_its_name_and_postings() {
    let document = Document::new("pets", PETS, &surface()).unwrap();
    assert_eq!(document.name(), "pets");
    assert_eq!(
        document.postings(),
        &vec![vec![0, 1, 2, 3, 0, 4], vec![5, 6, 7, 0, 1], vec![0, 6, 8]]
    );
    assert_eq!(document.dictionary().len(), 9);
}

#[test]
fn the_id_of_a_document_is_the_hash_of_its_name() {
    let document = Document::new("pets", PETS, &surface()).unwrap();
    assert_eq!(document.id(), xxhash_rust::xxh3::xxh3_64(b"pets"));
    let other = Document::new("pets", "Something else.", &surface()).unwrap();
    assert_eq!(other.id(), document.id());
    let third = Document::new("birds", PETS, &surface()).unwrap();
    assert_ne!(third.id(), document.id());
}

#[test]
fn dictionary_of_a_document_is_a_bijection() {
    let document = Document::new("pets", PETS, &surface()).unwrap();
    let dictionary = document.dictionary();
    for id in 0..dictionary.len() {
        let token = dictionary.token_of(id).unwrap();
        assert_eq!(dictionary.id_of(token), Some(id));
    }
    for token in ["the", "cat", "sat", "on", "mat", "a", "dog", "saw", "ran"] {
        let id = dictionary.id_of(token).unwrap();
        assert_eq!(dictionary.token_of(id).map(|t| t.as_str()), Some(token));
    }
}

#[test]
fn every_id_in_the_postings_is_in_the_dictionary() {
    let document = Document::new("pets", PETS, &surface()).unwrap();
    for sentence in document.postings() {
        for id in sentence {
            assert!(document.dictionary().token_of(*id).is_some());
        }
    }
}

#[test]
fn the_filter_finds_every_token_of_the_dictionary() {
    let document = Document::new("pets", PETS, &surface()).unwrap();
    let dictionary = document.dictionary();
    for id in 0..dictionary.len() {
        let token = dictionary.token_of(id).unwrap();
        assert!(document.may_contain(token));
        assert!(document.filter().contains(token));
    }
    assert!(!document.filter().is_degraded());
    assert_eq!(document.filter().capacity(), 9);
    assert_eq!(document.filter().len(), 9);
    assert!(!document.may_contain("bird"));
}

#[test]
fn sentences_are_written_out_with_single_spaces() {
    let document = Document::new("pets", "The  cat,   sat (on) the MAT!", &surface()).unwrap();
    assert_eq!(document.sentence(0), Some("the cat sat on the mat".to_string()));
    assert_eq!(document.sentence(1), None);
}

#[test]
fn search_for_one_term_gives_exactly_its_sentences() {
    let document = Document::new("pets", PETS, &surface()).unwrap();
    assert_eq!(
        document.search(&strings(&["cat"])),
        strings(&["the cat sat on the mat", "a dog saw the cat"])
    );
    assert_eq!(document.search(&strings(&["ran"])), strings(&["the dog ran"]));
    assert_eq!(document.matches("cat"), document.search(&strings(&["cat"])));
}

#[test]
fn search_for_an_unknown_term_gives_nothing() {
    let document = Document::new("pets", PETS, &surface()).unwrap();
    assert_eq!(document.search(&strings(&["bird"])), Vec::<String>::new());
    assert_eq!(document.search(&strings(&["Cat"])), Vec::<String>::new());
    assert_eq!(document.search(&Vec::new()), Vec::<String>::new());
}

#[test]
fn a_sentence_with_a_term_twice_is_given_once() {
    let document = Document::new("pets", PETS, &surface()).unwrap();
    assert_eq!(
        document.search(&strings(&["the"])),
        strings(&["the cat sat on the mat", "a dog saw the cat", "the dog ran"])
    );
}

#[test]
fn search_for_two_terms_gives_a_shared_sentence_twice() {
    let document = Document::new("pets", PETS, &surface()).unwrap();
    assert_eq!(
        document.search(&strings(&["cat", "dog"])),
        strings(&[
            "the cat sat on the mat",
            "a dog saw the cat",
            "a dog saw the cat",
            "the dog ran"
        ])
    );
    assert_eq!(
        document.search(&strings(&["dog", "bird", "cat"])),
        strings(&[
            "a dog saw the cat",
            "the dog ran",
            "the cat sat on the mat",
            "a dog saw the cat"
        ])
    );
}

#[test]
fn passes_asks_the_filter_for_any_term() {
    let document = Document::new("pets", PETS, &surface()).unwrap();
    assert!(document.passes(&strings(&["bird", "cat"])));
    assert!(!document.passes(&strings(&["bird", "fish"])));
    assert!(!document.passes(&Vec::new()));
}

#[test]
fn a_document_without_words() {
    let document = Document::new("empty", "", &surface()).unwrap();
    assert_eq!(document.dictionary().len(), 0);
    assert!(document.postings().is_empty());
    assert_eq!(document.filter().capacity(), 0);
    assert_eq!(document.search(&strings(&["cat"])), Vec::<String>::new());
}

#[test]
fn a_document_fails_on_a_word_that_only_a_sentence_shows() {
    let outcome = Document::new("x", "\u{5d0}.\u{5d1}", &surface());
    assert_eq!(outcome.err(), Some(NormalizationInvariantViolation { sentence: 0, word: 0 }));
}

#[test]
fn a_stemmed_document_answers_for_stems() {
    let tokeniser = Tokeniser::new(Normalisation::Stemmed(Language::English));
    let document = Document::new("pets", "The cats are running! A dog sleeps.", &tokeniser).unwrap();
    assert_eq!(document.search(&strings(&["cat"])), strings(&["cat run"]));
    assert_eq!(document.search(&strings(&["cats"])), Vec::<String>::new());
    assert_eq!(document.search(&strings(&["sleep"])), strings(&["dog sleep"]));
}

#[test]
fn holds_id_looks_through_a_sentence() {
    assert!(docsearch::document::holds_id(&vec![3, 1, 4], 4));
    assert!(!docsearch::document::holds_id(&vec![3, 1, 4], 2));
    assert!(!docsearch::document::holds_id(&Vec::new(), 0));
}

#[test]
fn a_document_from_known_tokens() {
    let stream = strings(&["red", "fox", "red", "hen"]);
    let sentences = vec![strings(&["red", "fox"]), strings(&["red", "hen"]), strings(&["hen"])];
    let document = Document::from_tokens("farm", &stream, &sentences).unwrap();
    assert_eq!(document.name(), "farm");
    assert_eq!(document.postings(), &vec![vec![0, 1], vec![0, 2], vec![2]]);
    assert_eq!(document.search(&strings(&["red"])), strings(&["red fox", "red hen"]));
    assert_eq!(document.search(&strings(&["hen"])), strings(&["red hen", "hen"]));
    assert_eq!(document.search(&strings(&["fox", "hen"])), strings(&["red fox", "red hen", "hen"]));
    assert_eq!(document.filter().capacity(), 3);
}

#[test]
fn a_document_from_tokens_that_do_not_fit() {
    let stream = strings(&["red", "fox"]);
    let sentences = vec![strings(&["red", "hen"])];
    assert_eq!(
        Document::from_tokens("farm", &stream, &sentences).err(),
        Some(NormalizationInvariantViolation { sentence: 0, word: 1 })
    );
}

#[test]
fn a_token_that_no_sentence_holds_matches_nothing() {
    let stream = strings(&["red", "fox"]);
    let sentences = vec![strings(&["red"])];
    let document = Document::from_tokens("farm", &stream, &sentences).unwrap();
    assert!(document.may_contain("fox"));
    assert_eq!(document.search(&strings(&["fox"])), Vec::<String>::new());
}
