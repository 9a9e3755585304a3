use docsearch::{Document, Index, Language, Normalisation, SearchResult, Tokeniser, SAMPLE_LIMIT};

fn strings(words: &[&str]) -> Vec<String> {
    words.iter().map(|w| w.to_string()).collect()
}

fn build(name: &str, texts: &[(&str, &str)], mode: Normalisation) -> Index {
    let tokeniser = Tokeniser::new(mode);
    let documents: Vec<Document> = texts
        .iter()
        .map(|(name, text)| Document::new(name, text, &tokeniser).unwrap())
        .collect();
    Index::new(name.to_string(), documents, tokeniser)
}

fn pets() -> Index {
    build(
        "pets",
        &[("d1", "The cat sat on the mat."), ("d2", "A dog ran in the park.")],
        Normalisation::Surface,
    )
}

fn plain(results: &[SearchResult]) -> Vec<(String, usize, Vec<String>)> {
    results.iter().map(|r| (r.name.to_string(), r.hit_count, r.samples.clone())).collect()
}

#[test]
fn search_cat_finds_the_first_document() {
    let index = pets();
    let results = index.search("cat");
    assert_eq!(plain(&results), vec![("d1".to_string(), 1, strings(&["the cat sat on the mat"]))]);
}

#[test]
fn search_cat_dog_matches_each_document_by_its_own_term() {
    let index = pets();
    let results = index.search("cat dog");
    assert_eq!(
        plain(&results),
        vec![
            ("d1".to_string(), 1, strings(&["the cat sat on the mat"])),
            ("d2".to_string(), 1, strings(&["a dog ran in the park"])),
        ]
    );
}

#[test]
fn search_folds_the_case_of_the_query() {
    let index = pets();
    assert_eq!(plain(&index.search("CAT")), plain(&index.search("cat")));
    assert_eq!(index.search("Cat").len(), 1);
}

#[test]
fn search_takes_each_term_of_the_query_once() {
    let index = pets();
    assert_eq!(index.query_terms("Dog cat dog, CAT!"), strings(&["dog", "cat"]));
    let results = index.search("cat cat cat");
    assert_eq!(results.len(), 1);
    assert_eq!(results[0].hit_count, 1);
}

#[test]
fn search_for_a_shared_term_visits_documents_in_key_order() {
    let index = pets();
    let results = index.search("the");
    assert_eq!(
        plain(&results),
        vec![
            ("d1".to_string(), 1, strings(&["the cat sat on the mat"])),
            ("d2".to_string(), 1, strings(&["a dog ran in the park"])),
        ]
    );
}

#[test]
fn search_for_unknown_terms_gives_no_result() {
    let index = pets();
    assert!(index.search("bird").is_empty());
    assert!(index.search("").is_empty());
    assert!(index.search("?!").is_empty());
}

#[test]
fn only_the_document_with_the_term_has_hits() {
    let index = build(
        "corpus",
        &[
            ("one", "Rivers run to the sea."),
            ("two", "The mountain is high! The mountain is cold."),
            ("three", "Rain fills the rivers."),
        ],
        Normalisation::Surface,
    );
    let results = index.search("mountain");
    let hits: Vec<&SearchResult> = results.iter().filter(|r| r.hit_count > 0).collect();
    assert_eq!(hits.len(), 1);
    assert_eq!(hits[0].name, "two");
    assert_eq!(hits[0].hit_count, 2);
    assert_eq!(hits[0].samples, strings(&["the mountain is high", "the mountain is cold"]));
}

#[test]
fn two_builds_answer_alike() {
    let texts = [
        ("one", "Rivers run to the sea."),
        ("two", "The mountain is high! The mountain is cold."),
        ("three", "Rain fills the rivers."),
    ];
    let first = build("corpus", &texts, Normalisation::Surface);
    let second = build("corpus", &texts, Normalisation::Surface);
    for query in ["rivers", "the", "mountain sea", "nothing", ""] {
        assert_eq!(plain(&first.search(query)), plain(&second.search(query)));
    }
}

#[test]
fn a_result_counts_all_matches_and_shows_the_first_five() {
    let index = build(
        "cats",
        &[("many", "Cat one! Cat two! Cat three! Cat four! Cat five! Cat six! Cat seven!")],
        Normalisation::Surface,
    );
    let results = index.search("cat");
    assert_eq!(results.len(), 1);
    assert_eq!(results[0].hit_count, 7);
    assert_eq!(
        results[0].samples,
        strings(&["cat one", "cat two", "cat three", "cat four", "cat five"])
    );
}

#[test]
fn a_result_counts_a_sentence_once_for_each_term_it_holds() {
    let index = build("pets", &[("d", "The cat saw the dog! The cat ran.")], Normalisation::Surface);
    let results = index.search("cat dog");
    assert_eq!(
        plain(&results),
        vec![(
            "d".to_string(),
            3,
            strings(&["the cat saw the dog", "the cat ran", "the cat saw the dog"])
        )]
    );
}

#[test]
fn search_result_of_few_matches() {
    let result = SearchResult::new("d", strings(&["a", "b"]));
    assert_eq!(result.name, "d");
    assert_eq!(result.hit_count, 2);
    assert_eq!(result.samples, strings(&["a", "b"]));
}

#[test]
fn search_result_of_no_matches() {
    let result = SearchResult::new("d", Vec::new());
    assert_eq!(result.hit_count, 0);
    assert!(result.samples.is_empty());
}

#[test]
fn search_result_of_exactly_the_limit() {
    assert_eq!(SAMPLE_LIMIT, 5);
    let result = SearchResult::new("d", strings(&["1", "2", "3", "4", "5"]));
    assert_eq!(result.hit_count, 5);
    assert_eq!(result.samples, strings(&["1", "2", "3", "4", "5"]));
    let result = SearchResult::new("d", strings(&["1", "2", "3", "4", "5", "6"]));
    assert_eq!(result.hit_count, 6);
    assert_eq!(result.samples, strings(&["1", "2", "3", "4", "5"]));
}

#[test]
fn search_terms_takes_the_terms_as_they_are() {
    let index = pets();
    assert_eq!(index.search_terms(&strings(&["Cat"])).len(), 0);
    let results = index.search_terms(&strings(&["dog", "dog"]));
    assert_eq!(
        plain(&results),
        vec![(
            "d2".to_string(),
            2,
            strings(&["a dog ran in the park", "a dog ran in the park"])
        )]
    );
}

#[test]
fn keys_are_given_in_the_order_of_the_batch() {
    let index = build(
        "corpus",
        &[("one", "First."), ("two", "Second."), ("three", "Third.")],
        Normalisation::Surface,
    );
    assert_eq!(index.name(), "corpus");
    assert_eq!(index.len(), 3);
    assert_eq!(index.keys(), &vec![0, 1, 2]);
    assert_eq!(index.document(0).map(|d| d.name()), Some("one"));
    assert_eq!(index.document(2).map(|d| d.name()), Some("three"));
    assert!(index.document(3).is_none());
}

#[test]
fn the_corpus_filter_finds_the_tokens_of_every_document() {
    let index = pets();
    for token in ["the", "cat", "sat", "on", "mat", "a", "dog", "ran", "in", "park"] {
        assert!(index.may_contain(token));
    }
    assert!(!index.may_contain("bird"));
    assert!(!index.is_degraded());
    assert_eq!(index.filter().capacity(), 11);
    assert_eq!(index.filter().len(), 10);
}

#[test]
fn an_index_without_documents() {
    let index = build("nothing", &[], Normalisation::Surface);
    assert_eq!(index.len(), 0);
    assert!(index.keys().is_empty());
    assert!(index.search("cat").is_empty());
    assert_eq!(index.filter().capacity(), 0);
}

#[test]
fn a_stemmed_index_stems_the_query() {
    let index = build(
        "pets",
        &[("d1", "The cats are running!"), ("d2", "A dog sleeps.")],
        Normalisation::Stemmed(Language::English),
    );
    assert_eq!(index.tokenise("Running cats"), strings(&["run", "cat"]));
    assert_eq!(plain(&index.search("running")), vec![("d1".to_string(), 1, strings(&["cat run"]))]);
    assert!(index.search("the").is_empty());
    assert_eq!(
        plain(&index.search("sleeping dogs")),
        vec![("d2".to_string(), 2, strings(&["dog sleep", "dog sleep"]))]
    );
}

#[test]
fn tokenise_follows_the_rule_of_the_index() {
    let index = pets();
    assert_eq!(index.tokenise("The Cat, the dog"), strings(&["the", "cat", "the", "dog"]));
}

#[test]
fn a_document_that_passes_the_filter_without_a_hit_gives_an_empty_result() {
    let tokeniser = Tokeniser::new(Normalisation::Surface);
    let stream = strings(&["red", "fox"]);
    let sentences = vec![strings(&["red"])];
    let document = Document::from_tokens("farm", &stream, &sentences).unwrap();
    let index = Index::new("corpus".to_string(), vec![document], tokeniser);
    let results = index.search("fox");
    assert_eq!(plain(&results), vec![("farm".to_string(), 0, Vec::new())]);
}
