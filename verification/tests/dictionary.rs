use docsearch::Dictionary;

fn strings(words: &[&str]) -> Vec<String> {
    words.iter().map(|w| w.to_string()).collect()
}

#[test]
fn an_empty_dictionary() {
    let dictionary = Dictionary::new();
    assert_eq!(dictionary.len(), 0);
    assert_eq!(dictionary.id_of("cat"), None);
    assert_eq!(dictionary.token_of(0), None);
}

#[test]
fn ids_follow_first_occurrence() {
    let dictionary = Dictionary::from_words(&strings(&["the", "cat", "the", "mat", "cat"]));
    assert_eq!(dictionary.len(), 3);
    assert_eq!(dictionary.id_of("the"), Some(0));
    assert_eq!(dictionary.id_of("cat"), Some(1));
    assert_eq!(dictionary.id_of("mat"), Some(2));
    assert_eq!(dictionary.id_of("dog"), None);
}

#[test]
fn ids_and_tokens_answer_each_other() {
    let words = strings(&["on", "the", "mat", "the", "cat", "sat", "on"]);
    let dictionary = Dictionary::from_words(&words);
    for id in 0..dictionary.len() {
        let token = dictionary.token_of(id).unwrap();
        assert_eq!(dictionary.id_of(token), Some(id));
    }
    for word in &words {
        let id = dictionary.id_of(word).unwrap();
        assert_eq!(dictionary.token_of(id), Some(word));
    }
    assert_eq!(dictionary.token_of(dictionary.len()), None);
}

#[test]
fn ids_of_a_run_of_words() {
    let dictionary = Dictionary::from_words(&strings(&["the", "cat", "sat"]));
    assert_eq!(dictionary.ids_of(&strings(&["sat", "the", "cat", "the"])), Ok(vec![2, 0, 1, 0]));
    assert_eq!(dictionary.ids_of(&Vec::new()), Ok(Vec::new()));
}

#[test]
fn ids_of_stop_at_the_first_unknown_word() {
    let dictionary = Dictionary::from_words(&strings(&["the", "cat"]));
    assert_eq!(dictionary.ids_of(&strings(&["the", "dog", "cat", "bird"])), Err(1));
}
