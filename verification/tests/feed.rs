use docsearch::{Document, Feed, FeedError, Normalisation, NormalizationInvariantViolation, RawDoc, Tokeniser};

fn entry(title: &str, text: &str) -> RawDoc {
    RawDoc {
        title: title.to_string(),
        txt_abstract: text.to_string(),
        url: format!("https://example.org/{}", title),
    }
}

#[test]
fn an_entry_is_indexed_under_its_title() {
    let tokeniser = Tokeniser::new(Normalisation::Surface);
    let document = Document::from_raw(&entry("Cats", "The cat sat."), &tokeniser).unwrap();
    assert_eq!(document.name(), "Cats");
    assert_eq!(document.id(), xxhash_rust::xxh3::xxh3_64(b"Cats"));
    assert_eq!(document.postings(), &vec![vec![0, 1, 2]]);
    assert_eq!(document.sentence(0), Some("the cat sat".to_string()));
}

#[test]
fn a_feed_gives_its_documents_in_order() {
    let tokeniser = Tokeniser::new(Normalisation::Surface);
    let feed = Feed { doc: vec![entry("one", "First text."), entry("two", "Second text.")] };
    let documents = feed.documents(&tokeniser).unwrap();
    assert_eq!(documents.len(), 2);
    assert_eq!(documents[0].name(), "one");
    assert_eq!(documents[1].name(), "two");
    assert_eq!(documents[1].sentence(0), Some("second text".to_string()));
}

#[test]
fn an_empty_feed_gives_no_documents() {
    let tokeniser = Tokeniser::new(Normalisation::Surface);
    let feed = Feed { doc: Vec::new() };
    assert!(feed.documents(&tokeniser).unwrap().is_empty());
}

#[test]
fn a_feed_stops_at_the_first_entry_that_fails() {
    let tokeniser = Tokeniser::new(Normalisation::Surface);
    let feed = Feed {
        doc: vec![
            entry("one", "First text."),
            entry("two", "Is it? \u{5d0}.\u{5d1}"),
            entry("three", "\u{5d0}.\u{5d1}"),
        ],
    };
    assert_eq!(
        feed.documents(&tokeniser).err(),
        Some(FeedError {
            entry: 1,
            cause: NormalizationInvariantViolation { sentence: 1, word: 0 },
        })
    );
}

#[test]
fn entries_compare_by_their_fields() {
    assert_eq!(entry("a", "b"), entry("a", "b"));
    assert_ne!(entry("a", "b"), entry("a", "c"));
}
