//! The entries of a document feed, and how they become documents.
use crate::document::{document_of, normalises, Document, DocumentModel};
use crate::pipeline::{first_gap, sentence_tokens, vocabulary_of, NormalizationInvariantViolation};
use crate::text::{Normalisation, Tokeniser};
use vstd::prelude::*;

verus! {

/// One entry of a feed.
#[derive(Debug, Clone, PartialEq, Eq)]
pub struct RawDoc {
    pub title: String,
    pub txt_abstract: String,
    pub url: String,
}

/// A feed: its entries in the order in which they were read.
#[derive(Debug, Clone, PartialEq, Eq)]
pub struct Feed {
    pub doc: Vec<RawDoc>,
}

/// An entry of a feed could not be indexed. `entry` is the place of the first
/// such entry, `cause` what its text broke.
#[derive(Clone, Copy, Debug, PartialEq, Eq, Structural)]
pub struct FeedError {
    pub entry: usize,
    pub cause: NormalizationInvariantViolation,
}

/// The document that a feed entry gives: its title is the name, its abstract
/// the text.
pub open spec fn entry_document(entry: RawDoc, mode: Normalisation) -> DocumentModel {
    document_of(entry.title@, entry.txt_abstract@, mode)
}

/// Whether the text of a feed entry can be normalised.
pub open spec fn entry_normalises(entry: RawDoc, mode: Normalisation) -> bool {
    normalises(mode, entry.txt_abstract@)
}

impl Document {
    /// Indexes a feed entry: its abstract, under its title.
    pub fn from_raw(base: &RawDoc, tokeniser: &Tokeniser) -> (out: Result<
        Document,
        NormalizationInvariantViolation,
    >)
        requires
            tokeniser.wf(),
        ensures
            out is Ok <==> entry_normalises(*base, tokeniser.spec_mode()),
            match out {
                Ok(document) => document.wf() && document@ == entry_document(
                    *base,
                    tokeniser.spec_mode(),
                ),
                Err(e) => first_gap(
                    vocabulary_of(tokeniser.spec_mode(), base.txt_abstract@),
                    sentence_tokens(tokeniser.spec_mode(), base.txt_abstract@),
                    e.sentence as int,
                    e.word as int,
                ),
            },
    {
        Document::new(base.title.as_str(), base.txt_abstract.as_str(), tokeniser)
    }
}

impl Feed {
    /// Indexes every entry of the feed, in order. Stops at the first entry
    /// whose text cannot be normalised.
    pub fn documents(&self, tokeniser: &Tokeniser) -> (out: Result<Vec<Document>, FeedError>)
        requires
            tokeniser.wf(),
        ensures
            out is Ok <==> forall|i: int|
                0 <= i < self.doc.len() ==> entry_normalises(
                    #[trigger] self.doc@[i],
                    tokeniser.spec_mode(),
                ),
            match out {
                Ok(documents) => {
                    &&& documents.len() == self.doc.len()
                    &&& forall|i: int|
                        0 <= i < documents.len() ==> (#[trigger] documents@[i]).wf()
                            && documents@[i]@ == entry_document(self.doc@[i], tokeniser.spec_mode())
                },
                Err(e) => {
                    &&& e.entry < self.doc.len()
                    &&& forall|i: int|
                        0 <= i < e.entry ==> entry_normalises(
                            #[trigger] self.doc@[i],
                            tokeniser.spec_mode(),
                        )
                    &&& first_gap(
                        vocabulary_of(
                            tokeniser.spec_mode(),
                            self.doc@[e.entry as int].txt_abstract@,
                        ),
                        sentence_tokens(
                            tokeniser.spec_mode(),
                            self.doc@[e.entry as int].txt_abstract@,
                        ),
                        e.cause.sentence as int,
                        e.cause.word as int,
                    )
                },
            },
    {
        let mut documents: Vec<Document> = Vec::new();
        let mut i: usize = 0;
        while i < self.doc.len()
            invariant
                i <= self.doc.len(),
                tokeniser.wf(),
                documents.len() == i,
                forall|k: int|
                    0 <= k < i ==> entry_normalises(#[trigger] self.doc@[k], tokeniser.spec_mode()),
                forall|k: int|
                    0 <= k < i ==> (#[trigger] documents@[k]).wf() && documents@[k]@
                        == entry_document(self.doc@[k], tokeniser.spec_mode()),
            decreases self.doc.len() - i,
        {
            match Document::from_raw(&self.doc[i], tokeniser) {
                Ok(document) => {
                    documents.push(document);
                },
                Err(cause) => {
                    return Err(FeedError { entry: i, cause });
                },
            }
            i += 1;
        }
        Ok(documents)
    }
}

} // verus!
