//! Words and their popularity.

use vstd::prelude::*;

verus! {

/// What a `WordData` stands for in contracts: the characters of the word as
/// it was written when it was stored, and how popular the word is.
pub struct WordRecord {
    pub word: Seq<char>,
    pub popularity: nat,
}

/// A stored word, in the casing in which it was stored, with its popularity.
#[derive(Debug, PartialEq, Eq)]
pub struct WordData {
    pub word: String,
    pub popularity: u16,
}

impl View for WordData {
    type V = WordRecord;

    open spec fn view(&self) -> WordRecord {
        WordRecord { word: self.word@, popularity: self.popularity as nat }
    }
}

impl Clone for WordData {
    /// The same word with the same popularity.
    fn clone(&self) -> (copy: Self)
        ensures
            copy == *self,
    {
        WordData { word: self.word.clone(), popularity: self.popularity }
    }
}

impl WordData {
    /// The record of `word` with `popularity`.
    pub fn new(word: String, popularity: u16) -> (data: WordData)
        ensures
            data.word == word,
            data.popularity == popularity,
    {
        WordData { word, popularity }
    }
}

/// The record after one more use of its word.
pub open spec fn bumped(record: WordRecord) -> WordRecord {
    WordRecord { word: record.word, popularity: record.popularity + 1 }
}

} // verus!
