//! What a query answers, as a function of what the index holds.

use crate::ranking::ranking;
use crate::word::{WordData, WordRecord};
use vstd::prelude::*;

verus! {

/// The records of the stored words that begin with `prefix` and are longer
/// than it. `entries` maps the lower-case form of each stored word to its record.
pub open spec fn completions(entries: Map<Seq<char>, WordRecord>, prefix: Seq<char>) -> Set<
    WordRecord,
> {
    Set::new(
        |r: WordRecord|
            exists|p: Seq<char>|
                prefix.is_prefix_of(p) && p != prefix && #[trigger] entries.contains_key(p)
                    && entries[p] == r,
    )
}

/// The stored words, in lower case, that begin with `prefix`.
pub open spec fn matching(entries: Map<Seq<char>, WordRecord>, prefix: Seq<char>) -> Set<
    Seq<char>,
> {
    entries.dom().filter(|p: Seq<char>| prefix.is_prefix_of(p))
}

/// What a query for `prefix`, given in lower case, answers: the record stored
/// under `prefix` itself, if there is one, then the completions in ranking
/// order, and of all that the first `limit`.
pub open spec fn suggestions(
    entries: Map<Seq<char>, WordRecord>,
    prefix: Seq<char>,
    limit: nat,
) -> Seq<WordRecord> {
    let rest = ranking(completions(entries, prefix));
    let all = if entries.contains_key(prefix) {
        seq![entries[prefix]] + rest
    } else {
        rest
    };
    if limit < all.len() {
        all.take(limit as int)
    } else {
        all
    }
}

/// The records that a list of words stands for.
pub open spec fn listed(words: Seq<WordData>) -> Seq<WordRecord> {
    Seq::new(words.len(), |i: int| words[i]@)
}

} // verus!
