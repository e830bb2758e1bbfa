//! Reading the bulk-load text: a JSON object whose keys are words and whose
//! values are popularity counts.

use crate::node::{grown, ROOT_LETTER};
use crate::text::lowercase;
use crate::word::WordRecord;
use std::collections::HashMap;
use vstd::prelude::*;

verus! {

/// The error of `serde_json`. Nothing is known of what is inside one.
#[verifier::external_type_specification]
#[verifier::external_body]
pub struct ExJsonError(serde_json::Error);

/// What `serde_json::from_str` reads from a text as a map from words to
/// sixteen-bit counts: the mapping that the text denotes as a JSON object, or
/// `None` where the call fails because the text denotes none.
pub uninterp spec fn json_word_counts(text: Seq<char>) -> Option<Map<Seq<char>, u16>>;

/// The words and counts of a list of entries.
pub open spec fn pairs(entries: Seq<(String, u16)>) -> Seq<(Seq<char>, u16)> {
    Seq::new(entries.len(), |i: int| (entries[i].0@, entries[i].1))
}

/// `entries` lists the words of `counts`, each once and with its count, in
/// some order.
pub open spec fn enumerates(entries: Seq<(Seq<char>, u16)>, counts: Map<Seq<char>, u16>) -> bool {
    &&& forall|i: int|
        0 <= i < entries.len() ==> counts.contains_key((#[trigger] entries[i]).0)
            && counts[entries[i].0] == entries[i].1
    &&& forall|i: int, j: int|
        0 <= i < j < entries.len() ==> (#[trigger] entries[i]).0 != (#[trigger] entries[j]).0
    &&& forall|word: Seq<char>| #[trigger]
        counts.contains_key(word) ==> exists|i: int|
            0 <= i < entries.len() && (#[trigger] entries[i]).0 == word
}

/// Calls `serde_json::from_str` for a `HashMap<String, u16>` and hands out the
/// entries of that map in the order in which the map yields them. Trusted:
/// what the call returns depends on the text alone; where it succeeds, the
/// list holds every word of the map once, with its count. Nothing is claimed
/// of the order of the list.
#[verifier::external_body]
pub(crate) fn parse_word_counts(text: &str) -> (r: Result<Vec<(String, u16)>, serde_json::Error>)
    ensures
        match r {
            Ok(entries) => json_word_counts(text@) matches Some(counts) && enumerates(
                pairs(entries@),
                counts,
            ),
            Err(_) => json_word_counts(text@) is None,
        },
{
    let counts: HashMap<String, u16> = serde_json::from_str(text)?;
    Ok(counts.into_iter().collect())
}

/// The record that an entry of the bulk load becomes.
pub open spec fn record_of(entry: (Seq<char>, u16)) -> WordRecord {
    WordRecord { word: entry.0, popularity: entry.1 as nat }
}

/// The index after the entries are inserted one after the other, the first
/// into an empty index. An entry with the empty word is passed over: the
/// empty path is the root, and the root ends no word.
pub open spec fn loaded(entries: Seq<(Seq<char>, u16)>) -> Map<Seq<char>, WordRecord>
    decreases entries.len(),
{
    if entries.len() == 0 {
        Map::empty()
    } else if entries.last().0.len() == 0 {
        loaded(entries.drop_last())
    } else {
        loaded(entries.drop_last()).insert(
            lowercase(entries.last().0),
            record_of(entries.last()),
        )
    }
}

/// The shape of the tree after the entries are inserted one after the other.
pub open spec fn loaded_labels(entries: Seq<(Seq<char>, u16)>) -> Map<Seq<char>, char>
    decreases entries.len(),
{
    if entries.len() == 0 {
        Map::empty().insert(Seq::empty(), ROOT_LETTER)
    } else if entries.last().0.len() == 0 {
        loaded_labels(entries.drop_last())
    } else {
        grown(loaded_labels(entries.drop_last()), lowercase(entries.last().0))
    }
}

/// No two words of `counts` differ in ASCII casing only.
pub open spec fn case_distinct(counts: Map<Seq<char>, u16>) -> bool {
    forall|a: Seq<char>, b: Seq<char>|
        counts.contains_key(a) && counts.contains_key(b) && a != b ==> #[trigger] lowercase(a)
            != #[trigger] lowercase(b)
}

/// The index of the words of `counts`, each under its lower-case form, the
/// empty word left out. Where two words share that form, one of them is there.
pub open spec fn indexed(counts: Map<Seq<char>, u16>) -> Map<Seq<char>, WordRecord> {
    Map::new(
        |key: Seq<char>|
            key.len() > 0 && exists|w: Seq<char>|
                counts.contains_key(w) && #[trigger] lowercase(w) == key,
        |key: Seq<char>|
            {
                let w = choose|w: Seq<char>|
                    counts.contains_key(w) && #[trigger] lowercase(w) == key;
                WordRecord { word: w, popularity: counts[w] as nat }
            },
    )
}

/// The shape of the tree that holds the words of `counts`: the root, and a
/// node for every beginning of the lower-case form of a word.
pub open spec fn shape_of(counts: Map<Seq<char>, u16>) -> Map<Seq<char>, char> {
    Map::new(
        |p: Seq<char>|
            p.len() == 0 || exists|w: Seq<char>|
                counts.contains_key(w) && p.is_prefix_of(#[trigger] lowercase(w)),
        |p: Seq<char>|
            if p.len() == 0 {
                ROOT_LETTER
            } else {
                p.last()
            },
    )
}

/// What is stored after a list of entries is inserted: the lower-case forms
/// of its words, the empty one left out, and under each the entry that was
/// inserted last.
pub proof fn lemma_loaded(order: Seq<(Seq<char>, u16)>)
    ensures
        forall|key: Seq<char>| #[trigger]
            loaded(order).contains_key(key) <==> key.len() > 0 && exists|i: int|
                0 <= i < order.len() && #[trigger] lowercase(order[i].0) == key,
        forall|i: int|
            0 <= i < order.len() && order[i].0.len() > 0 && (forall|j: int|
                i < j < order.len() ==> #[trigger] lowercase(order[j].0) != lowercase(order[i].0))
                ==> loaded(order)[#[trigger] lowercase(order[i].0)] == record_of(order[i]),
    decreases order.len(),
{
    if order.len() > 0 {
        let earlier = order.drop_last();
        let last = order.last();
        lemma_loaded(earlier);
        assert(lowercase(last.0).len() == last.0.len());
        assert forall|key: Seq<char>| #[trigger]
            loaded(order).contains_key(key) <==> key.len() > 0 && exists|i: int|
                0 <= i < order.len() && #[trigger] lowercase(order[i].0) == key by {
            if loaded(order).contains_key(key) {
                if last.0.len() > 0 && key == lowercase(last.0) {
                    assert(lowercase(order[order.len() - 1].0) == key);
                } else {
                    assert(loaded(earlier).contains_key(key));
                    let i = choose|i: int|
                        0 <= i < earlier.len() && #[trigger] lowercase(earlier[i].0) == key;
                    assert(lowercase(order[i].0) == key);
                }
            }
            if key.len() > 0 && exists|i: int|
                0 <= i < order.len() && #[trigger] lowercase(order[i].0) == key {
                let i = choose|i: int|
                    0 <= i < order.len() && #[trigger] lowercase(order[i].0) == key;
                if i < earlier.len() {
                    assert(lowercase(earlier[i].0) == key);
                    assert(loaded(earlier).contains_key(key));
                } else {
                    assert(order[i] == last);
                }
            }
        }
        assert forall|i: int|
            0 <= i < order.len() && order[i].0.len() > 0 && (forall|j: int|
                i < j < order.len() ==> #[trigger] lowercase(order[j].0) != lowercase(
                    order[i].0,
                )) implies loaded(order)[#[trigger] lowercase(order[i].0)] == record_of(
            order[i],
        ) by {
            if i < earlier.len() {
                assert(lowercase(order[order.len() - 1].0) != lowercase(order[i].0));
                assert forall|j: int| i < j < earlier.len() implies #[trigger] lowercase(
                    earlier[j].0,
                ) != lowercase(earlier[i].0) by {
                    assert(lowercase(order[j].0) != lowercase(order[i].0));
                }
                assert(loaded(earlier)[lowercase(earlier[i].0)] == record_of(earlier[i]));
            }
        }
    }
}

/// The shape after a list of entries is inserted: the root, and a node for
/// every beginning of the lower-case form of a word of the list.
pub proof fn lemma_loaded_labels(order: Seq<(Seq<char>, u16)>)
    ensures
        forall|p: Seq<char>| #[trigger]
            loaded_labels(order).contains_key(p) <==> p.len() == 0 || exists|i: int|
                0 <= i < order.len() && p.is_prefix_of(#[trigger] lowercase(order[i].0)),
        forall|p: Seq<char>| #[trigger]
            loaded_labels(order).contains_key(p) ==> loaded_labels(order)[p] == (if p.len() == 0 {
                ROOT_LETTER
            } else {
                p.last()
            }),
    decreases order.len(),
{
    let labels = loaded_labels(order);
    if order.len() == 0 {
        assert forall|p: Seq<char>| #[trigger] labels.contains_key(p) <==> p.len() == 0 by {
            if p.len() == 0 {
                assert(p =~= Seq::<char>::empty());
            }
        }
    } else {
        let earlier = order.drop_last();
        let last = order.last();
        let before = loaded_labels(earlier);
        lemma_loaded_labels(earlier);
        assert(lowercase(last.0).len() == last.0.len());
        assert(labels == (if last.0.len() == 0 {
            before
        } else {
            grown(before, lowercase(last.0))
        }));
        assert forall|p: Seq<char>| #[trigger]
            labels.contains_key(p) <==> p.len() == 0 || exists|i: int|
                0 <= i < order.len() && p.is_prefix_of(#[trigger] lowercase(order[i].0)) by {
            if labels.contains_key(p) && p.len() > 0 {
                if before.contains_key(p) {
                    let i = choose|i: int|
                        0 <= i < earlier.len() && p.is_prefix_of(
                            #[trigger] lowercase(earlier[i].0),
                        );
                    assert(p.is_prefix_of(lowercase(order[i].0)));
                } else {
                    assert(last.0.len() > 0);
                    assert(p.is_prefix_of(lowercase(last.0)));
                    assert(p.is_prefix_of(lowercase(order[order.len() - 1].0)));
                }
            }
            if p.len() == 0 {
                assert(before.contains_key(p));
            }
            if exists|i: int|
                0 <= i < order.len() && p.is_prefix_of(#[trigger] lowercase(order[i].0)) {
                let i = choose|i: int|
                    0 <= i < order.len() && p.is_prefix_of(#[trigger] lowercase(order[i].0));
                if i < earlier.len() {
                    assert(p.is_prefix_of(lowercase(earlier[i].0)));
                    assert(before.contains_key(p));
                } else {
                    assert(order[i] == last);
                    if last.0.len() == 0 {
                        assert(p.len() == 0);
                        assert(before.contains_key(p));
                    }
                }
            }
        }
        assert forall|p: Seq<char>| #[trigger] labels.contains_key(p) implies labels[p] == (
        if p.len() == 0 {
            ROOT_LETTER
        } else {
            p.last()
        }) by {
            if p.len() == 0 {
                assert(before.contains_key(p));
            }
        }
    }
}

} // verus!
