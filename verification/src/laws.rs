//! What holds of the index across its operations.

use crate::loader::{
    case_distinct, enumerates, indexed, lemma_loaded, lemma_loaded_labels, loaded, loaded_labels,
    record_of, shape_of,
};
use crate::node::{lemma_entries_finite, lemma_records_differ};
use crate::query::{completions, listed, matching};
use crate::ranking::{lemma_ranking_exists, ranking, ranks_before};
use crate::text::{lemma_precedes_connected, lowercase, precedes};
use crate::trie::Trie;
use crate::word::{bumped, WordData, WordRecord};
use vstd::prelude::*;
use vstd::relations::injective_on;

verus! {

/// The root ends no word: a consistent index stores nothing under the empty
/// path, so the answer to the empty prefix has no exact match at its head.
pub proof fn law_root_ends_no_word(trie: Trie)
    requires
        trie.wf(),
    ensures
        !trie@.contains_key(Seq::empty()),
        forall|i: int|
            0 <= i < trie.answer(Seq::empty()).len() ==> completions(trie@, Seq::empty()).contains(
                #[trigger] trie.answer(Seq::empty())[i],
            ),
{
    let empty = Seq::<char>::empty();
    let found = completions(trie@, empty);
    assert(lowercase(empty) =~= empty);
    assert(trie.root.record_at(empty) is None);
    lemma_entries_finite(*trie.root);
    let record = |p: Seq<char>| trie@[p];
    trie@.dom().lemma_map_finite(record);
    assert(found.subset_of(trie@.dom().map(record)));
    vstd::set_lib::lemma_set_subset_finite(trie@.dom().map(record), found);
    lemma_ranking_exists(found);
    assert forall|i: int| 0 <= i < trie.answer(empty).len() implies found.contains(
        #[trigger] trie.answer(empty)[i],
    ) by {
        assert(trie.answer(empty)[i] == ranking(found)[i]);
        assert(ranking(found).to_set().contains(ranking(found)[i]));
    }
}

/// A word that has just been inserted is the first suggestion for itself,
/// in whatever casing it is asked for and however popular the other words
/// are, as long as the index suggests anything at all. The empty word is
/// never inserted, so it is left out.
pub proof fn law_inserted_word_comes_first(
    before: Trie,
    after: Trie,
    word: Seq<char>,
    popularity: u16,
    prefix: Seq<char>,
)
    requires
        word.len() > 0,
        after@ == before@.insert(
            lowercase(word),
            (WordRecord { word, popularity: popularity as nat }),
        ),
        after.suggestion_number > 0,
        lowercase(prefix) == lowercase(word),
    ensures
        after.answer(prefix).len() > 0,
        after.answer(prefix).first() == (WordRecord { word, popularity: popularity as nat }),
{
}

/// Two answers to one query of one index list the same words with the same
/// popularity in the same order.
pub proof fn law_query_is_repeatable(
    trie: Trie,
    prefix: Seq<char>,
    first: Seq<WordData>,
    second: Seq<WordData>,
)
    requires
        listed(first) == trie.answer(prefix),
        listed(second) == trie.answer(prefix),
    ensures
        first.len() == second.len(),
        forall|i: int| 0 <= i < first.len() ==> (#[trigger] first[i])@ == second[i]@,
{
    assert(listed(first).len() == first.len());
    assert(listed(second).len() == second.len());
    assert forall|i: int| 0 <= i < first.len() implies (#[trigger] first[i])@ == second[i]@ by {
        assert(listed(first)[i] == first[i]@);
        assert(listed(second)[i] == second[i]@);
    }
}

/// Two popularity increases of one word raise its popularity by two, and
/// each hands out the popularity as it stands after it.
pub proof fn law_two_increases_add_two(
    start: Trie,
    middle: Trie,
    end: Trie,
    word: Seq<char>,
    first: WordRecord,
    second: WordRecord,
)
    requires
        start@.contains_key(lowercase(word)),
        start@[lowercase(word)].popularity + 2 <= u16::MAX,
        first == bumped(start@[lowercase(word)]),
        middle@ == start@.insert(lowercase(word), first),
        second == bumped(middle@[lowercase(word)]),
        end@ == middle@.insert(lowercase(word), second),
    ensures
        first.popularity == start@[lowercase(word)].popularity + 1,
        second.popularity == start@[lowercase(word)].popularity + 2,
        second.word == start@[lowercase(word)].word,
        end@[lowercase(word)] == second,
        end@ == start@.insert(lowercase(word), second),
{
    assert(end@ =~= start@.insert(lowercase(word), second));
}

/// Two prefixes that differ in ASCII casing only have the same answer.
pub proof fn law_prefix_casing_is_ignored(trie: Trie, first: Seq<char>, second: Seq<char>)
    requires
        lowercase(first) == lowercase(second),
    ensures
        trie.answer(first) == trie.answer(second),
{
}

/// An answer holds no more words than the index may suggest, and all the
/// stored words that begin with the prefix where these are no more than that.
pub proof fn law_limit_is_enforced(trie: Trie, prefix: Seq<char>)
    requires
        trie.wf(),
    ensures
        matching(trie@, lowercase(prefix)).finite(),
        trie.answer(prefix).len() == (if trie.suggestion_number <= matching(
            trie@,
            lowercase(prefix),
        ).len() {
            trie.suggestion_number as nat
        } else {
            matching(trie@, lowercase(prefix)).len()
        }),
{
    let entries = trie@;
    let key = lowercase(prefix);
    let all = matching(entries, key);
    let longer = all.remove(key);
    let found = completions(entries, key);
    let record = |p: Seq<char>| entries[p];
    lemma_entries_finite(*trie.root);
    assert(all.subset_of(entries.dom()));
    vstd::set_lib::lemma_set_subset_finite(entries.dom(), all);
    assert forall|p: Seq<char>, q: Seq<char>|
        longer.contains(p) && longer.contains(q) && #[trigger] record(p) == #[trigger] record(
            q,
        ) implies p == q by {
        if p != q {
            lemma_records_differ(*trie.root, Seq::empty(), p, q);
        }
    }
    assert(injective_on(record, longer));
    assert forall|r: WordRecord| longer.map(record).contains(r) <==> found.contains(r) by {
        if longer.map(record).contains(r) {
            let p = choose|p: Seq<char>| longer.contains(p) && record(p) == r;
            assert(entries.contains_key(p) && entries[p] == r);
        }
        if found.contains(r) {
            let p = choose|p: Seq<char>|
                key.is_prefix_of(p) && p != key && #[trigger] entries.contains_key(p) && entries[p]
                    == r;
            assert(longer.contains(p) && record(p) == r);
        }
    }
    assert(longer.map(record) =~= found);
    vstd::set_lib::lemma_map_size(longer, found, record);
    lemma_ranking_exists(found);
    if entries.contains_key(key) {
        assert(key.is_prefix_of(key)) by {
            assert(key.subrange(0, key.len() as int) =~= key);
        }
        assert(all.contains(key));
    } else {
        assert(longer =~= all);
    }
}

/// After the exact match, if there is one, an answer lists the more popular
/// word first, and of two equally popular words the one that comes first by
/// code point.
pub proof fn law_answer_is_ranked(trie: Trie, prefix: Seq<char>, i: int, j: int)
    requires
        0 <= i < j < trie.answer(prefix).len(),
        trie@.contains_key(lowercase(prefix)) ==> 0 < i,
    ensures
        trie.answer(prefix)[i].popularity >= trie.answer(prefix)[j].popularity,
        trie.answer(prefix)[i].popularity == trie.answer(prefix)[j].popularity ==> precedes(
            trie.answer(prefix)[i].word,
            trie.answer(prefix)[j].word,
        ),
{
    let entries = trie@;
    let key = lowercase(prefix);
    let found = completions(entries, key);
    let rest = ranking(found);
    let pinned: int = if entries.contains_key(key) {
        1
    } else {
        0
    };
    lemma_entries_finite(*trie.root);
    let record = |p: Seq<char>| entries[p];
    entries.dom().lemma_map_finite(record);
    assert(found.subset_of(entries.dom().map(record)));
    vstd::set_lib::lemma_set_subset_finite(entries.dom().map(record), found);
    lemma_ranking_exists(found);
    let a = trie.answer(prefix)[i];
    let b = trie.answer(prefix)[j];
    assert(a == rest[i - pinned]);
    assert(b == rest[j - pinned]);
    assert(ranks_before(a, b));
    assert(a != b);
    lemma_precedes_connected(a.word, b.word);
}

/// The order in which the words of a mapping are inserted is of no
/// consequence for the shape of the tree, and of none for what is stored
/// where no two of the words differ in casing only.
pub proof fn law_load_order_is_irrelevant(order: Seq<(Seq<char>, u16)>, counts: Map<Seq<char>, u16>)
    requires
        enumerates(order, counts),
    ensures
        loaded_labels(order) == shape_of(counts),
        case_distinct(counts) ==> loaded(order) == indexed(counts),
{
    lemma_loaded(order);
    lemma_loaded_labels(order);
    assert forall|p: Seq<char>| #[trigger]
        loaded_labels(order).contains_key(p) <==> shape_of(counts).contains_key(p) by {
        if loaded_labels(order).contains_key(p) && p.len() > 0 {
            let i = choose|i: int|
                0 <= i < order.len() && p.is_prefix_of(#[trigger] lowercase(order[i].0));
            assert(counts.contains_key(order[i].0));
        }
        if shape_of(counts).contains_key(p) && p.len() > 0 {
            let w = choose|w: Seq<char>|
                counts.contains_key(w) && p.is_prefix_of(#[trigger] lowercase(w));
            let i = choose|i: int| 0 <= i < order.len() && (#[trigger] order[i]).0 == w;
            assert(p.is_prefix_of(lowercase(order[i].0)));
        }
    }
    assert(loaded_labels(order) =~= shape_of(counts));
    if case_distinct(counts) {
        assert forall|key: Seq<char>| #[trigger]
            loaded(order).contains_key(key) <==> indexed(counts).contains_key(key) by {
            if loaded(order).contains_key(key) {
                let i = choose|i: int|
                    0 <= i < order.len() && #[trigger] lowercase(order[i].0) == key;
                assert(counts.contains_key(order[i].0));
            }
            if indexed(counts).contains_key(key) {
                let w = choose|w: Seq<char>|
                    counts.contains_key(w) && #[trigger] lowercase(w) == key;
                let i = choose|i: int| 0 <= i < order.len() && (#[trigger] order[i]).0 == w;
                assert(lowercase(order[i].0) == key);
            }
        }
        assert forall|key: Seq<char>| #[trigger] loaded(order).contains_key(key) implies loaded(
            order,
        )[key] == indexed(counts)[key] by {
            let i = choose|i: int| 0 <= i < order.len() && #[trigger] lowercase(order[i].0) == key;
            let w = choose|w: Seq<char>| counts.contains_key(w) && #[trigger] lowercase(w) == key;
            assert(counts.contains_key(order[i].0));
            assert(w == order[i].0);
            assert forall|j: int| i < j < order.len() implies #[trigger] lowercase(order[j].0)
                != lowercase(order[i].0) by {
                assert(counts.contains_key(order[j].0));
                assert(order[i].0 != order[j].0);
            }
            assert(loaded(order)[lowercase(order[i].0)] == record_of(order[i]));
        }
        assert(loaded(order) =~= indexed(counts));
    }
}

} // verus!
