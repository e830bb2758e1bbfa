//! The order in which suggestions are listed: the more popular word first,
//! and of two equally popular words the one that comes first by code point.

use crate::text::{
    lemma_precedes_asymmetric, lemma_precedes_connected, lemma_precedes_irreflexive,
    lemma_precedes_transitive, precedes, word_precedes,
};
use crate::word::{WordData, WordRecord};
use vstd::prelude::*;
use vstd::relations::{sorted_by, total_ordering};

verus! {

/// `a` is listed no later than `b`.
pub open spec fn ranks_before(a: WordRecord, b: WordRecord) -> bool {
    a.popularity > b.popularity || (a.popularity == b.popularity && !precedes(b.word, a.word))
}

/// Each record of `s` is listed no later than those after it.
pub open spec fn is_ranked(s: Seq<WordRecord>) -> bool {
    forall|i: int, j: int| 0 <= i < j < s.len() ==> ranks_before(#[trigger] s[i], #[trigger] s[j])
}

/// `s` lists the records of `set`, each once, in ranking order.
pub open spec fn is_ranking_of(s: Seq<WordRecord>, set: Set<WordRecord>) -> bool {
    &&& s.no_duplicates()
    &&& s.to_set() == set
    &&& is_ranked(s)
}

/// The records of `set` in ranking order.
pub open spec fn ranking(set: Set<WordRecord>) -> Seq<WordRecord> {
    choose|s: Seq<WordRecord>| is_ranking_of(s, set)
}

/// The records that a sequence of stored words stands for.
pub open spec fn records(words: Seq<&WordData>) -> Seq<WordRecord> {
    Seq::new(words.len(), |i: int| words[i]@)
}

/// A record is listed no later than itself.
pub proof fn lemma_ranks_before_reflexive(a: WordRecord)
    ensures
        ranks_before(a, a),
{
    lemma_precedes_irreflexive(a.word);
}

/// Two records that are each listed no later than the other are one record.
pub proof fn lemma_ranks_before_antisymmetric(a: WordRecord, b: WordRecord)
    requires
        ranks_before(a, b),
        ranks_before(b, a),
    ensures
        a == b,
{
    lemma_precedes_connected(a.word, b.word);
}

/// What is listed no later than a record is listed no later than all that
/// the record is listed no later than.
pub proof fn lemma_ranks_before_transitive(a: WordRecord, b: WordRecord, c: WordRecord)
    requires
        ranks_before(a, b),
        ranks_before(b, c),
    ensures
        ranks_before(a, c),
{
    if a.popularity == b.popularity && b.popularity == c.popularity && precedes(c.word, a.word) {
        lemma_precedes_connected(a.word, b.word);
        if a.word != b.word {
            lemma_precedes_transitive(c.word, a.word, b.word);
        }
    }
}

/// Of two records one is listed no later than the other.
pub proof fn lemma_ranks_before_total(a: WordRecord, b: WordRecord)
    ensures
        ranks_before(a, b) || ranks_before(b, a),
{
    lemma_precedes_asymmetric(a.word, b.word);
}

/// The ranking order is a total order on records.
pub proof fn lemma_ranking_order_is_total()
    ensures
        total_ordering(|a: WordRecord, b: WordRecord| ranks_before(a, b)),
{
    let leq = |a: WordRecord, b: WordRecord| ranks_before(a, b);
    assert forall|a: WordRecord| #[trigger] leq(a, a) by {
        lemma_ranks_before_reflexive(a);
    }
    assert forall|a: WordRecord, b: WordRecord| #[trigger]
        leq(a, b) && #[trigger] leq(b, a) implies a == b by {
        lemma_ranks_before_antisymmetric(a, b);
    }
    assert forall|a: WordRecord, b: WordRecord, c: WordRecord| #[trigger]
        leq(a, b) && #[trigger] leq(b, c) implies leq(a, c) by {
        lemma_ranks_before_transitive(a, b, c);
    }
    assert forall|a: WordRecord, b: WordRecord| #[trigger] leq(a, b) || #[trigger] leq(b, a) by {
        lemma_ranks_before_total(a, b);
    }
}

/// Whether `a` is listed no later than `b`.
pub fn comes_before(a: &WordData, b: &WordData) -> (r: bool)
    ensures
        r == ranks_before(a@, b@),
{
    a.popularity > b.popularity || (a.popularity == b.popularity && !word_precedes(
        b.word.as_str(),
        a.word.as_str(),
    ))
}

/// Joins two ranked lists into one ranked list of the records of both.
fn merge<'a>(left: &Vec<&'a WordData>, right: &Vec<&'a WordData>) -> (out: Vec<&'a WordData>)
    requires
        is_ranked(records(left@)),
        is_ranked(records(right@)),
    ensures
        is_ranked(records(out@)),
        records(out@).to_multiset() == records(left@).to_multiset().add(
            records(right@).to_multiset(),
        ),
{
    let mut out: Vec<&'a WordData> = Vec::new();
    let mut i: usize = 0;
    let mut j: usize = 0;
    proof {
        assert(records(left@.take(0)) =~= Seq::<WordRecord>::empty());
        assert(records(right@.take(0)) =~= Seq::<WordRecord>::empty());
        assert(records(out@) =~= Seq::<WordRecord>::empty());
        assert(records(out@).to_multiset() =~= records(left@.take(0)).to_multiset().add(
            records(right@.take(0)).to_multiset(),
        )) by {
            broadcast use vstd::seq_lib::group_to_multiset_ensures;

        }
    }
    while i < left.len() || j < right.len()
        invariant
            i <= left.len(),
            j <= right.len(),
            is_ranked(records(left@)),
            is_ranked(records(right@)),
            is_ranked(records(out@)),
            records(out@).to_multiset() == records(left@.take(i as int)).to_multiset().add(
                records(right@.take(j as int)).to_multiset(),
            ),
            forall|k: int, m: int|
                0 <= k < out@.len() && i <= m < left@.len() ==> ranks_before(
                    #[trigger] records(out@)[k],
                    #[trigger] records(left@)[m],
                ),
            forall|k: int, m: int|
                0 <= k < out@.len() && j <= m < right@.len() ==> ranks_before(
                    #[trigger] records(out@)[k],
                    #[trigger] records(right@)[m],
                ),
        decreases left.len() - i + right.len() - j,
    {
        let take_left = if i == left.len() {
            false
        } else if j == right.len() {
            true
        } else {
            comes_before(left[i], right[j])
        };
        let ghost before = out@;
        if take_left {
            let next = left[i];
            out.push(next);
            proof {
                lemma_after_push(before, next, left@, i as int);
                if j < right.len() {
                    assert forall|m: int| j <= m < right@.len() implies ranks_before(
                        next@,
                        #[trigger] records(right@)[m],
                    ) by {
                        assert(m == j || ranks_before(
                            records(right@)[j as int],
                            records(right@)[m],
                        ));
                        if m != j {
                            lemma_ranks_before_transitive(
                                next@,
                                records(right@)[j as int],
                                records(right@)[m],
                            );
                        }
                    }
                }
                assert forall|m: int| i + 1 <= m < left@.len() implies ranks_before(
                    next@,
                    #[trigger] records(left@)[m],
                ) by {
                    assert(ranks_before(records(left@)[i as int], records(left@)[m]));
                }
                assert forall|k: int| 0 <= k < before.len() implies ranks_before(
                    #[trigger] records(before)[k],
                    next@,
                ) by {
                    assert(next@ == records(left@)[i as int]);
                }
                lemma_ranked_push(records(before), next@);
                assert(records(out@) =~= records(before).push(next@));
            }
            i = i + 1;
        } else {
            let next = right[j];
            out.push(next);
            proof {
                lemma_after_push(before, next, right@, j as int);
                if i < left.len() {
                    lemma_ranks_before_total(records(left@)[i as int], next@);
                    assert forall|m: int| i <= m < left@.len() implies ranks_before(
                        next@,
                        #[trigger] records(left@)[m],
                    ) by {
                        assert(m == i || ranks_before(
                            records(left@)[i as int],
                            records(left@)[m],
                        ));
                        if m != i {
                            lemma_ranks_before_transitive(
                                next@,
                                records(left@)[i as int],
                                records(left@)[m],
                            );
                        }
                    }
                }
                assert forall|m: int| j + 1 <= m < right@.len() implies ranks_before(
                    next@,
                    #[trigger] records(right@)[m],
                ) by {
                    assert(ranks_before(records(right@)[j as int], records(right@)[m]));
                }
                assert forall|k: int| 0 <= k < before.len() implies ranks_before(
                    #[trigger] records(before)[k],
                    next@,
                ) by {
                    assert(next@ == records(right@)[j as int]);
                }
                lemma_ranked_push(records(before), next@);
                assert(records(out@) =~= records(before).push(next@));
            }
            j = j + 1;
        }
    }
    proof {
        assert(left@.take(i as int) =~= left@);
        assert(right@.take(j as int) =~= right@);
    }
    out
}

/// The words `items[from..to]` in ranking order.
fn rank_range<'a>(items: &Vec<&'a WordData>, from: usize, to: usize) -> (out: Vec<&'a WordData>)
    requires
        from <= to <= items.len(),
    ensures
        is_ranked(records(out@)),
        records(out@).to_multiset() == records(
            items@.subrange(from as int, to as int),
        ).to_multiset(),
    decreases to - from,
{
    if to - from == 0 {
        let out: Vec<&'a WordData> = Vec::new();
        proof {
            assert(records(out@) =~= records(items@.subrange(from as int, to as int)));
        }
        out
    } else if to - from == 1 {
        let mut out: Vec<&'a WordData> = Vec::new();
        out.push(items[from]);
        proof {
            assert(records(out@) =~= records(items@.subrange(from as int, to as int)));
        }
        out
    } else {
        let middle: usize = from + (to - from) / 2;
        let left = rank_range(items, from, middle);
        let right = rank_range(items, middle, to);
        let out = merge(&left, &right);
        proof {
            let first = items@.subrange(from as int, middle as int);
            let second = items@.subrange(middle as int, to as int);
            assert(records(items@.subrange(from as int, to as int)) =~= records(first) + records(
                second,
            ));
            vstd::seq_lib::lemma_multiset_commutative(records(first), records(second));
        }
        out
    }
}

/// The given words in ranking order.
pub fn rank<'a>(items: &Vec<&'a WordData>) -> (out: Vec<&'a WordData>)
    ensures
        is_ranked(records(out@)),
        records(out@).to_multiset() == records(items@).to_multiset(),
{
    proof {
        assert(items@.subrange(0, items@.len() as int) =~= items@);
    }
    rank_range(items, 0, items.len())
}

/// A set has at most one ranking.
pub proof fn lemma_ranking_unique(a: Seq<WordRecord>, b: Seq<WordRecord>, set: Set<WordRecord>)
    requires
        is_ranking_of(a, set),
        is_ranking_of(b, set),
    ensures
        a == b,
{
    broadcast use vstd::seq_lib::group_to_multiset_ensures;

    let leq = |x: WordRecord, y: WordRecord| ranks_before(x, y);
    lemma_ranking_order_is_total();
    a.lemma_multiset_has_no_duplicates();
    b.lemma_multiset_has_no_duplicates();
    assert forall|x: WordRecord| a.to_multiset().count(x) == b.to_multiset().count(x) by {
        assert(a.contains(x) <==> set.contains(x));
        assert(b.contains(x) <==> set.contains(x));
    }
    assert(a.to_multiset() =~= b.to_multiset());
    assert(sorted_by(a, leq));
    assert(sorted_by(b, leq));
    vstd::seq_lib::lemma_sorted_unique(a, b, leq);
}

/// A rearrangement of a list without repetition has no repetition and holds
/// the same records.
pub proof fn lemma_rearranged(a: Seq<WordRecord>, b: Seq<WordRecord>)
    requires
        a.no_duplicates(),
        a.to_multiset() == b.to_multiset(),
    ensures
        b.no_duplicates(),
        b.to_set() == a.to_set(),
{
    broadcast use vstd::seq_lib::group_to_multiset_ensures;

    a.lemma_multiset_has_no_duplicates();
    b.lemma_multiset_has_no_duplicates_conv();
    assert forall|x: WordRecord| a.to_set().contains(x) <==> b.to_set().contains(x) by {
        assert(a.contains(x) <==> a.to_multiset().count(x) > 0);
        assert(b.contains(x) <==> b.to_multiset().count(x) > 0);
    }
    assert(b.to_set() =~= a.to_set());
}

/// A finite set listed in some order, each record once.
proof fn lemma_listing(set: Set<WordRecord>)
    requires
        set.finite(),
    ensures
        set.to_seq().no_duplicates(),
        set.to_seq().to_set() == set,
        set.to_seq().len() == set.len(),
    decreases set.len(),
{
    let s = set.to_seq();
    set.lemma_to_seq_to_set_id();
    if set.len() == 0 {
    } else {
        let x = set.choose();
        let others = set.remove(x);
        lemma_listing(others);
        assert(s == Seq::<WordRecord>::empty().push(x) + others.to_seq());
        assert forall|i: int, j: int| 0 <= i < s.len() && 0 <= j < s.len() && i != j implies s[i]
            != s[j] by {
            if i > 0 {
                assert(others.to_seq().to_set().contains(others.to_seq()[i - 1]));
            }
            if j > 0 {
                assert(others.to_seq().to_set().contains(others.to_seq()[j - 1]));
            }
        }
    }
}

/// Every finite set of records has a ranking.
pub proof fn lemma_ranking_exists(set: Set<WordRecord>)
    requires
        set.finite(),
    ensures
        is_ranking_of(ranking(set), set),
        ranking(set).len() == set.len(),
{
    let leq = |x: WordRecord, y: WordRecord| ranks_before(x, y);
    let listing = set.to_seq();
    let sorted = listing.sort_by(leq);
    lemma_listing(set);
    lemma_ranking_order_is_total();
    listing.lemma_sort_by_ensures(leq);
    lemma_rearranged(listing, sorted);
    assert(is_ranked(sorted)) by {
        assert(sorted_by(sorted, leq));
        assert forall|i: int, j: int| 0 <= i < j < sorted.len() implies ranks_before(
            #[trigger] sorted[i],
            #[trigger] sorted[j],
        ) by {
            assert(leq(sorted[i], sorted[j]));
        }
    }
    assert(is_ranking_of(sorted, set));
    ranking(set).unique_seq_to_set();
}

/// A ranked list without repetition is the ranking of the set of its records.
pub proof fn lemma_ranking_of_listed(s: Seq<WordRecord>)
    requires
        s.no_duplicates(),
        is_ranked(s),
    ensures
        ranking(s.to_set()) == s,
{
    assert(is_ranking_of(s, s.to_set()));
    lemma_ranking_unique(s, ranking(s.to_set()), s.to_set());
}

/// A ranked list stays ranked when a record that none of its records comes
/// after is put at its end.
proof fn lemma_ranked_push(s: Seq<WordRecord>, last: WordRecord)
    requires
        is_ranked(s),
        forall|k: int| 0 <= k < s.len() ==> ranks_before(#[trigger] s[k], last),
    ensures
        is_ranked(s.push(last)),
{
    let t = s.push(last);
    assert forall|a: int, b: int| 0 <= a < b < t.len() implies ranks_before(
        #[trigger] t[a],
        #[trigger] t[b],
    ) by {
        if b < s.len() {
            assert(ranks_before(s[a], s[b]));
        } else {
            assert(ranks_before(s[a], last));
        }
    }
}

/// What the records of a list are after the element `source[at]` is put at its end.
proof fn lemma_after_push(before: Seq<&WordData>, next: &WordData, source: Seq<&WordData>, at: int)
    requires
        0 <= at < source.len(),
        next == source[at],
    ensures
        records(before.push(next)) == records(before).push(next@),
        records(source.take(at + 1)) == records(source.take(at)).push(next@),
        records(before.push(next)).to_multiset() == records(before).to_multiset().insert(next@),
        records(source.take(at + 1)).to_multiset() == records(source.take(at)).to_multiset().insert(
            next@,
        ),
{
    broadcast use vstd::seq_lib::group_to_multiset_ensures;

    assert(records(before.push(next)) =~= records(before).push(next@));
    assert(records(source.take(at + 1)) =~= records(source.take(at)).push(next@));
}

} // verus!
