//! The index: a prefix tree of words with the number of suggestions that a
//! query may return.

use crate::app_error::AppError;
use crate::laws::law_load_order_is_irrelevant;
use crate::loader::{
    case_distinct, enumerates, indexed, json_word_counts, loaded, loaded_labels, pairs,
    parse_word_counts, shape_of,
};
pub use crate::node::Node;
use crate::node::{
    bump_below, check_below, descend, grown, insert_below, lemma_edge_records, lemma_leaf_paths,
    lemma_node_at_joined, lemma_records_differ, lemma_wf_below, ROOT_LETTER,
};
use crate::query::{completions, listed, suggestions};
use crate::ranking::{lemma_ranking_of_listed, lemma_rearranged, rank, ranking, records};
use crate::text::{ascii_lowercase, code, lowercase};
use crate::word::bumped;
pub use crate::word::{WordData, WordRecord};
use vstd::prelude::*;

verus! {

/// The index: the root of the prefix tree, and the number of words that an
/// answer may hold at most.
#[derive(Debug)]
pub struct Trie {
    pub root: Box<Node>,
    pub suggestion_number: u8,
}

/// The index as a mapping: the lower-case path of each stored word to its
/// record. In a consistent index the empty path, which is the root, has none.
impl View for Trie {
    type V = Map<Seq<char>, WordRecord>;

    open spec fn view(&self) -> Map<Seq<char>, WordRecord> {
        self.root.entries()
    }
}

impl Clone for Trie {
    /// A copy of the index: the same words, the same shape, the same limit.
    fn clone(&self) -> (copy: Self)
        ensures
            copy@ == self@,
            copy.labels() == self.labels(),
            copy.suggestion_number == self.suggestion_number,
            self.wf() ==> copy.wf(),
    {
        let copy = Trie {
            root: Box::new((*self.root).clone()),
            suggestion_number: self.suggestion_number,
        };
        proof {
            assert(copy@ =~= self@);
            assert(copy.labels() =~= self.labels());
            assert(copy.root.record_at(Seq::empty()) == self.root.record_at(Seq::empty()));
        }
        copy
    }
}

/// The completions of a prefix are the records below the node that the
/// prefix leads to; without such a node there are none, nor an exact match.
proof fn lemma_completions_at(root: Node, prefix: Seq<char>)
    ensures
        match root.node_at(prefix) {
            Some(node) => {
                &&& completions(root.entries(), prefix) == node.records_below()
                &&& root.entries().contains_key(prefix) <==> node.record() is Some
                &&& node.record() is Some ==> root.entries()[prefix] == node.record().unwrap()
            },
            None => {
                &&& completions(root.entries(), prefix) == Set::<WordRecord>::empty()
                &&& !root.entries().contains_key(prefix)
            },
        },
{
    let entries = root.entries();
    let below = match root.node_at(prefix) {
        Some(node) => node.records_below(),
        None => Set::<WordRecord>::empty(),
    };
    assert forall|r: WordRecord| completions(entries, prefix).contains(r) <==> below.contains(
        r,
    ) by {
        if completions(entries, prefix).contains(r) {
            let p = choose|p: Seq<char>|
                prefix.is_prefix_of(p) && p != prefix && #[trigger] entries.contains_key(p)
                    && entries[p] == r;
            let q = p.skip(prefix.len() as int);
            assert(prefix + q =~= p);
            lemma_node_at_joined(root, prefix, q);
            assert(q.len() > 0) by {
                if q.len() == 0 {
                    assert(p =~= prefix);
                }
            }
            assert(root.node_at(prefix).unwrap().record_at(q) == Some(r));
        }
        if below.contains(r) {
            let node = root.node_at(prefix).unwrap();
            let q = choose|q: Seq<char>| q.len() > 0 && #[trigger] node.record_at(q) == Some(r);
            let p = prefix + q;
            lemma_node_at_joined(root, prefix, q);
            assert(p.subrange(0, prefix.len() as int) =~= prefix);
            assert(entries.contains_key(p) && entries[p] == r);
        }
    }
    assert(completions(entries, prefix) =~= below);
}

/// Two lists without repetition that share no element make one such list.
proof fn lemma_joined_without_repetition(a: Seq<WordRecord>, b: Seq<WordRecord>)
    requires
        a.no_duplicates(),
        b.no_duplicates(),
        forall|i: int, j: int| 0 <= i < a.len() && 0 <= j < b.len() ==> a[i] != b[j],
    ensures
        (a + b).no_duplicates(),
{
    let s = a + b;
    assert forall|i: int, j: int| 0 <= i < s.len() && 0 <= j < s.len() && i != j implies s[i]
        != s[j] by {
        if i < a.len() && j < a.len() {
            assert(a[i] != a[j]);
        } else if i >= a.len() && j >= a.len() {
            assert(b[i - a.len()] != b[j - a.len()]);
        } else if i < a.len() {
            assert(a[i] != b[j - a.len()]);
        } else {
            assert(a[j] != b[i - a.len()]);
        }
    }
}

/// Puts into `out` the words stored at `node` and below it.
fn gather<'a>(node: &'a Node, out: &mut Vec<&'a WordData>, Ghost(base): Ghost<Seq<char>>)
    requires
        node.wf_at(base),
    ensures
        old(out)@.len() <= final(out)@.len(),
        final(out)@.subrange(0, old(out)@.len() as int) == old(out)@,
        records(final(out)@.skip(old(out)@.len() as int)).no_duplicates(),
        records(final(out)@.skip(old(out)@.len() as int)).to_set() == node.records_from(),
    decreases node, 1nat,
{
    let ghost start = out@.len() as int;
    match &node.word_data {
        Some(data) => {
            out.push(data);
        },
        None => {},
    }
    let ghost middle = out@.len() as int;
    let ghost own = records(out@.skip(start));
    Trie::get_words_with_same_prefix(node, out, Ghost(base));
    proof {
        let below = records(out@.skip(middle));
        let all = records(out@.skip(start));
        assert(all =~= own + below);
        assert forall|i: int, j: int| 0 <= i < own.len() && 0 <= j < below.len() implies own[i]
            != below[j] by {
            assert(below.to_set().contains(below[j]));
            let q = choose|q: Seq<char>|
                q.len() > 0 && #[trigger] node.record_at(q) == Some(below[j]);
            lemma_records_differ(*node, base, Seq::empty(), q);
        }
        lemma_joined_without_repetition(own, below);
        assert forall|r: WordRecord| all.to_set().contains(r) <==> node.records_from().contains(
            r,
        ) by {
            if all.contains(r) {
                let i = choose|i: int| 0 <= i < all.len() && all[i] == r;
                if i < own.len() {
                    assert(node.record_at(Seq::empty()) == Some(r));
                } else {
                    assert(below[i - own.len()] == r);
                    assert(below.to_set().contains(r));
                }
            }
            if node.records_from().contains(r) {
                let q = choose|q: Seq<char>| #[trigger] node.record_at(q) == Some(r);
                if q.len() == 0 {
                    assert(own[0] == r);
                    assert(all[0] == r);
                } else {
                    assert(node.records_below().contains(r));
                    assert(below.to_set().contains(r));
                    let j = choose|j: int| 0 <= j < below.len() && below[j] == r;
                    assert(all[own.len() + j] == r);
                }
            }
        }
        assert(all.to_set() =~= node.records_from());
    }
}

impl Trie {
    /// An index of the given entries, inserted in the order of the list.
    pub fn load(entries: Vec<(String, u16)>, suggestion_number: u8) -> (trie: Trie)
        ensures
            trie@ == loaded(pairs(entries@)),
            trie.labels() == loaded_labels(pairs(entries@)),
            trie.suggestion_number == suggestion_number,
            trie.wf(),
    {
        let mut trie = Trie { root: Box::new(Node::new(ROOT_LETTER, None)), suggestion_number };
        let ghost all = entries@;
        proof {
            assert(pairs(all.take(0)) =~= Seq::<(Seq<char>, u16)>::empty());
            assert forall|q: Seq<char>| trie.root.node_at(q) is Some implies q
                == Seq::<char>::empty() by {
                lemma_leaf_paths(*trie.root, q);
                assert(q =~= Seq::<char>::empty());
            }
            assert(trie@ =~= loaded(pairs(all.take(0))));
            assert(trie.labels() =~= loaded_labels(pairs(all.take(0))));
        }
        for entry in it: entries.into_iter()
            invariant
                it.seq() == all,
                trie@ == loaded(pairs(all.take(it.index()))),
                trie.labels() == loaded_labels(pairs(all.take(it.index()))),
                trie.suggestion_number == suggestion_number,
                trie.wf(),
        {
            let (word, popularity) = entry;
            proof {
                let done = pairs(all.take(it.index()));
                let next = pairs(all.take(it.index() + 1));
                assert(next.drop_last() =~= done);
                assert(next.last() == (word@, popularity));
            }
            let _ = trie.insert_word(word, popularity);
        }
        proof {
            assert(all.take(all.len() as int) =~= all);
        }
        trie
    }

    /// An index of the words and counts that `file_content` gives as a JSON
    /// object. The entries are inserted in an order that is not fixed: where
    /// two words of the text differ in casing only, either may be the one
    /// that stays.
    pub fn initialize(file_content: &str, suggestion_number: u8) -> (r: Result<Trie, AppError>)
        ensures
            match r {
                Ok(trie) => {
                    &&& json_word_counts(file_content@) matches Some(counts)
                    &&& exists|order: Seq<(Seq<char>, u16)>|
                        enumerates(order, counts) && trie@ == #[trigger] loaded(order)
                    &&& case_distinct(counts) ==> trie@ == indexed(counts)
                    &&& trie.labels() == shape_of(counts)
                    &&& trie.suggestion_number == suggestion_number
                    &&& trie.wf()
                },
                Err(e) => e == AppError::InvalidFileContent && json_word_counts(file_content@)
                    is None,
            },
    {
        match parse_word_counts(file_content) {
            Ok(entries) => {
                let ghost order = pairs(entries@);
                let trie = Trie::load(entries, suggestion_number);
                proof {
                    assert(trie@ == loaded(order));
                    law_load_order_is_irrelevant(order, json_word_counts(file_content@).unwrap());
                }
                Ok(trie)
            },
            Err(_) => Err(AppError::InvalidFileContent),
        }
    }

    /// What a query for `prefix` answers, whatever the casing of `prefix`.
    pub open spec fn answer(&self, prefix: Seq<char>) -> Seq<WordRecord> {
        suggestions(self@, lowercase(prefix), self.suggestion_number as nat)
    }

    /// The tree is consistent: the root ends no word, and below it every edge
    /// and every record is in its place (see `Node::wf_at`).
    pub open spec fn wf(&self) -> bool {
        &&& self.root.word_data is None
        &&& self.root.wf_at(Seq::empty())
    }

    /// Whether the tree is consistent. An index that `load` or `initialize`
    /// made, and that only the methods of this type changed, is.
    pub fn is_consistent(&self) -> (ok: bool)
        ensures
            ok == self.wf(),
    {
        if self.root.word_data.is_some() {
            return false;
        }
        let mut path: Vec<char> = Vec::new();
        check_below(&*self.root, &mut path)
    }

    /// The shape of the tree: the path of each node to the node's letter.
    pub open spec fn labels(&self) -> Map<Seq<char>, char> {
        self.root.labels()
    }

    /// Puts into `result_vec` the words stored below `prefix_node`, the one at
    /// `prefix_node` itself left out.
    fn get_words_with_same_prefix<'a>(
        prefix_node: &'a Node,
        result_vec: &mut Vec<&'a WordData>,
        Ghost(base): Ghost<Seq<char>>,
    )
        requires
            prefix_node.wf_at(base),
        ensures
            old(result_vec)@.len() <= final(result_vec)@.len(),
            final(result_vec)@.subrange(0, old(result_vec)@.len() as int) == old(result_vec)@,
            records(final(result_vec)@.skip(old(result_vec)@.len() as int)).no_duplicates(),
            records(final(result_vec)@.skip(old(result_vec)@.len() as int)).to_set()
                == prefix_node.records_below(),
        decreases prefix_node, 0nat,
    {
        let ghost start = result_vec@.len() as int;
        let ghost mut visited: Set<u32> = Set::empty();
        proof {
            assert(records(result_vec@.skip(start)) =~= Seq::<WordRecord>::empty());
            assert(records(result_vec@.skip(start)).to_set() =~= prefix_node.records_under(
                visited,
            ));
        }
        for entry in it: prefix_node.children.iter()
            invariant
                prefix_node.wf_at(base),
                it.seq().no_duplicates(),
                forall|i: int|
                    0 <= i < it.seq().len() ==> prefix_node.children@.contains_key(
                        *(#[trigger] it.seq()[i]).0,
                    ) && prefix_node.children@[*it.seq()[i].0] == *it.seq()[i].1,
                forall|k: u32| #[trigger]
                    prefix_node.children@.contains_key(k) ==> exists|i: int|
                        0 <= i < it.seq().len() && *(#[trigger] it.seq()[i]).0 == k,
                forall|k: u32|
                    visited.contains(k) <==> exists|i: int|
                        0 <= i < it.index() && *(#[trigger] it.seq()[i]).0 == k,
                0 <= start <= result_vec@.len(),
                result_vec@.subrange(0, start) == old(result_vec)@,
                records(result_vec@.skip(start)).no_duplicates(),
                records(result_vec@.skip(start)).to_set() == prefix_node.records_under(visited),
        {
            let (key, child) = entry;
            let ghost before = result_vec@;
            let ghost k = *key;
            let ghost c = (**child).letter;
            proof {
                assert(entry == it.seq()[it.index()]);
                assert(prefix_node.children@.contains_key(k));
            }
            gather(&**child, result_vec, Ghost(base.push(c)));
            proof {
                let earlier = records(before.skip(start));
                let added = records(result_vec@.skip(before.len() as int));
                let all = records(result_vec@.skip(start));
                assert(result_vec@.subrange(0, start) =~= before.subrange(0, start));
                assert(all =~= earlier + added);
                assert(!visited.contains(k)) by {
                    if visited.contains(k) {
                        let i = choose|i: int|
                            0 <= i < it.index() && *(#[trigger] it.seq()[i]).0 == k;
                        assert(it.seq()[i] == it.seq()[it.index()]);
                    }
                }
                lemma_edge_records(*prefix_node, k);
                assert forall|i: int, j: int|
                    0 <= i < earlier.len() && 0 <= j < added.len() implies earlier[i]
                    != added[j] by {
                    assert(earlier.to_set().contains(earlier[i]));
                    assert(added.to_set().contains(added[j]));
                    let p = choose|p: Seq<char>|
                        p.len() > 0 && visited.contains(code(p[0])) && #[trigger]
                        prefix_node.record_at(p) == Some(earlier[i]);
                    let q = choose|q: Seq<char>|
                        q.len() > 0 && set![k].contains(code(q[0])) && #[trigger]
                        prefix_node.record_at(q) == Some(added[j]);
                    lemma_records_differ(*prefix_node, base, p, q);
                }
                lemma_joined_without_repetition(earlier, added);
                let grown = visited.insert(k);
                assert forall|r: WordRecord| all.to_set().contains(r)
                    <==> prefix_node.records_under(grown).contains(r) by {
                    if all.contains(r) {
                        let i = choose|i: int| 0 <= i < all.len() && all[i] == r;
                        if i < earlier.len() {
                            assert(earlier.to_set().contains(r));
                            let p = choose|p: Seq<char>|
                                p.len() > 0 && visited.contains(code(p[0])) && #[trigger]
                                prefix_node.record_at(p) == Some(r);
                            assert(grown.contains(code(p[0])));
                        } else {
                            assert(added[i - earlier.len()] == r);
                            assert(added.to_set().contains(r));
                            let q = choose|q: Seq<char>|
                                q.len() > 0 && set![k].contains(code(q[0])) && #[trigger]
                                prefix_node.record_at(q) == Some(r);
                            assert(grown.contains(code(q[0])));
                        }
                    }
                    if prefix_node.records_under(grown).contains(r) {
                        let q = choose|q: Seq<char>|
                            q.len() > 0 && grown.contains(code(q[0])) && #[trigger]
                            prefix_node.record_at(q) == Some(r);
                        if code(q[0]) == k {
                            assert(set![k].contains(code(q[0])));
                            assert(prefix_node.records_under(set![k]).contains(r));
                            assert(added.to_set().contains(r));
                            let j = choose|j: int| 0 <= j < added.len() && added[j] == r;
                            assert(all[earlier.len() + j] == r);
                        } else {
                            assert(visited.contains(code(q[0])));
                            assert(prefix_node.records_under(visited).contains(r));
                            assert(earlier.to_set().contains(r));
                            let i = choose|i: int| 0 <= i < earlier.len() && earlier[i] == r;
                            assert(all[i] == r);
                        }
                    }
                }
                assert(all.to_set() =~= prefix_node.records_under(grown));
                visited = grown;
            }
        }
        proof {
            assert forall|r: WordRecord| prefix_node.records_under(visited).contains(r)
                <==> prefix_node.records_below().contains(r) by {
                if prefix_node.records_below().contains(r) {
                    let q = choose|q: Seq<char>|
                        q.len() > 0 && #[trigger] prefix_node.record_at(q) == Some(r);
                    assert(prefix_node.children@.contains_key(code(q[0])));
                    assert(visited.contains(code(q[0])));
                }
            }
            assert(prefix_node.records_under(visited) =~= prefix_node.records_below());
        }
    }

    /// Stores `word` with `popularity` under the word's lower-case form. A word
    /// stored there before, in whatever casing, is replaced. The empty word is
    /// not stored: its path is the root, and the root ends no word.
    pub fn insert_word(&mut self, word: String, popularity: u16) -> (r: Result<(), AppError>)
        ensures
            r is Ok,
            word@.len() == 0 ==> final(self)@ == old(self)@ && final(self).labels() == old(
                self,
            ).labels(),
            word@.len() > 0 ==> final(self)@ == old(self)@.insert(
                lowercase(word@),
                (WordRecord { word: word@, popularity: popularity as nat }),
            ),
            word@.len() > 0 ==> final(self).labels() == grown(old(self).labels(), lowercase(word@)),
            old(self).root.word_data is None ==> final(self).root.word_data is None,
            final(self).suggestion_number == old(self).suggestion_number,
            old(self).wf() ==> final(self).wf(),
    {
        let path = ascii_lowercase(word.as_str());
        if path.len() == 0 {
            return Ok(());
        }
        let data = WordData::new(word, popularity);
        let ghost empty = Seq::<char>::empty();
        proof {
            assert(path@.skip(0) =~= path@);
            assert(empty + path@ =~= path@);
        }
        insert_below(&mut *self.root, &path, 0, data, Ghost(empty));
        proof {
            assert(self@ =~= old(self)@.insert(
                lowercase(word@),
                (WordRecord { word: word@, popularity: popularity as nat }),
            ));
            assert(self.labels() =~= grown(old(self).labels(), lowercase(word@)));
            assert(self.root.record_at(empty) == old(self).root.record_at(empty));
        }
        Ok(())
    }

    /// The suggestions for `prefix`: the word that `prefix` spells, whatever
    /// the casing, then the longer words that begin with it, the most popular
    /// first, and of all these no more than `suggestion_number`.
    pub fn get_typeahead_words(&self, prefix: String) -> (r: Result<Vec<WordData>, AppError>)
        requires
            self.wf(),
        ensures
            r matches Ok(words) && listed(words@) == self.answer(prefix@),
    {
        let path = ascii_lowercase(prefix.as_str());
        let limit: usize = self.suggestion_number as usize;
        let mut words: Vec<WordData> = Vec::new();
        proof {
            lemma_completions_at(*self.root, path@);
        }
        match descend(&*self.root, &path) {
            None => {
                proof {
                    let none = Set::<WordRecord>::empty();
                    assert(Seq::<WordRecord>::empty().to_set() =~= none);
                    lemma_ranking_of_listed(Seq::<WordRecord>::empty());
                    assert(listed(words@) =~= Seq::<WordRecord>::empty());
                }
            },
            Some(node) => {
                let mut found: Vec<&WordData> = Vec::new();
                proof {
                    lemma_wf_below(*self.root, Seq::empty(), path@);
                    assert(Seq::<char>::empty() + path@ =~= path@);
                }
                Trie::get_words_with_same_prefix(node, &mut found, Ghost(path@));
                let ranked = rank(&found);
                let ghost rest = records(ranked@);
                proof {
                    assert(found@.skip(0) =~= found@);
                    lemma_rearranged(records(found@), rest);
                    lemma_ranking_of_listed(rest);
                    assert(rest == ranking(completions(self@, path@)));
                }
                let ghost all = if node.word_data is Some {
                    seq![node.word_data.unwrap()@] + rest
                } else {
                    rest
                };
                match &node.word_data {
                    Some(exact) => {
                        if limit > 0 {
                            words.push(exact.clone());
                        }
                    },
                    None => {},
                }
                let ghost pinned: int = if node.word_data is Some {
                    1
                } else {
                    0
                };
                let mut i: usize = 0;
                while i < ranked.len() && words.len() < limit
                    invariant
                        i <= ranked.len(),
                        0 <= pinned <= 1,
                        rest == records(ranked@),
                        all.len() == pinned + rest.len(),
                        forall|k: int| 0 <= k < rest.len() ==> all[pinned + k] == rest[k],
                        words@.len() <= limit,
                        words@.len() <= all.len(),
                        limit > 0 ==> words@.len() == pinned + i,
                        limit == 0 ==> words@.len() == 0,
                        forall|k: int| 0 <= k < words@.len() ==> (#[trigger] words@[k])@ == all[k],
                    decreases ranked.len() - i,
                {
                    proof {
                        assert(all[pinned + i] == rest[i as int]);
                    }
                    words.push(ranked[i].clone());
                    i = i + 1;
                }
                proof {
                    let wanted = suggestions(self@, path@, limit as nat);
                    assert(listed(words@) =~= wanted);
                }
            },
        }
        Ok(words)
    }

    /// The record stored for `word`, whatever the casing of `word`.
    pub fn lookup(&self, word: &str) -> (found: Option<&WordData>)
        ensures
            match found {
                Some(data) => self@.contains_key(lowercase(word@)) && data@ == self@[lowercase(
                    word@,
                )],
                None => !self@.contains_key(lowercase(word@)),
            },
    {
        let path = ascii_lowercase(word);
        match descend(&*self.root, &path) {
            Some(node) => node.word_data.as_ref(),
            None => None,
        }
    }

    /// Raises the popularity of `word` by one and returns the record as it then
    /// stands, in the casing in which the word was stored. Where the word is
    /// not stored, nothing changes.
    pub fn increase_popularity(&mut self, word: String) -> (r: Result<WordData, AppError>)
        requires
            old(self)@.contains_key(lowercase(word@)) ==> old(self)@[lowercase(word@)].popularity
                < u16::MAX,
        ensures
            match r {
                Ok(data) => {
                    &&& old(self)@.contains_key(lowercase(word@))
                    &&& data@ == bumped(old(self)@[lowercase(word@)])
                    &&& final(self)@ == old(self)@.insert(lowercase(word@), data@)
                },
                Err(e) => {
                    &&& e == AppError::WordDoesNotExist
                    &&& !old(self)@.contains_key(lowercase(word@))
                    &&& final(self)@ == old(self)@
                },
            },
            final(self).labels() == old(self).labels(),
            old(self).root.word_data is None ==> final(self).root.word_data is None,
            final(self).suggestion_number == old(self).suggestion_number,
            old(self).wf() ==> final(self).wf(),
    {
        let path = ascii_lowercase(word.as_str());
        proof {
            assert(path@.skip(0) =~= path@);
        }
        let r = bump_below(&mut *self.root, &path, 0, Ghost(Seq::empty()));
        proof {
            let empty = Seq::<char>::empty();
            assert(self.labels() =~= old(self).labels());
            if old(self).root.record() is None {
                assert(old(self).root.record_at(empty) is None);
                assert(self.root.record_at(empty) is None);
            }
            if r is Ok {
                assert(self@ =~= old(self)@.insert(lowercase(word@), r->Ok_0@));
            } else {
                assert(self@ =~= old(self)@);
            }
        }
        r
    }
}

} // verus!
