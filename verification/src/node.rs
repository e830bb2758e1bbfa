//! The nodes of the prefix tree: what a node holds, what can be seen of the
//! tree below it, and the walks that change it.

use crate::app_error::AppError;
use crate::text::{
    ascii_lowercase, char_code, code, lemma_code_injective, lemma_prefix_step,
    lemma_same_first_and_rest, lowercase, same_chars,
};
use crate::word::{bumped, WordData, WordRecord};
use std::collections::HashMap;
use vstd::prelude::*;

verus! {

/// The letter of a root node. No path leads to a root, so the letter labels
/// no edge.
pub const ROOT_LETTER: char = ' ';

/// A node of the prefix tree. Its children stand under the code points of
/// their letters; `word_data` is there where the path to the node spells a
/// stored word.
#[derive(Debug)]
pub struct Node {
    pub children: HashMap<u32, Box<Node>>,
    pub letter: char,
    pub word_data: Option<WordData>,
}

impl Node {
    /// A node without children.
    pub fn new(letter: char, word_data: Option<WordData>) -> (node: Node)
        ensures
            node.letter == letter,
            node.word_data == word_data,
            node.children@ == Map::<u32, Box<Node>>::empty(),
    {
        Node { children: HashMap::new(), letter, word_data }
    }

    /// The record that this node carries, if it ends a word.
    pub open spec fn record(self) -> Option<WordRecord> {
        match self.word_data {
            Some(data) => Some(data@),
            None => None,
        }
    }

    /// The node reached from this one along `path`, one edge per character.
    pub open spec fn node_at(self, path: Seq<char>) -> Option<Node>
        decreases path.len(),
    {
        if path.len() == 0 {
            Some(self)
        } else if self.children@.contains_key(code(path[0])) {
            (*self.children@[code(path[0])]).node_at(path.drop_first())
        } else {
            None
        }
    }

    /// The record found at the end of `path`, if the path exists and ends a word.
    pub open spec fn record_at(self, path: Seq<char>) -> Option<WordRecord> {
        match self.node_at(path) {
            Some(node) => node.record(),
            None => None,
        }
    }

    /// The letter of the node at the end of `path`, if the path exists.
    pub open spec fn letter_at(self, path: Seq<char>) -> Option<char> {
        match self.node_at(path) {
            Some(node) => Some(node.letter),
            None => None,
        }
    }

    /// The records at and below this node, each under its path from here.
    pub open spec fn entries(self) -> Map<Seq<char>, WordRecord> {
        Map::new(
            |p: Seq<char>| self.record_at(p) is Some,
            |p: Seq<char>| self.record_at(p).unwrap(),
        )
    }

    /// The letters of this node and of the nodes below it, each under its path
    /// from here.
    pub open spec fn labels(self) -> Map<Seq<char>, char> {
        Map::new(
            |p: Seq<char>| self.letter_at(p) is Some,
            |p: Seq<char>| self.letter_at(p).unwrap(),
        )
    }

    /// The paths from this node that lead to a node.
    pub open spec fn paths(self) -> Set<Seq<char>> {
        Set::new(|p: Seq<char>| self.node_at(p) is Some)
    }

    /// The paths from this node that lead to a node over an edge with a key
    /// in `keys`.
    pub open spec fn paths_under(self, keys: Set<u32>) -> Set<Seq<char>> {
        Set::new(|p: Seq<char>| p.len() > 0 && keys.contains(code(p[0])) && self.node_at(p) is Some)
    }

    /// The records at this node and below it.
    pub open spec fn records_from(self) -> Set<WordRecord> {
        Set::new(|r: WordRecord| exists|q: Seq<char>| #[trigger] self.record_at(q) == Some(r))
    }

    /// The records below this node, its own left out.
    pub open spec fn records_below(self) -> Set<WordRecord> {
        Set::new(
            |r: WordRecord|
                exists|q: Seq<char>| q.len() > 0 && #[trigger] self.record_at(q) == Some(r),
        )
    }

    /// The records below this node on the edges with a key in `keys`.
    pub open spec fn records_under(self, keys: Set<u32>) -> Set<WordRecord> {
        Set::new(
            |r: WordRecord|
                exists|q: Seq<char>|
                    q.len() > 0 && keys.contains(code(q[0])) && #[trigger] self.record_at(q)
                        == Some(r),
        )
    }

    /// This node and all below it are consistent, given that `path` leads here:
    /// every edge is labelled with the letter of the node it leads to, and a
    /// record sits at the path that its word spells in lower case.
    pub open spec fn wf_at(self, path: Seq<char>) -> bool
        decreases self,
    {
        &&& (self.word_data matches Some(data) ==> lowercase(data.word@) == path)
        &&& forall|k: u32| #[trigger]
            self.children@.contains_key(k) ==> {
                &&& code((*self.children@[k]).letter) == k
                &&& (*self.children@[k]).wf_at(path.push((*self.children@[k]).letter))
            }
    }
}

impl Clone for Node {
    /// A copy of the tree below this node: the same letters and the same
    /// records at the same paths.
    fn clone(&self) -> (copy: Self)
        ensures
            copy.letter == self.letter,
            forall|q: Seq<char>| #[trigger] copy.record_at(q) == self.record_at(q),
            forall|q: Seq<char>| #[trigger] copy.letter_at(q) == self.letter_at(q),
            forall|base: Seq<char>| self.wf_at(base) ==> #[trigger] copy.wf_at(base),
        decreases self,
    {
        let mut children: HashMap<u32, Box<Node>> = HashMap::new();
        for entry in it: self.children.iter()
            invariant
                forall|i: int|
                    0 <= i < it.seq().len() ==> self.children@.contains_key(
                        *(#[trigger] it.seq()[i]).0,
                    ) && self.children@[*it.seq()[i].0] == *it.seq()[i].1,
                forall|k: u32| #[trigger]
                    self.children@.contains_key(k) ==> exists|i: int|
                        0 <= i < it.seq().len() && *(#[trigger] it.seq()[i]).0 == k,
                forall|k: u32| #[trigger]
                    children@.contains_key(k) <==> exists|i: int|
                        0 <= i < it.index() && *(#[trigger] it.seq()[i]).0 == k,
                forall|k: u32| #[trigger]
                    children@.contains_key(k) ==> {
                        &&& self.children@.contains_key(k)
                        &&& (*children@[k]).letter == (*self.children@[k]).letter
                        &&& forall|q: Seq<char>| #[trigger]
                            (*children@[k]).record_at(q) == (*self.children@[k]).record_at(q)
                        &&& forall|q: Seq<char>| #[trigger]
                            (*children@[k]).letter_at(q) == (*self.children@[k]).letter_at(q)
                        &&& forall|base: Seq<char>|
                            (*self.children@[k]).wf_at(base) ==> #[trigger] (*children@[k]).wf_at(
                                base,
                            )
                    },
        {
            let (key, child) = entry;
            proof {
                assert(entry == it.seq()[it.index()]);
            }
            let copy = (**child).clone();
            children.insert(*key, Box::new(copy));
        }
        let word_data = match &self.word_data {
            Some(data) => Some(data.clone()),
            None => None,
        };
        let copy = Node { children, letter: self.letter, word_data };
        proof {
            assert forall|q: Seq<char>| #[trigger] copy.record_at(q) == self.record_at(q) by {
                if q.len() > 0 && self.children@.contains_key(code(q[0])) {
                    assert(copy.children@.contains_key(code(q[0])));
                    assert((*copy.children@[code(q[0])]).record_at(q.drop_first()) == (
                    *self.children@[code(q[0])]).record_at(q.drop_first()));
                }
            }
            assert forall|q: Seq<char>| #[trigger] copy.letter_at(q) == self.letter_at(q) by {
                if q.len() > 0 && self.children@.contains_key(code(q[0])) {
                    assert(copy.children@.contains_key(code(q[0])));
                    assert((*copy.children@[code(q[0])]).letter_at(q.drop_first()) == (
                    *self.children@[code(q[0])]).letter_at(q.drop_first()));
                }
            }
            assert forall|base: Seq<char>| self.wf_at(base) implies #[trigger] copy.wf_at(base) by {
                assert forall|k: u32| #[trigger] copy.children@.contains_key(k) implies {
                    &&& code((*copy.children@[k]).letter) == k
                    &&& (*copy.children@[k]).wf_at(base.push((*copy.children@[k]).letter))
                } by {
                    assert(self.children@.contains_key(k));
                    assert((*self.children@[k]).wf_at(base.push((*self.children@[k]).letter)));
                }
            }
        }
        copy
    }
}

/// A node without children holds no path but the empty one.
pub proof fn lemma_leaf_paths(node: Node, path: Seq<char>)
    requires
        node.children@ == Map::<u32, Box<Node>>::empty(),
    ensures
        path.len() > 0 ==> node.node_at(path) is None,
        path.len() == 0 ==> node.node_at(path) == Some(node),
{
}

/// Puts `data` at the end of `path[depth..]` below `node`, making the nodes
/// on the way that are not there yet.
pub(crate) fn insert_below(
    node: &mut Node,
    path: &Vec<char>,
    depth: usize,
    data: WordData,
    Ghost(base): Ghost<Seq<char>>,
)
    requires
        depth <= path.len(),
    ensures
        final(node).letter == old(node).letter,
        forall|q: Seq<char>| #[trigger]
            final(node).record_at(q) == (if q == path@.skip(depth as int) {
                Some(data@)
            } else {
                old(node).record_at(q)
            }),
        forall|q: Seq<char>| #[trigger]
            final(node).letter_at(q) == (if old(node).letter_at(q) is Some {
                old(node).letter_at(q)
            } else if q.is_prefix_of(path@.skip(depth as int)) {
                Some(q.last())
            } else {
                None
            }),
        old(node).wf_at(base) && lowercase(data.word@) == base + path@.skip(depth as int)
            ==> final(node).wf_at(base),
    decreases path.len() - depth,
{
    let ghost suffix = path@.skip(depth as int);
    if depth == path.len() {
        node.word_data = Some(data);
        proof {
            assert(suffix =~= Seq::<char>::empty());
            assert(base + suffix =~= base);
            assert forall|q: Seq<char>| #[trigger]
                node.record_at(q) == (if q == suffix {
                    Some(data@)
                } else {
                    old(node).record_at(q)
                }) by {
                if q.len() == 0 {
                    assert(q =~= suffix);
                }
            }
            assert forall|q: Seq<char>| #[trigger]
                node.letter_at(q) == (if old(node).letter_at(q) is Some {
                    old(node).letter_at(q)
                } else if q.is_prefix_of(suffix) {
                    Some(q.last())
                } else {
                    None
                }) by {
                if q.len() == 0 {
                    assert(q =~= suffix);
                }
            }
        }
    } else {
        let c = path[depth];
        let key: u32 = char_code(c);
        let ghost before = *node;
        let mut child = match node.children.remove(&key) {
            Some(found) => found,
            None => Box::new(Node::new(c, None)),
        };
        let ghost child_before = *child;
        let ghost rest = path@.skip(depth as int + 1);
        insert_below(&mut *child, path, depth + 1, data, Ghost(base.push(c)));
        let ghost child_after = *child;
        node.children.insert(key, child);
        proof {
            assert(suffix.drop_first() =~= rest);
            assert(suffix[0] == c);
            assert forall|q: Seq<char>| #[trigger]
                node.record_at(q) == (if q == suffix {
                    Some(data@)
                } else {
                    before.record_at(q)
                }) by {
                if q.len() > 0 && q[0] == c {
                    assert(node.node_at(q) == child_after.node_at(q.drop_first()));
                    assert(child_after.record_at(q.drop_first()) == (if q.drop_first() == rest {
                        Some(data@)
                    } else {
                        child_before.record_at(q.drop_first())
                    }));
                    if q.drop_first() == rest {
                        lemma_same_first_and_rest(q, suffix);
                    }
                    if !before.children@.contains_key(key) {
                        lemma_leaf_paths(child_before, q.drop_first());
                    }
                } else if q.len() > 0 {
                    lemma_code_injective(q[0], c);
                }
            }
            assert forall|q: Seq<char>| #[trigger]
                node.letter_at(q) == (if before.letter_at(q) is Some {
                    before.letter_at(q)
                } else if q.is_prefix_of(suffix) {
                    Some(q.last())
                } else {
                    None
                }) by {
                if q.len() > 0 {
                    lemma_prefix_step(q, suffix);
                    if q[0] == c {
                        let tail = q.drop_first();
                        assert(node.node_at(q) == child_after.node_at(tail));
                        assert(child_after.letter_at(tail) == (if child_before.letter_at(tail)
                            is Some {
                            child_before.letter_at(tail)
                        } else if tail.is_prefix_of(rest) {
                            Some(tail.last())
                        } else {
                            None
                        }));
                        if tail.len() > 0 {
                            assert(tail.last() == q.last());
                        }
                        if !before.children@.contains_key(key) {
                            lemma_leaf_paths(child_before, tail);
                        }
                    } else {
                        lemma_code_injective(q[0], c);
                    }
                }
            }
            if before.wf_at(base) && lowercase(data.word@) == base + suffix {
                assert(base.push(c) + rest =~= base + suffix);
                lemma_code_injective(child_before.letter, c);
                assert(child_before.wf_at(base.push(c)));
                assert(child_after.letter == c);
                assert forall|k: u32| #[trigger] node.children@.contains_key(k) implies {
                    &&& code((*node.children@[k]).letter) == k
                    &&& (*node.children@[k]).wf_at(base.push((*node.children@[k]).letter))
                } by {
                    if k != key {
                        assert(before.children@.contains_key(k));
                    }
                }
            }
        }
    }
}

/// Whether the tree below `node` is consistent, given that `path` leads to
/// `node`. `path` is used on the way and is handed back as it came.
pub(crate) fn check_below(node: &Node, path: &mut Vec<char>) -> (ok: bool)
    ensures
        final(path)@ == old(path)@,
        ok == node.wf_at(old(path)@),
    decreases node,
{
    match &node.word_data {
        Some(data) => {
            let lower = ascii_lowercase(data.word.as_str());
            if !same_chars(&lower, path) {
                return false;
            }
        },
        None => {},
    }
    let ghost mut checked: Set<u32> = Set::empty();
    for entry in it: node.children.iter()
        invariant
            path@ == old(path)@,
            node.word_data matches Some(data) ==> lowercase(data.word@) == path@,
            forall|i: int|
                0 <= i < it.seq().len() ==> node.children@.contains_key(
                    *(#[trigger] it.seq()[i]).0,
                ) && node.children@[*it.seq()[i].0] == *it.seq()[i].1,
            forall|k: u32| #[trigger]
                node.children@.contains_key(k) ==> exists|i: int|
                    0 <= i < it.seq().len() && *(#[trigger] it.seq()[i]).0 == k,
            forall|i: int| 0 <= i < it.index() ==> checked.contains(*(#[trigger] it.seq()[i]).0),
            forall|k: u32| #[trigger]
                checked.contains(k) ==> {
                    &&& node.children@.contains_key(k)
                    &&& code((*node.children@[k]).letter) == k
                    &&& (*node.children@[k]).wf_at(path@.push((*node.children@[k]).letter))
                },
    {
        let (key, child) = entry;
        proof {
            assert(entry == it.seq()[it.index()]);
            assert(node.children@.contains_key(*key));
        }
        if char_code(child.letter) != *key {
            return false;
        }
        path.push(child.letter);
        let below = check_below(&**child, path);
        path.pop();
        proof {
            assert(path@ =~= old(path)@);
        }
        if !below {
            return false;
        }
        proof {
            checked = checked.insert(*key);
        }
    }
    proof {
        assert forall|k: u32| #[trigger] node.children@.contains_key(k) implies checked.contains(
            k,
        ) by {}
    }
    true
}

/// A tree has finitely many nodes.
pub proof fn lemma_paths_finite(node: Node)
    ensures
        node.paths().finite(),
    decreases node, 1nat, 0nat,
{
    let keys = node.children@.dom();
    lemma_paths_under_finite(node, keys);
    let here = Set::<Seq<char>>::empty().insert(Seq::<char>::empty());
    assert forall|p: Seq<char>| node.paths().contains(p) implies here.union(
        node.paths_under(keys),
    ).contains(p) by {
        if p.len() == 0 {
            assert(p =~= Seq::<char>::empty());
        }
    }
    assert(node.paths().subset_of(here.union(node.paths_under(keys))));
    vstd::set_lib::lemma_set_subset_finite(here.union(node.paths_under(keys)), node.paths());
}

/// Finitely many paths leave a node over finitely many of its edges.
pub proof fn lemma_paths_under_finite(node: Node, keys: Set<u32>)
    requires
        keys.finite(),
        keys.subset_of(node.children@.dom()),
    ensures
        node.paths_under(keys).finite(),
    decreases node, 0nat, keys.len(),
{
    if keys.len() == 0 {
        assert(node.paths_under(keys) =~= Set::<Seq<char>>::empty());
    } else {
        let k = keys.choose();
        let others = keys.remove(k);
        let child = *node.children@[k];
        lemma_paths_under_finite(node, others);
        lemma_paths_finite(child);
        let c = choose|c: char| code(c) == k;
        let extend = |p: Seq<char>| seq![c] + p;
        let over = child.paths().map(extend);
        child.paths().lemma_map_finite(extend);
        let all = node.paths_under(others).union(over);
        assert forall|p: Seq<char>| node.paths_under(keys).contains(p) implies all.contains(p) by {
            if code(p[0]) == k {
                lemma_code_injective(p[0], c);
                assert(child.paths().contains(p.drop_first()));
                assert(extend(p.drop_first()) =~= p);
            } else {
                assert(others.contains(code(p[0])));
            }
        }
        assert(node.paths_under(keys).subset_of(all));
        vstd::set_lib::lemma_set_subset_finite(all, node.paths_under(keys));
    }
}

/// A tree holds finitely many records.
pub proof fn lemma_entries_finite(node: Node)
    ensures
        node.entries().dom().finite(),
{
    lemma_paths_finite(node);
    assert(node.entries().dom().subset_of(node.paths()));
    vstd::set_lib::lemma_set_subset_finite(node.paths(), node.entries().dom());
}

/// The records below a node on one edge are those at and below the node that
/// the edge leads to.
pub proof fn lemma_edge_records(node: Node, k: u32)
    requires
        node.children@.contains_key(k),
        code((*node.children@[k]).letter) == k,
    ensures
        node.records_under(set![k]) == (*node.children@[k]).records_from(),
{
    let child = *node.children@[k];
    let c = child.letter;
    assert forall|r: WordRecord| node.records_under(set![k]).contains(r)
        <==> child.records_from().contains(r) by {
        if node.records_under(set![k]).contains(r) {
            let q = choose|q: Seq<char>|
                q.len() > 0 && set![k].contains(code(q[0])) && #[trigger] node.record_at(q) == Some(
                    r,
                );
            assert(child.record_at(q.drop_first()) == Some(r));
        }
        if child.records_from().contains(r) {
            let p = choose|p: Seq<char>| #[trigger] child.record_at(p) == Some(r);
            let q = seq![c] + p;
            assert(q.drop_first() =~= p);
            assert(q[0] == c);
            assert(node.record_at(q) == Some(r));
            assert(set![k].contains(code(q[0])));
        }
    }
    assert(node.records_under(set![k]) =~= child.records_from());
}

/// Going along two paths one after the other is going along the joined path.
pub proof fn lemma_node_at_joined(node: Node, a: Seq<char>, b: Seq<char>)
    ensures
        node.node_at(a + b) == match node.node_at(a) {
            Some(middle) => middle.node_at(b),
            None => None,
        },
    decreases a.len(),
{
    if a.len() == 0 {
        assert(a + b =~= b);
    } else {
        assert((a + b).drop_first() =~= a.drop_first() + b);
        assert((a + b)[0] == a[0]);
        if node.children@.contains_key(code(a[0])) {
            lemma_node_at_joined(*node.children@[code(a[0])], a.drop_first(), b);
        }
    }
}

/// In a consistent tree every subtree is consistent.
pub proof fn lemma_wf_below(node: Node, base: Seq<char>, p: Seq<char>)
    requires
        node.wf_at(base),
        node.node_at(p) is Some,
    ensures
        node.node_at(p).unwrap().wf_at(base + p),
    decreases p.len(),
{
    if p.len() == 0 {
        assert(base + p =~= base);
    } else {
        let child = *node.children@[code(p[0])];
        lemma_code_injective(child.letter, p[0]);
        lemma_wf_below(child, base.push(p[0]), p.drop_first());
        assert(base.push(p[0]) + p.drop_first() =~= base + p);
    }
}

/// In a consistent tree a record spells the path that it sits at.
pub proof fn lemma_record_spells_path(node: Node, base: Seq<char>, q: Seq<char>)
    requires
        node.wf_at(base),
        node.record_at(q) is Some,
    ensures
        lowercase(node.record_at(q).unwrap().word) == base + q,
    decreases q.len(),
{
    if q.len() == 0 {
        assert(base + q =~= base);
    } else {
        let child = *node.children@[code(q[0])];
        lemma_code_injective(child.letter, q[0]);
        lemma_record_spells_path(child, base.push(q[0]), q.drop_first());
        assert(base.push(q[0]) + q.drop_first() =~= base + q);
    }
}

/// In a consistent tree the records at two different paths differ.
pub proof fn lemma_records_differ(node: Node, base: Seq<char>, p: Seq<char>, q: Seq<char>)
    requires
        node.wf_at(base),
        node.record_at(p) is Some,
        node.record_at(q) is Some,
        p != q,
    ensures
        node.record_at(p) != node.record_at(q),
{
    lemma_record_spells_path(node, base, p);
    lemma_record_spells_path(node, base, q);
    if node.record_at(p) == node.record_at(q) {
        assert((base + p).skip(base.len() as int) =~= p);
        assert((base + q).skip(base.len() as int) =~= q);
    }
}

/// Raises by one the popularity of the record at the end of `path[depth..]`
/// below `node`, and hands out a copy of the raised record.
pub(crate) fn bump_below(
    node: &mut Node,
    path: &Vec<char>,
    depth: usize,
    Ghost(base): Ghost<Seq<char>>,
) -> (r: Result<WordData, AppError>)
    requires
        depth <= path.len(),
        old(node).record_at(path@.skip(depth as int)) matches Some(record) ==> record.popularity
            < u16::MAX,
    ensures
        final(node).letter == old(node).letter,
        forall|q: Seq<char>| #[trigger] final(node).letter_at(q) == old(node).letter_at(q),
        match r {
            Ok(data) => {
                &&& old(node).record_at(path@.skip(depth as int)) matches Some(record)
                &&& data@ == bumped(record)
                &&& forall|q: Seq<char>| #[trigger]
                    final(node).record_at(q) == (if q == path@.skip(depth as int) {
                        Some(data@)
                    } else {
                        old(node).record_at(q)
                    })
            },
            Err(e) => {
                &&& e == AppError::WordDoesNotExist
                &&& old(node).record_at(path@.skip(depth as int)) is None
                &&& forall|q: Seq<char>| #[trigger]
                    final(node).record_at(q) == old(node).record_at(q)
            },
        },
        old(node).wf_at(base) ==> final(node).wf_at(base),
    decreases path.len() - depth,
{
    let ghost suffix = path@.skip(depth as int);
    let ghost before = *node;
    if depth == path.len() {
        proof {
            assert(suffix =~= Seq::<char>::empty());
        }
        match node.word_data.take() {
            Some(mut data) => {
                data.popularity = data.popularity + 1;
                let copy = data.clone();
                node.word_data = Some(data);
                proof {
                    assert forall|q: Seq<char>| #[trigger]
                        node.record_at(q) == (if q == suffix {
                            Some(copy@)
                        } else {
                            before.record_at(q)
                        }) by {
                        if q.len() == 0 {
                            assert(q =~= suffix);
                        }
                    }
                    assert forall|q: Seq<char>| #[trigger]
                        node.letter_at(q) == before.letter_at(q) by {}
                }
                Ok(copy)
            },
            None => {
                proof {
                    assert forall|q: Seq<char>| #[trigger]
                        node.record_at(q) == before.record_at(q) by {}
                    assert forall|q: Seq<char>| #[trigger]
                        node.letter_at(q) == before.letter_at(q) by {}
                }
                Err(AppError::WordDoesNotExist)
            },
        }
    } else {
        let c = path[depth];
        let key: u32 = char_code(c);
        let ghost rest = path@.skip(depth as int + 1);
        proof {
            assert(suffix.drop_first() =~= rest);
            assert(suffix[0] == c);
        }
        match node.children.remove(&key) {
            Some(mut child) => {
                let ghost child_before = *child;
                let r = bump_below(&mut *child, path, depth + 1, Ghost(base.push(c)));
                let ghost child_after = *child;
                node.children.insert(key, child);
                proof {
                    assert forall|q: Seq<char>| #[trigger]
                        node.letter_at(q) == before.letter_at(q) by {
                        if q.len() > 0 {
                            if q[0] == c {
                                assert(node.node_at(q) == child_after.node_at(q.drop_first()));
                                assert(child_after.letter_at(q.drop_first())
                                    == child_before.letter_at(q.drop_first()));
                            } else {
                                lemma_code_injective(q[0], c);
                            }
                        }
                    }
                    assert forall|q: Seq<char>| #[trigger]
                        node.record_at(q) == (if r is Ok && q == suffix {
                            Some(r->Ok_0@)
                        } else {
                            before.record_at(q)
                        }) by {
                        if q.len() > 0 {
                            if q[0] == c {
                                let tail = q.drop_first();
                                assert(node.node_at(q) == child_after.node_at(tail));
                                assert(child_after.record_at(tail) == (if r is Ok && tail == rest {
                                    Some(r->Ok_0@)
                                } else {
                                    child_before.record_at(tail)
                                }));
                                if tail == rest {
                                    lemma_same_first_and_rest(q, suffix);
                                }
                            } else {
                                lemma_code_injective(q[0], c);
                            }
                        }
                    }
                    if before.wf_at(base) {
                        lemma_code_injective(child_before.letter, c);
                        assert forall|k: u32| #[trigger] node.children@.contains_key(k) implies {
                            &&& code((*node.children@[k]).letter) == k
                            &&& (*node.children@[k]).wf_at(base.push((*node.children@[k]).letter))
                        } by {
                            if k != key {
                                assert(before.children@.contains_key(k));
                            }
                        }
                    }
                }
                r
            },
            None => {
                proof {
                    assert(node.children@ =~= before.children@);
                    assert forall|q: Seq<char>| #[trigger]
                        node.record_at(q) == before.record_at(q) by {}
                    assert forall|q: Seq<char>| #[trigger]
                        node.letter_at(q) == before.letter_at(q) by {}
                }
                Err(AppError::WordDoesNotExist)
            },
        }
    }
}

/// Follows `path` down from `node`.
pub(crate) fn descend<'a>(node: &'a Node, path: &Vec<char>) -> (found: Option<&'a Node>)
    ensures
        match found {
            Some(end) => node.node_at(path@) == Some(*end),
            None => node.node_at(path@) is None,
        },
{
    let mut current = node;
    let mut depth: usize = 0;
    proof {
        assert(path@.skip(0) =~= path@);
    }
    while depth < path.len()
        invariant
            depth <= path.len(),
            node.node_at(path@) == current.node_at(path@.skip(depth as int)),
        decreases path.len() - depth,
    {
        let key: u32 = char_code(path[depth]);
        proof {
            assert(path@.skip(depth as int).drop_first() =~= path@.skip(depth as int + 1));
        }
        match current.children.get(&key) {
            Some(child) => {
                current = &**child;
            },
            None => {
                return None;
            },
        }
        depth = depth + 1;
    }
    Some(current)
}

/// The labels of a tree after the nodes of `key` are added to it: each new
/// node has the last character of its path as its letter.
pub open spec fn grown(labels: Map<Seq<char>, char>, key: Seq<char>) -> Map<Seq<char>, char> {
    Map::new(
        |p: Seq<char>| labels.contains_key(p) || p.is_prefix_of(key),
        |p: Seq<char>|
            if labels.contains_key(p) {
                labels[p]
            } else {
                p.last()
            },
    )
}

} // verus!
