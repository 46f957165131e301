//! The nodes of a prefix tree over byte strings, and the walk that carries
//! an automaton along them.

use crate::automaton::{lemma_dead_run, run, try_append, Automaton};
use vstd::prelude::*;

verus! {

/// A node of the trie: the token that ends here, if any, and one child for
/// each byte that goes on.
pub struct TrieNode {
    terminal: Option<u32>,
    labels: Vec<u8>,
    children: Vec<TrieNode>,
}

impl TrieNode {
    /// Each child has a byte of its own, here and below.
    pub closed spec fn wf(&self) -> bool
        decreases self,
    {
        &&& self.labels.len() == self.children.len()
        &&& forall|i: int, j: int|
            0 <= i < j < self.labels.len() ==> self.labels[i] != self.labels[j]
        &&& forall|i: int| 0 <= i < self.children.len() ==> (#[trigger] self.children[i]).wf()
    }

    spec fn has_child(&self, byte: u8) -> bool {
        exists|i: int| 0 <= i < self.labels.len() && #[trigger] self.labels[i] == byte
    }

    spec fn slot(&self, byte: u8) -> int {
        choose|i: int| 0 <= i < self.labels.len() && #[trigger] self.labels[i] == byte
    }

    /// The token whose bytes are `path`, read from this node.
    pub closed spec fn lookup(&self, path: Seq<u8>) -> Option<u32>
        decreases path.len(),
    {
        if path.len() == 0 {
            self.terminal
        } else if self.has_child(path[0]) && self.labels.len() == self.children.len() {
            self.children[self.slot(path[0])].lookup(path.skip(1))
        } else {
            None
        }
    }

    /// A token below this node keeps the automaton alive from `state`.
    pub open spec fn keeps_alive<A: Automaton>(&self, automaton: &A, state: u32, id: u32) -> bool {
        exists|path: Seq<u8>|
            #[trigger] self.lookup(path) == Some(id) && !automaton.dead(run(automaton, state, path))
    }

    proof fn lemma_slot(&self, byte: u8, k: int)
        requires
            self.wf(),
            0 <= k < self.labels.len(),
            self.labels[k] == byte,
        ensures
            self.has_child(byte),
            self.slot(byte) == k,
    {
        reveal(TrieNode::wf);
        let j = self.slot(byte);
        if j < k {
            assert(self.labels[j] != self.labels[k]);
        } else if k < j {
            assert(self.labels[k] != self.labels[j]);
        }
    }

    proof fn lemma_child_wf(&self, k: int)
        requires
            self.wf(),
            0 <= k < self.children.len(),
        ensures
            self.children[k].wf(),
            self.labels.len() == self.children.len(),
    {
        reveal(TrieNode::wf);
    }

    pub(crate) fn leaf() -> (node: TrieNode)
        ensures
            node.wf(),
            node.childless(),
            forall|path: Seq<u8>| (#[trigger] node.lookup(path)).is_none(),
    {
        let node = TrieNode { terminal: None, labels: Vec::new(), children: Vec::new() };
        assert(node.wf()) by {
            reveal(TrieNode::wf);
        }
        node
    }

    /// The place of the child for `byte`, or the number of children.
    fn find(&self, byte: u8) -> (i: usize)
        requires
            self.wf(),
        ensures
            i <= self.labels.len(),
            self.labels.len() == self.children.len(),
            i < self.labels.len() ==> self.labels[i as int] == byte && self.has_child(byte)
                && self.slot(byte) == i,
            i == self.labels.len() ==> !self.has_child(byte),
    {
        proof {
            reveal(TrieNode::wf);
        }
        let mut i: usize = 0;
        while i < self.labels.len() && self.labels[i] != byte
            invariant
                i <= self.labels.len(),
                forall|k: int| 0 <= k < i ==> self.labels[k] != byte,
            decreases self.labels.len() - i,
        {
            i = i + 1;
        }
        proof {
            if i < self.labels.len() {
                self.lemma_slot(byte, i as int);
            }
        }
        i
    }

    /// Adds the token `bytes` from `pos` on below `node`, unless one with
    /// these bytes is there already.
    pub(crate) fn insert_at(node: TrieNode, bytes: &[u8], pos: usize, id: u32) -> (grown: TrieNode)
        requires
            node.wf(),
            pos <= bytes.len(),
        ensures
            grown.wf(),
            forall|path: Seq<u8>|
                #[trigger] grown.lookup(path) == (if path == bytes@.skip(pos as int) && node.lookup(
                    path,
                ).is_none() {
                    Some(id)
                } else {
                    node.lookup(path)
                }),
        decreases bytes.len() - pos,
    {
        let ghost rest = bytes@.skip(pos as int);
        let slot = if pos < bytes.len() {
            node.find(bytes[pos])
        } else {
            0
        };
        proof {
            reveal(TrieNode::wf);
        }
        let TrieNode { terminal, labels, children } = node;
        let mut labels = labels;
        let mut children = children;
        if pos == bytes.len() {
            let terminal = match terminal {
                Some(t) => Some(t),
                None => Some(id),
            };
            let grown = TrieNode { terminal, labels, children };
            proof {
                assert(grown.wf());
                assert forall|path: Seq<u8>| #[trigger]
                    grown.lookup(path) == (if path == rest && node.lookup(path).is_none() {
                        Some(id)
                    } else {
                        node.lookup(path)
                    }) by {
                    if path.len() > 0 {
                        assert(grown.has_child(path[0]) == node.has_child(path[0]));
                        assert(grown.slot(path[0]) == node.slot(path[0]));
                    } else {
                        assert(path =~= rest);
                    }
                }
            }
            return grown;
        }
        let byte = bytes[pos];
        assert(rest.skip(1) =~= bytes@.skip(pos + 1));
        if slot < labels.len() {
            let child = children.remove(slot);
            let new_child = TrieNode::insert_at(child, bytes, pos + 1, id);
            children.insert(slot, new_child);
            let grown = TrieNode { terminal, labels, children };
            proof {
                assert(grown.children@ =~= node.children@.update(slot as int, new_child));
                assert(grown.wf());
                assert forall|path: Seq<u8>| #[trigger]
                    grown.lookup(path) == (if path == rest && node.lookup(path).is_none() {
                        Some(id)
                    } else {
                        node.lookup(path)
                    }) by {
                    if path.len() > 0 {
                        assert(grown.has_child(path[0]) == node.has_child(path[0]));
                        assert(grown.slot(path[0]) == node.slot(path[0]));
                        if path[0] == byte {
                            grown.lemma_slot(byte, slot as int);
                            assert(path =~= seq![byte] + path.skip(1));
                            assert(rest =~= seq![byte] + rest.skip(1));
                            assert(grown.children[slot as int] == new_child);
                            assert(node.children[slot as int] == child);
                            assert(grown.lookup(path) == new_child.lookup(path.skip(1)));
                            assert(node.lookup(path) == child.lookup(path.skip(1)));
                        } else if node.has_child(path[0]) {
                            assert(node.slot(path[0]) != slot);
                            assert(grown.children[node.slot(path[0])] == node.children[node.slot(path[0])]);
                        }
                    } else {
                        assert(rest.len() > 0);
                    }
                }
            }
            grown
        } else {
            let new_child = TrieNode::insert_at(TrieNode::leaf(), bytes, pos + 1, id);
            labels.push(byte);
            children.push(new_child);
            let grown = TrieNode { terminal, labels, children };
            proof {
                assert(grown.wf());
                grown.lemma_slot(byte, slot as int);
                assert forall|path: Seq<u8>| #[trigger]
                    grown.lookup(path) == (if path == rest && node.lookup(path).is_none() {
                        Some(id)
                    } else {
                        node.lookup(path)
                    }) by {
                    if path.len() == 0 {
                        assert(rest.len() > 0);
                    } else {
                        if path[0] == byte {
                            assert(path =~= seq![byte] + path.skip(1));
                            assert(rest =~= seq![byte] + rest.skip(1));
                            assert(grown.children[slot as int] == new_child);
                            assert(!node.has_child(byte));
                            assert(grown.lookup(path) == new_child.lookup(path.skip(1)));
                            assert(node.lookup(path).is_none());
                        } else {
                            if node.has_child(path[0]) {
                                let k = node.slot(path[0]);
                                assert(grown.labels[k] == path[0]);
                                grown.lemma_slot(path[0], k);
                                assert(grown.children[k] == node.children[k]);
                            } else if grown.has_child(path[0]) {
                                let k = grown.slot(path[0]);
                                assert(node.labels[k] == path[0]);
                            }
                        }
                    }
                }
            }
            grown
        }
    }

    /// The node has no child.
    pub closed spec fn childless(&self) -> bool {
        self.children.len() == 0
    }

    /// Whether the node has no child.
    pub fn is_childless(&self) -> (alone: bool)
        ensures
            alone == self.childless(),
    {
        self.children.len() == 0
    }

    /// The token whose bytes are `bytes`, read from this node.
    pub fn find_token(&self, bytes: &[u8]) -> (id: Option<u32>)
        requires
            self.wf(),
        ensures
            id == self.lookup(bytes@),
    {
        let mut node: &TrieNode = self;
        let mut i: usize = 0;
        assert(bytes@.skip(0) =~= bytes@);
        while i < bytes.len()
            invariant
                i <= bytes.len(),
                node.wf(),
                self.lookup(bytes@) == node.lookup(bytes@.skip(i as int)),
            decreases bytes.len() - i,
        {
            let k = node.find(bytes[i]);
            if k == node.labels.len() {
                return None;
            }
            proof {
                node.lemma_child_wf(k as int);
                assert(bytes@.skip(i as int).skip(1) =~= bytes@.skip(i + 1));
            }
            node = &node.children[k];
            i = i + 1;
        }
        node.terminal
    }

    /// A token below the `k`-th child keeps the automaton alive once the
    /// child's byte is read from `state`.
    spec fn via_child<A: Automaton>(
        &self,
        automaton: &A,
        state: u32,
        k: int,
        id: u32,
    ) -> bool {
        self.children[k].keeps_alive(automaton, automaton.next_state(state, self.labels[k]), id)
    }

    /// A token below one of the first `k` children keeps the automaton
    /// alive once that child's byte is read from `state`.
    spec fn via_first<A: Automaton>(
        &self,
        automaton: &A,
        state: u32,
        k: int,
        id: u32,
    ) -> bool {
        exists|j: int| 0 <= j < k && #[trigger] self.via_child(automaton, state, j, id)
    }

    /// A token keeps the automaton alive exactly if it ends here, or lies
    /// below a child and keeps the automaton alive from behind that
    /// child's byte.
    proof fn lemma_keeps_alive_split<A: Automaton>(&self, automaton: &A, state: u32, id: u32)
        requires
            self.wf(),
            automaton.wf(),
        ensures
            self.keeps_alive(automaton, state, id) <==> (self.terminal == Some(id)
                && !automaton.dead(state)) || (exists|k: int|
                0 <= k < self.children.len() && #[trigger] self.via_child(automaton, state, k, id)),
    {
        reveal(TrieNode::wf);
        if self.keeps_alive(automaton, state, id) {
            let path = choose|path: Seq<u8>|
                #[trigger] self.lookup(path) == Some(id) && !automaton.dead(
                    run(automaton, state, path),
                );
            if path.len() > 0 {
                let k = self.slot(path[0]);
                assert(self.children[k].lookup(path.skip(1)) == Some(id));
                assert(self.via_child(automaton, state, k, id));
            }
        }
        if self.terminal == Some(id) && !automaton.dead(state) {
            assert(self.lookup(Seq::<u8>::empty()) == Some(id));
        }
        if exists|k: int|
            0 <= k < self.children.len() && #[trigger] self.via_child(automaton, state, k, id) {
            let k = choose|k: int|
                0 <= k < self.children.len() && #[trigger] self.via_child(automaton, state, k, id);
            let next = automaton.next_state(state, self.labels[k]);
            let tail = choose|tail: Seq<u8>|
                #[trigger] self.children[k].lookup(tail) == Some(id) && !automaton.dead(
                    run(automaton, next, tail),
                );
            let path = seq![self.labels[k]] + tail;
            assert(path.skip(1) =~= tail);
            self.lemma_slot(self.labels[k], k);
            assert(self.lookup(path) == Some(id));
        }
    }

    /// Adds to `found` every token below this node that keeps the automaton
    /// alive from the live state `state`: depth first, leaving out what lies
    /// behind a byte that kills the automaton.
    pub(crate) fn collect_alive<A: Automaton>(
        &self,
        automaton: &A,
        state: u32,
        found: &mut Vec<u32>,
    )
        requires
            self.wf(),
            automaton.wf(),
            !automaton.dead(state),
        ensures
            forall|id: u32|
                final(found)@.contains(id) <==> old(found)@.contains(id) || self.keeps_alive(
                    automaton,
                    state,
                    id,
                ),
        decreases self,
    {
        let ghost before = found@;
        proof {
            reveal(TrieNode::wf);
        }
        if let Some(id) = self.terminal {
            found.push(id);
            assert forall|other: u32|
                found@.contains(other) <==> before.contains(other) || self.terminal == Some(
                    other,
                ) by {
                lemma_push_contains(before, id, other);
            }
        }
        let mut k: usize = 0;
        while k < self.children.len()
            invariant
                self.wf(),
                automaton.wf(),
                !automaton.dead(state),
                self.labels.len() == self.children.len(),
                k <= self.children.len(),
                forall|id: u32|
                    #[trigger] found@.contains(id) <==> before.contains(id) || self.terminal
                        == Some(id) || self.via_first(automaton, state, k as int, id),
            decreases self.children.len() - k,
        {
            let ghost next = automaton.next_state(state, self.labels[k as int]);
            let ghost sofar = found@;
            if let Some(alive) = try_append(automaton, state, self.labels[k]) {
                proof {
                    self.lemma_child_wf(k as int);
                }
                self.children[k].collect_alive(automaton, alive, found);
            } else {
                assert forall|id: u32| !self.via_child(automaton, state, k as int, id) by {
                    if self.via_child(automaton, state, k as int, id) {
                        let tail = choose|tail: Seq<u8>|
                            #[trigger] self.children[k as int].lookup(tail) == Some(id)
                                && !automaton.dead(run(automaton, next, tail));
                        lemma_dead_run(automaton, next, tail);
                    }
                }
            }
            assert forall|id: u32|
                #[trigger] found@.contains(id) <==> before.contains(id) || self.terminal == Some(
                    id,
                ) || self.via_first(automaton, state, k + 1, id) by {
                assert(self.via_child(automaton, state, k as int, id)
                    == self.children[k as int].keeps_alive(automaton, next, id));
                assert(sofar.contains(id) <==> before.contains(id) || self.terminal == Some(id)
                    || self.via_first(automaton, state, k as int, id));
                assert(found@.contains(id) <==> sofar.contains(id) || self.via_child(
                    automaton,
                    state,
                    k as int,
                    id,
                ));
                if self.via_first(automaton, state, k + 1, id) {
                    let j = choose|j: int|
                        0 <= j < k + 1 && #[trigger] self.via_child(automaton, state, j, id);
                    if j < k {
                        assert(self.via_first(automaton, state, k as int, id));
                    }
                }
                if self.via_first(automaton, state, k as int, id) {
                    let j = choose|j: int|
                        0 <= j < k && #[trigger] self.via_child(automaton, state, j, id);
                    assert(0 <= j < k + 1 && self.via_child(automaton, state, j, id));
                }
                if self.via_child(automaton, state, k as int, id) {
                    assert(0 <= k < k + 1 && self.via_child(automaton, state, k as int, id));
                }
            }
            k = k + 1;
        }
        assert forall|id: u32|
            found@.contains(id) <==> before.contains(id) || self.keeps_alive(
                automaton,
                state,
                id,
            ) by {
            self.lemma_keeps_alive_split(automaton, state, id);
            assert(self.via_first(automaton, state, self.children.len() as int, id) == (exists|
                k: int,
            |
                0 <= k < self.children.len() && #[trigger] self.via_child(automaton, state, k, id)));
        }
    }
}

proof fn lemma_push_contains(s: Seq<u32>, x: u32, id: u32)
    ensures
        s.push(x).contains(id) <==> s.contains(id) || x == id,
{
    if s.contains(id) {
        let i = choose|i: int| 0 <= i < s.len() && s[i] == id;
        assert(s.push(x)[i] == id);
    }
    if x == id {
        assert(s.push(x)[s.len() as int] == id);
    }
    if s.push(x).contains(id) {
        let i = choose|i: int| 0 <= i < s.push(x).len() && s.push(x)[i] == id;
        if i < s.len() {
            assert(s[i] == id);
        }
    }
}

} // verus!
