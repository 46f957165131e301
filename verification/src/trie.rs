//! The token trie: the prefix tree over the byte strings of a vocabulary.

use crate::automaton::{run, Automaton};
use crate::node::TrieNode;
use crate::vocabulary::{distinct, Vocabulary};
use vstd::prelude::*;

verus! {

/// The prefix tree over the tokens of a vocabulary.
pub struct TokenTrie {
    root: TrieNode,
}

impl TokenTrie {
    /// The nodes of the trie are well formed.
    pub closed spec fn wf(&self) -> bool {
        self.root.wf()
    }

    /// The id of the token whose bytes are `path`.
    pub closed spec fn token_at(&self, path: Seq<u8>) -> Option<u32> {
        self.root.lookup(path)
    }

    /// The trie has no node but its root.
    pub closed spec fn root_only(&self) -> bool {
        self.root.childless()
    }

    /// The trie maps the bytes of each entry to the entry's id, and no
    /// other byte string to anything.
    pub open spec fn holds(&self, entries: Seq<(u32, Seq<u8>)>) -> bool {
        forall|path: Seq<u8>, id: u32|
            self.token_at(path) == Some(id) <==> #[trigger] entries.contains((id, path))
    }

    /// The token `id` keeps the automaton alive from `state`.
    pub open spec fn allows<A: Automaton>(&self, automaton: &A, state: u32, id: u32) -> bool {
        exists|path: Seq<u8>|
            #[trigger] self.token_at(path) == Some(id) && !automaton.dead(
                run(automaton, state, path),
            )
    }

    /// The trie of the vocabulary's tokens.
    pub fn build(vocabulary: &Vocabulary) -> (trie: Self)
        requires
            vocabulary.wf(),
        ensures
            trie.wf(),
            trie.holds(vocabulary@),
            vocabulary@.len() == 0 ==> trie.root_only(),
    {
        let mut root = TrieNode::leaf();
        let mut i: usize = 0;
        let n = vocabulary.len();
        proof {
            vocabulary.lemma_distinct();
        }
        while i < n
            invariant
                vocabulary.wf(),
                distinct(vocabulary@),
                n == vocabulary@.len(),
                i <= n,
                root.wf(),
                i == 0 ==> root.childless(),
                forall|path: Seq<u8>, id: u32|
                    root.lookup(path) == Some(id) <==> #[trigger] vocabulary@.subrange(
                        0,
                        i as int,
                    ).contains((id, path)),
            decreases n - i,
        {
            let token = vocabulary.token_at(i);
            let id = vocabulary.id_at(i);
            let ghost old_root = root;
            let ghost seen = vocabulary@.subrange(0, i as int);
            let ghost more = vocabulary@.subrange(0, i + 1);
            assert(token@.skip(0) =~= token@);
            root = TrieNode::insert_at(root, token.as_slice(), 0, id);
            proof {
                assert(more =~= seen.push((id, token@)));
                if old_root.lookup(token@).is_some() {
                    let x = old_root.lookup(token@).unwrap();
                    assert(seen.contains((x, token@)));
                    let k = choose|k: int| 0 <= k < seen.len() && seen[k] == (x, token@);
                    assert(vocabulary@[k] == seen[k]);
                    assert(vocabulary@[i as int].1 == token@);
                }
                assert forall|path: Seq<u8>, other: u32|
                    root.lookup(path) == Some(other) <==> #[trigger] more.contains(
                        (other, path),
                    ) by {
                    if more.contains((other, path)) {
                        let k = choose|k: int| 0 <= k < more.len() && more[k] == (other, path);
                        if k < i {
                            assert(seen[k] == (other, path));
                            assert(seen.contains((other, path)));
                            assert(vocabulary@[k] == seen[k]);
                            assert(vocabulary@[i as int].1 == token@);
                        }
                    }
                    if root.lookup(path) == Some(other) {
                        if path == token@ {
                            assert(more[i as int] == (id, token@));
                        } else {
                            assert(seen.contains((other, path)));
                            let k = choose|k: int| 0 <= k < seen.len() && seen[k] == (other, path);
                            assert(more[k] == (other, path));
                        }
                    }
                }
            }
            i = i + 1;
        }
        assert(vocabulary@.subrange(0, n as int) =~= vocabulary@);
        TokenTrie { root }
    }

    /// Whether the trie has no node but its root.
    pub fn is_root_only(&self) -> (alone: bool)
        ensures
            alone == self.root_only(),
    {
        self.root.is_childless()
    }

    /// The id of the token whose bytes are `bytes`.
    pub fn lookup(&self, bytes: &[u8]) -> (id: Option<u32>)
        requires
            self.wf(),
        ensures
            id == self.token_at(bytes@),
    {
        self.root.find_token(bytes)
    }

    /// Adds to `found` every token that keeps the automaton alive from the
    /// live state `state`.
    pub(crate) fn collect_alive<A: Automaton>(
        &self,
        automaton: &A,
        state: u32,
        found: &mut Vec<u32>,
    )
        requires
            self.wf(),
            automaton.wf(),
            !automaton.dead(state),
        ensures
            forall|id: u32|
                final(found)@.contains(id) <==> old(found)@.contains(id) || self.allows(
                    automaton,
                    state,
                    id,
                ),
    {
        self.root.collect_alive(automaton, state, found);
        proof {
            assert forall|id: u32|
                self.allows(automaton, state, id) == self.root.keeps_alive(
                    automaton,
                    state,
                    id,
                ) by {
                if self.allows(automaton, state, id) {
                    let path = choose|path: Seq<u8>|
                        #[trigger] self.token_at(path) == Some(id) && !automaton.dead(
                            run(automaton, state, path),
                        );
                    assert(self.root.lookup(path) == Some(id));
                }
                if self.root.keeps_alive(automaton, state, id) {
                    let path = choose|path: Seq<u8>|
                        #[trigger] self.root.lookup(path) == Some(id) && !automaton.dead(
                            run(automaton, state, path),
                        );
                    assert(self.token_at(path) == Some(id));
                }
            }
        }
    }
}

/// Two tries that hold the same vocabulary map every byte string to the
/// same token.
pub proof fn lemma_trie_is_determined(a: &TokenTrie, b: &TokenTrie, entries: Seq<(u32, Seq<u8>)>)
    requires
        a.holds(entries),
        b.holds(entries),
    ensures
        forall|path: Seq<u8>| #[trigger] a.token_at(path) == b.token_at(path),
{
    assert forall|path: Seq<u8>| #[trigger] a.token_at(path) == b.token_at(path) by {
        if a.token_at(path).is_some() {
            assert(entries.contains((a.token_at(path).unwrap(), path)));
        }
        if b.token_at(path).is_some() {
            assert(entries.contains((b.token_at(path).unwrap(), path)));
        }
    }
}

} // verus!
