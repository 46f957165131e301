//! The bias engine: the tokens that keep an automaton alive, found along
//! the trie, and the same set found token by token.

use crate::automaton::{lemma_dead_run, run, run_bytes, Automaton};
use crate::trie::TokenTrie;
use crate::vocabulary::Vocabulary;
use vstd::prelude::*;

verus! {

/// Some entry with this id has bytes that keep the automaton alive from
/// `state`.
pub open spec fn survives<A: Automaton>(
    entries: Seq<(u32, Seq<u8>)>,
    automaton: &A,
    state: u32,
    id: u32,
) -> bool {
    exists|k: int|
        0 <= k < entries.len() && (#[trigger] entries[k]).0 == id && !automaton.dead(
            run(automaton, state, entries[k].1),
        )
}

/// The ids of the tokens that do not drive the automaton from `state` into
/// a dead state. The trie is walked depth first with the automaton's state
/// carried along, so that a shared prefix is read once and nothing behind a
/// dead state is visited.
pub fn allowed_tokens<A: Automaton>(trie: &TokenTrie, automaton: &A, state: u32) -> (allowed: Vec<
    u32,
>)
    requires
        trie.wf(),
        automaton.wf(),
    ensures
        forall|id: u32| #[trigger] allowed@.contains(id) <==> trie.allows(automaton, state, id),
{
    let mut allowed: Vec<u32> = Vec::new();
    if automaton.is_dead(state) {
        assert forall|id: u32| !trie.allows(automaton, state, id) by {
            if trie.allows(automaton, state, id) {
                let path = choose|path: Seq<u8>|
                    #[trigger] trie.token_at(path) == Some(id) && !automaton.dead(
                        run(automaton, state, path),
                    );
                lemma_dead_run(automaton, state, path);
            }
        }
        return allowed;
    }
    trie.collect_alive(automaton, state, &mut allowed);
    allowed
}

/// The same set found without a trie: each token of the vocabulary is fed
/// to the automaton from `state` on its own.
pub fn allowed_tokens_by_scan<A: Automaton>(
    vocabulary: &Vocabulary,
    automaton: &A,
    state: u32,
) -> (allowed: Vec<u32>)
    requires
        vocabulary.wf(),
        automaton.wf(),
    ensures
        forall|id: u32|
            #[trigger] allowed@.contains(id) <==> survives(vocabulary@, automaton, state, id),
{
    let mut allowed: Vec<u32> = Vec::new();
    let n = vocabulary.len();
    let mut i: usize = 0;
    while i < n
        invariant
            vocabulary.wf(),
            automaton.wf(),
            n == vocabulary@.len(),
            i <= n,
            forall|id: u32|
                #[trigger] allowed@.contains(id) <==> survives(
                    vocabulary@.subrange(0, i as int),
                    automaton,
                    state,
                    id,
                ),
        decreases n - i,
    {
        let token = vocabulary.token_at(i);
        let id = vocabulary.id_at(i);
        let reached = run_bytes(automaton, state, token.as_slice());
        let alive = !automaton.is_dead(reached);
        let ghost sofar = allowed@;
        let ghost seen = vocabulary@.subrange(0, i as int);
        let ghost more = vocabulary@.subrange(0, i + 1);
        if alive {
            allowed.push(id);
        }
        proof {
            assert(more =~= seen.push((id, token@)));
            assert forall|other: u32|
                #[trigger] allowed@.contains(other) <==> survives(
                    more,
                    automaton,
                    state,
                    other,
                ) by {
                assert(sofar.contains(other) <==> survives(seen, automaton, state, other));
                if survives(seen, automaton, state, other) {
                    let k = choose|k: int|
                        0 <= k < seen.len() && (#[trigger] seen[k]).0 == other && !automaton.dead(
                            run(automaton, state, seen[k].1),
                        );
                    assert(more[k] == seen[k]);
                }
                if survives(more, automaton, state, other) {
                    let k = choose|k: int|
                        0 <= k < more.len() && (#[trigger] more[k]).0 == other && !automaton.dead(
                            run(automaton, state, more[k].1),
                        );
                    if k < i {
                        assert(seen[k] == more[k]);
                    }
                }
                if alive && other == id {
                    assert(more[i as int].0 == id);
                    assert(allowed@[allowed@.len() - 1] == id);
                }
                if sofar.contains(other) {
                    let j = choose|j: int| 0 <= j < sofar.len() && sofar[j] == other;
                    assert(allowed@[j] == other);
                }
                if allowed@.contains(other) {
                    let j = choose|j: int| 0 <= j < allowed@.len() && allowed@[j] == other;
                    if j < sofar.len() {
                        assert(sofar[j] == other);
                    }
                }
            }
        }
        i = i + 1;
    }
    assert(vocabulary@.subrange(0, n as int) =~= vocabulary@);
    allowed
}

/// Along the trie of a vocabulary a token is allowed exactly if its bytes,
/// fed to the automaton on their own, leave it alive: the walk along the
/// trie and the scan of the vocabulary find the same set.
pub proof fn lemma_bias_equivalence<A: Automaton>(
    trie: &TokenTrie,
    entries: Seq<(u32, Seq<u8>)>,
    automaton: &A,
    state: u32,
    id: u32,
)
    requires
        trie.holds(entries),
    ensures
        trie.allows(automaton, state, id) <==> survives(entries, automaton, state, id),
{
    if trie.allows(automaton, state, id) {
        let path = choose|path: Seq<u8>|
            #[trigger] trie.token_at(path) == Some(id) && !automaton.dead(
                run(automaton, state, path),
            );
        assert(entries.contains((id, path)));
        let k = choose|k: int| 0 <= k < entries.len() && entries[k] == (id, path);
        assert(entries[k].0 == id);
    }
    if survives(entries, automaton, state, id) {
        let k = choose|k: int|
            0 <= k < entries.len() && (#[trigger] entries[k]).0 == id && !automaton.dead(
                run(automaton, state, entries[k].1),
            );
        assert(entries[k] == (id, entries[k].1));
        assert(entries.contains((id, entries[k].1)));
        assert(trie.token_at(entries[k].1) == Some(id));
    }
}

} // verus!
