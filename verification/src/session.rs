//! One walk through a lattice or along an automaton: the cursor, the
//! tokens chosen so far, and the step that takes a token or starts over.

use crate::automaton::{run, run_bytes, Automaton};
use crate::bias::{allowed_tokens, lemma_bias_equivalence, survives};
use crate::lattice::{routes_of, TokenLattice};
use crate::paths::lemma_route_is_edge;
use crate::trie::TokenTrie;
use crate::vocabulary::{bytes_of, lemma_bytes_of_entry, Vocabulary};
use vstd::prelude::*;

verus! {

/// What a step did.
#[derive(Clone, Copy, Debug, PartialEq, Eq)]
pub enum StepOutcome {
    /// The token was allowed: the cursor moved and the token was recorded.
    Advanced,
    /// The token was not allowed: the walk starts over with nothing
    /// recorded.
    Reset,
}

/// Where a walk through a lattice stands.
#[derive(Clone, Copy, Debug, PartialEq, Eq)]
pub enum Standing {
    /// Some token can be taken.
    Open,
    /// No token can be taken, at the end of the input or at a match.
    Finished,
    /// No token can be taken, short of the end or of a match.
    DeadEnd,
}

/// Where a walk stands, from whether any token can be taken and whether
/// what was taken is a match.
pub fn standing_of(open: bool, finished: bool) -> (standing: Standing)
    ensures
        standing == (if open {
            Standing::Open
        } else if finished {
            Standing::Finished
        } else {
            Standing::DeadEnd
        }),
{
    if open {
        Standing::Open
    } else if finished {
        Standing::Finished
    } else {
        Standing::DeadEnd
    }
}

/// Where the first route under `token` leads.
pub open spec fn first_route(routes: Seq<(u32, usize)>, token: u32) -> Option<usize>
    decreases routes.len(),
{
    if routes.len() == 0 {
        None
    } else if routes[0].0 == token {
        Some(routes[0].1)
    } else {
        first_route(routes.skip(1), token)
    }
}

/// No route is found exactly if no route carries the token; a route that
/// is found is one of the routes.
pub proof fn lemma_first_route(routes: Seq<(u32, usize)>, token: u32)
    ensures
        first_route(routes, token).is_none() <==> forall|k: int|
            0 <= k < routes.len() ==> (#[trigger] routes[k]).0 != token,
        first_route(routes, token).is_some() ==> routes.contains(
            (token, first_route(routes, token).unwrap()),
        ),
    decreases routes.len(),
{
    if routes.len() > 0 {
        lemma_first_route(routes.skip(1), token);
        if routes[0].0 != token {
            assert forall|k: int| 0 <= k < routes.skip(1).len() implies (#[trigger] routes.skip(
                1,
            )[k]) == routes[k + 1] by {}
            if first_route(routes, token).is_some() {
                let target = first_route(routes, token).unwrap();
                let k = choose|k: int|
                    0 <= k < routes.skip(1).len() && routes.skip(1)[k] == (token, target);
                assert(routes[k + 1] == (token, target));
            } else {
                assert forall|k: int| 0 <= k < routes.len() implies (#[trigger] routes[k]).0
                    != token by {
                    if k > 0 {
                        assert(routes.skip(1)[k - 1] == routes[k]);
                    }
                }
            }
        } else {
            assert(routes[0] == (token, routes[0].1));
        }
    }
}

/// A walk through a lattice, by position.
pub struct LatticeWalker {
    position: usize,
    output: Vec<u32>,
}

impl LatticeWalker {
    /// The position at which the walk stands.
    pub closed spec fn cursor(&self) -> usize {
        self.position
    }

    /// The tokens taken since the walk last started.
    pub closed spec fn taken(&self) -> Seq<u32> {
        self.output@
    }

    /// A walk at position 0 with nothing taken.
    pub fn new() -> (walker: Self)
        ensures
            walker.cursor() == 0,
            walker.taken() == Seq::<u32>::empty(),
    {
        LatticeWalker { position: 0, output: Vec::new() }
    }

    /// The position at which the walk stands.
    pub fn position(&self) -> (position: usize)
        ensures
            position == self.cursor(),
    {
        self.position
    }

    /// The tokens taken since the walk last started.
    pub fn accumulated_output(&self) -> (output: &Vec<u32>)
        ensures
            output@ == self.taken(),
    {
        &self.output
    }

    /// The tokens that can be taken now, each with the position it leads
    /// to.
    pub fn allowed_now(&self, lattice: &TokenLattice) -> (routes: Vec<(u32, usize)>)
        requires
            lattice.wf(),
            self.cursor() <= lattice.length(),
        ensures
            routes@ == routes_of(lattice@, self.cursor() as int),
    {
        lattice.routes_from(self.position)
    }

    /// Whether the walk can go on, has reached the end, or is stuck.
    pub fn standing(&self, lattice: &TokenLattice) -> (standing: Standing)
        requires
            lattice.wf(),
            self.cursor() <= lattice.length(),
        ensures
            standing == (if routes_of(lattice@, self.cursor() as int).len() > 0 {
                Standing::Open
            } else if self.cursor() == lattice.length() {
                Standing::Finished
            } else {
                Standing::DeadEnd
            }),
    {
        let routes = lattice.routes_from(self.position);
        standing_of(routes.len() > 0, self.position == lattice.input_len())
    }

    /// Starts the walk over.
    pub fn reset(&mut self)
        ensures
            final(self).cursor() == 0,
            final(self).taken() == Seq::<u32>::empty(),
    {
        self.position = 0;
        self.output = Vec::new();
    }

    /// Takes `token`: along the first route that carries it, if there is
    /// one; else the walk starts over.
    pub fn consume(&mut self, lattice: &TokenLattice, token: u32) -> (outcome: StepOutcome)
        requires
            lattice.wf(),
            old(self).cursor() <= lattice.length(),
        ensures
            final(self).cursor() <= lattice.length(),
            (forall|k: int|
                0 <= k < routes_of(lattice@, old(self).cursor() as int).len() ==> (
                #[trigger] routes_of(lattice@, old(self).cursor() as int)[k]).0 != token)
                <==> outcome == StepOutcome::Reset,
            match first_route(routes_of(lattice@, old(self).cursor() as int), token) {
                Some(target) => outcome == StepOutcome::Advanced && final(self).cursor() == target
                    && final(self).taken() == old(self).taken().push(token),
                None => outcome == StepOutcome::Reset && final(self).cursor() == 0 && final(self).taken() == Seq::<u32>::empty(),
            },
    {
        let routes = lattice.routes_from(self.position);
        let mut k: usize = 0;
        assert(routes@.skip(0) =~= routes@);
        proof {
            lemma_first_route(routes@, token);
        }
        while k < routes.len()
            invariant
                k <= routes.len(),
                lattice.wf(),
                routes@ == routes_of(lattice@, self.cursor() as int),
                self.cursor() == old(self).cursor(),
                self.taken() == old(self).taken(),
                first_route(routes@, token) == first_route(routes@.skip(k as int), token),
            decreases routes.len() - k,
        {
            if routes[k].0 == token {
                let target = routes[k].1;
                proof {
                    lemma_route_is_edge(lattice@, self.cursor() as int, k as int);
                    lattice.lemma_edges_advance();
                }
                self.position = target;
                self.output.push(token);
                return StepOutcome::Advanced;
            }
            assert(routes@.skip(k as int).skip(1) =~= routes@.skip(k + 1));
            k = k + 1;
        }
        proof {
            lattice.lemma_edges_advance();
        }
        self.reset();
        StepOutcome::Reset
    }
}

/// A walk along an automaton, by state.
pub struct AutomatonWalker {
    state: u32,
    output: Vec<u32>,
}

impl AutomatonWalker {
    /// The state in which the walk stands.
    pub closed spec fn cursor(&self) -> u32 {
        self.state
    }

    /// The tokens taken since the walk last started.
    pub closed spec fn taken(&self) -> Seq<u32> {
        self.output@
    }

    /// A walk in the automaton's first state with nothing taken.
    pub fn new<A: Automaton>(automaton: &A) -> (walker: Self)
        requires
            automaton.wf(),
        ensures
            walker.cursor() == automaton.start(),
            walker.taken() == Seq::<u32>::empty(),
    {
        AutomatonWalker { state: automaton.initial(), output: Vec::new() }
    }

    /// The state in which the walk stands.
    pub fn state(&self) -> (state: u32)
        ensures
            state == self.cursor(),
    {
        self.state
    }

    /// The tokens taken since the walk last started.
    pub fn accumulated_output(&self) -> (output: &Vec<u32>)
        ensures
            output@ == self.taken(),
    {
        &self.output
    }

    /// The tokens that can be taken now.
    pub fn allowed_now<A: Automaton>(&self, trie: &TokenTrie, automaton: &A) -> (allowed: Vec<u32>)
        requires
            trie.wf(),
            automaton.wf(),
        ensures
            forall|id: u32|
                #[trigger] allowed@.contains(id) <==> trie.allows(automaton, self.cursor(), id),
    {
        allowed_tokens(trie, automaton, self.state)
    }

    /// Whether the walk can go on, stands at a match, or is stuck: it can
    /// go on where some token is allowed.
    pub fn standing<A: Automaton>(&self, trie: &TokenTrie, automaton: &A) -> (standing: Standing)
        requires
            trie.wf(),
            automaton.wf(),
        ensures
            standing == (if exists|id: u32| #[trigger] trie.allows(automaton, self.cursor(), id) {
                Standing::Open
            } else if automaton.accepting(self.cursor()) {
                Standing::Finished
            } else {
                Standing::DeadEnd
            }),
    {
        let allowed = allowed_tokens(trie, automaton, self.state);
        proof {
            if allowed@.len() > 0 {
                assert(allowed@.contains(allowed@[0]));
                assert(trie.allows(automaton, self.cursor(), allowed@[0]));
            }
            if exists|id: u32| #[trigger] trie.allows(automaton, self.cursor(), id) {
                let id = choose|id: u32| #[trigger] trie.allows(automaton, self.cursor(), id);
                assert(allowed@.contains(id));
            }
        }
        standing_of(allowed.len() > 0, automaton.is_accepting(self.state))
    }

    /// Whether the bytes taken so far are a match.
    pub fn at_match<A: Automaton>(&self, automaton: &A) -> (accepting: bool)
        requires
            automaton.wf(),
        ensures
            accepting == automaton.accepting(self.cursor()),
    {
        automaton.is_accepting(self.state)
    }

    /// Starts the walk over.
    pub fn reset<A: Automaton>(&mut self, automaton: &A)
        requires
            automaton.wf(),
        ensures
            final(self).cursor() == automaton.start(),
            final(self).taken() == Seq::<u32>::empty(),
    {
        self.state = automaton.initial();
        self.output = Vec::new();
    }

    /// Takes `token` if the vocabulary knows it and its bytes leave the
    /// automaton alive; else the walk starts over.
    pub fn consume<A: Automaton>(
        &mut self,
        vocabulary: &Vocabulary,
        automaton: &A,
        token: u32,
    ) -> (outcome: StepOutcome)
        requires
            vocabulary.wf(),
            automaton.wf(),
        ensures
            survives(vocabulary@, automaton, old(self).cursor(), token) ==> outcome
                == StepOutcome::Advanced && final(self).cursor() == run(
                automaton,
                old(self).cursor(),
                bytes_of(vocabulary@, token),
            ) && final(self).taken() == old(self).taken().push(token),
            !survives(vocabulary@, automaton, old(self).cursor(), token) ==> outcome
                == StepOutcome::Reset && final(self).cursor() == automaton.start() && final(self).taken()
                == Seq::<u32>::empty(),
            forall|trie: TokenTrie| #[trigger]
                trie.holds(vocabulary@) ==> (trie.allows(automaton, old(self).cursor(), token)
                    <==> outcome == StepOutcome::Advanced),
    {
        proof {
            assert forall|trie: TokenTrie| #[trigger] trie.holds(vocabulary@) implies (trie.allows(
                automaton,
                self.cursor(),
                token,
            ) <==> survives(vocabulary@, automaton, self.cursor(), token)) by {
                lemma_bias_equivalence(&trie, vocabulary@, automaton, self.cursor(), token);
            }
        }
        let ghost entries = vocabulary@;
        let ghost from = self.cursor();
        proof {
            vocabulary.lemma_distinct();
            if survives(entries, automaton, from, token) {
                let k = choose|k: int|
                    0 <= k < entries.len() && (#[trigger] entries[k]).0 == token
                        && !automaton.dead(run(automaton, from, entries[k].1));
                lemma_bytes_of_entry(entries, k);
            }
        }
        match vocabulary.get_token(token) {
            Some(bytes) => {
                proof {
                    let k = choose|k: int| 0 <= k < entries.len() && entries[k] == (token, bytes@);
                    lemma_bytes_of_entry(entries, k);
                    assert(entries[k].0 == token);
                }
                let next = run_bytes(automaton, self.state, bytes.as_slice());
                if automaton.is_dead(next) {
                    self.reset(automaton);
                    StepOutcome::Reset
                } else {
                    self.state = next;
                    self.output.push(token);
                    StepOutcome::Advanced
                }
            },
            None => {
                self.reset(automaton);
                StepOutcome::Reset
            },
        }
    }
}

} // verus!
