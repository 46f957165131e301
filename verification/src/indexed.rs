//! Walking along a token-level index: an automaton over whole tokens that
//! was compiled from a pattern and a vocabulary elsewhere.

use crate::session::{standing_of, Standing, StepOutcome};
use crate::vocabulary::{byte_views, has_id, resolved, Vocabulary};
use outlines_core::index::Index;
use vstd::prelude::*;

verus! {

/// `outlines_core::index::Index`, carried through as it is. What it holds
/// has names here: the state in which it starts, the ids it allows in a
/// state, the state that follows under a token, and its final states.
#[verifier::external_type_specification]
#[verifier::external_body]
pub struct ExIndex(outlines_core::index::Index);

/// The state in which an index starts: what it was compiled with, and the
/// same for as long as the index lives.
pub uninterp spec fn index_start(index: Index) -> u32;

/// Calls `outlines_core::index::Index::initial_state`. Trusted: the state
/// is the one that the index holds as its first, a function of the index
/// alone; nothing is claimed of which number it is.
#[verifier::external_body]
pub(crate) fn index_initial_state(index: &Index) -> (state: u32)
    ensures
        state == index_start(*index),
{
    index.initial_state()
}

/// The ids that an index allows in a state, or `None` where the index does
/// not know the state.
pub uninterp spec fn index_allowed(index: Index, state: u32) -> Option<Set<u32>>;

/// The state that follows `state` under `token` in an index, or `None`
/// where the token may not be taken there.
pub uninterp spec fn index_next(index: Index, state: u32, token: u32) -> Option<u32>;

/// Whether an index counts `state` among its final states.
pub uninterp spec fn index_final(index: Index, state: u32) -> bool;

/// Calls `outlines_core::index::Index::allowed_tokens`. Trusted: the ids
/// are the keys of the map that the index holds for the state, so which
/// ids they are is a function of index and state, and none comes twice;
/// their order is that in which a hash map is walked, and nothing is
/// claimed of it.
#[verifier::external_body]
pub(crate) fn index_allowed_tokens(index: &Index, state: u32) -> (ids: Option<Vec<u32>>)
    ensures
        ids.is_some() == index_allowed(*index, state).is_some(),
        ids.is_some() ==> ids.unwrap()@.to_set() == index_allowed(*index, state).unwrap()
            && ids.unwrap()@.no_duplicates(),
{
    index.allowed_tokens(&state)
}

/// Calls `outlines_core::index::Index::next_state`. Trusted: the result is
/// a lookup by state and token, a function of the three alone.
#[verifier::external_body]
pub(crate) fn index_next_state(index: &Index, state: u32, token: u32) -> (next: Option<u32>)
    ensures
        next == index_next(*index, state, token),
{
    index.next_state(&state, &token)
}

/// Calls `outlines_core::index::Index::is_final_state`. Trusted: the
/// result says whether the state is in the set of final states that the
/// index holds, a function of index and state alone.
#[verifier::external_body]
pub(crate) fn index_is_final(index: &Index, state: u32) -> (finished: bool)
    ensures
        finished == index_final(*index, state),
{
    index.is_final_state(&state)
}

/// The routes that a list of allowed ids stands for: the bytes of those
/// that the vocabulary knows, and the number of ids that were looked at.
pub fn routes_of_ids(allowed: Option<Vec<u32>>, vocabulary: &Vocabulary) -> (routes: (
    Vec<Vec<u8>>,
    usize,
))
    requires
        vocabulary.wf(),
    ensures
        match allowed {
            Some(ids) => byte_views(routes.0@) == resolved(vocabulary@, ids@) && routes.1
                == ids@.len(),
            None => routes.0@.len() == 0 && routes.1 == 0,
        },
{
    match allowed {
        Some(ids) => {
            let tokens = vocabulary.resolve(ids.as_slice());
            (tokens, ids.len())
        },
        None => (Vec::new(), 0),
    }
}

/// The tokens that the index allows in `state`, as far as the vocabulary
/// knows them, and the number of ids that the index gave.
pub fn get_routes(index: &Index, state: u32, vocabulary: &Vocabulary) -> (routes: (
    Vec<Vec<u8>>,
    usize,
))
    requires
        vocabulary.wf(),
    ensures
        match index_allowed(*index, state) {
            Some(allowed) => exists|ids: Seq<u32>|
                ids.to_set() == allowed && ids.no_duplicates() && byte_views(routes.0@)
                    == #[trigger] resolved(vocabulary@, ids) && routes.1 == ids.len(),
            None => routes.0@.len() == 0 && routes.1 == 0,
        },
{
    let allowed = index_allowed_tokens(index, state);
    let ghost given = allowed;
    let routes = routes_of_ids(allowed, vocabulary);
    proof {
        if given.is_some() {
            assert(byte_views(routes.0@) == resolved(vocabulary@, given.unwrap()@));
        }
    }
    routes
}

/// A walk along an index, by state.
pub struct IndexWalker {
    state: u32,
    first: u32,
    output: Vec<u32>,
}

impl IndexWalker {
    /// The state in which the walk stands.
    pub closed spec fn cursor(&self) -> u32 {
        self.state
    }

    /// The state in which the walk starts.
    pub closed spec fn start(&self) -> u32 {
        self.first
    }

    /// The tokens taken since the walk last started.
    pub closed spec fn taken(&self) -> Seq<u32> {
        self.output@
    }

    /// A walk that starts in `first`, with nothing taken.
    pub fn new(first: u32) -> (walker: Self)
        ensures
            walker.cursor() == first,
            walker.start() == first,
            walker.taken() == Seq::<u32>::empty(),
    {
        IndexWalker { state: first, first, output: Vec::new() }
    }

    /// A walk in the first state of `index`, with nothing taken.
    pub fn at_start_of(index: &Index) -> (walker: Self)
        ensures
            walker.start() == index_start(*index),
            walker.cursor() == index_start(*index),
            walker.taken() == Seq::<u32>::empty(),
    {
        IndexWalker::new(index_initial_state(index))
    }

    /// The state in which the walk stands.
    pub fn state(&self) -> (state: u32)
        ensures
            state == self.cursor(),
    {
        self.state
    }

    /// The tokens taken since the walk last started.
    pub fn accumulated_output(&self) -> (output: &Vec<u32>)
        ensures
            output@ == self.taken(),
    {
        &self.output
    }

    /// Starts the walk over.
    pub fn reset(&mut self)
        ensures
            final(self).start() == old(self).start(),
            final(self).cursor() == old(self).start(),
            final(self).taken() == Seq::<u32>::empty(),
    {
        self.state = self.first;
        self.output = Vec::new();
    }

    /// Settles a step on what the index said of `token`: the walk moves to
    /// the state it named, or starts over where it named none.
    pub fn settle(&mut self, token: u32, next: Option<u32>) -> (outcome: StepOutcome)
        ensures
            final(self).start() == old(self).start(),
            match next {
                Some(state) => outcome == StepOutcome::Advanced && final(self).cursor() == state
                    && final(self).taken() == old(self).taken().push(token),
                None => outcome == StepOutcome::Reset && final(self).cursor() == old(self).start()
                    && final(self).taken() == Seq::<u32>::empty(),
            },
    {
        match next {
            Some(state) => {
                self.state = state;
                self.output.push(token);
                StepOutcome::Advanced
            },
            None => {
                self.reset();
                StepOutcome::Reset
            },
        }
    }

    /// Takes `token` if the index lets it follow; else the walk starts
    /// over.
    pub fn consume(&mut self, index: &Index, token: u32) -> (outcome: StepOutcome)
        ensures
            final(self).start() == old(self).start(),
            match index_next(*index, old(self).cursor(), token) {
                Some(state) => outcome == StepOutcome::Advanced && final(self).cursor() == state
                    && final(self).taken() == old(self).taken().push(token),
                None => outcome == StepOutcome::Reset && final(self).cursor() == old(self).start()
                    && final(self).taken() == Seq::<u32>::empty(),
            },
    {
        let next = index_next_state(index, self.state, token);
        self.settle(token, next)
    }

    /// Whether the walk can go on, has reached a final state of the index,
    /// or is stuck: it can go on where the index allows a token that the
    /// vocabulary knows.
    pub fn standing(&self, index: &Index, vocabulary: &Vocabulary) -> (standing: Standing)
        requires
            vocabulary.wf(),
        ensures
            standing == (if known_allowed(*index, self.cursor(), vocabulary@) {
                Standing::Open
            } else if index_final(*index, self.cursor()) {
                Standing::Finished
            } else {
                Standing::DeadEnd
            }),
    {
        let allowed = index_allowed_tokens(index, self.state);
        let ghost given = allowed;
        let routes = routes_of_ids(allowed, vocabulary);
        let open = routes.0.len() > 0;
        proof {
            if given.is_some() {
                lemma_resolved_some(vocabulary@, given.unwrap()@);
                assert(byte_views(routes.0@).len() == routes.0@.len());
                assert forall|id: u32|
                    given.unwrap()@.contains(id) == given.unwrap()@.to_set().contains(id) by {}
            }
        }
        standing_of(open, index_is_final(index, self.state))
    }
}

/// The index allows, in `state`, a token that the table knows.
pub open spec fn known_allowed(index: Index, state: u32, entries: Seq<(u32, Seq<u8>)>) -> bool {
    index_allowed(index, state).is_some() && exists|id: u32|
        #[trigger] index_allowed(index, state).unwrap().contains(id) && has_id(entries, id)
}

/// Some id is resolved exactly when the table knows one of the ids.
pub proof fn lemma_resolved_some(entries: Seq<(u32, Seq<u8>)>, ids: Seq<u32>)
    ensures
        resolved(entries, ids).len() > 0 <==> exists|id: u32|
            #[trigger] ids.contains(id) && has_id(entries, id),
    decreases ids.len(),
{
    if ids.len() > 0 {
        let rest = ids.drop_last();
        let last = ids.last();
        lemma_resolved_some(entries, rest);
        if exists|id: u32| #[trigger] rest.contains(id) && has_id(entries, id) {
            let id = choose|id: u32| #[trigger] rest.contains(id) && has_id(entries, id);
            let k = choose|k: int| 0 <= k < rest.len() && rest[k] == id;
            assert(ids[k] == id);
            assert(ids.contains(id) && has_id(entries, id));
        }
        if has_id(entries, last) {
            assert(ids[ids.len() - 1] == last);
            assert(ids.contains(last) && has_id(entries, last));
        }
        if exists|id: u32| #[trigger] ids.contains(id) && has_id(entries, id) {
            let id = choose|id: u32| #[trigger] ids.contains(id) && has_id(entries, id);
            let k = choose|k: int| 0 <= k < ids.len() && ids[k] == id;
            if k < rest.len() {
                assert(rest[k] == id);
                assert(rest.contains(id) && has_id(entries, id));
            } else {
                assert(id == last);
            }
        }
    }
}

} // verus!
