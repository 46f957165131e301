//! The automaton that judges byte strings: an interface, and a
//! table-driven automaton that offers it.

use vstd::prelude::*;

verus! {

/// The state that no transition leaves alive in a `TableAutomaton`.
pub const DEAD: u32 = u32::MAX;

/// A deterministic automaton over bytes whose dead states stay dead.
pub trait Automaton {
    spec fn wf(&self) -> bool;

    spec fn start(&self) -> u32;

    /// The state after `state` has read `byte`.
    spec fn next_state(&self, state: u32, byte: u8) -> u32;

    /// No byte string leads from `state` to a match.
    spec fn dead(&self, state: u32) -> bool;

    /// The bytes read so far are a match.
    spec fn accepting(&self, state: u32) -> bool;

    fn initial(&self) -> (state: u32)
        requires
            self.wf(),
        ensures
            state == self.start(),
    ;

    fn transition(&self, state: u32, byte: u8) -> (next: u32)
        requires
            self.wf(),
        ensures
            next == self.next_state(state, byte),
    ;

    fn is_dead(&self, state: u32) -> (dead: bool)
        requires
            self.wf(),
        ensures
            dead == self.dead(state),
    ;

    fn is_accepting(&self, state: u32) -> (accepting: bool)
        requires
            self.wf(),
        ensures
            accepting == self.accepting(state),
    ;

    /// Once dead, a state is not revived by any byte.
    proof fn dead_stays_dead(&self, state: u32, byte: u8)
        requires
            self.wf(),
            self.dead(state),
        ensures
            self.dead(self.next_state(state, byte)),
    ;
}

/// The state after `state` has read `bytes` from first to last.
pub open spec fn run<A: Automaton>(automaton: &A, state: u32, bytes: Seq<u8>) -> u32
    decreases bytes.len(),
{
    if bytes.len() == 0 {
        state
    } else {
        run(automaton, automaton.next_state(state, bytes[0]), bytes.skip(1))
    }
}

/// A dead state stays dead over every byte string.
pub proof fn lemma_dead_run<A: Automaton>(automaton: &A, state: u32, bytes: Seq<u8>)
    requires
        automaton.wf(),
        automaton.dead(state),
    ensures
        automaton.dead(run(automaton, state, bytes)),
    decreases bytes.len(),
{
    if bytes.len() > 0 {
        automaton.dead_stays_dead(state, bytes[0]);
        lemma_dead_run(automaton, automaton.next_state(state, bytes[0]), bytes.skip(1));
    }
}

/// Feeds one byte to the automaton: the state it reaches, unless that
/// state is dead.
pub fn try_append<A: Automaton>(automaton: &A, state: u32, byte: u8) -> (next: Option<u32>)
    requires
        automaton.wf(),
    ensures
        next == (if automaton.dead(automaton.next_state(state, byte)) {
            None
        } else {
            Some(automaton.next_state(state, byte))
        }),
{
    let next = automaton.transition(state, byte);
    if automaton.is_dead(next) {
        None
    } else {
        Some(next)
    }
}

/// Feeds `bytes` to the automaton from `state`.
pub fn run_bytes<A: Automaton>(automaton: &A, state: u32, bytes: &[u8]) -> (reached: u32)
    requires
        automaton.wf(),
    ensures
        reached == run(automaton, state, bytes@),
{
    let mut current: u32 = state;
    let mut i: usize = 0;
    assert(bytes@.skip(0) =~= bytes@);
    while i < bytes.len()
        invariant
            automaton.wf(),
            i <= bytes.len(),
            run(automaton, state, bytes@) == run(automaton, current, bytes@.skip(i as int)),
        decreases bytes.len() - i,
    {
        assert(bytes@.skip(i as int).skip(1) =~= bytes@.skip(i + 1));
        current = automaton.transition(current, bytes[i]);
        i = i + 1;
    }
    current
}

/// An automaton given by its transition table: one row of 256 next states
/// for each live state. Every other state is dead.
pub struct TableAutomaton {
    rows: Vec<Vec<u32>>,
    accept: Vec<bool>,
    first: u32,
}

impl TableAutomaton {
    /// The number of live states.
    pub closed spec fn states(&self) -> int {
        self.rows.len() as int
    }

    /// What the table holds for a live state and a byte.
    pub closed spec fn entry(&self, state: int, byte: u8) -> u32 {
        self.rows[state][byte as int]
    }

    /// Whether the table marks a live state as accepting.
    pub closed spec fn accepts(&self, state: int) -> bool {
        self.accept[state]
    }

    /// Every live state has a row of 256 next states and a mark.
    pub closed spec fn table_wf(&self) -> bool {
        &&& self.accept.len() == self.rows.len()
        &&& forall|s: int| 0 <= s < self.rows.len() ==> (#[trigger] self.rows[s]).len() == 256
    }

    /// An automaton of `states` live states, numbered from 0, that starts
    /// in state 0, accepts nothing and sends every byte to `DEAD`.
    pub fn new(states: usize) -> (automaton: Self)
        ensures
            automaton.table_wf(),
            automaton.states() == states,
            automaton.start() == 0,
            forall|s: int, b: u8| 0 <= s < states ==> automaton.entry(s, b) == DEAD,
            forall|s: int| 0 <= s < states ==> !automaton.accepts(s),
    {
        let mut rows: Vec<Vec<u32>> = Vec::new();
        let mut accept: Vec<bool> = Vec::new();
        let mut s: usize = 0;
        while s < states
            invariant
                s <= states,
                rows.len() == s,
                accept.len() == s,
                forall|k: int| 0 <= k < s ==> (#[trigger] rows[k]).len() == 256,
                forall|k: int, b: int| 0 <= k < s && 0 <= b < 256 ==> (#[trigger] rows[k][b]) == DEAD,
                forall|k: int| 0 <= k < s ==> !accept[k],
            decreases states - s,
        {
            let mut row: Vec<u32> = Vec::new();
            let mut b: usize = 0;
            while b < 256
                invariant
                    b <= 256,
                    row.len() == b,
                    forall|j: int| 0 <= j < b ==> row[j] == DEAD,
                decreases 256 - b,
            {
                row.push(DEAD);
                b = b + 1;
            }
            rows.push(row);
            accept.push(false);
            s = s + 1;
        }
        TableAutomaton { rows, accept, first: 0 }
    }

    /// Makes `byte` lead from the live state `from` to `to`.
    pub fn set_transition(&mut self, from: u32, byte: u8, to: u32)
        requires
            old(self).table_wf(),
            from < old(self).states(),
        ensures
            final(self).table_wf(),
            final(self).states() == old(self).states(),
            final(self).start() == old(self).start(),
            forall|s: int, b: u8|
                0 <= s < final(self).states() ==> final(self).entry(s, b) == (if s == from && b
                    == byte {
                    to
                } else {
                    old(self).entry(s, b)
                }),
            forall|s: int| 0 <= s < final(self).states() ==> final(self).accepts(s) == old(self).accepts(s),
    {
        let mut row: Vec<u32> = Vec::new();
        let mut b: usize = 0;
        while b < 256
            invariant
                self.table_wf(),
                from < self.rows.len(),
                b <= 256,
                row.len() == b,
                forall|j: int| 0 <= j < b ==> row[j] == (if j == byte { to } else { self.rows[from as int][j] }),
            decreases 256 - b,
        {
            if b == byte as usize {
                row.push(to);
            } else {
                row.push(self.rows[from as usize][b]);
            }
            b = b + 1;
        }
        self.rows.set(from as usize, row);
    }

    /// Makes the live state `state` accepting or not.
    pub fn set_accepting(&mut self, state: u32, accepting: bool)
        requires
            old(self).table_wf(),
            state < old(self).states(),
        ensures
            final(self).table_wf(),
            final(self).states() == old(self).states(),
            final(self).start() == old(self).start(),
            forall|s: int, b: u8|
                0 <= s < final(self).states() ==> final(self).entry(s, b) == old(self).entry(s, b),
            forall|s: int|
                0 <= s < final(self).states() ==> final(self).accepts(s) == (if s == state {
                    accepting
                } else {
                    old(self).accepts(s)
                }),
    {
        self.accept.set(state as usize, accepting);
    }
}

impl Automaton for TableAutomaton {
    open spec fn wf(&self) -> bool {
        self.table_wf()
    }

    closed spec fn start(&self) -> u32 {
        self.first
    }

    open spec fn next_state(&self, state: u32, byte: u8) -> u32 {
        if state < self.states() {
            self.entry(state as int, byte)
        } else {
            state
        }
    }

    open spec fn dead(&self, state: u32) -> bool {
        state >= self.states()
    }

    open spec fn accepting(&self, state: u32) -> bool {
        state < self.states() && self.accepts(state as int)
    }

    fn initial(&self) -> (state: u32) {
        self.first
    }

    fn transition(&self, state: u32, byte: u8) -> (next: u32) {
        if (state as usize) < self.rows.len() {
            self.rows[state as usize][byte as usize]
        } else {
            state
        }
    }

    fn is_dead(&self, state: u32) -> (dead: bool) {
        state as usize >= self.rows.len()
    }

    fn is_accepting(&self, state: u32) -> (accepting: bool) {
        (state as usize) < self.rows.len() && self.accept[state as usize]
    }

    proof fn dead_stays_dead(&self, state: u32, byte: u8) {
    }
}

} // verus!
