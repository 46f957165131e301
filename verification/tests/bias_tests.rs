use oraculum::automaton::{run_bytes, try_append, Automaton, TableAutomaton, DEAD};
use oraculum::bias::{allowed_tokens, allowed_tokens_by_scan};
use oraculum::lattice::TokenLattice;
use oraculum::session::{standing_of, AutomatonWalker, LatticeWalker, Standing, StepOutcome};
use oraculum::trie::TokenTrie;
use oraculum::vocabulary::Vocabulary;

fn vocabulary_of(tokens: &[(&str, u32)]) -> Vocabulary {
    let mut vocabulary = Vocabulary::new();
    for (token, id) in tokens {
        assert!(vocabulary.insert(token.as_bytes().to_vec(), *id));
    }
    vocabulary
}

/// Accepts exactly "ab" and "ac".
fn ab_or_ac() -> TableAutomaton {
    let mut automaton = TableAutomaton::new(3);
    automaton.set_transition(0, b'a', 1);
    automaton.set_transition(1, b'b', 2);
    automaton.set_transition(1, b'c', 2);
    automaton.set_accepting(2, true);
    automaton
}

fn sorted(mut ids: Vec<u32>) -> Vec<u32> {
    ids.sort();
    ids
}

#[test]
fn table_automaton_follows_its_table() {
    let automaton = ab_or_ac();
    assert_eq!(automaton.initial(), 0);
    assert_eq!(automaton.transition(0, b'a'), 1);
    assert_eq!(automaton.transition(0, b'b'), DEAD);
    assert_eq!(automaton.transition(1, b'c'), 2);
    assert_eq!(automaton.transition(2, b'a'), DEAD);
    assert_eq!(automaton.transition(DEAD, b'a'), DEAD);
    assert_eq!(automaton.transition(3, b'a'), 3);
    assert!(automaton.is_dead(DEAD));
    assert!(automaton.is_dead(3));
    assert!(!automaton.is_dead(2));
    assert!(automaton.is_accepting(2));
    assert!(!automaton.is_accepting(1));
    assert!(!automaton.is_accepting(DEAD));
    assert_eq!(run_bytes(&automaton, 0, b"ab"), 2);
    assert_eq!(run_bytes(&automaton, 0, b"ac"), 2);
    assert_eq!(run_bytes(&automaton, 0, b"a"), 1);
    assert_eq!(run_bytes(&automaton, 0, b""), 0);
    assert_eq!(run_bytes(&automaton, 0, b"abc"), DEAD);
    assert_eq!(run_bytes(&automaton, 0, b"ba"), DEAD);
}

#[test]
fn ab_or_ac_allows_a_and_ab_first() {
    let vocabulary = vocabulary_of(&[("a", 0), ("b", 1), ("c", 2), ("ab", 3)]);
    let trie = TokenTrie::build(&vocabulary);
    let automaton = ab_or_ac();
    let allowed = allowed_tokens(&trie, &automaton, automaton.initial());
    assert_eq!(sorted(allowed), vec![0, 3]);
}

#[test]
fn ab_or_ac_allows_b_and_c_after_a() {
    let vocabulary = vocabulary_of(&[("a", 0), ("b", 1), ("c", 2), ("ab", 3)]);
    let trie = TokenTrie::build(&vocabulary);
    let automaton = ab_or_ac();
    let mut walker = AutomatonWalker::new(&automaton);
    assert_eq!(walker.consume(&vocabulary, &automaton, 0), StepOutcome::Advanced);
    assert_eq!(walker.state(), 1);
    assert_eq!(walker.accumulated_output(), &vec![0]);
    assert!(!walker.at_match(&automaton));
    assert_eq!(sorted(walker.allowed_now(&trie, &automaton)), vec![1, 2]);
    assert_eq!(walker.consume(&vocabulary, &automaton, 2), StepOutcome::Advanced);
    assert!(walker.at_match(&automaton));
    assert_eq!(walker.accumulated_output(), &vec![0, 2]);
    assert_eq!(walker.allowed_now(&trie, &automaton), Vec::<u32>::new());
}

#[test]
fn walk_along_the_trie_agrees_with_the_scan() {
    let vocabulary = vocabulary_of(&[
        ("a", 0),
        ("b", 1),
        ("c", 2),
        ("ab", 3),
        ("abc", 4),
        ("ac", 5),
        ("", 6),
        ("ca", 7),
    ]);
    let trie = TokenTrie::build(&vocabulary);
    let automaton = ab_or_ac();
    let expected: [(u32, Vec<u32>); 5] = [
        (0, vec![0, 3, 5, 6]),
        (1, vec![1, 2, 6]),
        (2, vec![6]),
        (3, Vec::<u32>::new()),
        (DEAD, Vec::<u32>::new()),
    ];
    for (state, ids) in expected {
        let by_trie = sorted(allowed_tokens(&trie, &automaton, state));
        let by_scan = sorted(allowed_tokens_by_scan(&vocabulary, &automaton, state));
        assert_eq!(by_trie, ids);
        assert_eq!(by_scan, ids);
    }
}

#[test]
fn trie_maps_bytes_to_ids() {
    let vocabulary = vocabulary_of(&[("a", 10), ("abc", 11), ("b", 12)]);
    let trie = TokenTrie::build(&vocabulary);
    assert!(!trie.is_root_only());
    assert_eq!(trie.lookup(b"a"), Some(10));
    assert_eq!(trie.lookup(b"abc"), Some(11));
    assert_eq!(trie.lookup(b"b"), Some(12));
    assert_eq!(trie.lookup(b"ab"), None);
    assert_eq!(trie.lookup(b""), None);
    assert_eq!(trie.lookup(b"abcd"), None);
    assert_eq!(trie.lookup(b"c"), None);
}

#[test]
fn building_twice_gives_the_same_trie() {
    let vocabulary = vocabulary_of(&[("a", 10), ("abc", 11), ("b", 12), ("ab", 1)]);
    let first = TokenTrie::build(&vocabulary);
    let second = TokenTrie::build(&vocabulary);
    let probes: [&[u8]; 7] = [b"", b"a", b"ab", b"abc", b"abcd", b"b", b"c"];
    for probe in probes {
        assert_eq!(first.lookup(probe), second.lookup(probe));
        assert_eq!(first.lookup(probe), vocabulary.get_id(probe));
    }
}

#[test]
fn empty_vocabulary_allows_nothing() {
    let vocabulary = Vocabulary::new();
    let trie = TokenTrie::build(&vocabulary);
    assert!(trie.is_root_only());
    assert_eq!(trie.lookup(b""), None);
    let automaton = ab_or_ac();
    for state in [0, 1, 2, 3, DEAD] {
        assert_eq!(allowed_tokens(&trie, &automaton, state), Vec::<u32>::new());
        assert_eq!(allowed_tokens_by_scan(&vocabulary, &automaton, state), Vec::<u32>::new());
    }
}

#[test]
fn automaton_walk_starts_over_on_a_token_that_is_not_allowed() {
    let vocabulary = vocabulary_of(&[("a", 0), ("b", 1), ("c", 2), ("ab", 3)]);
    let automaton = ab_or_ac();
    let mut walker = AutomatonWalker::new(&automaton);
    assert_eq!(walker.consume(&vocabulary, &automaton, 1), StepOutcome::Reset);
    assert_eq!(walker.state(), 0);
    assert_eq!(walker.accumulated_output(), &Vec::<u32>::new());
    assert_eq!(walker.consume(&vocabulary, &automaton, 0), StepOutcome::Advanced);
    assert_eq!(walker.consume(&vocabulary, &automaton, 0), StepOutcome::Reset);
    assert_eq!(walker.state(), 0);
    assert_eq!(walker.accumulated_output(), &Vec::<u32>::new());
    assert_eq!(walker.consume(&vocabulary, &automaton, 3), StepOutcome::Advanced);
    assert_eq!(walker.state(), 2);
    assert_eq!(walker.consume(&vocabulary, &automaton, 99), StepOutcome::Reset);
    assert_eq!(walker.state(), 0);
    assert_eq!(walker.accumulated_output(), &Vec::<u32>::new());
    walker.consume(&vocabulary, &automaton, 0);
    walker.reset(&automaton);
    assert_eq!(walker.state(), 0);
    assert_eq!(walker.accumulated_output(), &Vec::<u32>::new());
}

#[test]
fn lattice_walk_takes_allowed_tokens_and_starts_over_on_others() {
    let vocabulary = vocabulary_of(&[("a", 0), ("aa", 1), ("b", 2)]);
    let lattice = TokenLattice::build(b"aab", &vocabulary).unwrap();
    let mut walker = LatticeWalker::new();
    assert_eq!(walker.position(), 0);
    assert_eq!(walker.standing(&lattice), Standing::Open);
    let mut allowed = walker.allowed_now(&lattice);
    allowed.sort();
    assert_eq!(allowed, vec![(0, 1), (1, 2)]);
    assert_eq!(walker.consume(&lattice, 0), StepOutcome::Advanced);
    assert_eq!(walker.position(), 1);
    assert_eq!(walker.consume(&lattice, 1), StepOutcome::Reset);
    assert_eq!(walker.position(), 0);
    assert_eq!(walker.accumulated_output(), &Vec::<u32>::new());
    assert_eq!(walker.consume(&lattice, 1), StepOutcome::Advanced);
    assert_eq!(walker.position(), 2);
    assert_eq!(walker.consume(&lattice, 2), StepOutcome::Advanced);
    assert_eq!(walker.position(), 3);
    assert_eq!(walker.accumulated_output(), &vec![1, 2]);
    assert_eq!(walker.standing(&lattice), Standing::Finished);
    assert_eq!(walker.allowed_now(&lattice), Vec::<(u32, usize)>::new());
    assert_eq!(walker.consume(&lattice, 0), StepOutcome::Reset);
    assert_eq!(walker.position(), 0);
    assert_eq!(walker.accumulated_output(), &Vec::<u32>::new());
}

#[test]
fn lattice_walk_sees_a_dead_end() {
    let vocabulary = vocabulary_of(&[("a", 0), ("c", 2)]);
    let lattice = TokenLattice::build(b"abc", &vocabulary).unwrap();
    let mut walker = LatticeWalker::new();
    assert_eq!(walker.consume(&lattice, 0), StepOutcome::Advanced);
    assert_eq!(walker.standing(&lattice), Standing::DeadEnd);
    walker.reset();
    assert_eq!(walker.position(), 0);
    assert_eq!(walker.accumulated_output(), &Vec::<u32>::new());
}

#[test]
fn try_append_stops_at_a_dead_state() {
    let automaton = ab_or_ac();
    assert_eq!(try_append(&automaton, 0, b'a'), Some(1));
    assert_eq!(try_append(&automaton, 0, b'b'), None);
    assert_eq!(try_append(&automaton, 1, b'c'), Some(2));
    assert_eq!(try_append(&automaton, 2, b'c'), None);
    assert_eq!(try_append(&automaton, DEAD, b'a'), None);
}

#[test]
fn allowed_tokens_come_in_the_order_of_the_trie() {
    let vocabulary = vocabulary_of(&[("b", 1), ("ab", 3), ("a", 0), ("ac", 5)]);
    let trie = TokenTrie::build(&vocabulary);
    let mut automaton = TableAutomaton::new(2);
    for byte in [b'a', b'b', b'c'] {
        automaton.set_transition(0, byte, 1);
        automaton.set_transition(1, byte, 1);
    }
    assert_eq!(allowed_tokens(&trie, &automaton, 0), vec![1, 0, 3, 5]);
    assert_eq!(allowed_tokens_by_scan(&vocabulary, &automaton, 0), vec![1, 3, 0, 5]);
}

#[test]
fn standing_of_goes_by_open_then_finished() {
    assert_eq!(standing_of(true, true), Standing::Open);
    assert_eq!(standing_of(true, false), Standing::Open);
    assert_eq!(standing_of(false, true), Standing::Finished);
    assert_eq!(standing_of(false, false), Standing::DeadEnd);
}

#[test]
fn automaton_walk_knows_where_it_stands() {
    let vocabulary = vocabulary_of(&[("a", 0), ("b", 1), ("ab", 3)]);
    let trie = TokenTrie::build(&vocabulary);
    let automaton = ab_or_ac();
    let mut walker = AutomatonWalker::new(&automaton);
    assert_eq!(walker.standing(&trie, &automaton), Standing::Open);
    assert_eq!(walker.consume(&vocabulary, &automaton, 3), StepOutcome::Advanced);
    assert_eq!(walker.standing(&trie, &automaton), Standing::Finished);
    let stuck = vocabulary_of(&[("a", 0), ("x", 1)]);
    let stuck_trie = TokenTrie::build(&stuck);
    let mut walker = AutomatonWalker::new(&automaton);
    assert_eq!(walker.consume(&stuck, &automaton, 0), StepOutcome::Advanced);
    assert_eq!(walker.standing(&stuck_trie, &automaton), Standing::DeadEnd);
}
