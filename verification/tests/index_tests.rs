use oraculum::indexed::{get_routes, routes_of_ids, IndexWalker};
use oraculum::session::{Standing, StepOutcome};
use oraculum::vocabulary::Vocabulary;
use outlines_core::index::Index;

const END: u32 = 26;

fn vocabulary_of(tokens: &[(&str, u32)]) -> Vocabulary {
    let mut vocabulary = Vocabulary::new();
    for (token, id) in tokens {
        assert!(vocabulary.insert(token.as_bytes().to_vec(), *id));
    }
    vocabulary
}

fn index_of(pattern: &str, vocabulary: &Vocabulary) -> Index {
    let mut known = outlines_core::vocabulary::Vocabulary::new(END);
    for (id, token) in vocabulary.all_tokens() {
        known.try_insert(token, id).unwrap();
    }
    Index::new(pattern, &known).unwrap()
}

fn sorted(mut tokens: Vec<Vec<u8>>) -> Vec<Vec<u8>> {
    tokens.sort();
    tokens
}

#[test]
fn routes_of_ids_names_known_tokens_and_counts_all() {
    let vocabulary = vocabulary_of(&[("a", 0), ("b", 1)]);
    assert_eq!(
        routes_of_ids(Some(vec![1, 9, 0, 1]), &vocabulary),
        (vec![b"b".to_vec(), b"a".to_vec(), b"b".to_vec()], 4)
    );
    assert_eq!(routes_of_ids(Some(Vec::<u32>::new()), &vocabulary), (Vec::<Vec<u8>>::new(), 0));
    assert_eq!(routes_of_ids(None, &vocabulary), (Vec::<Vec<u8>>::new(), 0));
}

#[test]
fn index_allows_a_and_ab_first() {
    let vocabulary = vocabulary_of(&[("a", 0), ("b", 1), ("c", 2), ("ab", 3)]);
    let index = index_of("ab|ac", &vocabulary);
    let walker = IndexWalker::at_start_of(&index);
    assert_eq!(walker.state(), index.initial_state());
    let (tokens, seen) = get_routes(&index, walker.state(), &vocabulary);
    assert_eq!(sorted(tokens), vec![b"a".to_vec(), b"ab".to_vec()]);
    assert_eq!(seen, 2);
}

#[test]
fn index_walk_takes_allowed_tokens_and_starts_over_on_others() {
    let vocabulary = vocabulary_of(&[("a", 0), ("b", 1), ("c", 2), ("ab", 3)]);
    let index = index_of("ab|ac", &vocabulary);
    let first = index.initial_state();
    let mut walker = IndexWalker::at_start_of(&index);
    assert_eq!(walker.consume(&index, 1), StepOutcome::Reset);
    assert_eq!(walker.state(), first);
    assert_eq!(walker.consume(&index, 0), StepOutcome::Advanced);
    assert_eq!(walker.accumulated_output(), &vec![0]);
    let (tokens, _) = get_routes(&index, walker.state(), &vocabulary);
    assert_eq!(sorted(tokens), vec![b"b".to_vec(), b"c".to_vec()]);
    assert_eq!(walker.consume(&index, 2), StepOutcome::Advanced);
    assert_eq!(walker.accumulated_output(), &vec![0, 2]);
    assert!(index.is_final_state(&walker.state()));
    assert_eq!(walker.consume(&index, 0), StepOutcome::Reset);
    assert_eq!(walker.state(), first);
    assert_eq!(walker.accumulated_output(), &Vec::<u32>::new());
    assert_eq!(walker.consume(&index, 99), StepOutcome::Reset);
    assert_eq!(walker.state(), first);
}

#[test]
fn unknown_state_gives_no_routes() {
    let vocabulary = vocabulary_of(&[("a", 0)]);
    let index = index_of("a", &vocabulary);
    assert_eq!(get_routes(&index, 4000000000, &vocabulary), (Vec::<Vec<u8>>::new(), 0));
}

#[test]
fn settle_moves_or_starts_over() {
    let mut walker = IndexWalker::new(7);
    assert_eq!(walker.settle(3, Some(9)), StepOutcome::Advanced);
    assert_eq!(walker.state(), 9);
    assert_eq!(walker.accumulated_output(), &vec![3]);
    assert_eq!(walker.settle(4, Some(2)), StepOutcome::Advanced);
    assert_eq!(walker.accumulated_output(), &vec![3, 4]);
    assert_eq!(walker.settle(5, None), StepOutcome::Reset);
    assert_eq!(walker.state(), 7);
    assert_eq!(walker.accumulated_output(), &Vec::<u32>::new());
    walker.settle(1, Some(1));
    walker.reset();
    assert_eq!(walker.state(), 7);
    assert_eq!(walker.accumulated_output(), &Vec::<u32>::new());
}

#[test]
fn index_walk_knows_where_it_stands() {
    let vocabulary = vocabulary_of(&[("a", 0), ("b", 1), ("c", 2), ("ab", 3)]);
    let index = index_of("ab|ac", &vocabulary);
    let mut walker = IndexWalker::at_start_of(&index);
    assert_eq!(walker.standing(&index, &vocabulary), Standing::Open);
    assert_eq!(walker.consume(&index, 3), StepOutcome::Advanced);
    assert_eq!(walker.standing(&index, &vocabulary), Standing::Finished);
    let unknown = IndexWalker::new(4000000000);
    assert_eq!(unknown.standing(&index, &vocabulary), Standing::DeadEnd);
    let few = vocabulary_of(&[("x", 9)]);
    let walker = IndexWalker::at_start_of(&index);
    assert_eq!(walker.standing(&index, &few), Standing::DeadEnd);
}
