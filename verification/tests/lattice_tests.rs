use oraculum::lattice::TokenLattice;
use oraculum::segmentation::BuildError;
use oraculum::vocabulary::Vocabulary;

fn vocabulary_of(tokens: &[(&str, u32)]) -> Vocabulary {
    let mut vocabulary = Vocabulary::new();
    for (token, id) in tokens {
        assert!(vocabulary.insert(token.as_bytes().to_vec(), *id));
    }
    vocabulary
}

fn sorted(mut paths: Vec<Vec<u32>>) -> Vec<Vec<u32>> {
    paths.sort();
    paths
}

#[test]
fn new_lattice_has_no_edges() {
    let lattice = TokenLattice::new(4);
    assert_eq!(lattice.input_len(), 4);
    assert_eq!(lattice.edge_count(), 0);
    assert_eq!(lattice.edges(), Vec::<(usize, usize, u32)>::new());
    for position in 0..=4 {
        assert_eq!(lattice.routes_from(position), Vec::<(u32, usize)>::new());
    }
}

#[test]
fn add_threads_edges_by_source() {
    let mut lattice = TokenLattice::new(3);
    lattice.add(0, 1, &7);
    lattice.add(1, 3, &8);
    lattice.add(0, 2, &9);
    lattice.add(0, 3, &10);
    assert_eq!(lattice.edges(), vec![(0, 1, 7), (1, 3, 8), (0, 2, 9), (0, 3, 10)]);
    assert_eq!(lattice.routes_from(0), vec![(7, 1), (9, 2), (10, 3)]);
    assert_eq!(lattice.routes_from(1), vec![(8, 3)]);
    assert_eq!(lattice.routes_from(2), Vec::<(u32, usize)>::new());
    assert_eq!(lattice.routes_from(3), Vec::<(u32, usize)>::new());
    assert_eq!(lattice.edge_count(), 4);
}

#[test]
fn paths_follow_the_order_of_the_edges() {
    let mut lattice = TokenLattice::new(2);
    lattice.add(0, 2, &5);
    lattice.add(0, 1, &1);
    lattice.add(1, 2, &1);
    assert_eq!(lattice.enumerate_all_paths(), vec![vec![5], vec![1, 1]]);
    assert_eq!(lattice.enumerate_all_paths(), vec![vec![5], vec![1, 1]]);
}

#[test]
fn repeated_a_has_every_overlapping_edge() {
    let vocabulary = vocabulary_of(&[("a", 0), ("aa", 1), ("aaa", 2)]);
    let lattice = TokenLattice::build(b"aaaa", &vocabulary).unwrap();
    let mut edges = lattice.edges();
    edges.sort();
    assert_eq!(
        edges,
        vec![
            (0, 1, 0),
            (0, 2, 1),
            (0, 3, 2),
            (1, 2, 0),
            (1, 3, 1),
            (1, 4, 2),
            (2, 3, 0),
            (2, 4, 1),
            (3, 4, 0),
        ]
    );
}

#[test]
fn repeated_a_has_every_tokenization() {
    let vocabulary = vocabulary_of(&[("a", 0), ("aa", 1), ("aaa", 2)]);
    let lattice = TokenLattice::build(b"aaaa", &vocabulary).unwrap();
    let paths = sorted(lattice.enumerate_all_paths());
    assert_eq!(
        paths,
        vec![
            vec![0, 0, 0, 0],
            vec![0, 0, 1],
            vec![0, 1, 0],
            vec![0, 2],
            vec![1, 0, 0],
            vec![1, 1],
            vec![2, 0],
        ]
    );
    for path in &paths {
        let spelled: usize = path.iter().map(|id| (*id as usize) + 1).sum();
        assert_eq!(spelled, 4);
    }
}

#[test]
fn every_edge_covers_the_bytes_of_its_token() {
    let vocabulary = vocabulary_of(&[("ab", 10), ("b", 11), ("abc", 12), ("c", 13), ("x", 14)]);
    let input = b"abcab";
    let lattice = TokenLattice::build(input, &vocabulary).unwrap();
    let edges = lattice.edges();
    assert_eq!(edges.len(), 6);
    for (start, end, id) in edges {
        assert_eq!(vocabulary.get_token(id).unwrap(), input[start..end].to_vec());
    }
}

#[test]
fn every_path_spells_the_input() {
    let vocabulary = vocabulary_of(&[("ab", 10), ("b", 11), ("abc", 12), ("c", 13), ("a", 15)]);
    let input = b"abcab";
    let lattice = TokenLattice::build(input, &vocabulary).unwrap();
    let paths = lattice.enumerate_all_paths();
    assert_eq!(paths.len(), 6);
    for path in paths {
        let mut spelled = Vec::new();
        for id in path {
            spelled.extend(vocabulary.get_token(id).unwrap());
        }
        assert_eq!(spelled, input.to_vec());
    }
}

#[test]
fn empty_vocabulary_gives_no_edges() {
    let vocabulary = Vocabulary::new();
    let lattice = TokenLattice::build(b"anything", &vocabulary).unwrap();
    assert_eq!(lattice.edge_count(), 0);
    assert_eq!(lattice.enumerate_all_paths(), Vec::<Vec<u32>>::new());
    let empty = TokenLattice::build(b"", &vocabulary).unwrap();
    assert_eq!(empty.edge_count(), 0);
    assert_eq!(empty.enumerate_all_paths(), vec![Vec::<u32>::new()]);
}

#[test]
fn matches_out_of_shape_are_passed_over() {
    let vocabulary = vocabulary_of(&[("a", 3), ("b", 4)]);
    let matches = vec![(0, 0, 1), (2, 0, 1), (1, 1, 1), (1, 2, 1), (1, 1, 3), (1, 1, 2)];
    let lattice = TokenLattice::from_matches(2, &vocabulary, &matches).unwrap();
    assert_eq!(lattice.edges(), vec![(0, 1, 3), (1, 2, 4)]);
}

#[test]
fn longest_input_is_refused() {
    let vocabulary = Vocabulary::new();
    let outcome = TokenLattice::from_matches(usize::MAX, &vocabulary, &Vec::<(usize, usize, usize)>::new());
    assert!(matches!(outcome, Err(BuildError::InputTooLong)));
}

#[test]
fn input_without_a_tokenization_has_no_path() {
    let vocabulary = vocabulary_of(&[("a", 0), ("c", 2)]);
    let lattice = TokenLattice::build(b"abc", &vocabulary).unwrap();
    assert_eq!(lattice.edges(), vec![(0, 1, 0), (2, 3, 2)]);
    assert_eq!(lattice.enumerate_all_paths(), Vec::<Vec<u32>>::new());
}

#[test]
fn sorted_routes_go_by_token_then_target() {
    let mut lattice = TokenLattice::new(5);
    lattice.add(0, 3, &9);
    lattice.add(0, 1, &9);
    lattice.add(1, 2, &0);
    lattice.add(0, 2, &4);
    lattice.add(0, 5, &4);
    lattice.add(0, 2, &4);
    assert_eq!(lattice.routes_from(0), vec![(9, 3), (9, 1), (4, 2), (4, 5), (4, 2)]);
    assert_eq!(lattice.sorted_routes_from(0), vec![(4, 2), (4, 2), (4, 5), (9, 1), (9, 3)]);
    assert_eq!(lattice.sorted_routes_from(1), vec![(0, 2)]);
    assert_eq!(lattice.sorted_routes_from(5), Vec::<(u32, usize)>::new());
}

#[test]
fn get_routes_names_the_tokens_it_knows() {
    let vocabulary = vocabulary_of(&[("a", 0), ("aa", 1)]);
    let mut lattice = TokenLattice::new(2);
    lattice.add(0, 2, &1);
    lattice.add(0, 1, &5);
    lattice.add(0, 1, &0);
    assert_eq!(
        lattice.get_routes(0, &vocabulary),
        vec![(b"aa".to_vec(), 1, 2), (b"a".to_vec(), 0, 1)]
    );
    assert_eq!(lattice.get_routes(1, &vocabulary), Vec::<(Vec<u8>, u32, usize)>::new());
}

#[test]
fn tokens_without_bytes_give_no_edge() {
    let vocabulary = vocabulary_of(&[("", 0), ("a", 1)]);
    let lattice = TokenLattice::build(b"aa", &vocabulary).unwrap();
    assert_eq!(lattice.edges(), vec![(0, 1, 1), (1, 2, 1)]);
    assert_eq!(lattice.enumerate_all_paths(), vec![vec![1, 1]]);
}

#[test]
fn repeated_a_has_each_edge_once() {
    let vocabulary = vocabulary_of(&[("a", 0), ("aa", 1), ("aaa", 2)]);
    let lattice = TokenLattice::build(b"aaaa", &vocabulary).unwrap();
    assert_eq!(lattice.edge_count(), 9);
    let counts: Vec<usize> =
        (0..=4).map(|position| lattice.get_routes(position, &vocabulary).len()).collect();
    assert_eq!(counts, vec![3, 3, 2, 1, 0]);
    let mut first = lattice.get_routes(0, &vocabulary);
    first.sort();
    assert_eq!(
        first,
        vec![(b"a".to_vec(), 0, 1), (b"aa".to_vec(), 1, 2), (b"aaa".to_vec(), 2, 3)]
    );
    let mut last = lattice.get_routes(3, &vocabulary);
    last.sort();
    assert_eq!(last, vec![(b"a".to_vec(), 0, 4)]);
}
