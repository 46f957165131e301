//! Building the lattice of an input: one edge for each occurrence of a
//! token of the vocabulary.

use crate::lattice::{routes_of, TokenLattice};
use crate::paths::{edges_match, lemma_walk_enumerated, paths_from, spelling, walks};
use crate::scanner::{find_overlapping, occurs, overlapping_matches};
use crate::vocabulary::{
    bytes_of, distinct, has_id, lemma_bytes_of_entry, token_column, Vocabulary,
};
use vstd::prelude::*;

verus! {

/// Why no lattice came of an input.
#[derive(Clone, Copy, Debug, PartialEq, Eq)]
pub enum BuildError {
    /// The searcher for the vocabulary's tokens could not be built.
    Scanner,
    /// The input is as long as the largest number a position can be.
    InputTooLong,
    /// There are more occurrences than the lattice can number.
    TooManyEdges,
}

/// A match that stands for an edge: a token of the vocabulary, over at
/// least one byte, inside the input.
pub open spec fn usable(entries: Seq<(u32, Seq<u8>)>, length: int, m: (usize, usize, usize)) -> bool {
    m.0 < entries.len() && m.1 < m.2 <= length
}

/// The edges that a list of matches stands for, in the order of the matches:
/// each usable match gives the edge from its start to its end under the id
/// of its token.
pub open spec fn edges_of(
    entries: Seq<(u32, Seq<u8>)>,
    length: int,
    matches: Seq<(usize, usize, usize)>,
) -> Seq<(usize, usize, u32)>
    decreases matches.len(),
{
    if matches.len() == 0 {
        Seq::empty()
    } else {
        let rest = edges_of(entries, length, matches.drop_last());
        let m = matches.last();
        if usable(entries, length, m) {
            rest.push((m.1, m.2, entries[m.0 as int].0))
        } else {
            rest
        }
    }
}

proof fn lemma_edges_of_prefix(
    entries: Seq<(u32, Seq<u8>)>,
    length: int,
    matches: Seq<(usize, usize, usize)>,
    k: int,
)
    requires
        0 <= k <= matches.len(),
    ensures
        edges_of(entries, length, matches.subrange(0, k)).len() <= edges_of(
            entries,
            length,
            matches,
        ).len(),
    decreases matches.len() - k,
{
    if k < matches.len() {
        lemma_edges_of_prefix(entries, length, matches, k + 1);
        assert(matches.subrange(0, k + 1).drop_last() =~= matches.subrange(0, k));
    } else {
        assert(matches.subrange(0, k) =~= matches);
    }
}

/// Matches of which none comes twice, over a table without repeated ids,
/// give edges of which none comes twice.
pub proof fn lemma_edges_of_distinct(
    entries: Seq<(u32, Seq<u8>)>,
    length: int,
    matches: Seq<(usize, usize, usize)>,
)
    requires
        distinct(entries),
        matches.no_duplicates(),
    ensures
        edges_of(entries, length, matches).no_duplicates(),
    decreases matches.len(),
{
    if matches.len() > 0 {
        let rest = edges_of(entries, length, matches.drop_last());
        lemma_edges_of_distinct(entries, length, matches.drop_last());
        let m = matches.last();
        if usable(entries, length, m) {
            let edge = (m.1, m.2, entries[m.0 as int].0);
            assert forall|j: int| 0 <= j < rest.len() implies rest[j] != edge by {
                lemma_edge_has_match(entries, length, matches.drop_last(), j);
                let k = choose|k: int|
                    0 <= k < matches.drop_last().len() && usable(
                        entries,
                        length,
                        #[trigger] matches.drop_last()[k],
                    ) && rest[j] == (
                        matches.drop_last()[k].1,
                        matches.drop_last()[k].2,
                        entries[matches.drop_last()[k].0 as int].0,
                    );
                let other = matches[k];
                assert(other == matches.drop_last()[k]);
                assert(other != matches[matches.len() - 1]);
                if rest[j] == edge {
                    if other.0 < m.0 {
                        assert(entries[other.0 as int].0 != entries[m.0 as int].0);
                    } else if m.0 < other.0 {
                        assert(entries[m.0 as int].0 != entries[other.0 as int].0);
                    }
                }
            }
        }
    }
}

/// Every edge comes of a usable match.
pub proof fn lemma_edge_has_match(
    entries: Seq<(u32, Seq<u8>)>,
    length: int,
    matches: Seq<(usize, usize, usize)>,
    j: int,
)
    requires
        0 <= j < edges_of(entries, length, matches).len(),
    ensures
        exists|k: int|
            0 <= k < matches.len() && usable(entries, length, #[trigger] matches[k]) && edges_of(
                entries,
                length,
                matches,
            )[j] == (matches[k].1, matches[k].2, entries[matches[k].0 as int].0),
    decreases matches.len(),
{
    let rest = edges_of(entries, length, matches.drop_last());
    if j < rest.len() {
        lemma_edge_has_match(entries, length, matches.drop_last(), j);
        let k = choose|k: int|
            0 <= k < matches.drop_last().len() && usable(
                entries,
                length,
                #[trigger] matches.drop_last()[k],
            ) && rest[j] == (
                matches.drop_last()[k].1,
                matches.drop_last()[k].2,
                entries[matches.drop_last()[k].0 as int].0,
            );
        assert(matches[k] == matches.drop_last()[k]);
    } else {
        assert(matches[matches.len() - 1] == matches.last());
    }
}

/// Every usable match has its edge.
pub proof fn lemma_match_has_edge(
    entries: Seq<(u32, Seq<u8>)>,
    length: int,
    matches: Seq<(usize, usize, usize)>,
    k: int,
)
    requires
        0 <= k < matches.len(),
        usable(entries, length, matches[k]),
    ensures
        edges_of(entries, length, matches).contains(
            (matches[k].1, matches[k].2, entries[matches[k].0 as int].0),
        ),
    decreases matches.len(),
{
    let rest = edges_of(entries, length, matches.drop_last());
    let all = edges_of(entries, length, matches);
    let edge = (matches[k].1, matches[k].2, entries[matches[k].0 as int].0);
    if k == matches.len() - 1 {
        assert(all[rest.len() as int] == edge);
    } else {
        lemma_match_has_edge(entries, length, matches.drop_last(), k);
        let j = choose|j: int| 0 <= j < rest.len() && rest[j] == edge;
        assert(all[j] == edge);
    }
}

/// Wherever the bytes of a token stand in the input, over at least one
/// byte, there is an edge under that token's id.
pub open spec fn edges_cover(
    edges: Seq<(usize, usize, u32)>,
    input: Seq<u8>,
    entries: Seq<(u32, Seq<u8>)>,
) -> bool {
    forall|i: int, p: int, q: int|
        0 <= i < entries.len() && 0 <= p < q <= input.len() && input.subrange(p, q)
            == entries[i].1 ==> #[trigger] edges.contains((p as usize, q as usize, entries[i].0))
}

/// Every id of `path` names a token of at least one byte.
pub open spec fn known_tokens(entries: Seq<(u32, Seq<u8>)>, path: Seq<u32>) -> bool {
    forall|k: int|
        0 <= k < path.len() ==> has_id(entries, #[trigger] path[k]) && bytes_of(
            entries,
            path[k],
        ).len() > 0
}

/// Tokens that spell the input from `p` on walk along edges from `p` to
/// the end.
pub proof fn lemma_tokenization_walks(
    edges: Seq<(usize, usize, u32)>,
    input: Seq<u8>,
    entries: Seq<(u32, Seq<u8>)>,
    p: int,
    path: Seq<u32>,
)
    requires
        distinct(entries),
        edges_cover(edges, input, entries),
        known_tokens(entries, path),
        0 <= p <= input.len() <= usize::MAX,
        spelling(|id: u32| bytes_of(entries, id), path) == input.subrange(p, input.len() as int),
    ensures
        walks(edges, input.len() as int, p, path),
    decreases path.len(),
{
    let len = input.len() as int;
    let tail = input.subrange(p, len);
    if path.len() == 0 {
        assert(tail.len() == 0);
    } else {
        let t = path[0];
        let b = bytes_of(entries, t);
        let rest = spelling(|id: u32| bytes_of(entries, id), path.skip(1));
        assert(tail == b + rest);
        assert(tail.len() == b.len() + rest.len());
        let q = p + b.len();
        assert(input.subrange(p, q) =~= b) by {
            assert forall|k: int| 0 <= k < b.len() implies input.subrange(p, q)[k] == b[k] by {
                assert(tail[k] == (b + rest)[k]);
            }
        }
        assert(input.subrange(q, len) =~= rest) by {
            assert forall|k: int| 0 <= k < rest.len() implies input.subrange(q, len)[k]
                == rest[k] by {
                assert(tail[b.len() + k] == (b + rest)[b.len() + k]);
            }
        }
        assert(has_id(entries, path[0]));
        let i = choose|i: int| 0 <= i < entries.len() && (#[trigger] entries[i]).0 == t;
        lemma_bytes_of_entry(entries, i);
        assert(edges.contains((p as usize, q as usize, entries[i].0)));
        let j = choose|j: int| 0 <= j < edges.len() && edges[j] == (p as usize, q as usize, t);
        assert forall|k: int| 0 <= k < path.skip(1).len() implies has_id(
            entries,
            #[trigger] path.skip(1)[k],
        ) && bytes_of(entries, path.skip(1)[k]).len() > 0 by {
            assert(path.skip(1)[k] == path[k + 1]);
        }
        lemma_tokenization_walks(edges, input, entries, q, path.skip(1));
        assert(edges[j].0 == p && edges[j].2 == path[0] && edges[j].1 as int == q);
    }
}

/// The lattice of an input holds every tokenization of it: tokens of the
/// vocabulary, each of at least one byte, that spell the input are among
/// the enumerated paths.
pub proof fn lemma_every_tokenization_is_enumerated(
    lattice: &TokenLattice,
    input: Seq<u8>,
    entries: Seq<(u32, Seq<u8>)>,
    path: Seq<u32>,
)
    requires
        lattice.wf(),
        lattice.length() == input.len(),
        distinct(entries),
        edges_cover(lattice@, input, entries),
        known_tokens(entries, path),
        spelling(|id: u32| bytes_of(entries, id), path) == input,
    ensures
        paths_from(lattice@, input.len() as int, 0).contains(path),
{
    lattice.lemma_edges_advance();
    lattice.lemma_length_fits();
    assert(input.subrange(0, input.len() as int) =~= input);
    lemma_tokenization_walks(lattice@, input, entries, 0, path);
    lemma_walk_enumerated(lattice@, input.len() as int, 0, path);
}

/// The routes whose token the vocabulary knows, each with the token's
/// bytes, in the order of the routes.
pub open spec fn named_routes(entries: Seq<(u32, Seq<u8>)>, routes: Seq<(u32, usize)>) -> Seq<
    (Seq<u8>, u32, usize),
>
    decreases routes.len(),
{
    if routes.len() == 0 {
        Seq::empty()
    } else {
        let rest = named_routes(entries, routes.drop_last());
        let r = routes.last();
        if has_id(entries, r.0) {
            rest.push((bytes_of(entries, r.0), r.0, r.1))
        } else {
            rest
        }
    }
}

/// The routes that `routes` hold, each token as its bytes.
pub open spec fn route_views(routes: Seq<(Vec<u8>, u32, usize)>) -> Seq<(Seq<u8>, u32, usize)> {
    Seq::new(routes.len(), |i: int| (routes[i].0@, routes[i].1, routes[i].2))
}

impl TokenLattice {
    /// The edges that leave `position` under a token that the vocabulary
    /// knows: the token's bytes, its id, and the position the edge leads
    /// to, in the order in which the edges were added.
    pub fn get_routes(&self, position: usize, vocabulary: &Vocabulary) -> (routes: Vec<
        (Vec<u8>, u32, usize),
    >)
        requires
            self.wf(),
            vocabulary.wf(),
            position <= self.length(),
        ensures
            route_views(routes@) == named_routes(
                vocabulary@,
                routes_of(self@, position as int),
            ),
    {
        let plain = self.routes_from(position);
        let mut routes: Vec<(Vec<u8>, u32, usize)> = Vec::new();
        let mut k: usize = 0;
        proof {
            vocabulary.lemma_distinct();
        }
        while k < plain.len()
            invariant
                vocabulary.wf(),
                distinct(vocabulary@),
                k <= plain.len(),
                route_views(routes@) == named_routes(vocabulary@, plain@.subrange(0, k as int)),
            decreases plain.len() - k,
        {
            let id = plain[k].0;
            let target = plain[k].1;
            let ghost before = route_views(routes@);
            assert(plain@.subrange(0, k + 1).drop_last() =~= plain@.subrange(0, k as int));
            if let Some(token) = vocabulary.get_token(id) {
                proof {
                    let i = choose|i: int|
                        0 <= i < vocabulary@.len() && vocabulary@[i] == (id, token@);
                    lemma_bytes_of_entry(vocabulary@, i);
                }
                routes.push((token, id, target));
                assert(route_views(routes@) =~= before.push((token@, id, target)));
            }
            k = k + 1;
        }
        assert(plain@.subrange(0, k as int) =~= plain@);
        routes
    }

    /// The lattice over an input of `length` bytes whose edges are what the
    /// matches stand for. A match is (index into the vocabulary, start,
    /// end); one that names no token, covers no byte or leaves the input is
    /// passed over.
    pub fn from_matches(
        length: usize,
        vocabulary: &Vocabulary,
        matches: &Vec<(usize, usize, usize)>,
    ) -> (outcome: Result<TokenLattice, BuildError>)
        requires
            vocabulary.wf(),
        ensures
            match outcome {
                Ok(lattice) => lattice.wf() && lattice.length() == length && lattice@ == edges_of(
                    vocabulary@,
                    length as int,
                    matches@,
                ),
                Err(BuildError::InputTooLong) => length == usize::MAX,
                Err(BuildError::TooManyEdges) => length < usize::MAX && edges_of(
                    vocabulary@,
                    length as int,
                    matches@,
                ).len() > u32::MAX,
                Err(BuildError::Scanner) => false,
            },
    {
        if length == usize::MAX {
            return Err(BuildError::InputTooLong);
        }
        let mut lattice = TokenLattice::new(length);
        let n = vocabulary.len();
        let mut k: usize = 0;
        while k < matches.len()
            invariant
                vocabulary.wf(),
                n == vocabulary@.len(),
                k <= matches.len(),
                length < usize::MAX,
                lattice.wf(),
                lattice.length() == length,
                lattice@ == edges_of(vocabulary@, length as int, matches@.subrange(0, k as int)),
            decreases matches.len() - k,
        {
            let m = matches[k];
            assert(matches@.subrange(0, k + 1).drop_last() =~= matches@.subrange(0, k as int));
            if m.0 < n && m.1 < m.2 && m.2 <= length {
                if lattice.edge_count() == 4294967295 {
                    proof {
                        assert(matches@.subrange(0, k + 1).last() == m);
                        assert(edges_of(
                            vocabulary@,
                            length as int,
                            matches@.subrange(0, k + 1),
                        ).len() == lattice@.len() + 1);
                        lemma_edges_of_prefix(vocabulary@, length as int, matches@, k + 1);
                    }
                    return Err(BuildError::TooManyEdges);
                }
                let id = vocabulary.id_at(m.0);
                lattice.add(m.1, m.2, &id);
            }
            k = k + 1;
        }
        assert(matches@.subrange(0, k as int) =~= matches@);
        Ok(lattice)
    }

    /// The lattice of `input`: an edge from `p` to `q` under token `t`
    /// for each place where the bytes of `t` stand in `input` from `p` up to
    /// `q`. Tokens without bytes give no edge.
    pub fn build(input: &[u8], vocabulary: &Vocabulary) -> (outcome: Result<
        TokenLattice,
        BuildError,
    >)
        requires
            vocabulary.wf(),
        ensures
            match overlapping_matches(token_column(vocabulary@), input@) {
                None => outcome == Err::<TokenLattice, BuildError>(BuildError::Scanner),
                Some(m) => if input@.len() == usize::MAX {
                    outcome == Err::<TokenLattice, BuildError>(BuildError::InputTooLong)
                } else if edges_of(vocabulary@, input@.len() as int, m).len() > u32::MAX {
                    outcome == Err::<TokenLattice, BuildError>(BuildError::TooManyEdges)
                } else {
                    &&& outcome.is_ok()
                    &&& outcome.unwrap().wf()
                    &&& outcome.unwrap().length() == input@.len()
                    &&& outcome.unwrap()@ == edges_of(vocabulary@, input@.len() as int, m)
                },
            },
            outcome.is_ok() ==> {
                let lattice = outcome.unwrap();
                &&& edges_match(lattice@, input@, |id: u32| bytes_of(vocabulary@, id))
                &&& edges_cover(lattice@, input@, vocabulary@)
                &&& lattice@.no_duplicates()
            },
    {
        let Some(matches) = find_overlapping(vocabulary.tokens(), input) else {
            return Err(BuildError::Scanner);
        };
        let count = vocabulary.len();
        let outcome = TokenLattice::from_matches(input.len(), vocabulary, &matches);
        proof {
            if outcome.is_ok() {
                let lattice = outcome.unwrap();
                let entries = vocabulary@;
                let length = input@.len() as int;
                vocabulary.lemma_distinct();
                lattice.lemma_edges_advance();
                lattice.lemma_length_fits();
                lemma_edges_of_distinct(entries, length, matches@);
                assert forall|j: int| 0 <= j < lattice@.len() implies ({
                    let e = #[trigger] lattice@[j];
                    e.0 <= e.1 <= input@.len() && bytes_of(entries, e.2) == input@.subrange(
                        e.0 as int,
                        e.1 as int,
                    )
                }) by {
                    lemma_edge_has_match(entries, length, matches@, j);
                    let k = choose|k: int|
                        0 <= k < matches@.len() && usable(entries, length, #[trigger] matches@[k])
                            && lattice@[j] == (
                            matches@[k].1,
                            matches@[k].2,
                            entries[matches@[k].0 as int].0,
                        );
                    assert(occurs(token_column(entries), input@, matches@[k]));
                    lemma_bytes_of_entry(entries, matches@[k].0 as int);
                }
                assert forall|i: int, p: int, q: int|
                    0 <= i < entries.len() && 0 <= p < q <= input@.len() && input@.subrange(p, q)
                        == entries[i].1 implies #[trigger] lattice@.contains(
                    (p as usize, q as usize, entries[i].0),
                ) by {
                    let m = (i as usize, p as usize, q as usize);
                    assert(i < count);
                    assert(token_column(entries)[i] == entries[i].1);
                    assert(occurs(token_column(entries), input@, m));
                    assert(matches@.contains(m));
                    let k = choose|k: int| 0 <= k < matches@.len() && matches@[k] == m;
                    lemma_match_has_edge(entries, length, matches@, k);
                }
            }
        }
        outcome
    }
}

} // verus!
