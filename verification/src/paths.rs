//! The tokenizations that a lattice holds: its paths from the first position
//! to the last, and what they spell.

use crate::lattice::{routes_of, TokenLattice};
use vstd::prelude::*;

verus! {

/// Each of `tails` with `t` put in front.
pub open spec fn prefixed(t: u32, tails: Seq<Seq<u32>>) -> Seq<Seq<u32>> {
    Seq::new(tails.len(), |i: int| seq![t] + tails[i])
}

/// Each of `tails` behind `head`.
pub open spec fn extended(head: Seq<u32>, tails: Seq<Seq<u32>>) -> Seq<Seq<u32>> {
    Seq::new(tails.len(), |i: int| head + tails[i])
}

/// The paths from `p` to `len` that leave `p` by one of its first `k` routes:
/// depth first, the routes taken in the order they were added.
pub open spec fn paths_upto(edges: Seq<(usize, usize, u32)>, len: int, p: int, k: nat) -> Seq<
    Seq<u32>,
>
    decreases len - p, k,
{
    let routes = routes_of(edges, p);
    if p >= len {
        if p == len {
            seq![Seq::empty()]
        } else {
            Seq::empty()
        }
    } else if k == 0 || k > routes.len() {
        Seq::empty()
    } else {
        let t = routes[k - 1].0;
        let q = routes[k - 1].1 as int;
        let before = paths_upto(edges, len, p, (k - 1) as nat);
        if p < q <= len {
            before + prefixed(t, paths_upto(edges, len, q, routes_of(edges, q).len()))
        } else {
            before
        }
    }
}

/// All paths from `p` to `len`.
pub open spec fn paths_from(edges: Seq<(usize, usize, u32)>, len: int, p: int) -> Seq<Seq<u32>> {
    paths_upto(edges, len, p, routes_of(edges, p).len())
}

/// `path` names the tokens of edges that lead from `p` to `len` one after
/// the other.
pub open spec fn walks(edges: Seq<(usize, usize, u32)>, len: int, p: int, path: Seq<u32>) -> bool
    decreases path.len(),
{
    if path.len() == 0 {
        p == len
    } else {
        exists|j: int|
            0 <= j < edges.len() && (#[trigger] edges[j]).0 == p && edges[j].2 == path[0] && walks(
                edges,
                len,
                edges[j].1 as int,
                path.skip(1),
            )
    }
}

/// The bytes of the tokens of `path`, one after the other.
pub open spec fn spelling(bytes_of: spec_fn(u32) -> Seq<u8>, path: Seq<u32>) -> Seq<u8>
    decreases path.len(),
{
    if path.len() == 0 {
        Seq::empty()
    } else {
        bytes_of(path[0]) + spelling(bytes_of, path.skip(1))
    }
}

/// Every edge lies inside `input` and covers exactly the bytes of its token.
pub open spec fn edges_match(
    edges: Seq<(usize, usize, u32)>,
    input: Seq<u8>,
    bytes_of: spec_fn(u32) -> Seq<u8>,
) -> bool {
    forall|j: int|
        0 <= j < edges.len() ==> {
            let e = #[trigger] edges[j];
            e.0 <= e.1 <= input.len() && bytes_of(e.2) == input.subrange(e.0 as int, e.1 as int)
        }
}

/// An edge that covers the bytes of its token, added to edges that match
/// the input, leaves edges that match the input.
pub proof fn lemma_add_keeps_match(
    edges: Seq<(usize, usize, u32)>,
    input: Seq<u8>,
    bytes_of: spec_fn(u32) -> Seq<u8>,
    start: usize,
    end: usize,
    token: u32,
)
    requires
        edges_match(edges, input, bytes_of),
        start <= end <= input.len(),
        bytes_of(token) == input.subrange(start as int, end as int),
    ensures
        edges_match(edges.push((start, end, token)), input, bytes_of),
{
    let more = edges.push((start, end, token));
    assert forall|j: int| 0 <= j < more.len() implies ({
        let e = #[trigger] more[j];
        e.0 <= e.1 <= input.len() && bytes_of(e.2) == input.subrange(e.0 as int, e.1 as int)
    }) by {
        if j < edges.len() {
            assert(more[j] == edges[j]);
        }
    }
}

/// The token sequences that `paths` hold.
pub open spec fn path_views(paths: Seq<Vec<u32>>) -> Seq<Seq<u32>> {
    Seq::new(paths.len(), |i: int| paths[i]@)
}

/// A route out of `p` is an edge of the lattice.
pub proof fn lemma_route_is_edge(edges: Seq<(usize, usize, u32)>, p: int, k: int)
    requires
        0 <= k < routes_of(edges, p).len(),
    ensures
        exists|j: int|
            0 <= j < edges.len() && (#[trigger] edges[j]).0 == p && edges[j].2 == routes_of(
                edges,
                p,
            )[k].0 && edges[j].1 == routes_of(edges, p)[k].1,
    decreases edges.len(),
{
    let rest = routes_of(edges.drop_last(), p);
    if edges.last().0 == p && k == rest.len() {
        assert(edges[edges.len() - 1] == edges.last());
    } else {
        lemma_route_is_edge(edges.drop_last(), p, k);
        let j = choose|j: int|
            0 <= j < edges.drop_last().len() && (#[trigger] edges.drop_last()[j]).0 == p
                && edges.drop_last()[j].2 == rest[k].0 && edges.drop_last()[j].1 == rest[k].1;
        assert(edges[j] == edges.drop_last()[j]);
    }
}

/// An edge out of `p` is among the routes out of `p`.
pub proof fn lemma_edge_is_route(edges: Seq<(usize, usize, u32)>, p: int, j: int)
    requires
        0 <= j < edges.len(),
        edges[j].0 == p,
    ensures
        exists|k: int|
            0 <= k < routes_of(edges, p).len() && #[trigger] routes_of(edges, p)[k] == (
                edges[j].2,
                edges[j].1,
            ),
    decreases edges.len(),
{
    let rest = routes_of(edges.drop_last(), p);
    if j == edges.len() - 1 {
        assert(routes_of(edges, p)[rest.len() as int] == (edges[j].2, edges[j].1));
    } else {
        lemma_edge_is_route(edges.drop_last(), p, j);
        let k = choose|k: int|
            0 <= k < rest.len() && #[trigger] rest[k] == (
                edges.drop_last()[j].2,
                edges.drop_last()[j].1,
            );
        assert(routes_of(edges, p)[k] == rest[k]);
    }
}

/// Every enumerated path is a walk along edges from `p` to `len`.
pub proof fn lemma_enumerated_walks(
    edges: Seq<(usize, usize, u32)>,
    len: int,
    p: int,
    k: nat,
    i: int,
)
    requires
        0 <= i < paths_upto(edges, len, p, k).len(),
    ensures
        walks(edges, len, p, paths_upto(edges, len, p, k)[i]),
    decreases len - p, k,
{
    let routes = routes_of(edges, p);
    if p >= len {
    } else if k == 0 || k > routes.len() {
    } else {
        let t = routes[k - 1].0;
        let q = routes[k - 1].1 as int;
        let before = paths_upto(edges, len, p, (k - 1) as nat);
        if i < before.len() {
            lemma_enumerated_walks(edges, len, p, (k - 1) as nat, i);
        } else {
            let tails = paths_upto(edges, len, q, routes_of(edges, q).len());
            let m = i - before.len();
            let path = paths_upto(edges, len, p, k)[i];
            assert(path == seq![t] + tails[m]);
            lemma_enumerated_walks(edges, len, q, routes_of(edges, q).len(), m);
            lemma_route_is_edge(edges, p, k - 1);
            assert(path.skip(1) =~= tails[m]);
            assert(path[0] == t);
        }
    }
}

/// Where every edge advances inside the input, every walk along edges
/// from `p` to `len` is among the enumerated paths.
pub proof fn lemma_walk_enumerated(
    edges: Seq<(usize, usize, u32)>,
    len: int,
    p: int,
    path: Seq<u32>,
)
    requires
        0 <= p <= len,
        walks(edges, len, p, path),
        forall|j: int| 0 <= j < edges.len() ==> (#[trigger] edges[j]).0 < edges[j].1 <= len,
    ensures
        paths_from(edges, len, p).contains(path),
    decreases path.len(),
{
    if path.len() == 0 {
        assert(paths_from(edges, len, p)[0] =~= path);
    } else {
        let j = choose|j: int|
            0 <= j < edges.len() && (#[trigger] edges[j]).0 == p && edges[j].2 == path[0] && walks(
                edges,
                len,
                edges[j].1 as int,
                path.skip(1),
            );
        let q = edges[j].1 as int;
        lemma_walk_enumerated(edges, len, q, path.skip(1));
        lemma_edge_is_route(edges, p, j);
        let routes = routes_of(edges, p);
        let k = choose|k: int| 0 <= k < routes.len() && #[trigger] routes[k] == (edges[j].2, edges[j].1);
        let tails = paths_from(edges, len, q);
        let m = choose|m: int| 0 <= m < tails.len() && tails[m] == path.skip(1);
        let upto = paths_upto(edges, len, p, (k + 1) as nat);
        let before = paths_upto(edges, len, p, k as nat);
        assert(upto[before.len() + m] == seq![path[0]] + tails[m]);
        assert(seq![path[0]] + path.skip(1) =~= path);
        lemma_upto_grows(edges, len, p, (k + 1) as nat, routes.len(), before.len() + m);
    }
}

/// Taking more routes keeps the paths found so far, at their places.
pub proof fn lemma_upto_grows(
    edges: Seq<(usize, usize, u32)>,
    len: int,
    p: int,
    k: nat,
    n: nat,
    i: int,
)
    requires
        p < len,
        k <= n <= routes_of(edges, p).len(),
        0 <= i < paths_upto(edges, len, p, k).len(),
    ensures
        i < paths_upto(edges, len, p, n).len(),
        paths_upto(edges, len, p, n)[i] == paths_upto(edges, len, p, k)[i],
    decreases n,
{
    if k < n {
        lemma_upto_grows(edges, len, p, k, (n - 1) as nat, i);
    }
}

/// Along a walk over edges that match the input, the tokens spell the input
/// from where the walk starts.
pub proof fn lemma_walk_spells(
    edges: Seq<(usize, usize, u32)>,
    input: Seq<u8>,
    bytes_of: spec_fn(u32) -> Seq<u8>,
    p: int,
    path: Seq<u32>,
)
    requires
        0 <= p <= input.len(),
        edges_match(edges, input, bytes_of),
        walks(edges, input.len() as int, p, path),
    ensures
        spelling(bytes_of, path) == input.subrange(p, input.len() as int),
    decreases path.len(),
{
    if path.len() == 0 {
        assert(input.subrange(p, input.len() as int) =~= Seq::empty());
    } else {
        let j = choose|j: int|
            0 <= j < edges.len() && (#[trigger] edges[j]).0 == p && edges[j].2 == path[0] && walks(
                edges,
                input.len() as int,
                edges[j].1 as int,
                path.skip(1),
            );
        let q = edges[j].1 as int;
        lemma_walk_spells(edges, input, bytes_of, q, path.skip(1));
        assert(input.subrange(p, q) + input.subrange(q, input.len() as int) =~= input.subrange(
            p,
            input.len() as int,
        ));
    }
}

/// Every path that the enumeration yields starts at position 0, ends at the
/// end of the input, and its tokens spell the input exactly.
pub proof fn lemma_paths_spell_input(
    edges: Seq<(usize, usize, u32)>,
    input: Seq<u8>,
    bytes_of: spec_fn(u32) -> Seq<u8>,
    path: Seq<u32>,
)
    requires
        edges_match(edges, input, bytes_of),
        paths_from(edges, input.len() as int, 0).contains(path),
    ensures
        walks(edges, input.len() as int, 0, path),
        spelling(bytes_of, path) == input,
{
    let paths = paths_from(edges, input.len() as int, 0);
    let i = choose|i: int| 0 <= i < paths.len() && paths[i] == path;
    lemma_enumerated_walks(edges, input.len() as int, 0, routes_of(edges, 0).len(), i);
    lemma_walk_spells(edges, input, bytes_of, 0, path);
    assert(input.subrange(0, input.len() as int) =~= input);
}

fn copy_path(path: &Vec<u32>) -> (copy: Vec<u32>)
    ensures
        copy@ == path@,
{
    let mut copy: Vec<u32> = Vec::new();
    let mut i: usize = 0;
    while i < path.len()
        invariant
            i <= path.len(),
            copy@ =~= path@.subrange(0, i as int),
        decreases path.len() - i,
    {
        copy.push(path[i]);
        i = i + 1;
    }
    assert(path@.subrange(0, path.len() as int) =~= path@);
    copy
}

impl TokenLattice {
    /// Every tokenization of the input: the token sequences along the paths
    /// from position 0 to the end, depth first, each position's edges taken
    /// in the order in which they were added.
    pub fn enumerate_all_paths(&self) -> (paths: Vec<Vec<u32>>)
        requires
            self.wf(),
        ensures
            path_views(paths@) == paths_from(self@, self.length(), 0),
    {
        let mut paths: Vec<Vec<u32>> = Vec::new();
        let mut path: Vec<u32> = Vec::new();
        proof {
            self.lemma_edges_advance();
        }
        self.collect_paths(0, &mut path, &mut paths);
        assert(path_views(paths@) =~= paths_from(self@, self.length(), 0)) by {
            assert forall|i: int| 0 <= i < paths_from(self@, self.length(), 0).len() implies (
            #[trigger] extended(Seq::<u32>::empty(), paths_from(self@, self.length(), 0))[i])
                =~= paths_from(self@, self.length(), 0)[i] by {}
        }
        paths
    }

    fn collect_paths(&self, u: usize, path: &mut Vec<u32>, paths: &mut Vec<Vec<u32>>)
        requires
            self.wf(),
            u <= self.length(),
        ensures
            final(path)@ == old(path)@,
            path_views(final(paths)@) == path_views(old(paths)@) + extended(
                old(path)@,
                paths_from(self@, self.length(), u as int),
            ),
        decreases self.length() - u,
    {
        let ghost head = path@;
        let ghost found = path_views(paths@);
        let ghost len = self.length();
        if u == self.input_len() {
            let copy = copy_path(path);
            paths.push(copy);
            assert(path_views(paths@) =~= found + extended(head, paths_from(self@, len, u as int))) by {
                assert(extended(head, paths_from(self@, len, u as int))[0] =~= head);
            }
            return ;
        }
        let routes = self.routes_from(u);
        let mut k: usize = 0;
        while k < routes.len()
            invariant
                self.wf(),
                u < len,
                len == self.length(),
                k <= routes.len(),
                routes@ == routes_of(self@, u as int),
                path@ == head,
                path_views(paths@) == found + extended(head, paths_upto(self@, len, u as int, k as nat)),
            decreases routes.len() - k,
        {
            let t = routes[k].0;
            let q = routes[k].1;
            let ghost sofar = path_views(paths@);
            proof {
                self.lemma_edges_advance();
                lemma_route_is_edge(self@, u as int, k as int);
            }
            path.push(t);
            self.collect_paths(q, path, paths);
            path.pop();
            proof {
                let tails = paths_from(self@, len, q as int);
                let before = paths_upto(self@, len, u as int, k as nat);
                let after = paths_upto(self@, len, u as int, (k + 1) as nat);
                assert(after == before + prefixed(t, tails));
                assert(path@ =~= head);
                assert(extended(head.push(t), tails) =~= extended(head, prefixed(t, tails))) by {
                    assert forall|i: int| 0 <= i < tails.len() implies #[trigger] extended(
                        head.push(t),
                        tails,
                    )[i] =~= extended(head, prefixed(t, tails))[i] by {
                        assert(head.push(t) + tails[i] =~= head + (seq![t] + tails[i]));
                    }
                }
                assert(extended(head, after) =~= extended(head, before) + extended(
                    head,
                    prefixed(t, tails),
                ));
                assert(path_views(paths@) =~= found + extended(head, after));
            }
            k = k + 1;
        }
    }
}

} // verus!
