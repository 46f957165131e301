//! The segmentation lattice: every exact occurrence of a vocabulary token in
//! one input, kept as an arena of edges threaded into per-position lists.

use vstd::prelude::*;

verus! {

/// Marks the end of a per-position edge list.
pub const NO_EDGE: u32 = u32::MAX;

/// One occurrence of a token: it covers the input from `source` to `target`.
#[derive(Clone, Copy, Debug)]
pub struct TokenEdge {
    pub token_id: u32,
    pub source: usize,
    pub target: usize,
    pub next_idx: u32,
}

/// The lattice of one input: for each position the index of its newest
/// edge, and the edges, each linked to the next older one from its source.
pub struct TokenLattice {
    heads: Vec<u32>,
    edges: Vec<TokenEdge>,
}

/// The edges that leave `p`, as (token, target), in the order they were added.
/// An edge is a triple (source, target, token).
pub open spec fn routes_of(edges: Seq<(usize, usize, u32)>, p: int) -> Seq<(u32, usize)>
    decreases edges.len(),
{
    if edges.len() == 0 {
        Seq::empty()
    } else {
        let rest = routes_of(edges.drop_last(), p);
        let e = edges.last();
        if e.0 == p {
            rest.push((e.2, e.1))
        } else {
            rest
        }
    }
}

/// The list threaded from arena index `i`, oldest edge first.
spec fn chain(edges: Seq<TokenEdge>, i: u32) -> Seq<(u32, usize)>
    decreases i,
{
    if i == NO_EDGE || i >= edges.len() {
        Seq::empty()
    } else {
        let e = edges[i as int];
        if e.next_idx == NO_EDGE {
            seq![(e.token_id, e.target)]
        } else if e.next_idx < i {
            chain(edges, e.next_idx).push((e.token_id, e.target))
        } else {
            Seq::empty()
        }
    }
}

proof fn lemma_chain_push(edges: Seq<TokenEdge>, e: TokenEdge, i: u32)
    requires
        i == NO_EDGE || i < edges.len(),
    ensures
        chain(edges.push(e), i) == chain(edges, i),
    decreases i,
{
    if i != NO_EDGE {
        let x = edges[i as int];
        assert(edges.push(e)[i as int] == x);
        if x.next_idx != NO_EDGE && x.next_idx < i {
            lemma_chain_push(edges, e, x.next_idx);
        }
    }
}

/// Routes in their canonical order: by token, then by target.
pub open spec fn route_le(a: (u32, usize), b: (u32, usize)) -> bool {
    a.0 < b.0 || (a.0 == b.0 && a.1 <= b.1)
}

/// The routes stand in canonical order.
pub open spec fn routes_sorted(routes: Seq<(u32, usize)>) -> bool {
    forall|i: int, j: int| 0 <= i < j < routes.len() ==> route_le(routes[i], routes[j])
}

/// An edge as (source, target, token).
spec fn triple(e: TokenEdge) -> (usize, usize, u32) {
    (e.source, e.target, e.token_id)
}

impl View for TokenLattice {
    type V = Seq<(usize, usize, u32)>;

    /// The edges as (source, target, token), in the order they were added.
    closed spec fn view(&self) -> Seq<(usize, usize, u32)> {
        self.edges@.map_values(|e: TokenEdge| triple(e))
    }
}

impl TokenLattice {
    /// The length of the input that the lattice spans.
    pub closed spec fn length(&self) -> int {
        self.heads.len() - 1
    }

    /// Every edge advances inside the input, and each position's list holds
    /// exactly the edges that leave it.
    pub closed spec fn wf(&self) -> bool {
        &&& self.heads.len() >= 1
        &&& self.edges.len() <= u32::MAX
        &&& forall|k: int|
            0 <= k < self.edges.len() ==> {
                let e = #[trigger] self.edges[k];
                e.source < e.target && e.target < self.heads.len() && (e.next_idx == NO_EDGE
                    || e.next_idx < k)
            }
        &&& forall|p: int|
            0 <= p < self.heads.len() ==> {
                let h = #[trigger] self.heads[p];
                (h == NO_EDGE || h < self.edges.len()) && chain(self.edges@, h) == routes_of(
                    self@,
                    p,
                )
            }
    }

    /// Whether one more edge fits into the arena.
    pub open spec fn has_room(&self) -> bool {
        self@.len() < u32::MAX
    }

    /// The length of the input is a number that a position can be.
    pub proof fn lemma_length_fits(&self)
        requires
            self.wf(),
        ensures
            0 <= self.length() < usize::MAX,
    {
    }

    /// Every edge leads from its source to a strictly larger position
    /// inside the input, so the lattice has no cycle.
    pub proof fn lemma_edges_advance(&self)
        requires
            self.wf(),
        ensures
            self.length() >= 0,
            self@.len() <= u32::MAX,
            forall|k: int|
                0 <= k < self@.len() ==> (#[trigger] self@[k]).0 < self@[k].1 && self@[k].1
                    <= self.length(),
    {
        assert forall|k: int| 0 <= k < self@.len() implies (#[trigger] self@[k]).0 < self@[k].1
            && self@[k].1 <= self.length() by {
            assert(self@[k] == triple(self.edges[k]));
        }
    }

    /// The length of the input that the lattice spans.
    pub fn input_len(&self) -> (n: usize)
        requires
            self.wf(),
        ensures
            n == self.length(),
    {
        self.heads.len() - 1
    }

    /// The number of edges.
    pub fn edge_count(&self) -> (n: usize)
        requires
            self.wf(),
        ensures
            n == self@.len(),
            n <= u32::MAX,
    {
        self.edges.len()
    }

    /// The edges as (source, target, token), in the order they were added.
    pub fn edges(&self) -> (edges: Vec<(usize, usize, u32)>)
        requires
            self.wf(),
        ensures
            edges@ == self@,
    {
        let mut edges: Vec<(usize, usize, u32)> = Vec::new();
        let mut k: usize = 0;
        while k < self.edges.len()
            invariant
                k <= self.edges.len(),
                edges@ =~= self@.subrange(0, k as int),
            decreases self.edges.len() - k,
        {
            let e = self.edges[k];
            edges.push((e.source, e.target, e.token_id));
            k = k + 1;
        }
        assert(self@.subrange(0, k as int) =~= self@);
        edges
    }

    /// An empty lattice over an input of `length` bytes.
    pub fn new(length: usize) -> (lattice: Self)
        requires
            length < usize::MAX,
        ensures
            lattice.wf(),
            lattice.length() == length,
            lattice@ == Seq::<(usize, usize, u32)>::empty(),
    {
        let mut heads: Vec<u32> = Vec::new();
        let mut i: usize = 0;
        while i <= length
            invariant
                i <= length + 1,
                length < usize::MAX,
                heads.len() == i,
                forall|p: int| 0 <= p < i ==> heads[p] == NO_EDGE,
            decreases length + 1 - i,
        {
            heads.push(NO_EDGE);
            i = i + 1;
        }
        let lattice = TokenLattice { heads, edges: Vec::new() };
        assert(lattice@ =~= Seq::<(usize, usize, u32)>::empty());
        lattice
    }

    /// Records that token `token_id` covers the input from `start` to `end`.
    pub fn add(&mut self, start: usize, end: usize, token_id: &u32)
        requires
            old(self).wf(),
            old(self).has_room(),
            start < end <= old(self).length(),
        ensures
            final(self).wf(),
            final(self).length() == old(self).length(),
            final(self)@ == old(self)@.push((start, end, *token_id)),
    {
        let next_edge_idx = self.heads[start];
        let edge = TokenEdge { token_id: *token_id, source: start, target: end, next_idx: next_edge_idx };
        let n: usize = self.edges.len();
        let i: u32 = n as u32;
        proof {
            assert forall|p: int| 0 <= p < self.heads.len() implies chain(
                self.edges@.push(edge),
                #[trigger] self.heads[p],
            ) == chain(self.edges@, self.heads[p]) by {
                lemma_chain_push(self.edges@, edge, self.heads[p]);
            }
            assert(self.edges@.push(edge).map_values(|e: TokenEdge| triple(e)) =~= self@.push(
                (start, end, *token_id),
            ));
            assert(self@.push((start, end, *token_id)).drop_last() =~= self@);
        }
        self.edges.push(edge);
        self.heads.set(start, i);
    }

    /// Every edge that leaves `position`, as (token, target), in the order
    /// in which the edges were added.
    pub fn routes_from(&self, position: usize) -> (routes: Vec<(u32, usize)>)
        requires
            self.wf(),
            position <= self.length(),
        ensures
            routes@ == routes_of(self@, position as int),
    {
        let mut newest_first: Vec<(u32, usize)> = Vec::new();
        let mut i: u32 = self.heads[position];
        while i != NO_EDGE
            invariant
                self.wf(),
                i == NO_EDGE || i < self.edges.len(),
                chain(self.edges@, self.heads[position as int]) == chain(self.edges@, i)
                    + newest_first@.reverse(),
            decreases (if i == NO_EDGE { 0 } else { i + 1 }),
        {
            let edge = self.edges[i as usize];
            proof {
                let item = (edge.token_id, edge.target);
                assert(newest_first@.push(item).reverse() =~= seq![item] + newest_first@.reverse());
                if edge.next_idx == NO_EDGE {
                    assert(chain(self.edges@, edge.next_idx) =~= Seq::empty());
                }
                assert(chain(self.edges@, i) =~= chain(self.edges@, edge.next_idx).push(item));
                assert(chain(self.edges@, i) + newest_first@.reverse() =~= chain(
                    self.edges@,
                    edge.next_idx,
                ) + (seq![item] + newest_first@.reverse()));
            }
            newest_first.push((edge.token_id, edge.target));
            i = edge.next_idx;
        }
        let mut routes: Vec<(u32, usize)> = Vec::new();
        let mut k: usize = newest_first.len();
        while k > 0
            invariant
                k <= newest_first.len(),
                routes@ =~= newest_first@.reverse().subrange(0, newest_first.len() - k),
            decreases k,
        {
            k = k - 1;
            routes.push(newest_first[k]);
        }
        assert(routes@ =~= newest_first@.reverse());
        routes
    }

    /// The routes that leave `position`, in canonical order: by token, then
    /// by target.
    pub fn sorted_routes_from(&self, position: usize) -> (routes: Vec<(u32, usize)>)
        requires
            self.wf(),
            position <= self.length(),
        ensures
            routes_sorted(routes@),
            routes@.to_multiset() == routes_of(self@, position as int).to_multiset(),
    {
        let plain = self.routes_from(position);
        let mut routes: Vec<(u32, usize)> = Vec::new();
        let mut k: usize = 0;
        assert(plain@.subrange(0, 0) =~= routes@);
        while k < plain.len()
            invariant
                k <= plain.len(),
                routes_sorted(routes@),
                routes@.to_multiset() == plain@.subrange(0, k as int).to_multiset(),
            decreases plain.len() - k,
        {
            let r = plain[k];
            let mut at: usize = 0;
            while at < routes.len() && (routes[at].0 < r.0 || (routes[at].0 == r.0 && routes[at].1
                <= r.1))
                invariant
                    at <= routes.len(),
                    forall|j: int| 0 <= j < at ==> route_le(routes[j], r),
                decreases routes.len() - at,
            {
                at = at + 1;
            }
            let ghost before = routes@;
            routes.insert(at, r);
            proof {
                broadcast use vstd::seq_lib::group_to_multiset_ensures;

                assert forall|i: int, j: int| 0 <= i < j < routes@.len() implies route_le(
                    routes@[i],
                    routes@[j],
                ) by {
                    if j == at {
                    } else if i == at {
                        assert(routes@[j] == before[j - 1]);
                        assert(route_le(r, before[at as int]));
                        if j - 1 > at {
                            assert(route_le(before[at as int], before[j - 1]));
                        }
                    } else {
                        let a = if i < at { i } else { i - 1 };
                        let b = if j < at { j } else { j - 1 };
                        assert(routes@[i] == before[a]);
                        assert(routes@[j] == before[b]);
                    }
                }
                assert(routes@.remove(at as int) =~= before);
                assert(routes@[at as int] == r);
                assert(routes@.to_multiset() =~= before.to_multiset().insert(r));
                assert(plain@.subrange(0, k + 1) =~= plain@.subrange(0, k as int).push(r));
            }
            k = k + 1;
        }
        assert(plain@.subrange(0, k as int) =~= plain@);
        routes
    }
}

} // verus!
