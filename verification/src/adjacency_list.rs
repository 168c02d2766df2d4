use crate::store::{
    entries, footprint, footprint_of, lemma_seq_without, occurs, push_upper, seq_without, without,
    UndirectedGraph, LIST_HEADER_BYTES,
};
use vstd::prelude::*;

verus! {

/// An undirected graph kept as one list of neighbour ids for each vertex.
/// Connecting a pair again adds its entries again.
pub struct AdjacencyList {
    data: Vec<Vec<usize>>,
}

impl View for AdjacencyList {
    type V = Seq<Seq<usize>>;

    closed spec fn view(&self) -> Seq<Seq<usize>> {
        Seq::new(self.data@.len(), |a: int| self.data@[a]@)
    }
}

impl UndirectedGraph for AdjacencyList {
    open spec fn order(&self) -> nat {
        self@.len()
    }

    open spec fn linked(&self, u: int, v: int) -> bool {
        0 <= u < self@.len() && 0 <= v <= usize::MAX && self@[u].contains(v as usize)
    }

    open spec fn wf(&self) -> bool {
        &&& forall|a: int, j: int| 0 <= a < self@.len() && 0 <= j < self@[a].len() ==> (#[trigger] self@[a][j]) < self@.len()
        &&& forall|a: int, b: int| self.linked(a, b) ==> self.linked(b, a)
    }

    open spec fn fits(v: usize) -> bool {
        true
    }

    open spec fn bytes_used(&self) -> int {
        footprint(entries(self@, self@.len() as int), self@.len() as int, LIST_HEADER_BYTES as int)
    }

    proof fn lemma_symmetric(&self, u: int, v: int) {
        let j = choose|j: int| 0 <= j < self@[u].len() && self@[u][j] == v as usize;
        assert(self@[u][j] < self@.len());
    }

    fn new(v: usize, _e: usize) -> (g: Self)
        ensures
            forall|a: int| 0 <= a < v ==> (#[trigger] g@[a]).len() == 0,
    {
        let mut data: Vec<Vec<usize>> = Vec::new();
        let mut i: usize = 0;
        while i < v
            invariant
                i <= v,
                data@.len() == i,
                forall|a: int| 0 <= a < i ==> (#[trigger] data@[a])@.len() == 0,
            decreases v - i,
        {
            data.push(Vec::new());
            i += 1;
        }
        AdjacencyList { data }
    }

    fn connect(&mut self, u: usize, v: usize)
        ensures
            final(self)@ == old(self)@.update(u as int, old(self)@[u as int].push(v)).update(
                v as int,
                old(self)@.update(u as int, old(self)@[u as int].push(v))[v as int].push(u),
            ),
    {
        self.data[u].push(v);
        self.data[v].push(u);
        proof {
            let g0 = old(self)@;
            let g1 = g0.update(u as int, g0[u as int].push(v));
            let g2 = g1.update(v as int, g1[v as int].push(u));
            assert(self@ =~= g2);
            assert forall|x: int, y: int|
                self.linked(x, y) <==> old(self).linked(x, y) || (x == u && y == v) || (x == v && y == u) by {
                if 0 <= x < g0.len() && 0 <= y <= usize::MAX {
                    crate::store::lemma_push_contains(g0[u as int], v, y as usize);
                    crate::store::lemma_push_contains(g1[v as int], u, y as usize);
                }
            }
            assert forall|a: int, j: int| 0 <= a < g2.len() && 0 <= j < g2[a].len() implies (#[trigger] g2[a][j])
                < g2.len() by {
                if a == v {
                    if j < g1[a].len() {
                        if a == u {
                            if j < g0[a].len() {
                                assert(g0[a][j] < g0.len());
                            }
                        } else {
                            assert(g0[a][j] < g0.len());
                        }
                    }
                } else if a == u {
                    if j < g0[a].len() {
                        assert(g0[a][j] < g0.len());
                    }
                } else {
                    assert(g0[a][j] < g0.len());
                }
            }
        }
    }

    fn disconnect(&mut self, u: usize, v: usize)
        ensures
            final(self)@ == old(self)@.update(u as int, seq_without(old(self)@[u as int], v)).update(
                v as int,
                seq_without(old(self)@.update(u as int, seq_without(old(self)@[u as int], v))[v as int], u),
            ),
            !old(self).linked(u as int, v as int) ==> final(self)@ == old(self)@,
    {
        let kept_u = without(&self.data[u], v);
        self.data.set(u, kept_u);
        let kept_v = without(&self.data[v], u);
        self.data.set(v, kept_v);
        proof {
            let g0 = old(self)@;
            let g1 = g0.update(u as int, seq_without(g0[u as int], v));
            let g2 = g1.update(v as int, seq_without(g1[v as int], u));
            assert(self@ =~= g2);
            lemma_seq_without(g0[u as int], v);
            lemma_seq_without(g1[v as int], u);
            assert forall|x: int, y: int|
                self.linked(x, y) <==> old(self).linked(x, y) && !(x == u && y == v) && !(x == v && y == u) by {
            }
            assert forall|a: int, j: int| 0 <= a < g2.len() && 0 <= j < g2[a].len() implies (#[trigger] g2[a][j])
                < g2.len() by {
                let e = g2[a][j];
                assert(g2[a].contains(e));
                assert(self.linked(a, e as int));
                assert(old(self).linked(a, e as int));
                old(self).lemma_symmetric(a, e as int);
            }
            if !old(self).linked(u as int, v as int) {
                assert(!old(self).linked(v as int, u as int));
                assert(g1 =~= g0);
                assert(g2 =~= g0);
            }
        }
    }

    fn is_connected(&self, u: usize, v: usize) -> (found: bool) {
        let n: usize = self.data[u].len();
        let found = occurs(&self.data[u], n, v);
        assert(self@[u as int].take(n as int) =~= self@[u as int]);
        found
    }

    fn list_neighbors(&self, u: usize) -> (neighbors: Vec<usize>)
        ensures
            neighbors@ == self@[u as int],
    {
        let mut neighbors: Vec<usize> = Vec::new();
        let n: usize = self.data[u].len();
        let mut j: usize = 0;
        while j < n
            invariant
                j <= n,
                u < self.data@.len(),
                n == self.data@[u as int]@.len(),
                neighbors@ == self.data@[u as int]@.take(j as int),
            decreases n - j,
        {
            neighbors.push(self.data[u][j]);
            j += 1;
            assert(neighbors@ =~= self.data@[u as int]@.take(j as int));
        }
        assert(self.data@[u as int]@.take(n as int) =~= self.data@[u as int]@);
        neighbors
    }

    fn list_all_edges(&self) -> (edges: Vec<(usize, usize)>) {
        let mut edges: Vec<(usize, usize)> = Vec::new();
        let size: usize = self.data.len();
        let mut u: usize = 0;
        while u < size
            invariant
                u <= size,
                size == self@.len(),
                size == self.data@.len(),
                edges@.no_duplicates(),
                forall|i: int| 0 <= i < edges@.len() ==> (#[trigger] edges@[i]).0 < u,
                forall|a: usize, b: usize| #[trigger]
                    edges@.contains((a, b)) <==> a < u && a < b && self.linked(a as int, b as int),
            decreases size - u,
        {
            push_upper(&mut edges, u, &self.data[u]);
            u += 1;
        }
        assert forall|a: usize, b: usize| #[trigger]
            edges@.contains((a, b)) <==> a < b && (|a: int, b: int| self.linked(a, b))(a as int, b as int) by {
        }
        edges
    }

    fn memory_usage(&self) -> (bytes: usize) {
        let size: usize = self.data.len();
        let mut capped: usize = 0;
        let ghost mut count: int = 0;
        let mut u: usize = 0;
        while u < size
            invariant
                u <= size,
                size == self@.len(),
                size == self.data@.len(),
                count == entries(self@, u as int),
                0 <= count,
                capped == if count > usize::MAX {
                    usize::MAX as int
                } else {
                    count
                },
            decreases size - u,
        {
            let n: usize = self.data[u].len();
            proof {
                count = count + n;
            }
            if n > usize::MAX - capped {
                capped = usize::MAX;
            } else {
                capped = capped + n;
            }
            u += 1;
        }
        footprint_of(capped, size, LIST_HEADER_BYTES)
    }
}

} // verus!
