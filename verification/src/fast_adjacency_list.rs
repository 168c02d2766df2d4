use crate::store::{footprint, footprint_of, push_upper, UndirectedGraph, SET_HEADER_BYTES};
use rustc_hash::FxHashSet;
use vstd::prelude::*;

verus! {

/// The hasher factory of `rustc_hash`: a unit value, carried inside every
/// `FxHashSet`.
#[verifier::external_type_specification]
#[verifier::external_body]
pub struct ExFxBuildHasher(rustc_hash::FxBuildHasher);

/// `FxHashSet::default`: a new set holds nothing.
#[verifier::external_body]
fn set_new() -> (s: FxHashSet<usize>)
    ensures
        s@ == Set::<usize>::empty(),
{
    FxHashSet::default()
}

/// `HashSet::insert` on an `FxHashSet`: afterwards the set holds `v` and what
/// it held before.
#[verifier::external_body]
fn set_insert(s: &mut FxHashSet<usize>, v: usize)
    ensures
        final(s)@ == old(s)@.insert(v),
{
    s.insert(v);
}

/// `HashSet::remove` on an `FxHashSet`: afterwards the set holds what it held
/// before, but for `v`.
#[verifier::external_body]
fn set_remove(s: &mut FxHashSet<usize>, v: usize)
    ensures
        final(s)@ == old(s)@.remove(v),
{
    s.remove(&v);
}

/// `HashSet::contains` on an `FxHashSet`: whether the set holds `v`.
#[verifier::external_body]
fn set_contains(s: &FxHashSet<usize>, v: usize) -> (found: bool)
    ensures
        found == s@.contains(v),
{
    s.contains(&v)
}

/// `HashSet::len` on an `FxHashSet`: the number of values held.
#[verifier::external_body]
fn set_len(s: &FxHashSet<usize>) -> (n: usize)
    ensures
        n == s@.len(),
{
    s.len()
}

/// `HashSet::iter` on an `FxHashSet`, collected: every value held, once, in
/// an order that is not fixed.
#[verifier::external_body]
fn set_items(s: &FxHashSet<usize>) -> (items: Vec<usize>)
    ensures
        items@.no_duplicates(),
        forall|v: usize| items@.contains(v) <==> s@.contains(v),
{
    s.iter().copied().collect()
}

/// The number of values in the first `k` sets.
pub open spec fn set_entries(rows: Seq<Set<usize>>, k: int) -> int
    decreases k,
{
    if k <= 0 || k > rows.len() {
        0
    } else {
        set_entries(rows, k - 1) + rows[k - 1].len()
    }
}

/// An undirected graph kept as one hash set of neighbour ids for each vertex.
pub struct FastAdjacencyList {
    data: Vec<FxHashSet<usize>>,
}

impl View for FastAdjacencyList {
    type V = Seq<Set<usize>>;

    closed spec fn view(&self) -> Seq<Set<usize>> {
        Seq::new(self.data@.len(), |a: int| self.data@[a]@)
    }
}

impl UndirectedGraph for FastAdjacencyList {
    open spec fn order(&self) -> nat {
        self@.len()
    }

    open spec fn linked(&self, u: int, v: int) -> bool {
        0 <= u < self@.len() && 0 <= v <= usize::MAX && self@[u].contains(v as usize)
    }

    open spec fn wf(&self) -> bool {
        &&& forall|a: int, b: usize| 0 <= a < self@.len() && #[trigger] self@[a].contains(b) ==> b < self@.len()
        &&& forall|a: int, b: int| self.linked(a, b) ==> self.linked(b, a)
    }

    open spec fn fits(v: usize) -> bool {
        true
    }

    open spec fn bytes_used(&self) -> int {
        footprint(set_entries(self@, self@.len() as int), self@.len() as int, SET_HEADER_BYTES as int)
    }

    proof fn lemma_symmetric(&self, u: int, v: int) {
        assert(self@[u].contains(v as usize));
    }

    fn new(v: usize, _e: usize) -> (g: Self)
        ensures
            forall|a: int| 0 <= a < v ==> #[trigger] g@[a] == Set::<usize>::empty(),
    {
        let mut data: Vec<FxHashSet<usize>> = Vec::new();
        let mut i: usize = 0;
        while i < v
            invariant
                i <= v,
                data@.len() == i,
                forall|a: int| 0 <= a < i ==> (#[trigger] data@[a])@ == Set::<usize>::empty(),
            decreases v - i,
        {
            data.push(set_new());
            i += 1;
        }
        FastAdjacencyList { data }
    }

    fn connect(&mut self, u: usize, v: usize)
        ensures
            final(self)@ == old(self)@.update(u as int, old(self)@[u as int].insert(v)).update(
                v as int,
                old(self)@.update(u as int, old(self)@[u as int].insert(v))[v as int].insert(u),
            ),
    {
        set_insert(&mut self.data[u], v);
        set_insert(&mut self.data[v], u);
        proof {
            let g0 = old(self)@;
            let g1 = g0.update(u as int, g0[u as int].insert(v));
            let g2 = g1.update(v as int, g1[v as int].insert(u));
            assert(self@ =~= g2);
            assert forall|a: int, b: usize| 0 <= a < g2.len() && #[trigger] g2[a].contains(b) implies b
                < g2.len() by {
                if b != u && b != v {
                    assert(g0[a].contains(b));
                }
            }
            assert forall|x: int, y: int|
                self.linked(x, y) <==> old(self).linked(x, y) || (x == u && y == v) || (x == v && y == u) by {
            }
            assert forall|a: int, b: int| self.linked(a, b) implies self.linked(b, a) by {
                if old(self).linked(a, b) {
                    assert(old(self).linked(b, a));
                }
            }
        }
    }

    fn disconnect(&mut self, u: usize, v: usize)
        ensures
            final(self)@ == old(self)@.update(u as int, old(self)@[u as int].remove(v)).update(
                v as int,
                old(self)@.update(u as int, old(self)@[u as int].remove(v))[v as int].remove(u),
            ),
            !old(self).linked(u as int, v as int) ==> final(self)@ == old(self)@,
    {
        set_remove(&mut self.data[u], v);
        set_remove(&mut self.data[v], u);
        proof {
            let g0 = old(self)@;
            let g1 = g0.update(u as int, g0[u as int].remove(v));
            let g2 = g1.update(v as int, g1[v as int].remove(u));
            assert(self@ =~= g2);
            assert forall|a: int, b: usize| 0 <= a < g2.len() && #[trigger] g2[a].contains(b) implies b
                < g2.len() by {
                assert(g0[a].contains(b));
            }
            assert forall|x: int, y: int|
                self.linked(x, y) <==> old(self).linked(x, y) && !(x == u && y == v) && !(x == v && y == u) by {
            }
            assert forall|a: int, b: int| self.linked(a, b) implies self.linked(b, a) by {
                assert(old(self).linked(a, b));
                assert(old(self).linked(b, a));
            }
            if !old(self).linked(u as int, v as int) {
                assert(!old(self).linked(v as int, u as int));
                assert(g0[u as int].remove(v) =~= g0[u as int]);
                assert(g1 =~= g0);
                assert(g1[v as int].remove(u) =~= g1[v as int]);
                assert(g2 =~= g0);
            }
        }
    }

    fn is_connected(&self, u: usize, v: usize) -> (found: bool) {
        set_contains(&self.data[u], v)
    }

    fn list_neighbors(&self, u: usize) -> (neighbors: Vec<usize>)
        ensures
            neighbors@.no_duplicates(),
    {
        set_items(&self.data[u])
    }

    fn list_all_edges(&self) -> (edges: Vec<(usize, usize)>) {
        let mut edges: Vec<(usize, usize)> = Vec::new();
        let size: usize = self.data.len();
        let mut u: usize = 0;
        while u < size
            invariant
                u <= size,
                size == self@.len(),
                size == self.data@.len(),
                edges@.no_duplicates(),
                forall|i: int| 0 <= i < edges@.len() ==> (#[trigger] edges@[i]).0 < u,
                forall|a: usize, b: usize| #[trigger]
                    edges@.contains((a, b)) <==> a < u && a < b && self.linked(a as int, b as int),
            decreases size - u,
        {
            let items = set_items(&self.data[u]);
            push_upper(&mut edges, u, &items);
            u += 1;
        }
        assert forall|a: usize, b: usize| #[trigger]
            edges@.contains((a, b)) <==> a < b && (|a: int, b: int| self.linked(a, b))(a as int, b as int) by {
        }
        edges
    }

    fn memory_usage(&self) -> (bytes: usize) {
        let size: usize = self.data.len();
        let mut capped: usize = 0;
        let ghost mut count: int = 0;
        let mut u: usize = 0;
        while u < size
            invariant
                u <= size,
                size == self@.len(),
                size == self.data@.len(),
                count == set_entries(self@, u as int),
                0 <= count,
                capped == if count > usize::MAX {
                    usize::MAX as int
                } else {
                    count
                },
            decreases size - u,
        {
            let n: usize = set_len(&self.data[u]);
            proof {
                count = count + n;
            }
            if n > usize::MAX - capped {
                capped = usize::MAX;
            } else {
                capped = capped + n;
            }
            u += 1;
        }
        footprint_of(capped, size, SET_HEADER_BYTES)
    }
}

} // verus!
