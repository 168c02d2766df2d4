use crate::store::UndirectedGraph;
use ndarray::Array2;
use vstd::prelude::*;

verus! {

/// A two-dimensional array of bytes of `ndarray`. Nothing is known of its
/// inside; `cells` names what it holds.
#[verifier::external_body]
pub struct ByteGrid {
    inner: Array2<u8>,
}

/// The cells of a two-dimensional array of bytes, row by row.
pub uninterp spec fn cells(m: ByteGrid) -> Seq<Seq<u8>>;

/// A square of `side` rows of `side` zero cells.
pub open spec fn zero_square(side: nat) -> Seq<Seq<u8>> {
    Seq::new(side, |i: int| Seq::new(side, |j: int| 0u8))
}

/// `Array2::zeros` with the shape `(side, side)`: a square of zero cells. It
/// panics where the number of cells does not fit `isize`, which `requires`
/// leaves out.
#[verifier::external_body]
fn matrix_zeros(side: usize) -> (m: ByteGrid)
    requires
        side * side <= isize::MAX,
    ensures
        cells(m) == zero_square(side as nat),
{
    ByteGrid { inner: Array2::zeros((side, side)) }
}

/// Assignment through `IndexMut` with `[u, v]`: the cell in row `u`, column
/// `v` becomes `x`, the others stay. It panics out of bounds, which
/// `requires` leaves out.
#[verifier::external_body]
fn matrix_put(m: &mut ByteGrid, u: usize, v: usize, x: u8)
    requires
        u < cells(*old(m)).len(),
        v < cells(*old(m))[u as int].len(),
    ensures
        cells(*final(m)) == cells(*old(m)).update(u as int, cells(*old(m))[u as int].update(v as int, x)),
{
    m.inner[[u, v]] = x;
}

/// `Index` with `[u, v]`: the cell in row `u`, column `v`. It panics out of
/// bounds, which `requires` leaves out.
#[verifier::external_body]
fn matrix_at(m: &ByteGrid, u: usize, v: usize) -> (x: u8)
    requires
        u < cells(*m).len(),
        v < cells(*m)[u as int].len(),
    ensures
        x == cells(*m)[u as int][v as int],
{
    m.inner[[u, v]]
}

/// `ArrayBase::shape`: the number of rows, and the length of every row.
#[verifier::external_body]
fn matrix_shape(m: &ByteGrid) -> (shape: (usize, usize))
    ensures
        cells(*m).len() == shape.0,
        forall|i: int| 0 <= i < cells(*m).len() ==> (#[trigger] cells(*m)[i]).len() == shape.1,
{
    let shape = m.inner.shape();
    (shape[0], shape[1])
}

/// `ArrayBase::len`: the number of cells, rows times columns.
#[verifier::external_body]
fn matrix_len(m: &ByteGrid) -> (n: usize)
    ensures
        cells(*m).len() == 0 ==> n == 0,
        forall|i: int| 0 <= i < cells(*m).len() ==> n == cells(*m).len() * (#[trigger] cells(*m)[i]).len(),
{
    m.inner.len()
}

/// An undirected graph kept as a square of byte cells: the cell in row `u`,
/// column `v` is 1 where `u` and `v` are joined, else 0.
pub struct AdjacencyMatrix {
    data: ByteGrid,
}

impl View for AdjacencyMatrix {
    type V = Seq<Seq<u8>>;

    closed spec fn view(&self) -> Seq<Seq<u8>> {
        cells(self.data)
    }
}

impl UndirectedGraph for AdjacencyMatrix {
    open spec fn order(&self) -> nat {
        self@.len()
    }

    open spec fn linked(&self, u: int, v: int) -> bool {
        0 <= u < self@.len() && 0 <= v < self@[u].len() && self@[u][v] == 1
    }

    open spec fn wf(&self) -> bool {
        &&& forall|a: int| 0 <= a < self@.len() ==> (#[trigger] self@[a]).len() == self@.len()
        &&& forall|a: int, b: int| 0 <= a < self@.len() && 0 <= b < self@[a].len() ==> #[trigger] self@[a][b] <= 1
        &&& forall|a: int, b: int| self.linked(a, b) ==> self.linked(b, a)
    }

    open spec fn fits(v: usize) -> bool {
        v * v <= isize::MAX
    }

    open spec fn bytes_used(&self) -> int {
        (self@.len() * self@.len()) as int
    }

    proof fn lemma_symmetric(&self, u: int, v: int) {
        assert(self@[u].len() == self@.len());
    }

    fn new(v: usize, _e: usize) -> (g: Self)
        ensures
            g@ == zero_square(v as nat),
    {
        AdjacencyMatrix { data: matrix_zeros(v) }
    }

    fn connect(&mut self, u: usize, v: usize)
        ensures
            final(self)@ == old(self)@.update(u as int, old(self)@[u as int].update(v as int, 1u8)).update(
                v as int,
                old(self)@.update(u as int, old(self)@[u as int].update(v as int, 1u8))[v as int].update(
                    u as int,
                    1u8,
                ),
            ),
    {
        assert(self@[u as int].len() == self@.len());
        assert(self@[v as int].len() == self@.len());
        matrix_put(&mut self.data, u, v, 1);
        matrix_put(&mut self.data, v, u, 1);
        proof {
            assert forall|a: int| 0 <= a < self@.len() implies (#[trigger] self@[a]).len() == self@.len() by {
                assert(old(self)@[a].len() == old(self)@.len());
            }
            assert forall|x: int, y: int|
                self.linked(x, y) <==> old(self).linked(x, y) || (x == u && y == v) || (x == v && y == u) by {
                if 0 <= x < self@.len() {
                    assert(old(self)@[x].len() == old(self)@.len());
                }
            }
            assert forall|a: int, b: int| self.linked(a, b) implies self.linked(b, a) by {
                if old(self).linked(a, b) {
                    assert(old(self).linked(b, a));
                }
            }
            assert forall|a: int, b: int| 0 <= a < self@.len() && 0 <= b < self@[a].len() implies #[trigger] self@[a][b]
                <= 1 by {
                assert(old(self)@[a].len() == old(self)@.len());
                assert(old(self)@[a][b] <= 1);
            }
        }
    }

    fn disconnect(&mut self, u: usize, v: usize)
        ensures
            final(self)@ == old(self)@.update(u as int, old(self)@[u as int].update(v as int, 0u8)).update(
                v as int,
                old(self)@.update(u as int, old(self)@[u as int].update(v as int, 0u8))[v as int].update(
                    u as int,
                    0u8,
                ),
            ),
            !old(self).linked(u as int, v as int) ==> final(self)@ == old(self)@,
    {
        assert(self@[u as int].len() == self@.len());
        assert(self@[v as int].len() == self@.len());
        matrix_put(&mut self.data, u, v, 0);
        matrix_put(&mut self.data, v, u, 0);
        proof {
            assert forall|a: int| 0 <= a < self@.len() implies (#[trigger] self@[a]).len() == self@.len() by {
                assert(old(self)@[a].len() == old(self)@.len());
            }
            assert forall|x: int, y: int|
                self.linked(x, y) <==> old(self).linked(x, y) && !(x == u && y == v) && !(x == v && y == u) by {
                if 0 <= x < self@.len() {
                    assert(old(self)@[x].len() == old(self)@.len());
                }
            }
            assert forall|a: int, b: int| self.linked(a, b) implies self.linked(b, a) by {
                assert(old(self).linked(a, b));
                assert(old(self).linked(b, a));
            }
            assert forall|a: int, b: int| 0 <= a < self@.len() && 0 <= b < self@[a].len() implies #[trigger] self@[a][b]
                <= 1 by {
                assert(old(self)@[a].len() == old(self)@.len());
                assert(old(self)@[a][b] <= 1);
            }
            if !old(self).linked(u as int, v as int) {
                assert(!old(self).linked(v as int, u as int));
                assert(old(self)@[u as int][v as int] <= 1);
                assert(old(self)@[v as int][u as int] <= 1);
                let g0 = old(self)@;
                let g1 = g0.update(u as int, g0[u as int].update(v as int, 0u8));
                assert(g0[u as int].update(v as int, 0u8) =~= g0[u as int]);
                assert(g1 =~= g0);
                assert(g1[v as int].update(u as int, 0u8) =~= g1[v as int]);
                assert(self@ =~= g0);
            }
        }
    }

    fn is_connected(&self, u: usize, v: usize) -> (found: bool) {
        assert(self@[u as int].len() == self@.len());
        matrix_at(&self.data, u, v) == 1
    }

    fn list_neighbors(&self, u: usize) -> (neighbors: Vec<usize>)
        ensures
            forall|i: int, j: int| 0 <= i < j < neighbors@.len() ==> neighbors@[i] < neighbors@[j],
    {
        let cols: usize = matrix_shape(&self.data).1;
        assert(self@[u as int].len() == cols);
        let mut neighbors: Vec<usize> = Vec::new();
        let mut v: usize = 0;
        while v < cols
            invariant
                v <= cols,
                cols == self@.len(),
                u < cols,
                self.wf(),
                forall|i: int, j: int| 0 <= i < j < neighbors@.len() ==> neighbors@[i] < neighbors@[j],
                forall|i: int| 0 <= i < neighbors@.len() ==> neighbors@[i] < v,
                forall|x: usize| neighbors@.contains(x) <==> x < v && self.linked(u as int, x as int),
            decreases cols - v,
        {
            let ghost before = neighbors@;
            if self.is_connected(u, v) {
                neighbors.push(v);
                proof {
                    assert forall|x: usize| neighbors@.contains(x) <==> before.contains(x) || x == v by {
                        crate::store::lemma_push_contains(before, v, x);
                    }
                }
            }
            v += 1;
        }
        neighbors
    }

    fn list_all_edges(&self) -> (edges: Vec<(usize, usize)>) {
        let mut edges: Vec<(usize, usize)> = Vec::new();
        let size: usize = matrix_shape(&self.data).0;
        let mut u: usize = 0;
        while u < size
            invariant
                u <= size,
                size == self@.len(),
                self.wf(),
                edges@.no_duplicates(),
                forall|i: int| 0 <= i < edges@.len() ==> (#[trigger] edges@[i]).0 < u,
                forall|a: usize, b: usize| #[trigger]
                    edges@.contains((a, b)) <==> a < u && a < b && self.linked(a as int, b as int),
            decreases size - u,
        {
            let row = self.list_neighbors(u);
            crate::store::push_upper(&mut edges, u, &row);
            u += 1;
        }
        assert forall|a: usize, b: usize| #[trigger]
            edges@.contains((a, b)) <==> a < b && (|a: int, b: int| self.linked(a, b))(a as int, b as int) by {
        }
        edges
    }

    fn memory_usage(&self) -> (bytes: usize) {
        let n = matrix_len(&self.data);
        proof {
            if self@.len() > 0 {
                assert(self@[0].len() == self@.len());
            }
        }
        n
    }
}

} // verus!
