use vstd::prelude::*;

verus! {

/// Bytes counted for one stored neighbour id.
pub const WORD_BYTES: usize = 8;

/// Bytes counted for the header of one list of neighbours.
pub const LIST_HEADER_BYTES: usize = 24;

/// Bytes counted for the header of one set of neighbours.
pub const SET_HEADER_BYTES: usize = 32;

/// What every representation of an undirected graph offers. `linked` is the
/// relation that the graph stores; all representations change it in the same
/// way and answer queries from it.
pub trait UndirectedGraph: Sized {
    /// The number of vertices.
    spec fn order(&self) -> nat;

    /// Vertex `u` holds `v` as a neighbour.
    spec fn linked(&self, u: int, v: int) -> bool;

    /// The representation's invariant; it makes `linked` symmetric.
    spec fn wf(&self) -> bool;

    /// A graph of `v` vertices can be allocated.
    spec fn fits(v: usize) -> bool;

    /// In a well-formed graph `linked` is symmetric and holds of vertices only.
    proof fn lemma_symmetric(&self, u: int, v: int)
        requires
            self.wf(),
            self.linked(u, v),
        ensures
            self.linked(v, u),
            0 <= u < self.order(),
            0 <= v < self.order(),
    ;

    /// A graph of `v` vertices without edges; `e` is a hint for allocation.
    fn new(v: usize, e: usize) -> (g: Self)
        requires
            Self::fits(v),
        ensures
            g.wf(),
            g.order() == v,
            forall|x: int, y: int| !g.linked(x, y),
    ;

    /// Adds the edge between `u` and `v`.
    fn connect(&mut self, u: usize, v: usize)
        requires
            old(self).wf(),
            u < old(self).order(),
            v < old(self).order(),
        ensures
            final(self).wf(),
            final(self).order() == old(self).order(),
            final(self).linked(u as int, v as int),
            final(self).linked(v as int, u as int),
            forall|x: int, y: int|
                final(self).linked(x, y) <==> old(self).linked(x, y) || (x == u && y == v) || (x == v && y
                    == u),
    ;

    /// Removes the edge between `u` and `v`.
    fn disconnect(&mut self, u: usize, v: usize)
        requires
            old(self).wf(),
            u < old(self).order(),
            v < old(self).order(),
        ensures
            final(self).wf(),
            final(self).order() == old(self).order(),
            !final(self).linked(u as int, v as int),
            !final(self).linked(v as int, u as int),
            forall|x: int, y: int|
                final(self).linked(x, y) <==> old(self).linked(x, y) && !(x == u && y == v) && !(x == v
                    && y == u),
    ;

    /// Whether `u` holds `v` as a neighbour.
    fn is_connected(&self, u: usize, v: usize) -> (found: bool)
        requires
            self.wf(),
            u < self.order(),
            v < self.order(),
        ensures
            found == self.linked(u as int, v as int),
    ;

    /// The neighbours of `u`.
    fn list_neighbors(&self, u: usize) -> (neighbors: Vec<usize>)
        requires
            self.wf(),
            u < self.order(),
        ensures
            forall|v: usize| neighbors@.contains(v) <==> self.linked(u as int, v as int),
    ;

    /// Every edge once, the lower id first.
    fn list_all_edges(&self) -> (edges: Vec<(usize, usize)>)
        requires
            self.wf(),
        ensures
            is_edge_list(edges@, |a: int, b: int| self.linked(a, b)),
    ;

    /// The estimate that `memory_usage` returns: what the representation
    /// counts for its containers and for the entries they hold.
    spec fn bytes_used(&self) -> int;

    /// An estimate of the bytes that the graph occupies.
    fn memory_usage(&self) -> (bytes: usize)
        requires
            self.wf(),
        ensures
            bytes == self.bytes_used(),
    ;
}

/// The two graphs store the same relation.
pub open spec fn agree<A: UndirectedGraph, B: UndirectedGraph>(a: &A, b: &B) -> bool {
    forall|x: int, y: int| a.linked(x, y) == b.linked(x, y)
}

/// `after` stores what `before` stores and the edge between `u` and `v`.
pub open spec fn connected_from<A: UndirectedGraph>(before: &A, after: &A, u: usize, v: usize) -> bool {
    forall|x: int, y: int|
        after.linked(x, y) <==> before.linked(x, y) || (x == u && y == v) || (x == v && y == u)
}

/// `after` stores what `before` stores but for the edge between `u` and `v`.
pub open spec fn disconnected_from<A: UndirectedGraph>(before: &A, after: &A, u: usize, v: usize) -> bool {
    forall|x: int, y: int|
        after.linked(x, y) <==> before.linked(x, y) && !(x == u && y == v) && !(x == v && y == u)
}

/// After `connect(u, v)` the edge is there in both directions.
pub proof fn lemma_connect_symmetric<A: UndirectedGraph>(before: &A, after: &A, u: usize, v: usize)
    requires
        connected_from(before, after, u, v),
    ensures
        after.linked(u as int, v as int),
        after.linked(v as int, u as int),
{
}

/// After `disconnect(u, v)` the edge is gone in both directions, and a second
/// `disconnect(u, v)` changes nothing.
pub proof fn lemma_disconnect_twice<A: UndirectedGraph>(g0: &A, g1: &A, g2: &A, u: usize, v: usize)
    requires
        disconnected_from(g0, g1, u, v),
        disconnected_from(g1, g2, u, v),
    ensures
        !g1.linked(u as int, v as int),
        !g1.linked(v as int, u as int),
        forall|x: int, y: int| g2.linked(x, y) == g1.linked(x, y),
{
}

/// Two graphs without edges store the same relation, whatever their
/// representations and orders.
pub proof fn lemma_new_agrees<A: UndirectedGraph, B: UndirectedGraph>(a: &A, b: &B)
    requires
        forall|x: int, y: int| !a.linked(x, y),
        forall|x: int, y: int| !b.linked(x, y),
    ensures
        agree(a, b),
{
}

/// Two graphs that store the same relation still do after the same
/// `connect`, whatever their representations.
pub proof fn lemma_connect_agrees<A: UndirectedGraph, B: UndirectedGraph>(
    a0: &A,
    a1: &A,
    b0: &B,
    b1: &B,
    u: usize,
    v: usize,
)
    requires
        agree(a0, b0),
        connected_from(a0, a1, u, v),
        connected_from(b0, b1, u, v),
    ensures
        agree(a1, b1),
{
}

/// Two graphs that store the same relation still do after the same
/// `disconnect`, whatever their representations.
pub proof fn lemma_disconnect_agrees<A: UndirectedGraph, B: UndirectedGraph>(
    a0: &A,
    a1: &A,
    b0: &B,
    b1: &B,
    u: usize,
    v: usize,
)
    requires
        agree(a0, b0),
        disconnected_from(a0, a1, u, v),
        disconnected_from(b0, b1, u, v),
    ensures
        agree(a1, b1),
{
}

/// Two graphs that store the same relation list the same set of edges,
/// whatever their representations.
pub proof fn lemma_same_edges<A: UndirectedGraph, B: UndirectedGraph>(
    a: &A,
    b: &B,
    ea: Seq<(usize, usize)>,
    eb: Seq<(usize, usize)>,
)
    requires
        agree(a, b),
        is_edge_list(ea, |x: int, y: int| a.linked(x, y)),
        is_edge_list(eb, |x: int, y: int| b.linked(x, y)),
    ensures
        ea.to_set() == eb.to_set(),
{
    assert forall|e: (usize, usize)| ea.to_set().contains(e) <==> eb.to_set().contains(e) by {
        assert(ea.contains((e.0, e.1)) <==> eb.contains((e.0, e.1)));
    }
    assert(ea.to_set() =~= eb.to_set());
}

/// `edges` lists every pair `(a, b)` with `a < b` that `linked` holds of,
/// once.
pub open spec fn is_edge_list(edges: Seq<(usize, usize)>, linked: spec_fn(int, int) -> bool) -> bool {
    &&& edges.no_duplicates()
    &&& forall|a: usize, b: usize| #[trigger] edges.contains((a, b)) <==> a < b && linked(a as int, b as int)
}

/// The entries of `row` that are not `v`, in their order.
pub open spec fn seq_without(row: Seq<usize>, v: usize) -> Seq<usize>
    decreases row.len(),
{
    if row.len() == 0 {
        row
    } else if row.last() != v {
        seq_without(row.drop_last(), v).push(row.last())
    } else {
        seq_without(row.drop_last(), v)
    }
}

/// What `seq_without` keeps: every entry but `v`; all of `row` where `v` is
/// not in it.
pub proof fn lemma_seq_without(row: Seq<usize>, v: usize)
    ensures
        forall|x: usize| seq_without(row, v).contains(x) <==> row.contains(x) && x != v,
        !row.contains(v) ==> seq_without(row, v) == row,
    decreases row.len(),
{
    let out = seq_without(row, v);
    if row.len() > 0 {
        let init = row.drop_last();
        let rest = seq_without(init, v);
        lemma_seq_without(init, v);
        assert(row =~= init.push(row.last()));
        assert forall|x: usize| out.contains(x) <==> row.contains(x) && x != v by {
            lemma_push_contains(init, row.last(), x);
            lemma_push_contains(rest, row.last(), x);
        }
        if !row.contains(v) {
            lemma_push_contains(init, row.last(), v);
            assert(out =~= row);
        }
    }
}

/// `push` adds the pushed value to what a sequence contains, and nothing
/// else.
pub proof fn lemma_push_contains<T>(s: Seq<T>, x: T, y: T)
    ensures
        s.push(x).contains(y) <==> s.contains(y) || y == x,
{
    let r = s.push(x);
    if r.contains(y) {
        let j = choose|j: int| 0 <= j < r.len() && r[j] == y;
        if j < s.len() {
            assert(s[j] == y);
        }
    }
    if s.contains(y) {
        let j = choose|j: int| 0 <= j < s.len() && s[j] == y;
        assert(r[j] == y);
    }
    if y == x {
        assert(r[s.len() as int] == y);
    }
}

/// A copy of `row` without the entries equal to `v`.
pub fn without(row: &Vec<usize>, v: usize) -> (kept: Vec<usize>)
    ensures
        kept@ == seq_without(row@, v),
{
    let mut kept: Vec<usize> = Vec::new();
    let n: usize = row.len();
    let mut j: usize = 0;
    while j < n
        invariant
            j <= n,
            n == row@.len(),
            kept@ == seq_without(row@.take(j as int), v),
        decreases n - j,
    {
        assert(row@.take(j + 1).drop_last() =~= row@.take(j as int));
        if row[j] != v {
            kept.push(row[j]);
        }
        j += 1;
    }
    assert(row@.take(n as int) =~= row@);
    kept
}

/// Whether `v` occurs among the first `upto` entries of `row`.
pub fn occurs(row: &Vec<usize>, upto: usize, v: usize) -> (found: bool)
    requires
        upto <= row@.len(),
    ensures
        found == row@.take(upto as int).contains(v),
{
    let mut j: usize = 0;
    while j < upto
        invariant
            j <= upto,
            upto <= row@.len(),
            forall|k: int| 0 <= k < j ==> row@[k] != v,
        decreases upto - j,
    {
        if row[j] == v {
            assert(row@.take(upto as int)[j as int] == v);
            return true;
        }
        j += 1;
    }
    false
}

/// Appends to `out` the pair `(u, v)` for every neighbour `v` above `u`,
/// once each.
pub fn push_upper(out: &mut Vec<(usize, usize)>, u: usize, neighbors: &Vec<usize>)
    requires
        old(out)@.no_duplicates(),
        forall|i: int| 0 <= i < old(out)@.len() ==> (#[trigger] old(out)@[i]).0 < u,
    ensures
        final(out)@.no_duplicates(),
        forall|i: int| 0 <= i < final(out)@.len() ==> (#[trigger] final(out)@[i]).0 <= u,
        forall|a: usize, b: usize| #[trigger]
            final(out)@.contains((a, b)) <==> old(out)@.contains((a, b)) || (a == u && u < b
                && neighbors@.contains(b)),
{
    let n: usize = neighbors.len();
    let mut j: usize = 0;
    assert(neighbors@.take(0) =~= Seq::<usize>::empty());
    while j < n
        invariant
            j <= n,
            n == neighbors@.len(),
            out@.no_duplicates(),
            forall|i: int| 0 <= i < old(out)@.len() ==> (#[trigger] old(out)@[i]).0 < u,
            forall|i: int| 0 <= i < out@.len() ==> (#[trigger] out@[i]).0 <= u,
            forall|a: usize, b: usize| #[trigger]
                out@.contains((a, b)) <==> old(out)@.contains((a, b)) || (a == u && u < b
                    && neighbors@.take(j as int).contains(b)),
        decreases n - j,
    {
        let v: usize = neighbors[j];
        let seen: bool = occurs(neighbors, j, v);
        let ghost before = out@;
        proof {
            assert(neighbors@.take(j + 1) =~= neighbors@.take(j as int).push(v));
            assert forall|b: usize|
                neighbors@.take(j + 1).contains(b) <==> neighbors@.take(j as int).contains(b) || b == v by {
                lemma_push_contains(neighbors@.take(j as int), v, b);
            }
        }
        if u < v && !seen {
            proof {
                if before.contains((u, v)) {
                    if old(out)@.contains((u, v)) {
                        let i = choose|i: int| 0 <= i < old(out)@.len() && old(out)@[i] == (u, v);
                        assert(old(out)@[i].0 < u);
                    }
                }
            }
            out.push((u, v));
            proof {
                assert forall|a: usize, b: usize| #[trigger]
                    out@.contains((a, b)) <==> before.contains((a, b)) || (a, b) == (u, v) by {
                    lemma_push_contains(before, (u, v), (a, b));
                }
                assert forall|i: int, k: int| 0 <= i < out@.len() && 0 <= k < out@.len() && i != k implies out@[i]
                    != out@[k] by {
                    if i == before.len() {
                        assert(before[k] == out@[k]);
                        assert(before.contains(out@[k]));
                    } else if k == before.len() {
                        assert(before[i] == out@[i]);
                        assert(before.contains(out@[i]));
                    } else {
                        assert(before[i] == out@[i] && before[k] == out@[k]);
                    }
                }
            }
        }
        j += 1;
    }
    assert(neighbors@.take(n as int) =~= neighbors@);
}

/// The number of entries in the first `k` rows.
pub open spec fn entries(rows: Seq<Seq<usize>>, k: int) -> int
    decreases k,
{
    if k <= 0 || k > rows.len() {
        0
    } else {
        entries(rows, k - 1) + rows[k - 1].len()
    }
}

/// The byte estimate for `count` entries of a word each in `order`
/// containers with a header of `header` bytes each, and one list header for
/// the whole; `usize::MAX` where that is more.
pub open spec fn footprint(count: int, order: int, header: int) -> int {
    let bytes = WORD_BYTES * count + header * order + LIST_HEADER_BYTES;
    if bytes > usize::MAX {
        usize::MAX as int
    } else {
        bytes
    }
}

/// Computes `footprint`.
pub fn footprint_of(count: usize, order: usize, header: usize) -> (bytes: usize)
    ensures
        bytes == footprint(count as int, order as int, header as int),
{
    assert(0 <= (header as int) * (order as int) <= 0xFFFF_FFFF_FFFF_FFFF * 0xFFFF_FFFF_FFFF_FFFF)
        by (nonlinear_arith)
        requires
            0 <= header <= 0xFFFF_FFFF_FFFF_FFFF,
            0 <= order <= 0xFFFF_FFFF_FFFF_FFFF,
    ;
    let headers: u128 = (header as u128) * (order as u128);
    if headers > usize::MAX as u128 {
        return usize::MAX;
    }
    let words: u128 = 8 * (count as u128);
    assert(words == WORD_BYTES * count);
    let wide: u128 = words + headers + 24;
    assert(wide == WORD_BYTES * count + header * order + LIST_HEADER_BYTES);
    if wide > usize::MAX as u128 {
        usize::MAX
    } else {
        wide as usize
    }
}

} // verus!
