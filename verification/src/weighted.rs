use crate::store::lemma_push_contains;
use vstd::prelude::*;

verus! {

/// One stored half-edge: the neighbour's id and the edge's weight.
pub type Link = (usize, i32);

/// An undirected weighted graph over a fixed number of vertices, kept as one
/// list of `(neighbour, weight)` pairs for each vertex.
#[derive(Debug)]
pub struct Graph {
    links: Vec<Vec<(usize, i32)>>,
}

/// The adjacency rows of a graph as a mathematical value.
pub type Rows = Seq<Seq<(usize, i32)>>;

/// The rows of a graph of `n` vertices without edges.
pub open spec fn empty_rows(n: nat) -> Rows {
    Seq::new(n, |a: int| Seq::<(usize, i32)>::empty())
}

/// `row` names `v` as a neighbour.
pub open spec fn row_has(row: Seq<(usize, i32)>, v: int) -> bool {
    exists|j: int| 0 <= j < row.len() && (#[trigger] row[j]).0 == v
}

/// Vertex `a` lists vertex `b` as a neighbour.
pub open spec fn adjacent(g: Rows, a: int, b: int) -> bool {
    0 <= a < g.len() && row_has(g[a], b)
}

/// The neighbour that `p` names holds the same entry for `a`, with the same
/// weight.
pub open spec fn mirrored(g: Rows, a: int, p: (usize, i32)) -> bool {
    p.0 < g.len() && g[p.0 as int].contains((a as usize, p.1))
}

/// No two entries of `row` name the same neighbour, unless it is `a` itself.
pub open spec fn names_once(row: Seq<(usize, i32)>, a: int) -> bool {
    forall|i: int, j: int|
        0 <= i < j < row.len() && (#[trigger] row[i]).0 == (#[trigger] row[j]).0 ==> row[i].0 == a
}

/// Every neighbour id is a vertex of the graph; `a` lists `b` exactly when
/// `b` lists `a`, with the same weight; and a row holds at most one entry
/// for each other vertex.
pub open spec fn rows_wf(g: Rows) -> bool {
    &&& g.len() <= usize::MAX
    &&& forall|a: int, j: int| 0 <= a < g.len() && 0 <= j < g[a].len() ==> (#[trigger] g[a][j]).0 < g.len()
    &&& forall|a: int, b: int| adjacent(g, a, b) ==> adjacent(g, b, a)
    &&& forall|a: int, j: int| 0 <= a < g.len() && 0 <= j < g[a].len() ==> mirrored(g, a, #[trigger] g[a][j])
    &&& forall|a: int| 0 <= a < g.len() ==> names_once(#[trigger] g[a], a)
}

/// The entries of `row` whose neighbour is not `v`, in their order.
pub open spec fn row_without(row: Seq<(usize, i32)>, v: int) -> Seq<(usize, i32)>
    decreases row.len(),
{
    if row.len() == 0 {
        row
    } else if row.last().0 != v {
        row_without(row.drop_last(), v).push(row.last())
    } else {
        row_without(row.drop_last(), v)
    }
}

/// `g` with the pair `p` added at the end of row `a`.
pub open spec fn rows_push(g: Rows, a: int, p: (usize, i32)) -> Rows {
    g.update(a, g[a].push(p))
}

/// `g` with every entry that names `v` taken out of row `a`.
pub open spec fn rows_drop(g: Rows, a: int, v: int) -> Rows {
    g.update(a, row_without(g[a], v))
}

/// The edges `(u, v, weight)` with `u < v` that row `u` holds, in the row's
/// order.
pub open spec fn row_edges(u: usize, row: Seq<(usize, i32)>) -> Seq<(usize, usize, i32)>
    decreases row.len(),
{
    if row.len() == 0 {
        Seq::empty()
    } else if u < row.last().0 {
        row_edges(u, row.drop_last()).push((u, row.last().0, row.last().1))
    } else {
        row_edges(u, row.drop_last())
    }
}

/// The edges of the first `k` rows: rows by ascending vertex id, each row in
/// its own order, every edge listed from its lower endpoint.
pub open spec fn edges_upto(g: Rows, k: int) -> Seq<(usize, usize, i32)>
    decreases k,
{
    if k <= 0 || k > g.len() {
        Seq::empty()
    } else {
        edges_upto(g, k - 1) + row_edges((k - 1) as usize, g[k - 1])
    }
}

/// Naming a neighbour survives `push`, and the pushed pair names its own.
pub proof fn lemma_row_has_push(row: Seq<(usize, i32)>, p: (usize, i32), x: int)
    ensures
        row_has(row.push(p), x) <==> row_has(row, x) || p.0 == x,
{
    let r = row.push(p);
    if row_has(r, x) {
        let j = choose|j: int| 0 <= j < r.len() && (#[trigger] r[j]).0 == x;
        if j < row.len() {
            assert(row[j].0 == x);
        }
    }
    if row_has(row, x) {
        let j = choose|j: int| 0 <= j < row.len() && (#[trigger] row[j]).0 == x;
        assert(r[j].0 == x);
    }
    if p.0 == x {
        assert(r[row.len() as int].0 == x);
    }
}

/// What `row_without` keeps: every entry of `row` that does not name `v`, and
/// nothing else.
pub proof fn lemma_row_without(row: Seq<(usize, i32)>, v: int)
    ensures
        row_without(row, v).len() <= row.len(),
        forall|x: int| row_has(row_without(row, v), x) <==> row_has(row, x) && x != v,
        forall|j: int| 0 <= j < row_without(row, v).len() ==> row.contains(#[trigger] row_without(row, v)[j]),
        forall|q: (usize, i32)| row_without(row, v).contains(q) <==> row.contains(q) && q.0 != v,
        forall|a: int| names_once(row, a) ==> names_once(row_without(row, v), a),
        !row_has(row, v) ==> row_without(row, v) == row,
    decreases row.len(),
{
    let out = row_without(row, v);
    if row.len() > 0 {
        let init = row.drop_last();
        let rest = row_without(init, v);
        lemma_row_without(init, v);
        assert(row =~= init.push(row.last()));
        assert forall|x: int| row_has(out, x) <==> row_has(row, x) && x != v by {
            lemma_row_has_push(init, row.last(), x);
            lemma_row_has_push(rest, row.last(), x);
        }
        assert forall|j: int| 0 <= j < out.len() implies row.contains(#[trigger] out[j]) by {
            if j < rest.len() {
                assert(init.contains(rest[j]));
                let k = choose|k: int| 0 <= k < init.len() && init[k] == rest[j];
                assert(row[k] == out[j]);
            } else {
                assert(row[row.len() - 1] == out[j]);
            }
        }
        assert forall|q: (usize, i32)| out.contains(q) <==> row.contains(q) && q.0 != v by {
            lemma_push_contains(init, row.last(), q);
            lemma_push_contains(rest, row.last(), q);
        }
        assert forall|a: int| names_once(row, a) implies names_once(out, a) by {
            assert forall|i: int, j: int|
                0 <= i < j < init.len() && (#[trigger] init[i]).0 == (#[trigger] init[j]).0 implies init[i].0
                == a by {
                assert(row[i].0 == row[j].0);
            }
            assert(names_once(init, a));
            assert forall|i: int, j: int|
                0 <= i < j < out.len() && (#[trigger] out[i]).0 == (#[trigger] out[j]).0 implies out[i].0
                == a by {
                if j < rest.len() {
                    assert(rest[i].0 == rest[j].0);
                } else {
                    assert(init.contains(rest[i]));
                    let k = choose|k: int| 0 <= k < init.len() && init[k] == rest[i];
                    assert(row[k].0 == row[row.len() - 1].0);
                }
            }
        }
        if !row_has(row, v) {
            lemma_row_has_push(init, row.last(), v);
            assert(out =~= row);
        }
    } else {
        assert forall|x: int| row_has(out, x) <==> row_has(row, x) && x != v by {}
    }
}

/// The weight of the first entry of `row` that names `v`, if there is one.
pub open spec fn row_weight(row: Seq<(usize, i32)>, v: int) -> Option<i32>
    decreases row.len(),
{
    if row.len() == 0 {
        None
    } else if row[0].0 == v {
        Some(row[0].1)
    } else {
        row_weight(row.drop_first(), v)
    }
}

/// Where the entries of a row come from after `p` is added to row `a`.
pub proof fn lemma_rows_push_entries(g: Rows, a: int, p: (usize, i32))
    requires
        0 <= a < g.len(),
    ensures
        rows_push(g, a, p).len() == g.len(),
        forall|x: int, j: int|
            0 <= x < g.len() && 0 <= j < rows_push(g, a, p)[x].len() ==> g[x].contains(
                #[trigger] rows_push(g, a, p)[x][j],
            ) || (x == a && rows_push(g, a, p)[x][j] == p),
{
    let h = rows_push(g, a, p);
    assert forall|x: int, j: int| 0 <= x < g.len() && 0 <= j < h[x].len() implies g[x].contains(
        #[trigger] h[x][j],
    ) || (x == a && h[x][j] == p) by {
        if x == a {
            if j < g[a].len() {
                assert(g[a][j] == h[x][j]);
            }
        } else {
            assert(g[x][j] == h[x][j]);
        }
    }
}

/// What `row_edges` lists: the entries of `row` above `u`, each once for
/// each time the row holds it.
pub proof fn lemma_row_edges(u: usize, row: Seq<(usize, i32)>)
    ensures
        forall|i: int|
            0 <= i < row_edges(u, row).len() ==> {
                let e = #[trigger] row_edges(u, row)[i];
                e.0 == u && u < e.1 && row.contains((e.1, e.2))
            },
        forall|j: int|
            0 <= j < row.len() && u < (#[trigger] row[j]).0 ==> row_edges(u, row).contains(
                (u, row[j].0, row[j].1),
            ),
    decreases row.len(),
{
    let out = row_edges(u, row);
    if row.len() > 0 {
        let init = row.drop_last();
        let rest = row_edges(u, init);
        lemma_row_edges(u, init);
        assert forall|i: int| 0 <= i < out.len() implies ({
            let e = #[trigger] out[i];
            e.0 == u && u < e.1 && row.contains((e.1, e.2))
        }) by {
            let e = out[i];
            if i < rest.len() {
                assert(e == rest[i]);
                assert(init.contains((e.1, e.2)));
                let k = choose|k: int| 0 <= k < init.len() && init[k] == (e.1, e.2);
                assert(row[k] == (e.1, e.2));
            } else {
                assert(row[row.len() - 1] == (e.1, e.2));
            }
        }
        assert forall|j: int| 0 <= j < row.len() && u < (#[trigger] row[j]).0 implies out.contains(
            (u, row[j].0, row[j].1),
        ) by {
            if j < init.len() {
                assert(init[j] == row[j]);
                assert(rest.contains((u, row[j].0, row[j].1)));
                let k = choose|k: int| 0 <= k < rest.len() && rest[k] == (u, row[j].0, row[j].1);
                assert(out[k] == rest[k]);
            } else {
                assert(out[out.len() - 1] == (u, row[j].0, row[j].1));
            }
        }
    }
}

/// What `edges_upto` lists: every entry of the first `k` rows that points to
/// a higher vertex, and nothing else.
pub proof fn lemma_edges_upto(g: Rows, k: int)
    requires
        0 <= k <= g.len(),
        g.len() <= usize::MAX,
    ensures
        forall|i: int|
            0 <= i < edges_upto(g, k).len() ==> {
                let e = #[trigger] edges_upto(g, k)[i];
                e.0 < k && e.0 < e.1 && g[e.0 as int].contains((e.1, e.2))
            },
        forall|a: int, j: int|
            0 <= a < k && 0 <= j < g[a].len() && a < (#[trigger] g[a][j]).0 ==> edges_upto(g, k).contains(
                (a as usize, g[a][j].0, g[a][j].1),
            ),
    decreases k,
{
    if k > 0 {
        let u = (k - 1) as usize;
        let prev = edges_upto(g, k - 1);
        let here = row_edges(u, g[k - 1]);
        let out = edges_upto(g, k);
        lemma_edges_upto(g, k - 1);
        lemma_row_edges(u, g[k - 1]);
        assert forall|i: int| 0 <= i < out.len() implies ({
            let e = #[trigger] out[i];
            e.0 < k && e.0 < e.1 && g[e.0 as int].contains((e.1, e.2))
        }) by {
            if i < prev.len() {
                assert(out[i] == prev[i]);
            } else {
                assert(out[i] == here[i - prev.len()]);
            }
        }
        assert forall|a: int, j: int|
            0 <= a < k && 0 <= j < g[a].len() && a < (#[trigger] g[a][j]).0 implies out.contains(
            (a as usize, g[a][j].0, g[a][j].1),
        ) by {
            let e = (a as usize, g[a][j].0, g[a][j].1);
            if a < k - 1 {
                assert(prev.contains(e));
                let i = choose|i: int| 0 <= i < prev.len() && prev[i] == e;
                assert(out[i] == e);
            } else {
                assert(here.contains(e));
                let i = choose|i: int| 0 <= i < here.len() && here[i] == e;
                assert(out[prev.len() + i] == e);
            }
        }
    }
}

/// Adjacency after one entry is added to row `a`.
pub proof fn lemma_adjacent_push(g: Rows, a: int, p: (usize, i32), x: int, y: int)
    requires
        0 <= a < g.len(),
    ensures
        adjacent(rows_push(g, a, p), x, y) <==> adjacent(g, x, y) || (x == a && y == p.0),
{
    lemma_row_has_push(g[a], p, y);
}

/// Adjacency after the entries that name `v` are taken out of row `a`.
pub proof fn lemma_adjacent_drop(g: Rows, a: int, v: int, x: int, y: int)
    requires
        0 <= a < g.len(),
    ensures
        adjacent(rows_drop(g, a, v), x, y) <==> adjacent(g, x, y) && !(x == a && y == v),
{
    lemma_row_without(g[a], v);
}

/// Adding both halves of an edge that is not there keeps the rows well
/// formed.
pub proof fn lemma_connect_wf(g: Rows, u: usize, v: usize, weight: i32)
    requires
        rows_wf(g),
        u < g.len(),
        v < g.len(),
        !row_has(g[u as int], v as int),
    ensures
        rows_wf(rows_push(rows_push(g, u as int, (v, weight)), v as int, (u, weight))),
        forall|x: int, y: int|
            adjacent(rows_push(rows_push(g, u as int, (v, weight)), v as int, (u, weight)), x, y)
                <==> adjacent(g, x, y) || (x == u && y == v) || (x == v && y == u),
{
    let g1 = rows_push(g, u as int, (v, weight));
    let g2 = rows_push(g1, v as int, (u, weight));
    assert forall|x: int, y: int|
        adjacent(g2, x, y) <==> adjacent(g, x, y) || (x == u && y == v) || (x == v && y == u) by {
        lemma_adjacent_push(g, u as int, (v, weight), x, y);
        lemma_adjacent_push(g1, v as int, (u, weight), x, y);
    }
    lemma_rows_push_entries(g, u as int, (v, weight));
    lemma_rows_push_entries(g1, v as int, (u, weight));
    assert forall|x: int, q: (usize, i32)| 0 <= x < g.len() && g[x].contains(q) implies #[trigger] g2[x].contains(
        q,
    ) by {
        lemma_push_contains(g[x], (v, weight), q);
        lemma_push_contains(g1[x], (u, weight), q);
    }
    assert(g2[v as int].contains((u, weight))) by {
        lemma_push_contains(g1[v as int], (u, weight), (u, weight));
    }
    assert(g2[u as int].contains((v, weight))) by {
        lemma_push_contains(g[u as int], (v, weight), (v, weight));
        lemma_push_contains(g1[u as int], (u, weight), (v, weight));
    }
    assert forall|a: int, j: int| 0 <= a < g2.len() && 0 <= j < g2[a].len() implies (#[trigger] g2[a][j]).0
        < g2.len() && mirrored(g2, a, g2[a][j]) by {
        let p = g2[a][j];
        if a == v && p == (u, weight) {
        } else {
            assert(g1[a].contains(p));
            if a == u && p == (v, weight) {
            } else {
                assert(g[a].contains(p));
                let k = choose|k: int| 0 <= k < g[a].len() && g[a][k] == p;
                assert(mirrored(g, a, g[a][k]));
                assert(g2[p.0 as int].contains((a as usize, p.1)));
            }
        }
    }
    assert(!row_has(g[v as int], u as int)) by {
        if row_has(g[v as int], u as int) {
            assert(adjacent(g, v as int, u as int));
            assert(adjacent(g, u as int, v as int));
        }
    }
    assert forall|a: int| 0 <= a < g2.len() implies names_once(#[trigger] g2[a], a) by {
        assert(names_once(g[a], a));
        let row = g2[a];
        assert forall|i: int, j: int|
            0 <= i < j < row.len() && (#[trigger] row[i]).0 == (#[trigger] row[j]).0 implies row[i].0 == a by {
            if j < g[a].len() {
                assert(g[a][i].0 == g[a][j].0);
            } else if i < g[a].len() {
                assert(g[a][i].0 == row[j].0);
            }
        }
    }
}

/// Removing both halves of an edge keeps the rows well formed.
pub proof fn lemma_disconnect_wf(g: Rows, u: int, v: int)
    requires
        rows_wf(g),
        0 <= u < g.len(),
        0 <= v < g.len(),
    ensures
        rows_wf(rows_drop(rows_drop(g, u, v), v, u)),
        forall|x: int, y: int|
            adjacent(rows_drop(rows_drop(g, u, v), v, u), x, y) <==> adjacent(g, x, y) && !(x == u
                && y == v) && !(x == v && y == u),
{
    let g1 = rows_drop(g, u, v);
    let g2 = rows_drop(g1, v, u);
    assert forall|x: int, y: int|
        adjacent(g2, x, y) <==> adjacent(g, x, y) && !(x == u && y == v) && !(x == v && y == u) by {
        lemma_adjacent_drop(g, u, v, x, y);
        lemma_adjacent_drop(g1, v, u, x, y);
    }
    lemma_row_without(g[u], v);
    lemma_row_without(g1[v], u);
    assert forall|x: int, q: (usize, i32)| 0 <= x < g.len() implies (#[trigger] g2[x].contains(q) <==> g[x].contains(
        q,
    ) && !(x == u && q.0 == v) && !(x == v && q.0 == u)) by {
    }
    assert forall|a: int, j: int| 0 <= a < g2.len() && 0 <= j < g2[a].len() implies (#[trigger] g2[a][j]).0
        < g2.len() && mirrored(g2, a, g2[a][j]) by {
        let p = g2[a][j];
        assert(g2[a].contains(p));
        assert(g[a].contains(p));
        let k = choose|k: int| 0 <= k < g[a].len() && g[a][k] == p;
        assert(mirrored(g, a, g[a][k]));
        assert(g2[p.0 as int].contains((a as usize, p.1)));
    }
    assert forall|a: int| 0 <= a < g2.len() implies names_once(#[trigger] g2[a], a) by {
        assert(names_once(g[a], a));
        assert(names_once(g1[a], a));
    }
}

impl View for Graph {
    type V = Seq<Seq<(usize, i32)>>;

    closed spec fn view(&self) -> Seq<Seq<(usize, i32)>> {
        Seq::new(self.links@.len(), |a: int| self.links@[a]@)
    }
}

impl Clone for Graph {
    /// An independent copy with the same rows.
    fn clone(&self) -> (copy: Graph)
        ensures
            copy@ == self@,
    {
        let mut links: Vec<Vec<(usize, i32)>> = Vec::new();
        let size: usize = self.links.len();
        let mut u: usize = 0;
        while u < size
            invariant
                u <= size,
                size == self.links@.len(),
                links@.len() == u,
                forall|a: int| 0 <= a < u ==> (#[trigger] links@[a])@ == self.links@[a]@,
            decreases size - u,
        {
            let mut row: Vec<(usize, i32)> = Vec::new();
            let n: usize = self.links[u].len();
            let mut j: usize = 0;
            while j < n
                invariant
                    j <= n,
                    u < self.links@.len(),
                    n == self.links@[u as int]@.len(),
                    row@ == self.links@[u as int]@.take(j as int),
                decreases n - j,
            {
                row.push(self.links[u][j]);
                j += 1;
                assert(row@ =~= self.links@[u as int]@.take(j as int));
            }
            assert(self.links@[u as int]@.take(n as int) =~= self.links@[u as int]@);
            links.push(row);
            u += 1;
        }
        let copy = Graph { links };
        assert(copy@ =~= self@);
        copy
    }
}

/// The sum of the weights of `edges`.
pub open spec fn total_weight(edges: Seq<(usize, usize, i32)>) -> int
    decreases edges.len(),
{
    if edges.len() == 0 {
        0
    } else {
        total_weight(edges.drop_last()) + edges.last().2
    }
}

/// The weight of a list of edges followed by another is the sum of their
/// weights.
pub proof fn lemma_total_concat(a: Seq<(usize, usize, i32)>, b: Seq<(usize, usize, i32)>)
    ensures
        total_weight(a + b) == total_weight(a) + total_weight(b),
    decreases b.len(),
{
    if b.len() == 0 {
        assert(a + b =~= a);
    } else {
        assert((a + b).drop_last() =~= a + b.drop_last());
        lemma_total_concat(a, b.drop_last());
    }
}

/// The weight that row `u` adds to the total: that of its entries above `u`.
pub open spec fn row_total(u: usize, row: Seq<(usize, i32)>) -> int {
    total_weight(row_edges(u, row))
}

/// With one row replaced, the total weight changes by what that row's share
/// changes.
pub proof fn lemma_total_update(g: Rows, a: int, row: Seq<(usize, i32)>, k: int)
    requires
        0 <= a < g.len(),
        0 <= k <= g.len(),
    ensures
        total_weight(edges_upto(g.update(a, row), k)) == total_weight(edges_upto(g, k)) + if a < k {
            row_total(a as usize, row) - row_total(a as usize, g[a])
        } else {
            0
        },
    decreases k,
{
    if k > 0 {
        let h = g.update(a, row);
        lemma_total_update(g, a, row, k - 1);
        lemma_total_concat(edges_upto(g, k - 1), row_edges((k - 1) as usize, g[k - 1]));
        lemma_total_concat(edges_upto(h, k - 1), row_edges((k - 1) as usize, h[k - 1]));
    }
}

/// A new entry adds its weight to the row's share where it points upwards.
pub proof fn lemma_row_total_push(u: usize, row: Seq<(usize, i32)>, p: (usize, i32))
    ensures
        row_total(u, row.push(p)) == row_total(u, row) + if u < p.0 {
            p.1 as int
        } else {
            0
        },
{
    assert(row.push(p).drop_last() =~= row);
    if u < p.0 {
        assert(row_edges(u, row).push((u, p.0, p.1)).drop_last() =~= row_edges(u, row));
    }
}

/// Taking the entries that name `v` out of a row lowers the row's share by
/// the weight of the one entry that names `v`, where `v` is above `u`, and
/// leaves it as it is where `v` is below.
pub proof fn lemma_row_total_without(u: usize, row: Seq<(usize, i32)>, v: usize, w: i32)
    requires
        names_once(row, u as int),
        v != u,
    ensures
        v < u ==> row_total(u, row_without(row, v as int)) == row_total(u, row),
        u < v && row.contains((v, w)) ==> row_total(u, row_without(row, v as int)) == row_total(u, row) - w,
    decreases row.len(),
{
    if row.len() > 0 {
        let init = row.drop_last();
        let last = row.last();
        assert(row =~= init.push(last));
        assert forall|i: int, j: int|
            0 <= i < j < init.len() && (#[trigger] init[i]).0 == (#[trigger] init[j]).0 implies init[i].0
            == u by {
            assert(row[i].0 == row[j].0);
        }
        lemma_row_total_push(u, init, last);
        if last.0 == v {
            if row_has(init, v as int) {
                let k = choose|k: int| 0 <= k < init.len() && (#[trigger] init[k]).0 == v;
                assert(row[k].0 == row[row.len() - 1].0);
            }
            lemma_row_without(init, v as int);
            if row.contains((v, w)) {
                let k = choose|k: int| 0 <= k < row.len() && row[k] == (v, w);
                if k < row.len() - 1 {
                    assert(row[k].0 == row[row.len() - 1].0);
                }
            }
        } else {
            lemma_row_total_without(u, init, v, w);
            lemma_row_total_push(u, row_without(init, v as int), last);
            if row.contains((v, w)) {
                lemma_push_contains(init, last, (v, w));
            }
        }
    }
}

/// Swapping the listed edge `t` for an edge `e` that is not there changes the
/// total weight by the difference of their weights.
pub proof fn lemma_swap_weight(g: Rows, t: (usize, usize, i32), e: (usize, usize, i32))
    requires
        rows_wf(g),
        edges_upto(g, g.len() as int).contains(t),
        e.0 < e.1 < g.len(),
        !row_has(rows_disconnect(g, t.0, t.1)[e.0 as int], e.1 as int),
    ensures
        total_weight(
            edges_upto(rows_connect(rows_disconnect(g, t.0, t.1), e.0, e.1, e.2), g.len() as int),
        ) == total_weight(edges_upto(g, g.len() as int)) - t.2 + e.2,
{
    let n = g.len() as int;
    lemma_edges_upto(g, n);
    let i = choose|i: int| 0 <= i < edges_upto(g, n).len() && edges_upto(g, n)[i] == t;
    assert(edges_upto(g, n)[i] == t);
    assert(g[t.0 as int].contains((t.1, t.2)));
    let k = choose|k: int| 0 <= k < g[t.0 as int].len() && g[t.0 as int][k] == (t.1, t.2);
    assert(g[t.0 as int][k].0 < g.len());
    let g1 = rows_drop(g, t.0 as int, t.1 as int);
    let g2 = rows_drop(g1, t.1 as int, t.0 as int);
    assert(names_once(g[t.0 as int], t.0 as int));
    assert(names_once(g[t.1 as int], t.1 as int));
    lemma_row_total_without(t.0, g[t.0 as int], t.1, t.2);
    lemma_total_update(g, t.0 as int, row_without(g[t.0 as int], t.1 as int), n);
    lemma_row_total_without(t.1, g1[t.1 as int], t.0, t.2);
    lemma_total_update(g1, t.1 as int, row_without(g1[t.1 as int], t.0 as int), n);
    let g3 = rows_push(g2, e.0 as int, (e.1, e.2));
    let g4 = rows_push(g3, e.1 as int, (e.0, e.2));
    lemma_row_total_push(e.0, g2[e.0 as int], (e.1, e.2));
    lemma_total_update(g2, e.0 as int, g2[e.0 as int].push((e.1, e.2)), n);
    lemma_row_total_push(e.1, g3[e.1 as int], (e.0, e.2));
    lemma_total_update(g3, e.1 as int, g3[e.1 as int].push((e.0, e.2)), n);
}

/// The result of `connect` on the rows `g`.
pub open spec fn rows_connect(g: Rows, u: usize, v: usize, weight: i32) -> Rows {
    if row_has(g[u as int], v as int) {
        g
    } else {
        rows_push(rows_push(g, u as int, (v, weight)), v as int, (u, weight))
    }
}

/// The result of `disconnect` on the rows `g`.
pub open spec fn rows_disconnect(g: Rows, u: usize, v: usize) -> Rows {
    rows_drop(rows_drop(g, u as int, v as int), v as int, u as int)
}

impl Graph {
    /// The sum of the weights of all edges.
    pub fn weight(&self) -> (sum: i128)
        ensures
            sum == total_weight(edges_upto(self@, self@.len() as int)),
    {
        let edges = self.all_edges();
        let total: usize = edges.len();
        let mut sum: i128 = 0;
        let mut i: usize = 0;
        while i < total
            invariant
                i <= total,
                total == edges@.len(),
                sum == total_weight(edges@.take(i as int)),
                -0x8000_0000 * i <= sum <= 0x8000_0000 * i,
            decreases total - i,
        {
            assert(edges@.take(i + 1).drop_last() =~= edges@.take(i as int));
            sum = sum + edges[i].2 as i128;
            i += 1;
        }
        assert(edges@.take(total as int) =~= edges@);
        sum
    }

    /// The graph's invariant: see `rows_wf`.
    pub open spec fn wf(&self) -> bool {
        rows_wf(self@)
    }

    /// A graph of `size` vertices and no edges.
    pub fn new(size: usize) -> (g: Graph)
        ensures
            g@ == empty_rows(size as nat),
            g.wf(),
    {
        let mut links: Vec<Vec<(usize, i32)>> = Vec::new();
        let mut i: usize = 0;
        while i < size
            invariant
                i <= size,
                links@.len() == i,
                forall|a: int| 0 <= a < i ==> (#[trigger] links@[a])@.len() == 0,
            decreases size - i,
        {
            links.push(Vec::new());
            i += 1;
        }
        let g = Graph { links };
        assert(g@ =~~= empty_rows(size as nat));
        g
    }

    /// The `(neighbour, weight)` pairs of `u`, in the order they were added.
    pub fn neighbors(&self, u: usize) -> (row: &[(usize, i32)])
        requires
            u < self@.len(),
        ensures
            row@ == self@[u as int],
    {
        self.links[u].as_slice()
    }

    /// The number of vertices.
    pub fn size(&self) -> (n: usize)
        ensures
            n == self@.len(),
    {
        self.links.len()
    }

    /// Adds the pair `p` at the end of row `u`.
    fn push_link(&mut self, u: usize, p: (usize, i32))
        requires
            u < old(self)@.len(),
        ensures
            final(self)@ == rows_push(old(self)@, u as int, p),
    {
        self.links[u].push(p);
        assert(self@ =~= rows_push(old(self)@, u as int, p));
    }

    /// Takes every entry that names `v` out of row `u`.
    fn drop_links(&mut self, u: usize, v: usize)
        requires
            u < old(self)@.len(),
        ensures
            final(self)@ == rows_drop(old(self)@, u as int, v as int),
    {
        let mut kept: Vec<(usize, i32)> = Vec::new();
        let n: usize = self.links[u].len();
        let mut j: usize = 0;
        while j < n
            invariant
                j <= n,
                u < self.links@.len(),
                n == self.links@[u as int]@.len(),
                kept@ == row_without(self.links@[u as int]@.take(j as int), v as int),
            decreases n - j,
        {
            let p: (usize, i32) = self.links[u][j];
            proof {
                let row = self.links@[u as int]@;
                assert(row.take(j + 1).drop_last() =~= row.take(j as int));
            }
            if p.0 != v {
                kept.push(p);
            }
            j += 1;
        }
        proof {
            let row = self.links@[u as int]@;
            assert(row.take(n as int) =~= row);
        }
        self.links.set(u, kept);
        assert(self@ =~= rows_drop(old(self)@, u as int, v as int));
    }

    /// Whether row `u` names `v`.
    fn has_link(&self, u: usize, v: usize) -> (found: bool)
        requires
            u < self@.len(),
        ensures
            found == row_has(self@[u as int], v as int),
    {
        let n: usize = self.links[u].len();
        let mut j: usize = 0;
        while j < n
            invariant
                j <= n,
                u < self.links@.len(),
                n == self.links@[u as int]@.len(),
                forall|k: int| 0 <= k < j ==> (#[trigger] self.links@[u as int]@[k]).0 != v,
            decreases n - j,
        {
            if self.links[u][j].0 == v {
                return true;
            }
            j += 1;
        }
        false
    }

    /// Adds the edge between `u` and `v` with the given weight, unless `u`
    /// already lists `v`: then nothing changes, whatever the weight.
    pub fn connect(&mut self, u: usize, v: usize, weight: i32)
        requires
            old(self).wf(),
            u < old(self)@.len(),
            v < old(self)@.len(),
        ensures
            final(self).wf(),
            final(self)@.len() == old(self)@.len(),
            forall|x: int, y: int|
                adjacent(final(self)@, x, y) <==> adjacent(old(self)@, x, y) || (x == u && y == v) || (x
                    == v && y == u),
            row_has(old(self)@[u as int], v as int) ==> final(self)@ == old(self)@,
            !row_has(old(self)@[u as int], v as int) ==> final(self)@ == rows_push(
                rows_push(old(self)@, u as int, (v, weight)),
                v as int,
                (u, weight),
            ),
    {
        if self.has_link(u, v) {
            assert(adjacent(self@, u as int, v as int));
            assert(adjacent(self@, v as int, u as int));
            return ;
        }
        self.push_link(u, (v, weight));
        self.push_link(v, (u, weight));
        proof {
            lemma_connect_wf(old(self)@, u, v, weight);
        }
    }

    /// Removes the edge between `u` and `v` from both rows.
    pub fn disconnect(&mut self, u: usize, v: usize)
        requires
            old(self).wf(),
            u < old(self)@.len(),
            v < old(self)@.len(),
        ensures
            final(self).wf(),
            final(self)@ == rows_drop(rows_drop(old(self)@, u as int, v as int), v as int, u as int),
    {
        self.drop_links(u, v);
        self.drop_links(v, u);
        proof {
            lemma_disconnect_wf(old(self)@, u as int, v as int);
        }
    }

    /// The weight stored for the edge between `u` and `v`: that of the first
    /// entry of row `u` that names `v`, or `None` if there is none.
    pub fn get_weight(&self, u: usize, v: usize) -> (w: Option<i32>)
        requires
            u < self@.len(),
        ensures
            w == row_weight(self@[u as int], v as int),
            w.is_some() <==> row_has(self@[u as int], v as int),
    {
        let n: usize = self.links[u].len();
        let mut j: usize = 0;
        assert(self.links@[u as int]@.skip(0) =~= self.links@[u as int]@);
        while j < n
            invariant
                j <= n,
                u < self.links@.len(),
                n == self.links@[u as int]@.len(),
                row_weight(self.links@[u as int]@, v as int) == row_weight(
                    self.links@[u as int]@.skip(j as int),
                    v as int,
                ),
                forall|k: int| 0 <= k < j ==> (#[trigger] self.links@[u as int]@[k]).0 != v,
            decreases n - j,
        {
            let p: (usize, i32) = self.links[u][j];
            proof {
                let row = self.links@[u as int]@;
                assert(row.skip(j as int).drop_first() =~= row.skip(j + 1));
                assert(row.skip(j as int)[0] == row[j as int]);
            }
            if p.0 == v {
                return Some(p.1);
            }
            j += 1;
        }
        None
    }

    /// Every edge once, as `(lower id, higher id, weight)`: rows by ascending
    /// vertex id, each row in the order its entries were added.
    pub fn all_edges(&self) -> (edges: Vec<(usize, usize, i32)>)
        ensures
            edges@ == edges_upto(self@, self@.len() as int),
    {
        let mut edges: Vec<(usize, usize, i32)> = Vec::new();
        let size: usize = self.links.len();
        let mut u: usize = 0;
        while u < size
            invariant
                u <= size,
                size == self.links@.len(),
                edges@ == edges_upto(self@, u as int),
            decreases size - u,
        {
            let n: usize = self.links[u].len();
            let mut j: usize = 0;
            while j < n
                invariant
                    j <= n,
                    u < size,
                    size == self.links@.len(),
                    n == self.links@[u as int]@.len(),
                    edges@ == edges_upto(self@, u as int) + row_edges(
                        u,
                        self.links@[u as int]@.take(j as int),
                    ),
                decreases n - j,
            {
                let p: (usize, i32) = self.links[u][j];
                proof {
                    let row = self.links@[u as int]@;
                    assert(row.take(j + 1).drop_last() =~= row.take(j as int));
                }
                if u < p.0 {
                    edges.push((u, p.0, p.1));
                }
                j += 1;
                assert(edges@ =~= edges_upto(self@, u as int) + row_edges(
                    u,
                    self.links@[u as int]@.take(j as int),
                ));
            }
            proof {
                let row = self.links@[u as int]@;
                assert(row.take(n as int) =~= row);
            }
            u += 1;
        }
        edges
    }
}

} // verus!
