use crate::weighted::{adjacent, rows_wf, Graph, Rows};
use vstd::prelude::*;

verus! {

/// `p` is a walk in `g`: vertices of `g`, at least one, each listing the next
/// as a neighbour.
pub open spec fn is_walk(g: Rows, p: Seq<int>) -> bool {
    &&& p.len() > 0
    &&& forall|i: int| 0 <= i < p.len() ==> 0 <= #[trigger] p[i] < g.len()
    &&& forall|i: int| 0 <= i < p.len() - 1 ==> adjacent(g, #[trigger] p[i], p[i + 1])
}

/// Some walk in `g` leads from `a` to `b`.
pub open spec fn reachable(g: Rows, a: int, b: int) -> bool {
    exists|p: Seq<int>| #[trigger] is_walk(g, p) && p[0] == a && p.last() == b
}

/// `p` is a walk in `g` that meets no vertex marked in `visited`.
pub open spec fn is_fresh_walk(g: Rows, visited: Seq<bool>, p: Seq<int>) -> bool {
    &&& is_walk(g, p)
    &&& forall|i: int| 0 <= i < p.len() ==> 0 <= #[trigger] p[i] < visited.len() && !visited[p[i]]
}

/// Some walk that meets no vertex marked in `visited` leads from `a` to `b`.
pub open spec fn reach_fresh(g: Rows, visited: Seq<bool>, a: int, b: int) -> bool {
    exists|p: Seq<int>| #[trigger] is_fresh_walk(g, visited, p) && p[0] == a && p.last() == b
}

/// Every neighbour of `x` is visited and carries the label of `x`.
pub open spec fn settled(g: Rows, visited: Seq<bool>, label: Seq<usize>, x: int) -> bool {
    forall|y: int| #[trigger]
        adjacent(g, x, y) ==> 0 <= y < visited.len() && y < label.len() && visited[y] && label[y]
            == label[x]
}

/// Some vertex carries the label `c`.
pub open spec fn label_used(label: Seq<usize>, c: int) -> bool {
    exists|a: int| 0 <= a < label.len() && #[trigger] label[a] == c
}

/// `label` numbers the connected components of `g` from 0 to `count - 1`:
/// two vertices share a label exactly when each reaches the other, every
/// label below `count` is in use, and a component gets the next free label
/// when the ascending scan of the vertices first meets it.
pub open spec fn is_labeling(g: Rows, count: int, label: Seq<usize>) -> bool {
    &&& label.len() == g.len()
    &&& 0 <= count <= g.len()
    &&& forall|a: int| 0 <= a < g.len() ==> #[trigger] label[a] < count
    &&& forall|a: int, b: int|
        0 <= a < g.len() && 0 <= b < g.len() ==> (label[a] == label[b] <==> #[trigger] reachable(g, a, b))
    &&& forall|c: int| 0 <= c < count ==> #[trigger] label_used(label, c)
    &&& forall|a: int|
        0 <= a < g.len() && #[trigger] label[a] > 0 ==> exists|b: int|
            0 <= b < a && #[trigger] label[b] == label[a] - 1
}

/// The largest label among the first `a` vertices; -1 where there is none.
pub open spec fn top_label(label: Seq<usize>, a: int) -> int
    decreases a,
{
    if a <= 0 {
        -1
    } else if label[a - 1] > top_label(label, a - 1) {
        label[a - 1] as int
    } else {
        top_label(label, a - 1)
    }
}

/// One of the first `a` vertices carries the label `c`.
pub open spec fn used_below(label: Seq<usize>, a: int, c: int) -> bool {
    exists|b: int| 0 <= b < a && #[trigger] label[b] == c
}

/// In a labeling the labels of the first `a` vertices are exactly those from
/// 0 to `top_label`.
pub proof fn lemma_top_label(g: Rows, count: int, label: Seq<usize>, a: int)
    requires
        is_labeling(g, count, label),
        0 <= a <= g.len(),
    ensures
        -1 <= top_label(label, a) < count,
        forall|b: int| 0 <= b < a ==> #[trigger] label[b] <= top_label(label, a),
        forall|c: int| 0 <= c <= top_label(label, a) ==> #[trigger] used_below(label, a, c),
    decreases a,
{
    if a > 0 {
        lemma_top_label(g, count, label, a - 1);
        let t = top_label(label, a - 1);
        let x = label[a - 1] as int;
        if x > 0 {
            let b = choose|b: int| 0 <= b < a - 1 && #[trigger] label[b] == label[a - 1] - 1;
            assert(label[b] <= t);
        }
        assert(x <= t + 1);
        assert forall|c: int| 0 <= c <= top_label(label, a) implies #[trigger] used_below(label, a, c) by {
            if c <= t {
                assert(used_below(label, a - 1, c));
                let b = choose|b: int| 0 <= b < a - 1 && #[trigger] label[b] == c;
                assert(label[b] == c);
            } else {
                assert(label[a - 1] == c);
            }
        }
    }
}

/// Two labelings of one graph agree on the first `a` vertices.
pub proof fn lemma_labels_agree(
    g: Rows,
    count1: int,
    label1: Seq<usize>,
    count2: int,
    label2: Seq<usize>,
    a: int,
)
    requires
        is_labeling(g, count1, label1),
        is_labeling(g, count2, label2),
        0 <= a <= g.len(),
    ensures
        forall|b: int| 0 <= b < a ==> #[trigger] label1[b] == label2[b],
        top_label(label1, a) == top_label(label2, a),
    decreases a,
{
    if a > 0 {
        let x = a - 1;
        lemma_labels_agree(g, count1, label1, count2, label2, x);
        lemma_top_label(g, count1, label1, x);
        lemma_top_label(g, count2, label2, x);
        lemma_top_label(g, count1, label1, a);
        lemma_top_label(g, count2, label2, a);
        let t = top_label(label1, x);
        if exists|b: int| 0 <= b < x && reachable(g, b, x) {
            let b = choose|b: int| 0 <= b < x && reachable(g, b, x);
            assert(label1[b] == label1[x]);
            assert(label2[b] == label2[x]);
            assert(label1[b] == label2[b]);
        } else {
            if label1[x] <= t {
                assert(used_below(label1, x, label1[x] as int));
                let b = choose|b: int| 0 <= b < x && #[trigger] label1[b] == label1[x] as int;
                assert(reachable(g, b, x));
            }
            if label2[x] <= t {
                assert(used_below(label2, x, label2[x] as int));
                let b = choose|b: int| 0 <= b < x && #[trigger] label2[b] == label2[x] as int;
                assert(reachable(g, b, x));
            }
            if label1[x] > 0 {
                let b = choose|b: int| 0 <= b < x && #[trigger] label1[b] == label1[x] - 1;
                assert(label1[b] <= t);
            }
            if label2[x] > 0 {
                let b = choose|b: int| 0 <= b < x && #[trigger] label2[b] == label2[x] - 1;
                assert(label2[b] <= t);
            }
            assert(label1[x] == t + 1);
            assert(label2[x] == t + 1);
        }
    }
}

/// A graph has one labeling only: the number of components and the label of
/// each vertex are fixed by which vertices reach which.
pub proof fn lemma_labeling_unique(g: Rows, count1: int, label1: Seq<usize>, count2: int, label2: Seq<usize>)
    requires
        is_labeling(g, count1, label1),
        is_labeling(g, count2, label2),
    ensures
        count1 == count2,
        label1 == label2,
{
    let n = g.len() as int;
    lemma_labels_agree(g, count1, label1, count2, label2, n);
    lemma_top_label(g, count1, label1, n);
    lemma_top_label(g, count2, label2, n);
    assert(label1 =~= label2);
    if count1 > 0 {
        assert(label_used(label1, count1 - 1));
        let a = choose|a: int| 0 <= a < label1.len() && #[trigger] label1[a] == count1 - 1;
        assert(label1[a] <= top_label(label1, n));
    }
    if count2 > 0 {
        assert(label_used(label2, count2 - 1));
        let a = choose|a: int| 0 <= a < label2.len() && #[trigger] label2[a] == count2 - 1;
        assert(label2[a] <= top_label(label2, n));
    }
}

/// A vertex reaches each of its neighbours.
pub proof fn lemma_adjacent_reach(g: Rows, a: int, b: int)
    requires
        adjacent(g, a, b),
        0 <= b < g.len(),
    ensures
        reachable(g, a, b),
{
    lemma_reach_self(g, b);
    lemma_reach_front(g, a, b, b);
}

/// Where every edge of `g` joins two vertices that reach each other in `h`,
/// the start of a walk in `g` reaches its end in `h`.
pub proof fn lemma_walk_lift(g: Rows, h: Rows, p: Seq<int>)
    requires
        is_walk(g, p),
        g.len() == h.len(),
        forall|a: int, b: int| #[trigger] adjacent(g, a, b) && 0 <= b < g.len() ==> reachable(h, a, b),
    ensures
        reachable(h, p[0], p.last()),
    decreases p.len(),
{
    if p.len() == 1 {
        lemma_reach_self(h, p[0]);
    } else {
        let q = p.drop_last();
        assert(is_walk(g, q));
        lemma_walk_lift(g, h, q);
        let k = p.len() - 2;
        assert(adjacent(g, p[k], p[k + 1]));
        assert(q.last() == p[k]);
        lemma_reach_trans(h, p[0], q.last(), p.last());
    }
}

/// Where every edge of `g` joins two vertices that reach each other in `h`,
/// whatever reaches in `g` reaches in `h`.
pub proof fn lemma_reach_lift(g: Rows, h: Rows, a: int, b: int)
    requires
        reachable(g, a, b),
        g.len() == h.len(),
        forall|x: int, y: int| #[trigger] adjacent(g, x, y) && 0 <= y < g.len() ==> reachable(h, x, y),
    ensures
        reachable(h, a, b),
{
    let p = choose|p: Seq<int>| #[trigger] is_walk(g, p) && p[0] == a && p.last() == b;
    lemma_walk_lift(g, h, p);
}

/// How many entries of `visited` are still `false`.
pub open spec fn unvisited(visited: Seq<bool>) -> nat
    decreases visited.len(),
{
    if visited.len() == 0 {
        0
    } else {
        unvisited(visited.drop_last()) + if visited.last() {
            0nat
        } else {
            1nat
        }
    }
}

/// Every vertex reaches itself.
pub proof fn lemma_reach_self(g: Rows, a: int)
    requires
        0 <= a < g.len(),
    ensures
        reachable(g, a, a),
{
    assert(is_walk(g, seq![a]));
    assert(seq![a][0] == a && seq![a].last() == a);
}

/// A walk can be entered one edge earlier.
pub proof fn lemma_reach_front(g: Rows, a: int, b: int, c: int)
    requires
        adjacent(g, a, b),
        reachable(g, b, c),
    ensures
        reachable(g, a, c),
{
    let p = choose|p: Seq<int>| #[trigger] is_walk(g, p) && p[0] == b && p.last() == c;
    let q = seq![a] + p;
    assert forall|i: int| 0 <= i < q.len() - 1 implies adjacent(g, #[trigger] q[i], q[i + 1]) by {
        if i > 0 {
            assert(q[i] == p[i - 1]);
            assert(q[i + 1] == p[i - 1 + 1]);
        }
    }
    assert(is_walk(g, q));
    assert(q[0] == a && q.last() == c);
}

/// From the start of a walk one reaches whatever its end reaches.
pub proof fn lemma_walk_then(g: Rows, p: Seq<int>, c: int)
    requires
        is_walk(g, p),
        reachable(g, p.last(), c),
    ensures
        reachable(g, p[0], c),
    decreases p.len(),
{
    if p.len() > 1 {
        let q = p.drop_first();
        assert(forall|i: int| 0 <= i < q.len() ==> q[i] == p[i + 1]);
        assert forall|i: int| 0 <= i < q.len() - 1 implies adjacent(g, #[trigger] q[i], q[i + 1]) by {
            assert(adjacent(g, p[i + 1], p[i + 1 + 1]));
        }
        assert(is_walk(g, q));
        lemma_walk_then(g, q, c);
        assert(adjacent(g, p[0], p[0int + 1]));
        lemma_reach_front(g, p[0], q[0], c);
    }
}

/// Reaching is transitive.
pub proof fn lemma_reach_trans(g: Rows, a: int, b: int, c: int)
    requires
        reachable(g, a, b),
        reachable(g, b, c),
    ensures
        reachable(g, a, c),
{
    let p = choose|p: Seq<int>| #[trigger] is_walk(g, p) && p[0] == a && p.last() == b;
    lemma_walk_then(g, p, c);
}

/// In a well-formed graph the end of a walk reaches its start.
pub proof fn lemma_walk_back(g: Rows, p: Seq<int>)
    requires
        rows_wf(g),
        is_walk(g, p),
    ensures
        reachable(g, p.last(), p[0]),
    decreases p.len(),
{
    if p.len() == 1 {
        lemma_reach_self(g, p[0]);
    } else {
        let q = p.drop_last();
        assert(is_walk(g, q));
        lemma_walk_back(g, q);
        let k = p.len() - 2;
        assert(adjacent(g, p[k], p[k + 1]));
        assert(q.last() == p[k]);
        lemma_reach_front(g, p.last(), q.last(), p[0]);
    }
}

/// In a well-formed graph reaching is symmetric.
pub proof fn lemma_reach_sym(g: Rows, a: int, b: int)
    requires
        rows_wf(g),
        reachable(g, a, b),
    ensures
        reachable(g, b, a),
{
    let p = choose|p: Seq<int>| #[trigger] is_walk(g, p) && p[0] == a && p.last() == b;
    lemma_walk_back(g, p);
}

/// Where adjacent vertices always share a label, so do the two ends of a walk.
pub proof fn lemma_walk_label(g: Rows, p: Seq<int>, label: Seq<usize>)
    requires
        is_walk(g, p),
        label.len() == g.len(),
        forall|a: int, b: int| #[trigger] adjacent(g, a, b) && 0 <= b < g.len() ==> label[a] == label[b],
    ensures
        label[p[0]] == label[p.last()],
    decreases p.len(),
{
    if p.len() > 1 {
        let q = p.drop_last();
        assert(is_walk(g, q));
        lemma_walk_label(g, q, label);
        let k = p.len() - 2;
        assert(adjacent(g, p[k], p[k + 1]));
        assert(q.last() == p[k]);
    }
}

/// Visiting more vertices never raises the number left, and visiting a new
/// one lowers it.
pub proof fn lemma_unvisited_less(before: Seq<bool>, after: Seq<bool>, k: int)
    requires
        before.len() == after.len(),
        forall|i: int| 0 <= i < before.len() && before[i] ==> after[i],
    ensures
        unvisited(after) <= unvisited(before),
        0 <= k < before.len() && !before[k] && after[k] ==> unvisited(after) < unvisited(before),
    decreases before.len(),
{
    if before.len() > 0 {
        lemma_unvisited_less(before.drop_last(), after.drop_last(), k);
    }
}

/// A walk among unvisited vertices is a walk.
pub proof fn lemma_fresh_reach(g: Rows, visited: Seq<bool>, a: int, b: int)
    requires
        reach_fresh(g, visited, a, b),
    ensures
        reachable(g, a, b),
{
    let p = choose|p: Seq<int>| #[trigger] is_fresh_walk(g, visited, p) && p[0] == a && p.last() == b;
    assert(is_walk(g, p));
}

/// A walk among unvisited vertices can be continued by one edge to an
/// unvisited vertex.
pub proof fn lemma_fresh_back(g: Rows, visited: Seq<bool>, a: int, b: int, c: int)
    requires
        reach_fresh(g, visited, a, b),
        adjacent(g, b, c),
        0 <= c < g.len(),
        c < visited.len(),
        !visited[c],
    ensures
        reach_fresh(g, visited, a, c),
{
    let p = choose|p: Seq<int>| #[trigger] is_fresh_walk(g, visited, p) && p[0] == a && p.last() == b;
    let q = p.push(c);
    assert forall|i: int| 0 <= i < q.len() - 1 implies adjacent(g, #[trigger] q[i], q[i + 1]) by {
        if i < p.len() - 1 {
            assert(adjacent(g, p[i], p[i + 1]));
        }
    }
    assert(is_walk(g, q));
    assert(is_fresh_walk(g, visited, q));
    assert(q[0] == a && q.last() == c);
}

/// Every neighbour of `x` is visited.
pub open spec fn closed(g: Rows, visited: Seq<bool>, x: int) -> bool {
    forall|y: int| #[trigger] adjacent(g, x, y) ==> 0 <= y < visited.len() && visited[y]
}

/// Where the first vertex of a walk among unvisited vertices has been
/// visited since, and every neighbour of a vertex visited since has been
/// visited, the last one has been visited too.
pub proof fn lemma_fresh_visited(g: Rows, v0: Seq<bool>, v1: Seq<bool>, p: Seq<int>)
    requires
        v0.len() == v1.len(),
        is_fresh_walk(g, v0, p),
        v1[p[0]],
        forall|x: int| 0 <= x < v0.len() && !v0[x] && #[trigger] v1[x] ==> closed(g, v1, x),
    ensures
        v1[p.last()],
    decreases p.len(),
{
    if p.len() > 1 {
        let q = p.drop_last();
        assert(is_walk(g, q));
        assert forall|i: int| 0 <= i < q.len() implies 0 <= #[trigger] q[i] < v0.len() && !v0[q[i]] by {
            assert(q[i] == p[i]);
        }
        lemma_fresh_visited(g, v0, v1, q);
        let k = p.len() - 2;
        assert(q.last() == p[k]);
        assert(adjacent(g, p[k], p[k + 1]));
        assert(closed(g, v1, p[k]));
    }
}

/// Every vertex visited before is visited after, with the label it had.
pub open spec fn marks_kept(v0: Seq<bool>, l0: Seq<usize>, v1: Seq<bool>, l1: Seq<usize>) -> bool {
    forall|y: int|
        #![trigger v0[y]]
        #![trigger v1[y]]
        0 <= y < v0.len() && v0[y] ==> v1[y] && l1[y] == l0[y]
}

/// A settled vertex stays settled while visited vertices keep their marks.
pub proof fn lemma_settled_stays(
    g: Rows,
    v0: Seq<bool>,
    l0: Seq<usize>,
    v1: Seq<bool>,
    l1: Seq<usize>,
    x: int,
)
    requires
        v0.len() == v1.len(),
        l0.len() == l1.len(),
        v0.len() == l0.len(),
        0 <= x < v0.len(),
        v0[x],
        settled(g, v0, l0, x),
        marks_kept(v0, l0, v1, l1),
    ensures
        settled(g, v1, l1, x),
{
}

/// Some frame of the stack belongs to `x` and has not yet gone past the
/// entry `k` of its row.
pub open spec fn pending(stack: Seq<(usize, usize)>, x: int, k: int) -> bool {
    exists|i: int| 0 <= i < stack.len() && (#[trigger] stack[i]).0 == x && stack[i].1 <= k
}

/// How many entries of its row the top frame has still to look at.
pub open spec fn top_rest(g: Rows, stack: Seq<(usize, usize)>) -> int {
    if stack.len() == 0 {
        0
    } else {
        g[stack.last().0 as int].len() - stack.last().1
    }
}

/// Marks `u` and every vertex that a walk among unvisited vertices leads to
/// from `u` as visited, and gives each of them the label `count`. Marks of
/// other vertices stay as they are. The traversal goes depth first, along
/// each row in its order, and keeps its path on a stack of its own.
pub fn dfs(graph: &Graph, u: usize, count: usize, visited: &mut Vec<bool>, label: &mut Vec<usize>)
    requires
        graph.wf(),
        u < graph@.len(),
        old(visited)@.len() == graph@.len(),
        old(label)@.len() == graph@.len(),
        !old(visited)@[u as int],
    ensures
        final(visited)@.len() == graph@.len(),
        final(label)@.len() == graph@.len(),
        final(visited)@[u as int],
        forall|x: int|
            0 <= x < graph@.len() ==> (#[trigger] final(visited)@[x] <==> old(visited)@[x] || reach_fresh(
                graph@,
                old(visited)@,
                u as int,
                x,
            )),
        forall|x: int|
            0 <= x < graph@.len() && !old(visited)@[x] && #[trigger] final(visited)@[x] ==> final(label)@[x]
                == count,
        forall|x: int|
            0 <= x < graph@.len() && (old(visited)@[x] || !final(visited)@[x]) ==> #[trigger] final(label)@[x]
                == old(label)@[x],
{
    let ghost g = graph@;
    let ghost v0 = old(visited)@;
    let ghost l0 = old(label)@;
    visited.set(u, true);
    label.set(u, count);
    let mut stack: Vec<(usize, usize)> = Vec::new();
    stack.push((u, 0));
    proof {
        assert(is_walk(g, seq![u as int]));
        assert(is_fresh_walk(g, v0, seq![u as int]));
        assert(seq![u as int][0] == u && seq![u as int].last() == u);
        assert(reach_fresh(g, v0, u as int, u as int));
        assert forall|x: int, k: int|
            0 <= x < g.len() && !v0[x] && visited@[x] && 0 <= k < g[x].len() implies visited@[(#[trigger] g[x][k]).0 as int]
            || pending(stack@, x, k) by {
            assert(stack@[0].0 == x && stack@[0].1 <= k);
        }
    }
    while stack.len() > 0
        invariant
            g == graph@,
            rows_wf(g),
            u < g.len(),
            v0.len() == g.len(),
            l0.len() == g.len(),
            visited@.len() == g.len(),
            label@.len() == g.len(),
            visited@[u as int],
            reach_fresh(g, v0, u as int, u as int),
            forall|x: int| 0 <= x < g.len() && v0[x] ==> #[trigger] visited@[x],
            forall|x: int| 0 <= x < g.len() && (v0[x] || !visited@[x]) ==> #[trigger] label@[x] == l0[x],
            forall|x: int|
                0 <= x < g.len() && !v0[x] && #[trigger] visited@[x] ==> label@[x] == count && reach_fresh(
                    g,
                    v0,
                    u as int,
                    x,
                ),
            forall|i: int|
                0 <= i < stack@.len() ==> (#[trigger] stack@[i]).0 < g.len() && stack@[i].1
                    <= g[stack@[i].0 as int].len() && visited@[stack@[i].0 as int] && !v0[stack@[i].0 as int],
            forall|x: int, k: int|
                0 <= x < g.len() && !v0[x] && visited@[x] && 0 <= k < g[x].len() ==> visited@[(
                #[trigger] g[x][k]).0 as int] || pending(stack@, x, k),
        decreases unvisited(visited@), stack@.len(), top_rest(g, stack@),
    {
        let top: usize = stack.len() - 1;
        let frame: (usize, usize) = stack[top];
        let x: usize = frame.0;
        let j: usize = frame.1;
        let row = graph.neighbors(x);
        let ghost before = stack@;
        let ghost seen = visited@;
        if j < row.len() {
            let v: usize = row[j].0;
            assert(g[x as int][j as int].0 < g.len());
            assert(adjacent(g, x as int, v as int));
            stack.set(top, (x, j + 1));
            if !visited[v] {
                visited.set(v, true);
                label.set(v, count);
                stack.push((v, 0));
                proof {
                    lemma_fresh_back(g, v0, u as int, x as int, v as int);
                    lemma_unvisited_less(seen, visited@, v as int);
                }
            }
            proof {
                assert forall|y: int, k: int|
                    0 <= y < g.len() && !v0[y] && visited@[y] && 0 <= k < g[y].len() implies visited@[(
                #[trigger] g[y][k]).0 as int] || pending(stack@, y, k) by {
                    if !seen[y] {
                        assert(stack@[stack@.len() - 1] == (v, 0usize));
                    } else if !seen[g[y][k].0 as int] {
                        assert(pending(before, y, k));
                        let i = choose|i: int| 0 <= i < before.len() && (#[trigger] before[i]).0 == y && before[i].1 <= k;
                        if i == top {
                            if k > j {
                                assert(stack@[i].0 == y && stack@[i].1 <= k);
                            }
                        } else {
                            assert(stack@[i] == before[i]);
                        }
                    }
                }
            }
        } else {
            stack.pop();
            proof {
                assert forall|y: int, k: int|
                    0 <= y < g.len() && !v0[y] && visited@[y] && 0 <= k < g[y].len() implies visited@[(
                #[trigger] g[y][k]).0 as int] || pending(stack@, y, k) by {
                    if !visited@[g[y][k].0 as int] {
                        assert(pending(before, y, k));
                        let i = choose|i: int| 0 <= i < before.len() && (#[trigger] before[i]).0 == y && before[i].1 <= k;
                        assert(stack@[i] == before[i]);
                    }
                }
            }
        }
    }
    proof {
        assert forall|x: int| 0 <= x < g.len() && !v0[x] && #[trigger] visited@[x] implies closed(g, visited@, x) by {
            assert forall|y: int| #[trigger] adjacent(g, x, y) implies 0 <= y < visited@.len() && visited@[y] by {
                let k = choose|k: int| 0 <= k < g[x].len() && (#[trigger] g[x][k]).0 == y;
                assert(!pending(stack@, x, k));
                assert(visited@[g[x][k].0 as int]);
            }
        }
        assert forall|x: int| 0 <= x < g.len() && reach_fresh(g, v0, u as int, x) implies #[trigger] visited@[x] by {
            let p = choose|p: Seq<int>| #[trigger] is_fresh_walk(g, v0, p) && p[0] == u as int && p.last() == x;
            lemma_fresh_visited(g, v0, visited@, p);
        }
    }
}

/// Labels the connected components: returns their number and, for each
/// vertex, the id of its component. Ids are given in ascending order of each
/// component's smallest vertex.
pub fn count_and_label(graph: &Graph) -> (r: (usize, Vec<usize>))
    requires
        graph.wf(),
    ensures
        is_labeling(graph@, r.0 as int, r.1@),
{
    let size: usize = graph.size();
    let ghost g = graph@;
    let mut visited: Vec<bool> = Vec::new();
    let mut label: Vec<usize> = Vec::new();
    let mut i: usize = 0;
    while i < size
        invariant
            i <= size,
            visited@.len() == i,
            label@.len() == i,
            forall|x: int| 0 <= x < i ==> !visited@[x],
        decreases size - i,
    {
        visited.push(false);
        label.push(0);
        i += 1;
    }
    let mut count: usize = 0;
    let ghost mut roots: Seq<int> = Seq::empty();
    let mut u: usize = 0;
    while u < size
        invariant
            u <= size,
            size == g.len(),
            g == graph@,
            rows_wf(g),
            graph.wf(),
            count <= u,
            visited@.len() == size,
            label@.len() == size,
            roots.len() == count,
            forall|x: int| 0 <= x < u ==> #[trigger] visited@[x],
            forall|c: int| 0 <= c < count ==> #[trigger] roots[c] < u,
            forall|x: int|
                0 <= x < size && #[trigger] visited@[x] ==> label@[x] < count && settled(g, visited@, label@, x)
                    && reachable(g, roots[label@[x] as int], x) && roots[label@[x] as int] <= x,
            forall|c: int| 0 <= c < count ==> 0 <= #[trigger] roots[c] < size && visited@[roots[c]] && label@[roots[c]] == c,
            forall|c: int, d: int| 0 <= c < d < count ==> roots[c] < roots[d],
        decreases size - u,
    {
        if !visited[u] {
            let ghost v0 = visited@;
            let ghost l0 = label@;
            dfs(graph, u, count, &mut visited, &mut label);
            proof {
                assert(marks_kept(v0, l0, visited@, label@));
                let r0 = roots;
                roots = roots.push(u as int);
                assert forall|c: int| 0 <= c < count + 1 implies 0 <= #[trigger] roots[c] < size && visited@[roots[c]]
                    && label@[roots[c]] == c by {
                    if c < count {
                        assert(roots[c] == r0[c]);
                        assert(v0[r0[c]]);
                    }
                }
                assert forall|x: int| 0 <= x < size && #[trigger] visited@[x] implies label@[x] < count + 1 && settled(
                    g,
                    visited@,
                    label@,
                    x,
                ) && reachable(g, roots[label@[x] as int], x) && roots[label@[x] as int] <= x by {
                    if v0[x] {
                        lemma_settled_stays(g, v0, l0, visited@, label@, x);
                        assert(roots[label@[x] as int] == r0[label@[x] as int]);
                    } else {
                        lemma_fresh_reach(g, v0, u as int, x);
                        assert forall|y: int| #[trigger] adjacent(g, x, y) implies 0 <= y < visited@.len() && y
                            < label@.len() && visited@[y] && label@[y] == label@[x] by {
                            let k = choose|k: int| 0 <= k < g[x].len() && (#[trigger] g[x][k]).0 == y;
                            assert(g[x][k].0 < g.len());
                            if v0[y] {
                                assert(settled(g, v0, l0, y));
                                assert(adjacent(g, y, x));
                            } else {
                                lemma_fresh_back(g, v0, u as int, x, y);
                            }
                        }
                    }
                }
                assert forall|c: int, d: int| 0 <= c < d < count + 1 implies roots[c] < roots[d] by {
                    if d == count {
                        assert(r0[c] < u);
                    }
                }
            }
            count += 1;
        }
        u += 1;
    }
    proof {
        assert forall|a: int, b: int| #[trigger] adjacent(g, a, b) && 0 <= b < g.len() implies label@[a]
            == label@[b] by {
            assert(visited@[a]);
            assert(settled(g, visited@, label@, a));
        }
        assert forall|a: int, b: int| 0 <= a < g.len() && 0 <= b < g.len() implies (label@[a] == label@[b]
            <==> #[trigger] reachable(g, a, b)) by {
            assert(visited@[a] && visited@[b]);
            if label@[a] == label@[b] {
                let r = roots[label@[a] as int];
                lemma_reach_sym(g, r, a);
                lemma_reach_trans(g, a, r, b);
            }
            if reachable(g, a, b) {
                let p = choose|p: Seq<int>| #[trigger] is_walk(g, p) && p[0] == a && p.last() == b;
                lemma_walk_label(g, p, label@);
            }
        }
        assert forall|a: int| 0 <= a < g.len() implies #[trigger] label@[a] < count by {
            assert(visited@[a]);
        }
        assert forall|c: int| 0 <= c < count implies #[trigger] label_used(label@, c) by {
            assert(label@[roots[c]] == c);
        }
        assert forall|a: int| 0 <= a < g.len() && #[trigger] label@[a] > 0 implies exists|b: int|
            0 <= b < a && #[trigger] label@[b] == label@[a] - 1 by {
            let c = label@[a] as int;
            assert(visited@[a]);
            assert(roots[c - 1] < roots[c]);
            assert(label@[roots[c - 1]] == c - 1);
        }
        assert(is_labeling(g, count as int, label@));
    }
    (count, label)
}

} // verus!
