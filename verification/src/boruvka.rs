use crate::components::{
    count_and_label, is_labeling, is_walk, lemma_adjacent_reach, lemma_reach_lift, reachable,
};
use crate::weighted::{
    adjacent, edges_upto, empty_rows, lemma_edges_upto, lemma_rows_push_entries, mirrored, rows_connect, rows_push, rows_wf,
    Graph, Rows,
};
use vstd::prelude::*;

verus! {

/// The edge `e` leaves the component labelled `c`: its ends carry different
/// labels, one of them `c`.
pub open spec fn crosses(labels: Seq<usize>, e: (usize, usize, i32), c: int) -> bool {
    &&& labels[e.0 as int] != labels[e.1 as int]
    &&& (labels[e.0 as int] == c || labels[e.1 as int] == c)
}

/// `e` stands at index `i` among the first `upto` edges, leaves component
/// `c`, is as cheap as any of them that does, and cheaper than every earlier
/// one that does.
pub open spec fn picks_at(
    edges: Seq<(usize, usize, i32)>,
    upto: int,
    labels: Seq<usize>,
    c: int,
    e: (usize, usize, i32),
    i: int,
) -> bool {
    &&& 0 <= i < upto
    &&& edges[i] == e
    &&& crosses(labels, e, c)
    &&& forall|k: int| 0 <= k < upto && crosses(labels, #[trigger] edges[k], c) ==> e.2 <= edges[k].2
    &&& forall|k: int| 0 <= k < i && crosses(labels, #[trigger] edges[k], c) ==> e.2 < edges[k].2
}

/// `pick` is the choice of component `c` among the first `upto` edges: the
/// first of the cheapest edges that leave it, or `None` where none leaves it.
pub open spec fn is_cheapest(
    edges: Seq<(usize, usize, i32)>,
    upto: int,
    labels: Seq<usize>,
    c: int,
    pick: Option<(usize, usize, i32)>,
) -> bool {
    &&& pick.is_none() ==> (forall|k: int| 0 <= k < upto ==> !crosses(labels, #[trigger] edges[k], c))
    &&& pick.is_some() ==> (exists|i: int| #[trigger] picks_at(edges, upto, labels, c, pick.unwrap(), i))
}

/// The choice of component `c` after one more edge `e` has been seen.
pub open spec fn next_pick(
    labels: Seq<usize>,
    c: int,
    pick: Option<(usize, usize, i32)>,
    e: (usize, usize, i32),
) -> Option<(usize, usize, i32)> {
    if crosses(labels, e, c) && (pick.is_none() || e.2 < pick.unwrap().2) {
        Some(e)
    } else {
        pick
    }
}

/// `next_pick` keeps the choice right when the next edge is taken in.
pub proof fn lemma_next_pick(
    edges: Seq<(usize, usize, i32)>,
    i: int,
    labels: Seq<usize>,
    c: int,
    pick: Option<(usize, usize, i32)>,
)
    requires
        0 <= i < edges.len(),
        is_cheapest(edges, i, labels, c, pick),
    ensures
        is_cheapest(edges, i + 1, labels, c, next_pick(labels, c, pick, edges[i])),
{
    let e = edges[i];
    assert(Some(e).unwrap() == e);
    match pick {
        None => {
            if crosses(labels, e, c) {
                assert(picks_at(edges, i + 1, labels, c, e, i));
            }
        },
        Some(b) => {
            let i0 = choose|i0: int| #[trigger] picks_at(edges, i, labels, c, b, i0);
            if crosses(labels, e, c) && e.2 < b.2 {
                assert(picks_at(edges, i + 1, labels, c, e, i));
            } else {
                assert(picks_at(edges, i + 1, labels, c, b, i0));
            }
        },
    }
}

/// For each component, the edge it selects: the cheapest of `edges` that
/// leaves it, the first such where several cost the same.
pub fn cheapest_crossing(edges: &Vec<(usize, usize, i32)>, labels: &Vec<usize>, count: usize) -> (safe:
    Vec<Option<(usize, usize, i32)>>)
    requires
        forall|i: int|
            0 <= i < edges@.len() ==> (#[trigger] edges@[i]).0 < labels@.len() && edges@[i].1
                < labels@.len(),
        forall|a: int| 0 <= a < labels@.len() ==> #[trigger] labels@[a] < count,
    ensures
        safe@.len() == count,
        forall|c: int|
            0 <= c < count ==> is_cheapest(edges@, edges@.len() as int, labels@, c, #[trigger] safe@[c]),
{
    let mut safe: Vec<Option<(usize, usize, i32)>> = Vec::new();
    let mut c: usize = 0;
    while c < count
        invariant
            c <= count,
            safe@.len() == c,
            forall|k: int| 0 <= k < c ==> (#[trigger] safe@[k]).is_none(),
        decreases count - c,
    {
        safe.push(None);
        c += 1;
    }
    let total: usize = edges.len();
    let mut i: usize = 0;
    while i < total
        invariant
            i <= total,
            total == edges@.len(),
            safe@.len() == count,
            forall|i: int|
                0 <= i < edges@.len() ==> (#[trigger] edges@[i]).0 < labels@.len() && edges@[i].1
                    < labels@.len(),
            forall|a: int| 0 <= a < labels@.len() ==> #[trigger] labels@[a] < count,
            forall|c: int| 0 <= c < count ==> is_cheapest(edges@, i as int, labels@, c, #[trigger] safe@[c]),
        decreases total - i,
    {
        let e: (usize, usize, i32) = edges[i];
        let lu: usize = labels[e.0];
        let lv: usize = labels[e.1];
        let ghost before = safe@;
        if lu != lv {
            let take_u: bool = match safe[lu] {
                None => true,
                Some(b) => e.2 < b.2,
            };
            if take_u {
                safe.set(lu, Some(e));
            }
            let take_v: bool = match safe[lv] {
                None => true,
                Some(b) => e.2 < b.2,
            };
            if take_v {
                safe.set(lv, Some(e));
            }
        }
        proof {
            assert forall|c: int| 0 <= c < count implies is_cheapest(
                edges@,
                i + 1,
                labels@,
                c,
                #[trigger] safe@[c],
            ) by {
                lemma_next_pick(edges@, i as int, labels@, c, before[c]);
                assert(safe@[c] == next_pick(labels@, c, before[c], e));
            }
        }
        i += 1;
    }
    safe
}

/// How many of the vertices below `k` the vertex `a` does not reach.
pub open spec fn apart_row(g: Rows, a: int, k: int) -> nat
    decreases k,
{
    if k <= 0 {
        0
    } else {
        apart_row(g, a, k - 1) + if reachable(g, a, k - 1) {
            0nat
        } else {
            1nat
        }
    }
}

/// How many pairs of a vertex below `k` and any vertex are not joined by a
/// walk.
pub open spec fn apart(g: Rows, k: int) -> nat
    decreases k,
{
    if k <= 0 {
        0
    } else {
        apart(g, k - 1) + apart_row(g, k - 1, g.len() as int)
    }
}

/// Reaching more never raises `apart_row`, and reaching one more vertex
/// lowers it.
pub proof fn lemma_apart_row_less(g: Rows, h: Rows, a: int, k: int, b0: int)
    requires
        forall|b: int| reachable(g, a, b) ==> reachable(h, a, b),
    ensures
        apart_row(h, a, k) <= apart_row(g, a, k),
        0 <= b0 < k && !reachable(g, a, b0) && reachable(h, a, b0) ==> apart_row(h, a, k) < apart_row(
            g,
            a,
            k,
        ),
    decreases k,
{
    if k > 0 {
        lemma_apart_row_less(g, h, a, k - 1, b0);
    }
}

/// Reaching more never raises `apart`, and joining one more pair lowers it.
pub proof fn lemma_apart_less(g: Rows, h: Rows, k: int, a0: int, b0: int)
    requires
        g.len() == h.len(),
        forall|a: int, b: int| reachable(g, a, b) ==> reachable(h, a, b),
    ensures
        apart(h, k) <= apart(g, k),
        0 <= a0 < k && 0 <= b0 < g.len() && !reachable(g, a0, b0) && reachable(h, a0, b0) ==> apart(h, k)
            < apart(g, k),
    decreases k,
{
    if k > 0 {
        lemma_apart_less(g, h, k - 1, a0, b0);
        lemma_apart_row_less(g, h, k - 1, g.len() as int, b0);
    }
}

/// Every stored pair of `h` is stored in the same row of `g`: the edges of
/// `h` are edges of `g`, with their weights.
pub open spec fn within(h: Rows, g: Rows) -> bool {
    &&& h.len() == g.len()
    &&& forall|a: int, j: int| 0 <= a < h.len() && 0 <= j < h[a].len() ==> g[a].contains(#[trigger] h[a][j])
    &&& forall|a: int, b: int| adjacent(h, a, b) ==> adjacent(g, a, b)
}

/// The same pairs of vertices are joined by a walk in `h` as in `g`.
pub open spec fn same_reach(h: Rows, g: Rows) -> bool {
    forall|a: int, b: int|
        #![trigger reachable(h, a, b)]
        #![trigger reachable(g, a, b)]
        reachable(h, a, b) <==> reachable(g, a, b)
}

/// `h` after the selected edges of the first `k` components have been added,
/// one component after the other.
pub open spec fn apply_picks(h: Rows, safe: Seq<Option<(usize, usize, i32)>>, k: int) -> Rows
    decreases k,
{
    if k <= 0 {
        h
    } else if safe[k - 1].is_some() {
        rows_connect(
            apply_picks(h, safe, k - 1),
            safe[k - 1].unwrap().0,
            safe[k - 1].unwrap().1,
            safe[k - 1].unwrap().2,
        )
    } else {
        apply_picks(h, safe, k - 1)
    }
}

/// One round leads from the forest `h` to `h2`: `h` has `count` components,
/// more than one, labelled by `labels`; `safe` holds what each of them
/// selects among `edges`, at least one edge; and `h2` is `h` with these
/// added.
pub open spec fn round_by(
    edges: Seq<(usize, usize, i32)>,
    h: Rows,
    h2: Rows,
    count: int,
    labels: Seq<usize>,
    safe: Seq<Option<(usize, usize, i32)>>,
) -> bool {
    &&& is_labeling(h, count, labels)
    &&& count > 1
    &&& safe.len() == count
    &&& forall|c: int| 0 <= c < count ==> is_cheapest(edges, edges.len() as int, labels, c, #[trigger] safe[c])
    &&& exists|c: int| 0 <= c < count && (#[trigger] safe[c]).is_some()
    &&& h2 == apply_picks(h, safe, count)
}

/// One round leads from the forest `h` to `h2`.
pub open spec fn is_round(edges: Seq<(usize, usize, i32)>, h: Rows, h2: Rows) -> bool {
    exists|count: int, labels: Seq<usize>, safe: Seq<Option<(usize, usize, i32)>>| #[trigger]
        round_by(edges, h, h2, count, labels, safe)
}

/// `chain` holds the forest before the first round and after each round:
/// it starts without edges, and one round leads from each forest to the
/// next.
pub open spec fn is_growth(edges: Seq<(usize, usize, i32)>, n: nat, chain: Seq<Rows>) -> bool {
    &&& chain.len() > 0
    &&& chain[0] == empty_rows(n)
    &&& forall|i: int| 0 <= i < chain.len() - 1 ==> is_round(edges, #[trigger] chain[i], chain[i + 1])
}

/// Some number of rounds lead from the forest without edges to `h`.
pub open spec fn grows_to(edges: Seq<(usize, usize, i32)>, n: nat, h: Rows) -> bool {
    exists|chain: Seq<Rows>| #[trigger] is_growth(edges, n, chain) && chain.last() == h
}

/// `g` falls into exactly `count` connected components.
pub open spec fn has_components(g: Rows, count: int) -> bool {
    exists|label: Seq<usize>| #[trigger] is_labeling(g, count, label)
}

/// Adding an edge of `g` to `h` keeps `h` within `g`.
pub proof fn lemma_within_connect(h: Rows, h2: Rows, g: Rows, u: usize, v: usize, weight: i32)
    requires
        rows_wf(g),
        within(h, g),
        u < g.len(),
        v < g.len(),
        g[u as int].contains((v, weight)),
        h2 == h || h2 == rows_push(rows_push(h, u as int, (v, weight)), v as int, (u, weight)),
        forall|x: int, y: int|
            adjacent(h2, x, y) <==> adjacent(h, x, y) || (x == u && y == v) || (x == v && y == u),
    ensures
        within(h2, g),
{
    let k = choose|k: int| 0 <= k < g[u as int].len() && g[u as int][k] == (v, weight);
    assert(g[u as int][k].0 == v);
    assert(adjacent(g, u as int, v as int));
    if h2 != h {
        let h1 = rows_push(h, u as int, (v, weight));
        lemma_rows_push_entries(h, u as int, (v, weight));
        lemma_rows_push_entries(h1, v as int, (u, weight));
        assert(mirrored(g, u as int, g[u as int][k]));
        assert forall|a: int, j: int| 0 <= a < h2.len() && 0 <= j < h2[a].len() implies g[a].contains(
            #[trigger] h2[a][j],
        ) by {
            let p = h2[a][j];
            if a == v && p == (u, weight) {
            } else {
                assert(h1[a].contains(p));
                let j1 = choose|j1: int| 0 <= j1 < h1[a].len() && h1[a][j1] == p;
                if a == u && p == (v, weight) {
                } else {
                    assert(h[a].contains(h1[a][j1]));
                    let j0 = choose|j0: int| 0 <= j0 < h[a].len() && h[a][j0] == p;
                }
            }
        }
    }
}

/// A spanning forest of `graph`, grown round by round: in each round every
/// component of the forest so far selects its cheapest edge of `graph` that
/// leaves it, and the selected edges are added. The rounds end when one
/// component is left or no component selects an edge. Returns the forest and the
/// number of its components, which are those of `graph`: two vertices are
/// joined in the forest exactly when they are joined in `graph`.
pub fn boruvka(graph: &Graph) -> (r: (Graph, usize))
    requires
        graph.wf(),
    ensures
        r.0.wf(),
        within(r.0@, graph@),
        same_reach(r.0@, graph@),
        has_components(r.0@, r.1 as int),
        has_components(graph@, r.1 as int),
        grows_to(edges_upto(graph@, graph@.len() as int), graph@.len(), r.0@),
{
    let n: usize = graph.size();
    let edges = graph.all_edges();
    let mut mst = Graph::new(n);
    let ghost g = graph@;
    let ghost mut chain: Seq<Rows> = seq![mst@];
    proof {
        lemma_edges_upto(g, n as int);
        assert forall|a: int, b: int| adjacent(mst@, a, b) implies adjacent(g, a, b) by {
            let j = choose|j: int| 0 <= j < mst@[a].len() && (#[trigger] mst@[a][j]).0 == b;
        }
    }
    loop
        invariant
            is_growth(edges@, n as nat, chain),
            chain.last() == mst@,
            g == graph@,
            rows_wf(g),
            n == g.len(),
            edges@ == edges_upto(g, n as int),
            mst.wf(),
            within(mst@, g),
        decreases apart(mst@, n as int),
    {
        let (count, labels) = count_and_label(&mst);
        let ghost g0 = mst@;
        proof {
            lemma_edges_upto(g, n as int);
            assert forall|i: int| 0 <= i < edges@.len() implies (#[trigger] edges@[i]).0 < n && edges@[i].1
                < n by {
                let e = edges@[i];
                let k = choose|k: int| 0 <= k < g[e.0 as int].len() && g[e.0 as int][k] == (e.1, e.2);
                assert(g[e.0 as int][k].0 < g.len());
            }
            assert forall|a: int, b: int| #[trigger] adjacent(g0, a, b) && 0 <= b < g0.len() implies reachable(
                g,
                a,
                b,
            ) by {
                lemma_adjacent_reach(g, a, b);
            }
        }
        if count <= 1 {
            proof {
                assert forall|a: int, b: int|
                    #![trigger reachable(g0, a, b)]
                    #![trigger reachable(g, a, b)]
                    reachable(g0, a, b) <==> reachable(g, a, b) by {
                    if reachable(g0, a, b) {
                        lemma_reach_lift(g0, g, a, b);
                    }
                    if reachable(g, a, b) {
                        lemma_reach_ends(g, a, b);
                        assert(labels@[a] == labels@[b]);
                    }
                }
                assert(is_labeling(mst@, count as int, labels@));
                assert(has_components(mst@, count as int));
                assert(is_labeling(g, count as int, labels@));
                assert(has_components(g, count as int));
                assert(grows_to(edges@, n as nat, mst@));
            }
            return (mst, count);
        }
        let safe = cheapest_crossing(&edges, &labels, count);
        let mut added: bool = false;
        let ghost mut wit: (int, int) = (0, 0);
        let ghost mut first: int = 0;
        let mut c: usize = 0;
        while c < count
            invariant
                c <= count,
                mst@ == apply_picks(g0, safe@, c as int),
                added ==> 0 <= first < c && safe@[first].is_some(),
                safe@.len() == count,
                g == graph@,
                rows_wf(g),
                n == g.len(),
                g0.len() == n,
                labels@.len() == n,
                edges@ == edges_upto(g, n as int),
                mst.wf(),
                within(mst@, g),
                forall|i: int| 0 <= i < edges@.len() ==> (#[trigger] edges@[i]).0 < n && edges@[i].1 < n,
                forall|k: int|
                    0 <= k < count ==> is_cheapest(
                        edges@,
                        edges@.len() as int,
                        labels@,
                        k,
                        #[trigger] safe@[k],
                    ),
                forall|a: int, b: int| adjacent(g0, a, b) ==> adjacent(mst@, a, b),
                !added ==> mst@ == g0,
                !added ==> forall|k: int| 0 <= k < c ==> (#[trigger] safe@[k]).is_none(),
                added ==> 0 <= wit.0 < n && 0 <= wit.1 < n && labels@[wit.0] != labels@[wit.1] && adjacent(
                    mst@,
                    wit.0,
                    wit.1,
                ),
            decreases count - c,
        {
            match safe[c] {
                Some(e) => {
                    let ghost h = mst@;
                    proof {
                        lemma_edges_upto(g, n as int);
                        let i = choose|i: int| #[trigger]
                            picks_at(edges@, edges@.len() as int, labels@, c as int, e, i);
                        assert(edges@[i] == e);
                    }
                    mst.connect(e.0, e.1, e.2);
                    proof {
                        lemma_within_connect(h, mst@, g, e.0, e.1, e.2);
                        assert(mst@ == rows_connect(h, e.0, e.1, e.2));
                        if !added {
                            wit = (e.0 as int, e.1 as int);
                            first = c as int;
                        }
                    }
                    added = true;
                },
                None => {},
            }
            c += 1;
        }
        if !added {
            proof {
                lemma_edges_upto(g, n as int);
                assert forall|i: int| 0 <= i < edges@.len() implies labels@[(#[trigger] edges@[i]).0 as int]
                    == labels@[edges@[i].1 as int] by {
                    let k = labels@[edges@[i].0 as int] as int;
                    assert(safe@[k].is_none());
                    assert(!crosses(labels@, edges@[i], k));
                }
                assert forall|a: int, b: int| #[trigger] adjacent(g, a, b) && 0 <= b < g.len() implies reachable(
                    g0,
                    a,
                    b,
                ) by {
                    if a < b {
                        lemma_listed(g, edges@, a, b);
                    } else if b < a {
                        assert(adjacent(g, b, a));
                        lemma_listed(g, edges@, b, a);
                    }
                    assert(labels@[a] == labels@[b]);
                }
                assert forall|a: int, b: int|
                    #![trigger reachable(g0, a, b)]
                    #![trigger reachable(g, a, b)]
                    reachable(g0, a, b) <==> reachable(g, a, b) by {
                    if reachable(g0, a, b) {
                        lemma_reach_lift(g0, g, a, b);
                    }
                    if reachable(g, a, b) {
                        lemma_reach_lift(g, g0, a, b);
                    }
                }
                assert(is_labeling(mst@, count as int, labels@));
                assert(has_components(mst@, count as int));
                assert(is_labeling(g, count as int, labels@));
                assert(has_components(g, count as int));
                assert(grows_to(edges@, n as nat, mst@));
            }
            return (mst, count);
        }
        proof {
            assert forall|a: int, b: int| #[trigger] adjacent(g0, a, b) && 0 <= b < g0.len() implies reachable(
                mst@,
                a,
                b,
            ) by {
                lemma_adjacent_reach(mst@, a, b);
            }
            assert forall|a: int, b: int| reachable(g0, a, b) implies reachable(mst@, a, b) by {
                lemma_reach_lift(g0, mst@, a, b);
            }
            lemma_adjacent_reach(mst@, wit.0, wit.1);
            assert(!reachable(g0, wit.0, wit.1));
            lemma_apart_less(g0, mst@, n as int, wit.0, wit.1);
            assert(round_by(edges@, g0, mst@, count as int, labels@, safe@));
            assert(is_round(edges@, g0, mst@));
            let before = chain;
            chain = chain.push(mst@);
            assert forall|i: int| 0 <= i < chain.len() - 1 implies is_round(
                edges@,
                #[trigger] chain[i],
                chain[i + 1],
            ) by {
                if i < before.len() - 1 {
                    assert(chain[i] == before[i] && chain[i + 1] == before[i + 1]);
                }
            }
        }
    }
}

/// The two ends of a walk are vertices.
pub proof fn lemma_reach_ends(g: Rows, a: int, b: int)
    requires
        reachable(g, a, b),
    ensures
        0 <= a < g.len(),
        0 <= b < g.len(),
{
    let p = choose|p: Seq<int>| #[trigger] is_walk(g, p) && p[0] == a && p.last() == b;
    assert(0 <= p[0] < g.len());
    assert(0 <= p[p.len() - 1] < g.len());
}

/// An edge from `a` up to `b` is among the listed edges.
pub proof fn lemma_listed(g: Rows, edges: Seq<(usize, usize, i32)>, a: int, b: int)
    requires
        g.len() <= usize::MAX,
        edges == edges_upto(g, g.len() as int),
        adjacent(g, a, b),
        a < b,
    ensures
        exists|i: int| 0 <= i < edges.len() && (#[trigger] edges[i]).0 == a && edges[i].1 == b,
{
    lemma_edges_upto(g, g.len() as int);
    let j = choose|j: int| 0 <= j < g[a].len() && (#[trigger] g[a][j]).0 == b;
    let e = (a as usize, g[a][j].0, g[a][j].1);
    assert(edges.contains(e));
    let i = choose|i: int| 0 <= i < edges.len() && edges[i] == e;
    assert(edges[i].0 == a && edges[i].1 == b);
}

} // verus!
