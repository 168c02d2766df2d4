use crate::components::{count_and_label, is_labeling, lemma_adjacent_reach, reachable};
use crate::weighted::{
    adjacent, edges_upto, lemma_edges_upto, lemma_swap_weight, row_has, rows_connect, rows_disconnect, rows_wf,
    total_weight, Graph, Rows,
};
use vstd::prelude::*;

verus! {

/// The outcome of the search for the second-best spanning tree.
#[derive(Debug)]
pub struct SecondBest {
    /// The tree after the swap, or a copy of the given tree where no swap
    /// was found.
    pub tree: Graph,
    /// The total weight of `tree`.
    pub weight: i128,
    /// The tree edge that was removed and the edge that replaced it; `None`
    /// where no swap is possible.
    pub swap: Option<((usize, usize, i32), (usize, usize, i32))>,
}

/// With the tree edge `t` removed, `e` joins two different components and is
/// not `t` itself.
pub open spec fn bridges(labels: Seq<usize>, t: (usize, usize, i32), e: (usize, usize, i32)) -> bool {
    &&& labels[e.0 as int] != labels[e.1 as int]
    &&& !(e.0 == t.0 && e.1 == t.1)
}

/// `e` stands at index `i` among the first `upto` edges, bridges the cut left
/// by `t`, is as cheap as any of them that does, and cheaper than every
/// earlier one that does.
pub open spec fn bridge_at(
    edges: Seq<(usize, usize, i32)>,
    upto: int,
    labels: Seq<usize>,
    t: (usize, usize, i32),
    e: (usize, usize, i32),
    i: int,
) -> bool {
    &&& 0 <= i < upto
    &&& edges[i] == e
    &&& bridges(labels, t, e)
    &&& forall|k: int| 0 <= k < upto && bridges(labels, t, #[trigger] edges[k]) ==> e.2 <= edges[k].2
    &&& forall|k: int| 0 <= k < i && bridges(labels, t, #[trigger] edges[k]) ==> e.2 < edges[k].2
}

/// `pick` is the replacement for the tree edge `t` among the first `upto`
/// edges: the first of the cheapest that bridge the cut, or `None` where none
/// does.
pub open spec fn is_cheapest_bridge(
    edges: Seq<(usize, usize, i32)>,
    upto: int,
    labels: Seq<usize>,
    t: (usize, usize, i32),
    pick: Option<(usize, usize, i32)>,
) -> bool {
    &&& pick.is_none() ==> (forall|k: int| 0 <= k < upto ==> !bridges(labels, t, #[trigger] edges[k]))
    &&& pick.is_some() ==> (exists|i: int| #[trigger] bridge_at(edges, upto, labels, t, pick.unwrap(), i))
}

/// The replacement after one more edge `e` has been seen.
pub open spec fn next_bridge(
    labels: Seq<usize>,
    t: (usize, usize, i32),
    pick: Option<(usize, usize, i32)>,
    e: (usize, usize, i32),
) -> Option<(usize, usize, i32)> {
    if bridges(labels, t, e) && (pick.is_none() || e.2 < pick.unwrap().2) {
        Some(e)
    } else {
        pick
    }
}

/// `next_bridge` keeps the replacement right when the next edge is taken in.
pub proof fn lemma_next_bridge(
    edges: Seq<(usize, usize, i32)>,
    i: int,
    labels: Seq<usize>,
    t: (usize, usize, i32),
    pick: Option<(usize, usize, i32)>,
)
    requires
        0 <= i < edges.len(),
        is_cheapest_bridge(edges, i, labels, t, pick),
    ensures
        is_cheapest_bridge(edges, i + 1, labels, t, next_bridge(labels, t, pick, edges[i])),
{
    let e = edges[i];
    assert(Some(e).unwrap() == e);
    match pick {
        None => {
            if bridges(labels, t, e) {
                assert(bridge_at(edges, i + 1, labels, t, e, i));
            }
        },
        Some(b) => {
            let i0 = choose|i0: int| #[trigger] bridge_at(edges, i, labels, t, b, i0);
            if bridges(labels, t, e) && e.2 < b.2 {
                assert(bridge_at(edges, i + 1, labels, t, e, i));
            } else {
                assert(bridge_at(edges, i + 1, labels, t, b, i0));
            }
        },
    }
}

/// The cheapest of `edges` that joins two different components and is not the
/// removed tree edge `t`; the first such where several cost the same.
pub fn cheapest_bridge(edges: &Vec<(usize, usize, i32)>, labels: &Vec<usize>, t: (usize, usize, i32)) -> (pick:
    Option<(usize, usize, i32)>)
    requires
        forall|i: int|
            0 <= i < edges@.len() ==> (#[trigger] edges@[i]).0 < labels@.len() && edges@[i].1
                < labels@.len(),
    ensures
        is_cheapest_bridge(edges@, edges@.len() as int, labels@, t, pick),
{
    let mut pick: Option<(usize, usize, i32)> = None;
    let total: usize = edges.len();
    let mut i: usize = 0;
    while i < total
        invariant
            i <= total,
            total == edges@.len(),
            forall|i: int|
                0 <= i < edges@.len() ==> (#[trigger] edges@[i]).0 < labels@.len() && edges@[i].1
                    < labels@.len(),
            is_cheapest_bridge(edges@, i as int, labels@, t, pick),
        decreases total - i,
    {
        let e: (usize, usize, i32) = edges[i];
        proof {
            lemma_next_bridge(edges@, i as int, labels@, t, pick);
        }
        if labels[e.0] != labels[e.1] && !(e.0 == t.0 && e.1 == t.1) {
            let take: bool = match pick {
                None => true,
                Some(b) => e.2 < b.2,
            };
            if take {
                pick = Some(e);
            }
        }
        i += 1;
    }
    pick
}

/// `pick` is the replacement for the tree edge `t` of `mst` among `edges`.
pub open spec fn is_swap(
    edges: Seq<(usize, usize, i32)>,
    mst: Rows,
    t: (usize, usize, i32),
    pick: Option<(usize, usize, i32)>,
) -> bool {
    exists|count: int, labels: Seq<usize>| #[trigger]
        is_labeling(rows_disconnect(mst, t.0, t.1), count, labels) && is_cheapest_bridge(
            edges,
            edges.len() as int,
            labels,
            t,
            pick,
        )
}

/// What the swap of `t` for `e` adds to the total weight.
pub open spec fn delta(t: (usize, usize, i32), e: (usize, usize, i32)) -> int {
    e.2 - t.2
}

/// The tree edge `t` of `mst` costs no more than any of `edges` that joins the
/// two sides of the cut it leaves, as holds of every edge of a minimum
/// spanning tree.
pub open spec fn cheapest_across(edges: Seq<(usize, usize, i32)>, mst: Rows, t: (usize, usize, i32)) -> bool {
    forall|k: int|
        0 <= k < edges.len() && !reachable(
            rows_disconnect(mst, t.0, t.1),
            (#[trigger] edges[k]).0 as int,
            edges[k].1 as int,
        ) ==> t.2 <= edges[k].2
}

/// Where a tree edge is the cheapest across its own cut, swapping it for its
/// replacement adds nothing negative: the tree after the swap weighs no less.
pub proof fn lemma_swap_not_lighter(
    edges: Seq<(usize, usize, i32)>,
    mst: Rows,
    t: (usize, usize, i32),
    e: (usize, usize, i32),
)
    requires
        forall|k: int| 0 <= k < edges.len() ==> (#[trigger] edges[k]).0 < mst.len() && edges[k].1 < mst.len(),
        t.0 < mst.len(),
        t.1 < mst.len(),
        is_swap(edges, mst, t, Some(e)),
        cheapest_across(edges, mst, t),
    ensures
        delta(t, e) >= 0,
{
    let cut = rows_disconnect(mst, t.0, t.1);
    let (count, labels) = choose|count: int, labels: Seq<usize>| #[trigger]
        is_labeling(cut, count, labels) && is_cheapest_bridge(edges, edges.len() as int, labels, t, Some(e));
    assert(Some(e).unwrap() == e);
    let j = choose|j: int| #[trigger] bridge_at(edges, edges.len() as int, labels, t, e, j);
    assert(edges[j] == e);
    assert(cut.len() == mst.len());
    assert(!reachable(cut, e.0 as int, e.1 as int));
}

/// The swap `best` belongs to the tree edge at index `i`, costs no more than
/// the swap of any of the first `upto` tree edges, and less than that of
/// every earlier one.
pub open spec fn best_at(
    tree_edges: Seq<(usize, usize, i32)>,
    picks: Seq<Option<(usize, usize, i32)>>,
    upto: int,
    best: ((usize, usize, i32), (usize, usize, i32)),
    i: int,
) -> bool {
    &&& 0 <= i < upto
    &&& tree_edges[i] == best.0
    &&& picks[i] == Some(best.1)
    &&& forall|k: int|
        0 <= k < upto && (#[trigger] picks[k]).is_some() ==> delta(best.0, best.1) <= delta(
            tree_edges[k],
            picks[k].unwrap(),
        )
    &&& forall|k: int|
        0 <= k < i && (#[trigger] picks[k]).is_some() ==> delta(best.0, best.1) < delta(
            tree_edges[k],
            picks[k].unwrap(),
        )
}

/// `best` is the first of the cheapest swaps among the first `upto` tree
/// edges, or `None` where none of them has a replacement.
pub open spec fn is_best(
    tree_edges: Seq<(usize, usize, i32)>,
    picks: Seq<Option<(usize, usize, i32)>>,
    upto: int,
    best: Option<((usize, usize, i32), (usize, usize, i32))>,
) -> bool {
    &&& best.is_none() ==> (forall|k: int| 0 <= k < upto ==> (#[trigger] picks[k]).is_none())
    &&& best.is_some() ==> (exists|i: int| #[trigger] best_at(tree_edges, picks, upto, best.unwrap(), i))
}

/// The best swap after the tree edge at index `i` has been tried.
pub open spec fn next_best(
    best: Option<((usize, usize, i32), (usize, usize, i32))>,
    t: (usize, usize, i32),
    pick: Option<(usize, usize, i32)>,
) -> Option<((usize, usize, i32), (usize, usize, i32))> {
    if pick.is_some() && (best.is_none() || delta(t, pick.unwrap()) < delta(
        best.unwrap().0,
        best.unwrap().1,
    )) {
        Some((t, pick.unwrap()))
    } else {
        best
    }
}

/// `next_best` keeps the best swap right when the next tree edge is taken in.
pub proof fn lemma_next_best(
    tree_edges: Seq<(usize, usize, i32)>,
    picks: Seq<Option<(usize, usize, i32)>>,
    i: int,
    best: Option<((usize, usize, i32), (usize, usize, i32))>,
)
    requires
        0 <= i < tree_edges.len(),
        i < picks.len(),
        is_best(tree_edges, picks, i, best),
    ensures
        is_best(tree_edges, picks, i + 1, next_best(best, tree_edges[i], picks[i])),
{
    let t = tree_edges[i];
    if picks[i].is_some() {
        let cand = (t, picks[i].unwrap());
        assert(Some(cand).unwrap() == cand);
    }
    match best {
        None => {
            if picks[i].is_some() {
                assert(best_at(tree_edges, picks, i + 1, (t, picks[i].unwrap()), i));
            }
        },
        Some(b) => {
            let i0 = choose|i0: int| #[trigger] best_at(tree_edges, picks, i, b, i0);
            if picks[i].is_some() && delta(t, picks[i].unwrap()) < delta(b.0, b.1) {
                assert(best_at(tree_edges, picks, i + 1, (t, picks[i].unwrap()), i));
            } else {
                assert(best_at(tree_edges, picks, i + 1, b, i0));
            }
        },
    }
}

/// `picks` holds the replacement of every tree edge, `swap` is the best of
/// them, and `tree` is `mst` after that swap.
pub open spec fn second_best_by(
    edges: Seq<(usize, usize, i32)>,
    mst: Rows,
    tree_edges: Seq<(usize, usize, i32)>,
    picks: Seq<Option<(usize, usize, i32)>>,
    tree: Rows,
    swap: Option<((usize, usize, i32), (usize, usize, i32))>,
) -> bool {
    &&& picks.len() == tree_edges.len()
    &&& forall|k: int| 0 <= k < picks.len() ==> is_swap(edges, mst, tree_edges[k], #[trigger] picks[k])
    &&& is_best(tree_edges, picks, tree_edges.len() as int, swap)
    &&& swap.is_none() ==> tree == mst
    &&& swap.is_some() ==> tree == rows_connect(
        rows_disconnect(mst, swap.unwrap().0.0, swap.unwrap().0.1),
        swap.unwrap().1.0,
        swap.unwrap().1.1,
        swap.unwrap().1.2,
    )
}

/// `tree` and `swap` are the result of the search on `graph` and `mst`: with
/// fewer than two tree edges there is no swap; else each tree edge is taken
/// out in turn, its cheapest replacement among the edges of `graph` is found,
/// and the swap that adds least, the first such, is applied to `mst`.
pub open spec fn is_second_best(
    graph: Rows,
    mst: Rows,
    tree: Rows,
    swap: Option<((usize, usize, i32), (usize, usize, i32))>,
) -> bool {
    let edges = edges_upto(graph, graph.len() as int);
    let tree_edges = edges_upto(mst, mst.len() as int);
    if tree_edges.len() < 2 {
        swap.is_none() && tree == mst
    } else {
        exists|picks: Seq<Option<(usize, usize, i32)>>| #[trigger]
            second_best_by(edges, mst, tree_edges, picks, tree, swap)
    }
}

/// Finds the spanning tree that differs from `mst` by one edge and weighs
/// least among those: tries every tree edge in turn, and swaps the one whose
/// cheapest replacement adds least. Where `mst` has fewer than two edges, or
/// no tree edge has a replacement, `swap` is `None` and `tree` is `mst`. The
/// weight of the result is that of `mst` and what the swap adds.
pub fn second_best_mst(graph: &Graph, mst: &Graph) -> (r: SecondBest)
    requires
        graph.wf(),
        mst.wf(),
        mst@.len() == graph@.len(),
    ensures
        r.tree.wf(),
        r.weight == total_weight(edges_upto(r.tree@, r.tree@.len() as int)),
        is_second_best(graph@, mst@, r.tree@, r.swap),
        r.swap.is_none() ==> r.weight == total_weight(edges_upto(mst@, mst@.len() as int)),
        r.swap.is_some() ==> r.weight == total_weight(edges_upto(mst@, mst@.len() as int)) + delta(
            r.swap.unwrap().0,
            r.swap.unwrap().1,
        ),
{
    let tree_edges = mst.all_edges();
    let edges = graph.all_edges();
    let total: usize = tree_edges.len();
    let n: usize = graph.size();
    let mut best: Option<((usize, usize, i32), (usize, usize, i32))> = None;
    let ghost mut picks: Seq<Option<(usize, usize, i32)>> = Seq::empty();
    proof {
        lemma_edge_ends(graph@);
        lemma_edge_ends(mst@);
    }
    if total >= 2 {
        let mut i: usize = 0;
        while i < total
            invariant
                i <= total,
                total == tree_edges@.len(),
                n == graph@.len(),
                mst@.len() == n,
                graph.wf(),
                mst.wf(),
                tree_edges@ == edges_upto(mst@, n as int),
                edges@ == edges_upto(graph@, n as int),
                forall|k: int| 0 <= k < edges@.len() ==> (#[trigger] edges@[k]).0 < n && edges@[k].1 < n,
                forall|k: int|
                    0 <= k < tree_edges@.len() ==> (#[trigger] tree_edges@[k]).0 < n && tree_edges@[k].1 < n,
                picks.len() == i,
                forall|k: int| 0 <= k < i ==> is_swap(edges@, mst@, tree_edges@[k], #[trigger] picks[k]),
                is_best(tree_edges@, picks, i as int, best),
                best.is_some() ==> best.unwrap().0.0 < n && best.unwrap().0.1 < n && best.unwrap().1.0 < n
                    && best.unwrap().1.1 < n,
                best.is_some() ==> tree_edges@.contains(best.unwrap().0) && best.unwrap().1.0
                    < best.unwrap().1.1 && !row_has(
                    rows_disconnect(mst@, best.unwrap().0.0, best.unwrap().0.1)[best.unwrap().1.0 as int],
                    best.unwrap().1.1 as int,
                ),
            decreases total - i,
        {
            let t: (usize, usize, i32) = tree_edges[i];
            let mut cut = mst.clone();
            cut.disconnect(t.0, t.1);
            let (count, labels) = count_and_label(&cut);
            let pick = cheapest_bridge(&edges, &labels, t);
            proof {
                assert(is_labeling(rows_disconnect(mst@, t.0, t.1), count as int, labels@));
                assert(is_swap(edges@, mst@, t, pick));
                let before = picks;
                picks = picks.push(pick);
                assert(is_best(tree_edges@, before, i as int, best));
                lemma_best_extends(tree_edges@, before, picks, i as int, best);
                lemma_next_best(tree_edges@, picks, i as int, best);
                if pick.is_some() {
                    let e = pick.unwrap();
                    let j = choose|j: int| #[trigger] bridge_at(edges@, edges@.len() as int, labels@, t, e, j);
                    assert(edges@[j] == e);
                    lemma_edges_upto(graph@, n as int);
                    assert(e.0 < e.1);
                    if adjacent(cut@, e.0 as int, e.1 as int) {
                        lemma_adjacent_reach(cut@, e.0 as int, e.1 as int);
                    }
                    assert(tree_edges@[i as int] == t);
                }
            }
            match pick {
                Some(e) => {
                    let better: bool = match best {
                        None => true,
                        Some(b) => (e.2 as i64 - t.2 as i64) < (b.1.2 as i64 - b.0.2 as i64),
                    };
                    if better {
                        best = Some((t, e));
                    }
                },
                None => {},
            }
            i += 1;
        }
    }
    let mut tree = mst.clone();
    match best {
        Some(b) => {
            tree.disconnect(b.0.0, b.0.1);
            tree.connect(b.1.0, b.1.1, b.1.2);
        },
        None => {},
    }
    let weight = tree.weight();
    proof {
        if best.is_some() {
            lemma_swap_weight(mst@, best.unwrap().0, best.unwrap().1);
        }
        if total >= 2 {
            assert(second_best_by(edges@, mst@, tree_edges@, picks, tree@, best));
        }
    }
    SecondBest { tree, weight, swap: best }
}

/// Both ends of every listed edge of a well-formed graph are vertices.
pub proof fn lemma_edge_ends(g: Rows)
    requires
        rows_wf(g),
        g.len() <= usize::MAX,
    ensures
        forall|k: int|
            0 <= k < edges_upto(g, g.len() as int).len() ==> (#[trigger] edges_upto(g, g.len() as int)[k]).0
                < g.len() && edges_upto(g, g.len() as int)[k].1 < g.len(),
{
    let edges = edges_upto(g, g.len() as int);
    lemma_edges_upto(g, g.len() as int);
    assert forall|k: int| 0 <= k < edges.len() implies (#[trigger] edges[k]).0 < g.len() && edges[k].1
        < g.len() by {
        let e = edges[k];
        let j = choose|j: int| 0 <= j < g[e.0 as int].len() && g[e.0 as int][j] == (e.1, e.2);
        assert(g[e.0 as int][j].0 < g.len());
    }
}

/// The best swap among the first `i` tree edges does not depend on later
/// replacements.
pub proof fn lemma_best_extends(
    tree_edges: Seq<(usize, usize, i32)>,
    before: Seq<Option<(usize, usize, i32)>>,
    after: Seq<Option<(usize, usize, i32)>>,
    i: int,
    best: Option<((usize, usize, i32), (usize, usize, i32))>,
)
    requires
        before.len() == i,
        after.len() == i + 1,
        forall|k: int| 0 <= k < i ==> before[k] == after[k],
        is_best(tree_edges, before, i, best),
    ensures
        is_best(tree_edges, after, i, best),
{
    if best.is_some() {
        let i0 = choose|i0: int| #[trigger] best_at(tree_edges, before, i, best.unwrap(), i0);
        assert(best_at(tree_edges, after, i, best.unwrap(), i0));
    }
}

} // verus!
