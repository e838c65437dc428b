use crate::adjacency::keys_of;
use crate::graph::{Graph, WeightedGraph};
use crate::node::{key_less, key_lt, lemma_key_less_strict, lemma_key_less_transitive, Node};
use vstd::prelude::*;

verus! {

/// `p` is a route in `g`: a non-empty sequence of keys of `g` in which each
/// key is joined to the next by an edge.
pub open spec fn is_route(g: WeightedGraph, p: Seq<Seq<char>>) -> bool {
    &&& p.len() >= 1
    &&& g.has_key(p[0])
    &&& forall|i: int| 0 <= i < p.len() - 1 ==> (#[trigger] g.weight(p[i], p[i + 1])) is Some
}

/// The sum of the weights of the edges along route `p`.
pub open spec fn route_cost(g: WeightedGraph, p: Seq<Seq<char>>) -> int
    decreases p.len(),
{
    if p.len() <= 1 {
        0
    } else {
        route_cost(g, p.drop_last()) + g.weight(p[p.len() - 2], p[p.len() - 1])->Some_0 as int
    }
}

/// Every route of `g` from `from` to `to` costs at least `d`.
pub open spec fn below_all_routes(g: WeightedGraph, from: Seq<char>, to: Seq<char>, d: int) -> bool {
    forall|p: Seq<Seq<char>>|
        is_route(g, p) && p[0] == from && p[p.len() - 1] == to ==> d <= #[trigger] route_cost(g, p)
}

/// The number of entries of `done` that are still false.
pub open spec fn count_open(done: Seq<bool>) -> nat
    decreases done.len(),
{
    if done.len() == 0 {
        0
    } else {
        count_open(done.drop_last()) + if done.last() {
            0nat
        } else {
            1nat
        }
    }
}

proof fn lemma_count_open_update(done: Seq<bool>, i: int)
    requires
        0 <= i < done.len(),
        !done[i],
    ensures
        count_open(done.update(i, true)) + 1 == count_open(done),
    decreases done.len(),
{
    let d2 = done.update(i, true);
    if i == done.len() - 1 {
        assert(d2.drop_last() =~= done.drop_last());
    } else {
        assert(d2.drop_last() =~= done.drop_last().update(i, true));
        lemma_count_open_update(done.drop_last(), i);
    }
}

proof fn lemma_cost_prepend(g: WeightedGraph, k: Seq<char>, f: Seq<Seq<char>>)
    requires
        f.len() >= 1,
    ensures
        route_cost(g, seq![k] + f) == route_cost(g, f) + g.weight(k, f[0])->Some_0 as int,
    decreases f.len(),
{
    let p = seq![k] + f;
    assert(p[p.len() - 1] == f[f.len() - 1]);
    assert(route_cost(g, p) == route_cost(g, p.drop_last()) + g.weight(
        p[p.len() - 2],
        p[p.len() - 1],
    )->Some_0 as int);
    if f.len() == 1 {
        assert(p.drop_last() =~= seq![k]);
        assert(p[p.len() - 2] == k);
        assert(route_cost(g, seq![k]) == 0);
        assert(route_cost(g, f) == 0);
    } else {
        assert(p.drop_last() =~= seq![k] + f.drop_last());
        assert(p[p.len() - 2] == f[f.len() - 2]);
        lemma_cost_prepend(g, k, f.drop_last());
        assert(f.drop_last()[0] == f[0]);
        assert(route_cost(g, f) == route_cost(g, f.drop_last()) + g.weight(
            f[f.len() - 2],
            f[f.len() - 1],
        )->Some_0 as int);
    }
}

/// Nodes marked done have their final distance: no route from the root is
/// cheaper.
pub open spec fn settled(g: WeightedGraph, rk: int, dist: Seq<Option<u64>>, done: Seq<bool>) -> bool {
    forall|u: int|
        0 <= u < done.len() && #[trigger] done[u] ==> dist[u] is Some && below_all_routes(
            g,
            g.data.keys()[rk],
            g.data.keys()[u],
            dist[u]->Some_0 as int,
        )
}

/// Every edge from a done node to an open one has been relaxed, unless its
/// cost overflows.
pub open spec fn relaxed(g: WeightedGraph, dist: Seq<Option<u64>>, done: Seq<bool>) -> bool {
    forall|x: int, k: int|
        0 <= x < done.len() && done[x] && 0 <= k < g.data.lists[x].len() && !done[
            #[trigger] g.data.lists[x][k].0 as int] && dist[x]->Some_0 + g.data.lists[x][k].1
            <= u64::MAX ==> dist[g.data.lists[x][k].0 as int] is Some && dist[g.data.lists[x][k].0 as int]->Some_0
            <= dist[x]->Some_0 + g.data.lists[x][k].1
}

/// Each reached node but the root has a done parent, reached through an edge
/// whose weight makes up the difference of their distances, one level
/// deeper.
pub open spec fn parent_tree(
    g: WeightedGraph,
    rk: int,
    dist: Seq<Option<u64>>,
    done: Seq<bool>,
    parent: Seq<Option<usize>>,
    depth: Seq<nat>,
) -> bool {
    forall|u: int|
        0 <= u < dist.len() && u != rk && #[trigger] dist[u] is Some ==> {
            &&& parent[u] is Some
            &&& {
                let p = parent[u]->Some_0 as int;
                &&& 0 <= p < dist.len()
                &&& done[p]
                &&& dist[p] is Some
                &&& g.data.label_at(p, u) is Some
                &&& dist[u]->Some_0 == dist[p]->Some_0 + g.data.label_at(p, u)->Some_0
                &&& depth[u] == depth[p] + 1
            }
        }
}

/// A route from the root to a node that is still open, cheap enough not to
/// overflow, passes an open node whose distance is known and no larger.
proof fn lemma_frontier(
    g: WeightedGraph,
    rk: int,
    dist: Seq<Option<u64>>,
    done: Seq<bool>,
    p: Seq<Seq<char>>,
) -> (y: int)
    requires
        g.well_formed(),
        dist.len() == g.data.nodes.len(),
        done.len() == g.data.nodes.len(),
        0 <= rk < g.data.nodes.len(),
        dist[rk] == Some(0u64),
        settled(g, rk, dist, done),
        relaxed(g, dist, done),
        is_route(g, p),
        p[0] == g.data.keys()[rk],
        route_cost(g, p) <= u64::MAX,
        p.len() >= 1 ==> !done[g.data.index_of(p[p.len() - 1])],
    ensures
        0 <= y < done.len(),
        !done[y],
        dist[y] is Some,
        dist[y]->Some_0 <= route_cost(g, p),
    decreases p.len(),
{
    g.data.lemma_index_of(rk);
    if p.len() == 1 {
        rk
    } else {
        let q = p.drop_last();
        let a = q[q.len() - 1];
        let b = p[p.len() - 1];
        let i = p.len() - 2;
        assert(g.weight(p[i], p[i + 1]) is Some);
        assert forall|i: int| 0 <= i < q.len() - 1 implies (#[trigger] g.weight(q[i], q[i + 1])) is Some by {
            assert(g.weight(p[i], p[i + 1]) is Some);
        }
        assert(is_route(g, q));
        let x = g.data.index_of(a);
        g.data.lemma_has_key(a);
        g.data.lemma_has_key(b);
        if !done[x] {
            lemma_frontier(g, rk, dist, done, q)
        } else {
            let z = g.data.index_of(b);
            let ts = crate::adjacency::targets(g.data.lists[x]@);
            let w = g.weight(a, b)->Some_0;
            assert(ts.contains(z as usize));
            let k = ts.index_of(z as usize);
            assert(ts[k] == z);
            g.data.lemma_label_at(x, k);
            assert(g.data.lists[x][k] == (z as usize, w));
            assert(below_all_routes(g, g.data.keys()[rk], g.data.keys()[x], dist[x]->Some_0 as int));
            assert(dist[x]->Some_0 <= route_cost(g, q));
            z
        }
    }
}

/// The handle of the open node of least known distance; among equal
/// distances, the one whose key comes first in `key_less` order. `None` when
/// no open node has a known distance.
fn lowest_cost_node(costs: &Vec<Option<u64>>, processed: &Vec<bool>, nodes: &Vec<Node>) -> (r: Option<usize>)
    requires
        costs.len() == processed.len(),
        nodes.len() == costs.len(),
        keys_of(nodes@).no_duplicates(),
    ensures
        match r {
            Some(u) => {
                &&& u < costs.len()
                &&& !processed[u as int]
                &&& costs[u as int] is Some
                &&& forall|j: int|
                    0 <= j < costs.len() && !processed[j] && #[trigger] costs[j] is Some && j != u
                        ==> costs[u as int]->Some_0 < costs[j]->Some_0 || (costs[u as int]->Some_0
                        == costs[j]->Some_0 && key_less(nodes[u as int].id@, nodes[j].id@))
            },
            None => forall|j: int| 0 <= j < costs.len() && !processed[j] ==> #[trigger] costs[j] is None,
        },
{
    let mut best: Option<usize> = None;
    let mut i: usize = 0;
    while i < costs.len()
        invariant
            costs.len() == processed.len(),
            nodes.len() == costs.len(),
            keys_of(nodes@).no_duplicates(),
            0 <= i <= costs.len(),
            match best {
                Some(u) => {
                    &&& u < i
                    &&& !processed[u as int]
                    &&& costs[u as int] is Some
                    &&& forall|j: int|
                        0 <= j < i && !processed[j] && #[trigger] costs[j] is Some && j != u
                            ==> costs[u as int]->Some_0 < costs[j]->Some_0 || (costs[u as int]->Some_0
                            == costs[j]->Some_0 && key_less(nodes[u as int].id@, nodes[j].id@))
                },
                None => forall|j: int| 0 <= j < i && !processed[j] ==> #[trigger] costs[j] is None,
            },
        decreases costs.len() - i,
    {
        if !processed[i] {
            if let Some(c) = costs[i] {
                match best {
                    None => {
                        best = Some(i);
                    },
                    Some(u) => {
                        if let Some(cu) = costs[u] {
                            let ghost ku = nodes[u as int].id@;
                            let ghost ki = nodes[i as int].id@;
                            proof {
                                assert(keys_of(nodes@)[u as int] == ku);
                                assert(keys_of(nodes@)[i as int] == ki);
                                lemma_key_less_strict(ku, ki);
                            }
                            if c < cu || (c == cu && key_lt(&nodes[i].id, &nodes[u].id)) {
                                best = Some(i);
                                proof {
                                    assert forall|j: int|
                                        0 <= j < i + 1 && !processed[j] && #[trigger] costs[j] is Some && j != i
                                            implies c < costs[j]->Some_0 || (c == costs[j]->Some_0
                                            && key_less(ki, nodes[j].id@)) by {
                                        if j != u && c == cu && cu == costs[j]->Some_0 {
                                            lemma_key_less_transitive(ki, ku, nodes[j].id@);
                                        }
                                    }
                                }
                            }
                        }
                    },
                }
            }
        }
        i = i + 1;
    }
    best
}

/// Walks the parent links back from `target` to `root` and returns the
/// route they trace, root first.
fn make_route(
    g: &WeightedGraph,
    parents: &Vec<Option<usize>>,
    root: usize,
    target: usize,
    Ghost(dist): Ghost<Seq<Option<u64>>>,
    Ghost(done): Ghost<Seq<bool>>,
    Ghost(depth): Ghost<Seq<nat>>,
) -> (route: Vec<Node>)
    requires
        g.well_formed(),
        parents.len() == g.data.nodes.len(),
        dist.len() == g.data.nodes.len(),
        done.len() == g.data.nodes.len(),
        root < g.data.nodes.len(),
        target < g.data.nodes.len(),
        dist[root as int] == Some(0u64),
        dist[target as int] is Some,
        parent_tree(*g, root as int, dist, done, parents@, depth),
    ensures
        is_route(*g, keys_of(route@)),
        route.len() >= 1,
        route[0].id@ == g.data.keys()[root as int],
        route[route.len() - 1].id@ == g.data.keys()[target as int],
        route_cost(*g, keys_of(route@)) == dist[target as int]->Some_0,
        keys_of(route@).no_duplicates(),
        forall|t: int|
            0 <= t < route.len() - 1 ==> parents[g.data.index_of(#[trigger] route[t + 1].id@)] == Some(
                g.data.index_of(route[t].id@) as usize,
            ),
{
    let ghost keys = g.data.keys();
    let mut back: Vec<usize> = Vec::new();
    back.push(target);
    let mut cur = target;
    let ghost mut fwd: Seq<Seq<char>> = seq![keys[target as int]];
    proof {
        g.data.lemma_index_of(target as int);
    }
    while cur != root
        invariant
            g.well_formed(),
            keys == g.data.keys(),
            parents.len() == g.data.nodes.len(),
            dist.len() == g.data.nodes.len(),
            done.len() == g.data.nodes.len(),
            root < g.data.nodes.len(),
            dist[root as int] == Some(0u64),
            parent_tree(*g, root as int, dist, done, parents@, depth),
            cur < g.data.nodes.len(),
            dist[cur as int] is Some,
            back.len() >= 1,
            back[back.len() - 1] == cur,
            back[0] == target,
            forall|i: int| 0 <= i < back.len() ==> #[trigger] back[i] < g.data.nodes.len(),
            fwd.len() == back.len(),
            forall|i: int|
                0 <= i < fwd.len() ==> #[trigger] fwd[i] == keys[back[back.len() - 1 - i] as int],
            is_route(*g, fwd),
            route_cost(*g, fwd) + dist[cur as int]->Some_0 == dist[target as int]->Some_0,
            forall|t: int| 0 <= t < back.len() ==> #[trigger] depth[back[t] as int] + t == depth[target as int],
            forall|t: int|
                0 <= t < back.len() - 1 ==> parents[#[trigger] back[t] as int] == Some(back[t + 1]),
        decreases depth[cur as int],
    {
        let p = parents[cur].unwrap();
        proof {
            g.data.lemma_index_of(p as int);
            g.data.lemma_index_of(cur as int);
            let nf = seq![keys[p as int]] + fwd;
            assert(fwd[0] == keys[cur as int]);
            lemma_cost_prepend(*g, keys[p as int], fwd);
            assert forall|i: int| 0 <= i < nf.len() - 1 implies (#[trigger] g.weight(nf[i], nf[i + 1])) is Some by {
                if i > 0 {
                    assert(nf[i] == fwd[i - 1]);
                    assert(nf[i + 1] == fwd[i]);
                    assert(g.weight(fwd[i - 1], fwd[(i - 1) + 1]) is Some);
                }
            }
            fwd = nf;
        }
        back.push(p);
        cur = p;
    }
    let mut route: Vec<Node> = Vec::new();
    let mut i: usize = back.len();
    while i > 0
        invariant
            g.well_formed(),
            keys == g.data.keys(),
            0 <= i <= back.len(),
            forall|c: int| 0 <= c < back.len() ==> #[trigger] back[c] < g.data.nodes.len(),
            fwd.len() == back.len(),
            forall|c: int|
                0 <= c < fwd.len() ==> #[trigger] fwd[c] == keys[back[back.len() - 1 - c] as int],
            route.len() == back.len() - i,
            forall|c: int| 0 <= c < route.len() ==> #[trigger] route[c].id@ == fwd[c],
        decreases i,
    {
        i = i - 1;
        route.push(g.data.nodes[back[i]].duplicate());
    }
    assert(keys_of(route@) =~= fwd);
    proof {
        let m = back.len();
        assert forall|x: int, y: int| 0 <= x < m && 0 <= y < m && x != y implies fwd[x] != fwd[y] by {
            let bx = back[m - 1 - x] as int;
            let by_ = back[m - 1 - y] as int;
            assert(depth[bx] + (m - 1 - x) == depth[target as int]);
            assert(depth[by_] + (m - 1 - y) == depth[target as int]);
            assert(bx != by_);
            assert(keys[bx] != keys[by_]);
        }
        assert forall|t: int| 0 <= t < route.len() - 1 implies parents[g.data.index_of(
            #[trigger] route[t + 1].id@,
        )] == Some(g.data.index_of(route[t].id@) as usize) by {
            let s = m - 2 - t;
            assert(route[t + 1].id@ == keys[back[s] as int]);
            assert(route[t].id@ == keys[back[s + 1] as int]);
            g.data.lemma_index_of(back[s] as int);
            g.data.lemma_index_of(back[s + 1] as int);
            assert(parents[back[s] as int] == Some(back[s + 1]));
        }
    }
    route
}


/// Dijkstra's shortest path from `root` to `target` over the edge weights of
/// `g`. Each step settles the open node of least known distance, the one
/// whose key comes first in `key_less` order among equals. On success
/// returns the route, root first, and its cost, which no route between the
/// two undercuts. Returns `None` when the root is not in the graph or when
/// every route to the target costs more than `u64::MAX`.
pub fn dijkstra(g: &WeightedGraph, root: &Node, target: &Node) -> (r: Option<(Vec<Node>, u64)>)
    requires
        g.well_formed(),
    ensures
        match r {
            Some((path, cost)) => {
                &&& is_route(*g, keys_of(path@))
                &&& path[0].id@ == root.id@
                &&& path[path.len() - 1].id@ == target.id@
                &&& cost == route_cost(*g, keys_of(path@))
                &&& below_all_routes(*g, root.id@, target.id@, cost as int)
                &&& keys_of(path@).no_duplicates()
            },
            None => below_all_routes(*g, root.id@, target.id@, u64::MAX + 1),
        },
        g.has_key(root.id@) && root.id@ == target.id@ ==> (r matches Some((path, cost)) && cost == 0
            && path.len() == 1 && path[0].id@ == root.id@),
{
    let rk = match g.data.find(&root.id) {
        Some(i) => i,
        None => {
            return None;
        },
    };
    let n = g.data.nodes.len();
    let mut dist: Vec<Option<u64>> = Vec::new();
    let mut parent: Vec<Option<usize>> = Vec::new();
    let mut done: Vec<bool> = Vec::new();
    let mut i: usize = 0;
    while i < n
        invariant
            0 <= i <= n,
            dist.len() == i,
            parent.len() == i,
            done.len() == i,
            forall|c: int| 0 <= c < i ==> #[trigger] dist[c] is None,
            forall|c: int| 0 <= c < i ==> !#[trigger] done[c],
        decreases n - i,
    {
        dist.push(None);
        parent.push(None);
        done.push(false);
        i = i + 1;
    }
    dist.set(rk, Some(0));
    let ghost mut depth: Seq<nat> = Seq::new(n as nat, |c: int| 0nat);
    let ghost keys = g.data.keys();
    proof {
        g.data.lemma_index_of(rk as int);
    }
    loop
        invariant
            g.well_formed(),
            keys == g.data.keys(),
            n == g.data.nodes.len(),
            rk < n,
            keys[rk as int] == root.id@,
            dist.len() == n,
            parent.len() == n,
            done.len() == n,
            depth.len() == n,
            dist[rk as int] == Some(0u64),
            settled(*g, rk as int, dist@, done@),
            relaxed(*g, dist@, done@),
            parent_tree(*g, rk as int, dist@, done@, parent@, depth),
            forall|u: int| 0 <= u < n && #[trigger] done[u] ==> keys[u] != target.id@,
        decreases count_open(done@),
    {
        let v = match lowest_cost_node(&dist, &done, &g.data.nodes) {
            Some(v) => v,
            None => {
                proof {
                    if root.id@ == target.id@ {
                        assert(!done[rk as int]);
                        assert(dist[rk as int] is Some);
                    }
                    assert forall|p: Seq<Seq<char>>|
                        is_route(*g, p) && p[0] == root.id@ && p[p.len() - 1] == target.id@ implies u64::MAX
                        + 1 <= #[trigger] route_cost(*g, p) by {
                        if route_cost(*g, p) <= u64::MAX {
                            let last = p[p.len() - 1];
                            if p.len() > 1 {
                                let j = p.len() - 2;
                                assert(g.weight(p[j], p[j + 1]) is Some);
                            }
                            g.data.lemma_has_key(last);
                            let y = lemma_frontier(*g, rk as int, dist@, done@, p);
                        }
                    }
                }
                return None;
            },
        };
        let dv = dist[v].unwrap();
        proof {
            assert forall|p: Seq<Seq<char>>|
                is_route(*g, p) && p[0] == keys[rk as int] && p[p.len() - 1] == keys[v as int] implies dv
                <= #[trigger] route_cost(*g, p) by {
                if route_cost(*g, p) <= u64::MAX {
                    g.data.lemma_index_of(v as int);
                    let y = lemma_frontier(*g, rk as int, dist@, done@, p);
                }
            }
            lemma_count_open_update(done@, v as int);
        }
        let ghost done0 = done@;
        done.set(v, true);
        assert(done@ == done0.update(v as int, true));
        if g.data.nodes[v].id == target.id {
            proof {
                g.data.lemma_index_of(v as int);
            }
            let route = make_route(g, &parent, rk, v, Ghost(dist@), Ghost(done@), Ghost(depth));
            proof {
                if root.id@ == target.id@ {
                    let p0 = seq![root.id@];
                    assert(p0[p0.len() - 1] == root.id@);
                    assert(is_route(*g, p0));
                    assert(route_cost(*g, p0) == 0);
                    let kp = keys_of(route@);
                    assert(kp[0] == kp[kp.len() - 1]);
                    if route.len() > 1 {
                        assert(kp[0] != kp[kp.len() - 1]);
                    }
                }
            }
            return Some((route, dv));
        }
        let len = g.data.lists[v].len();
        let mut k: usize = 0;
        while k < len
            invariant
                g.well_formed(),
                keys == g.data.keys(),
                n == g.data.nodes.len(),
                rk < n,
                v < n,
                done[v as int],
                dist[v as int] == Some(dv),
                len == g.data.lists[v as int].len(),
                0 <= k <= len,
                dist.len() == n,
                parent.len() == n,
                done.len() == n,
                depth.len() == n,
                dist[rk as int] == Some(0u64),
                settled(*g, rk as int, dist@, done@),
                parent_tree(*g, rk as int, dist@, done@, parent@, depth),
                forall|x: int, c: int|
                    0 <= x < n && done[x] && 0 <= c < g.data.lists[x].len() && (x != v || c < k)
                        && !done[#[trigger] g.data.lists[x][c].0 as int] && dist[x]->Some_0
                        + g.data.lists[x][c].1 <= u64::MAX ==> dist[g.data.lists[x][c].0 as int] is Some
                        && dist[g.data.lists[x][c].0 as int]->Some_0 <= dist[x]->Some_0
                        + g.data.lists[x][c].1,
            decreases len - k,
        {
            let (j, w) = g.data.lists[v][k];
            proof {
                g.data.lemma_label_at(v as int, k as int);
            }
            if !done[j] {
                if let Some(nw) = dv.checked_add(w) {
                    let better = match dist[j] {
                        None => true,
                        Some(dj) => nw < dj,
                    };
                    if better {
                        let ghost d0 = dist@;
                        dist.set(j, Some(nw));
                        parent.set(j, Some(v));
                        proof {
                            depth = depth.update(j as int, depth[v as int] + 1);
                            assert forall|u: int|
                                0 <= u < n && #[trigger] done[u] implies dist[u] == d0[u] by {}
                        }
                    }
                }
            }
            k = k + 1;
        }
    }
}


/// `p` is a walk in `g`: a non-empty sequence of keys in which each key has
/// an edge to the next.
pub open spec fn is_walk<G: Graph>(g: G, p: Seq<Seq<char>>) -> bool {
    &&& p.len() >= 1
    &&& forall|i: int| 0 <= i < p.len() - 1 ==> #[trigger] g.has_edge(p[i], p[i + 1])
}

/// Key `k` is reached from key `from` by some walk of `g`.
pub open spec fn reaches<G: Graph>(g: G, from: Seq<char>, k: Seq<char>) -> bool {
    exists|p: Seq<Seq<char>>| is_walk(g, p) && p[0] == from && #[trigger] p[p.len() - 1] == k
}

/// The goal rejected some node with key `k`.
pub open spec fn rejected<F: Fn(&Node) -> bool>(goal: F, k: Seq<char>) -> bool {
    exists|n: Node| n.id@ == k && #[trigger] goal.ensures((&n,), false)
}

/// The keys of a list of strings.
pub open spec fn string_keys(v: Seq<String>) -> Seq<Seq<char>> {
    v.map_values(|s: String| s@)
}

fn contains_key(keys: &Vec<String>, k: &String) -> (r: bool)
    ensures
        r == string_keys(keys@).contains(k@),
{
    let mut i: usize = 0;
    while i < keys.len()
        invariant
            0 <= i <= keys.len(),
            forall|j: int| 0 <= j < i ==> keys[j]@ != k@,
        decreases keys.len() - i,
    {
        if keys[i] == *k {
            assert(string_keys(keys@)[i as int] == k@);
            return true;
        }
        i = i + 1;
    }
    false
}

/// A walk that starts in a set closed under the edges of `g` stays in it.
proof fn lemma_walk_stays<G: Graph>(g: G, s: Seq<Seq<char>>, p: Seq<Seq<char>>)
    requires
        is_walk(g, p),
        s.contains(p[0]),
        forall|a: Seq<char>, b: Seq<char>| s.contains(a) && #[trigger] g.has_edge(a, b) ==> s.contains(b),
    ensures
        s.contains(p[p.len() - 1]),
    decreases p.len(),
{
    if p.len() > 1 {
        let q = p.drop_last();
        assert forall|i: int| 0 <= i < q.len() - 1 implies #[trigger] g.has_edge(q[i], q[i + 1]) by {
            assert(g.has_edge(p[i], p[i + 1]));
        }
        lemma_walk_stays(g, s, q);
        let i = p.len() - 2;
        assert(g.has_edge(p[i], p[i + 1]));
    }
}

/// A list of distinct keys, each a key of `g` or `extra`, is at most one
/// longer than the graph has nodes.
proof fn lemma_distinct_bound<G: Graph>(g: G, vs: Seq<Seq<char>>, extra: Seq<char>)
    requires
        g.well_formed(),
        vs.no_duplicates(),
        forall|i: int| 0 <= i < vs.len() ==> #[trigger] vs[i] == extra || g.has_key(vs[i]),
    ensures
        vs.len() <= g.node_keys().len() + 1,
{
    g.lemma_shape();
    let all = g.node_keys().to_set().insert(extra);
    assert(vs.to_set().subset_of(all)) by {
        assert forall|k: Seq<char>| vs.to_set().contains(k) implies all.contains(k) by {
            let i = choose|i: int| 0 <= i < vs.len() && vs[i] == k;
            assert(vs[i] == extra || g.has_key(vs[i]));
        }
    }
    vs.unique_seq_to_set();
    g.node_keys().lemma_cardinality_of_set();
    vstd::set_lib::lemma_len_subset(vs.to_set(), all);
}

/// Searches from `root` for a node that `goal_fn` accepts. Nodes are taken
/// from a stack, newest first, so the search goes deep before it goes wide.
/// Each node taken is tested against the goal first, root included, and
/// returned if accepted; otherwise, if its key was not expanded before, its
/// neighbors are pushed. A key is expanded once. Returns `None` when every
/// node reachable from the root was rejected.
pub fn bfs_by<G: Graph, F: Fn(&Node) -> bool>(g: &G, root: Node, goal_fn: F) -> (r: Option<Node>)
    requires
        g.well_formed(),
        forall|n: Node| #[trigger] goal_fn.requires((&n,)),
    ensures
        (forall|b: bool| goal_fn.ensures((&root,), b) ==> b) ==> (r matches Some(n) && n == root),
        match r {
            Some(n) => goal_fn.ensures((&n,), true) && reaches(*g, root.id@, n.id@),
            None => forall|p: Seq<Seq<char>>|
                is_walk(*g, p) && p[0] == root.id@ ==> rejected(goal_fn, #[trigger] p[p.len() - 1]),
        },
{
    proof {
        g.lemma_shape();
    }
    let ghost rkey = root.id@;
    let ghost root0 = root;
    let ghost root_accepted = forall|b: bool| goal_fn.ensures((&root,), b) ==> b;
    let ghost mut first = true;
    let ghost bound = g.node_keys().len() + 1;
    let mut stack: Vec<Node> = Vec::new();
    stack.push(root);
    let mut visited: Vec<String> = Vec::new();
    proof {
        assert(is_walk(*g, seq![rkey]));
        let w = seq![rkey];
        assert(w[w.len() - 1] == rkey);
        assert(reaches(*g, rkey, rkey));
        assert(stack[0].id@ == rkey);
    }
    while stack.len() > 0
        invariant
            g.well_formed(),
            forall|n: Node| #[trigger] goal_fn.requires((&n,)),
            bound == g.node_keys().len() + 1,
            rkey == root.id@,
            root0 == root,
            root_accepted == (forall|b: bool| goal_fn.ensures((&root0,), b) ==> b),
            first ==> stack.len() == 1 && stack[0] == root0,
            root_accepted ==> first,
            forall|a: Seq<char>, b: Seq<char>| #[trigger]
                g.has_edge(a, b) ==> g.has_key(a) && g.has_key(b),
            string_keys(visited@).no_duplicates(),
            visited.len() <= bound,
            forall|i: int|
                0 <= i < visited.len() ==> #[trigger] string_keys(visited@)[i] == rkey || g.has_key(
                    string_keys(visited@)[i],
                ),
            forall|i: int|
                0 <= i < visited.len() ==> rejected(goal_fn, #[trigger] string_keys(visited@)[i]),
            forall|i: int| 0 <= i < visited.len() ==> reaches(*g, rkey, #[trigger] string_keys(visited@)[i]),
            forall|i: int|
                0 <= i < stack.len() ==> reaches(*g, rkey, #[trigger] stack[i].id@) && (stack[i].id@
                    == rkey || g.has_key(stack[i].id@)),
            forall|a: Seq<char>, b: Seq<char>|
                string_keys(visited@).contains(a) && #[trigger] g.has_edge(a, b) ==> string_keys(
                    visited@,
                ).contains(b) || exists|j: int| 0 <= j < stack.len() && #[trigger] stack[j].id@ == b,
            string_keys(visited@).contains(rkey) || exists|j: int|
                0 <= j < stack.len() && #[trigger] stack[j].id@ == rkey,
        decreases bound - visited.len(), stack.len(),
    {
        let ghost stack0 = stack@;
        let cur = stack.pop().unwrap();
        assert(cur == stack0[stack0.len() - 1]);
        let accepted = goal_fn(&cur);
        proof {
            if first && root_accepted {
                assert(cur == root0);
                assert(accepted);
            }
            first = false;
        }
        if accepted {
            proof {
                assert(reaches(*g, rkey, stack0[stack0.len() - 1].id@));
                assert(rkey == root.id@);
                assert(goal_fn.ensures((&cur,), true));
            }
            return Some(cur);
        }
        let ghost ckey = cur.id@;
        let ghost vk0 = string_keys(visited@);
        if !contains_key(&visited, &cur.id) {
            visited.push(cur.id.clone());
            let ghost vk = string_keys(visited@);
            proof {
                assert(vk =~= vk0.push(ckey));
                assert(rejected(goal_fn, ckey));
                assert(vk[vk.len() - 1] == ckey);
                lemma_distinct_bound(*g, vk, rkey);
            }
            match g.neighbors(&cur) {
                Some(ns) => {
                    let ghost s1 = stack@;
                    let mut ns = ns;
                    let ghost nsv = ns@;
                    stack.append(&mut ns);
                    proof {
                        assert(stack@ =~= s1 + nsv);
                        assert forall|j: int| 0 <= j < stack0.len() - 1 implies stack@[j] == stack0[j] by {
                            assert(stack@[j] == s1[j]);
                        }
                        let w = choose|p: Seq<Seq<char>>|
                            is_walk(*g, p) && p[0] == rkey && #[trigger] p[p.len() - 1] == ckey;
                        assert forall|i: int| 0 <= i < stack.len() implies reaches(
                            *g,
                            rkey,
                            #[trigger] stack[i].id@,
                        ) && (stack[i].id@ == rkey || g.has_key(stack[i].id@)) by {
                            if i >= s1.len() {
                                let c = i - s1.len();
                                assert(stack[i] == nsv[c]);
                                let w2 = w.push(nsv[c].id@);
                                assert forall|t: int| 0 <= t < w2.len() - 1 implies #[trigger] g.has_edge(
                                    w2[t],
                                    w2[t + 1],
                                ) by {
                                    if t < w.len() - 1 {
                                        assert(g.has_edge(w[t], w[t + 1]));
                                    }
                                }
                                assert(w2[w2.len() - 1] == nsv[c].id@);
                            } else {
                                assert(stack[i] == s1[i]);
                                assert(s1[i] == stack0[i]);
                            }
                        }
                        assert forall|a: Seq<char>, b: Seq<char>|
                            vk.contains(a) && #[trigger] g.has_edge(a, b) implies vk.contains(b)
                                || exists|j: int| 0 <= j < stack.len() && #[trigger] stack[j].id@ == b by {
                            if a == ckey {
                                let c = choose|c: int| 0 <= c < nsv.len() && #[trigger] nsv[c].id@ == b;
                                assert(stack[s1.len() + c] == nsv[c]);
                            } else {
                                let ia = choose|ia: int| 0 <= ia < vk.len() && vk[ia] == a;
                                assert(vk0[ia] == a);
                                if !vk0.contains(b) {
                                    let j = choose|j: int| 0 <= j < stack0.len() && #[trigger] stack0[j].id@ == b;
                                    if j < stack0.len() - 1 {
                                        assert(stack[j] == stack0[j]);
                                    } else {
                                        assert(vk[vk.len() - 1] == b);
                                    }
                                } else {
                                    let ib = choose|ib: int| 0 <= ib < vk0.len() && vk0[ib] == b;
                                    assert(vk[ib] == b);
                                }
                            }
                        }
                    }
                },
                None => {
                    proof {
                        assert forall|a: Seq<char>, b: Seq<char>|
                            vk.contains(a) && #[trigger] g.has_edge(a, b) implies vk.contains(b)
                                || exists|j: int| 0 <= j < stack.len() && #[trigger] stack[j].id@ == b by {
                            if a != ckey {
                                let ia = choose|ia: int| 0 <= ia < vk.len() && vk[ia] == a;
                                assert(vk0[ia] == a);
                                if !vk0.contains(b) {
                                    let j = choose|j: int| 0 <= j < stack0.len() && #[trigger] stack0[j].id@ == b;
                                    if j < stack0.len() - 1 {
                                        assert(stack[j] == stack0[j]);
                                    } else {
                                        assert(vk[vk.len() - 1] == b);
                                    }
                                } else {
                                    let ib = choose|ib: int| 0 <= ib < vk0.len() && vk0[ib] == b;
                                    assert(vk[ib] == b);
                                }
                            }
                        }
                        assert forall|i: int| 0 <= i < stack.len() implies reaches(
                            *g,
                            rkey,
                            #[trigger] stack[i].id@,
                        ) && (stack[i].id@ == rkey || g.has_key(stack[i].id@)) by {
                            assert(stack[i] == stack0[i]);
                        }
                    }
                },
            }
            proof {
                assert(forall|j: int| 0 <= j < stack0.len() - 1 ==> stack@[j] == stack0[j]);
                if !vk.contains(rkey) {
                    if vk0.contains(rkey) {
                        let i = choose|i: int| 0 <= i < vk0.len() && vk0[i] == rkey;
                        assert(vk[i] == rkey);
                    }
                    let j = choose|j: int| 0 <= j < stack0.len() && #[trigger] stack0[j].id@ == rkey;
                    if j < stack0.len() - 1 {
                        assert(stack@[j] == stack0[j]);
                        assert(stack[j].id@ == rkey);
                    } else {
                        assert(vk[vk.len() - 1] == rkey);
                    }
                }
            }
        } else {
            proof {
                let vk = string_keys(visited@);
                assert(vk == vk0);
                assert forall|a: Seq<char>, b: Seq<char>|
                    vk.contains(a) && #[trigger] g.has_edge(a, b) implies vk.contains(b)
                        || exists|j: int| 0 <= j < stack.len() && #[trigger] stack[j].id@ == b by {
                    if !vk0.contains(b) {
                        let j = choose|j: int| 0 <= j < stack0.len() && #[trigger] stack0[j].id@ == b;
                        assert(j < stack0.len() - 1);
                        assert(stack[j] == stack0[j]);
                    }
                }
                assert forall|i: int| 0 <= i < stack.len() implies reaches(
                    *g,
                    rkey,
                    #[trigger] stack[i].id@,
                ) && (stack[i].id@ == rkey || g.has_key(stack[i].id@)) by {
                    assert(stack[i] == stack0[i]);
                }
                if !vk.contains(rkey) {
                    let j = choose|j: int| 0 <= j < stack0.len() && #[trigger] stack0[j].id@ == rkey;
                    if j < stack0.len() - 1 {
                        assert(stack[j] == stack0[j]);
                    }
                }
            }
        }
    }
    proof {
        let vk = string_keys(visited@);
        assert forall|p: Seq<Seq<char>>|
            is_walk(*g, p) && p[0] == rkey implies rejected(goal_fn, #[trigger] p[p.len() - 1]) by {
            lemma_walk_stays(*g, vk, p);
            let i = choose|i: int| 0 <= i < vk.len() && vk[i] == p[p.len() - 1];
        }
    }
    None
}

} // verus!
