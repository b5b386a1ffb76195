//! Breadth-first shortest paths and distances over the cell graph.

use vstd::prelude::*;
use crate::graph::{CellKind, EngineError, Game};

verus! {

impl Game {
    /// There is an edge from `u` to `v`.
    pub open spec fn edge(&self, u: usize, v: usize) -> bool {
        u < self.size() && v < self.size() && self.adj(u as int).contains(v)
    }

    /// Position `i` of `p` is followed by one of its neighbors.
    pub open spec fn hop(&self, p: Seq<usize>, i: int) -> bool {
        self.edge(p[i], p[i + 1])
    }

    /// `p` is a non-empty sequence of cells, each adjacent to the one before.
    pub open spec fn is_walk(&self, p: Seq<usize>) -> bool {
        &&& p.len() > 0
        &&& p[0] < self.size()
        &&& forall|i: int| 0 <= i < p.len() - 1 ==> #[trigger] self.hop(p, i)
    }

    /// `p` is a walk that starts at `s` and ends at `d`.
    pub open spec fn is_walk_between(&self, p: Seq<usize>, s: usize, d: usize) -> bool {
        self.is_walk(p) && p[0] == s && p[p.len() - 1] == d
    }

    /// `d` can be reached from `s` along exactly `k` edges.
    pub open spec fn reachable_in(&self, s: usize, d: usize, k: nat) -> bool {
        exists|p: Seq<usize>| #[trigger] self.is_walk_between(p, s, d) && p.len() == k + 1
    }

    /// `d` can be reached from `s`.
    pub open spec fn reachable(&self, s: usize, d: usize) -> bool {
        exists|k: nat| self.reachable_in(s, d, k)
    }

    /// `k` is the least number of edges from `s` to `d`.
    pub open spec fn is_distance(&self, s: usize, d: usize, k: nat) -> bool {
        self.reachable_in(s, d, k) && forall|j: nat| self.reachable_in(s, d, j) ==> k <= j
    }

    /// The least number of edges from `s` to `d`, where `d` is reachable.
    pub open spec fn spec_distance(&self, s: usize, d: usize) -> nat {
        choose|k: nat| self.is_distance(s, d, k)
    }

    /// `p` is a walk from `s` to `d` and no walk between them is shorter.
    pub open spec fn is_shortest_path(&self, p: Seq<usize>, s: usize, d: usize) -> bool {
        self.is_walk_between(p, s, d) && self.is_distance(s, d, (p.len() - 1) as nat)
    }
}

/// The least number of edges between two cells is unique.
pub proof fn lemma_distance_unique(g: &Game, s: usize, d: usize, k: nat)
    requires
        g.is_distance(s, d, k),
    ensures
        g.spec_distance(s, d) == k,
        g.reachable(s, d),
{
    let c = g.spec_distance(s, d);
    assert(g.is_distance(s, d, c));
}


/// The outcome of a breadth-first search from one cell.
pub struct BfsTree {
    /// Whether each cell was reached.
    pub seen: Vec<bool>,
    /// For each reached cell, its distance from the root.
    pub dist: Vec<usize>,
    /// For each reached cell but the root, the cell that discovered it.
    pub prev: Vec<usize>,
    /// The reached cells in the order of their discovery.
    pub order: Vec<usize>,
    /// For each reached cell, its position in `order`.
    pub rank: Vec<usize>,
    /// For each reached cell but the root, the position in the neighbor list
    /// of its discoverer at which it was found.
    pub slot: Vec<usize>,
}

/// Cell `v` was found at position `k` of the neighbor list of `u`: `v` does
/// not stand earlier in that list, and no cell that was discovered before
/// `u` has `v` as a neighbor.
pub open spec fn found_by(
    g: &Game,
    order: Seq<usize>,
    rank: Seq<usize>,
    u: usize,
    k: int,
    v: usize,
) -> bool {
    &&& u < g.size()
    &&& 0 <= k < g.adj(u as int).len()
    &&& g.adj(u as int)[k] == v
    &&& forall|j: int| 0 <= j < k ==> #[trigger] g.adj(u as int)[j] != v
    &&& rank[u as int] < rank[v as int]
    &&& rank[u as int] < order.len()
    &&& forall|a: int| 0 <= a < rank[u as int] ==> !g.adj(#[trigger] order[a] as int).contains(v)
}

/// Cell `v` was queued before cell `w`: its discoverer was discovered
/// earlier, or the two have one discoverer, who lists `v` first.
pub open spec fn queued_before(
    prev: Seq<usize>,
    rank: Seq<usize>,
    slot: Seq<usize>,
    v: usize,
    w: usize,
) -> bool {
    rank[prev[v as int] as int] < rank[prev[w as int] as int] || (prev[v as int] == prev[w as int]
        && slot[v as int] < slot[w as int])
}

/// The cells were discovered as a queue-based search that reads every
/// neighbor list in its stored order discovers them.
pub open spec fn first_found(
    g: &Game,
    s: usize,
    seen: Seq<bool>,
    prev: Seq<usize>,
    order: Seq<usize>,
    rank: Seq<usize>,
    slot: Seq<usize>,
) -> bool {
    let n = g.size();
    &&& rank.len() == n && slot.len() == n
    &&& forall|i: int| 0 <= i < order.len() ==> rank[#[trigger] order[i] as int] == i
    &&& forall|v: int|
        0 <= v < n && seen[v] && v != s ==> found_by(
            g,
            order,
            rank,
            prev[v],
            #[trigger] slot[v] as int,
            v as usize,
        )
    &&& forall|i: int, j: int|
        1 <= i < j < order.len() ==> queued_before(
            prev,
            rank,
            slot,
            #[trigger] order[i],
            #[trigger] order[j],
        )
}

/// Every queued cell but the root was discovered from a cell before
/// position `h`, or from `u` at a position of its neighbor list before `j`.
pub open spec fn queued_by(
    prev: Seq<usize>,
    order: Seq<usize>,
    rank: Seq<usize>,
    slot: Seq<usize>,
    h: int,
    u: usize,
    j: int,
) -> bool {
    forall|i: int|
        1 <= i < order.len() ==> {
            let w = #[trigger] order[i];
            rank[prev[w as int] as int] < h || (prev[w as int] == u && slot[w as int] < j)
        }
}

/// What holds of the search state from the first discovery on.
pub open spec fn tree_shape(
    g: &Game,
    s: usize,
    seen: Seq<bool>,
    dist: Seq<usize>,
    prev: Seq<usize>,
    order: Seq<usize>,
) -> bool {
    let n = g.size();
    &&& s < n
    &&& seen.len() == n && dist.len() == n && prev.len() == n
    &&& order.len() > 0 && order[0] == s
    &&& dist[s as int] == 0
    &&& forall|i: int|
        0 <= i < order.len() ==> {
            let v = #[trigger] order[i];
            v < n && seen[v as int] && dist[v as int] <= i
        }
    &&& order.no_duplicates()
    &&& forall|v: int| 0 <= v < n && #[trigger] seen[v] ==> order.contains(v as usize)
    &&& forall|i: int, j: int|
        0 <= i <= j < order.len() ==> dist[#[trigger] order[i] as int] <= dist[#[trigger] order[j] as int]
    &&& linked(g, s, seen, dist, prev)
}

/// Every reached cell but the root was discovered from a reached neighbor one edge nearer.
pub open spec fn linked(
    g: &Game,
    s: usize,
    seen: Seq<bool>,
    dist: Seq<usize>,
    prev: Seq<usize>,
) -> bool {
    forall|v: int|
        0 <= v < g.size() && seen[v] && v != s ==> {
            let u = #[trigger] prev[v];
            u < g.size() && seen[u as int] && dist[v] == dist[u as int] + 1 && g.edge(
                u,
                v as usize,
            )
        }
}

/// The first `upto` neighbors of `u` are reached, at most one edge further than `u`.
pub open spec fn expanded(g: &Game, seen: Seq<bool>, dist: Seq<usize>, u: int, upto: int) -> bool {
    forall|k: int|
        0 <= k < upto ==> {
            let v = #[trigger] g.adj(u)[k];
            seen[v as int] && dist[v as int] <= dist[u] + 1
        }
}

/// The first `h` cells of `order` have all their neighbors reached.
pub open spec fn processed(
    g: &Game,
    seen: Seq<bool>,
    dist: Seq<usize>,
    order: Seq<usize>,
    h: int,
) -> bool {
    forall|i: int|
        0 <= i < h ==> #[trigger] expanded(
            g,
            seen,
            dist,
            order[i] as int,
            g.adj(order[i] as int).len() as int,
        )
}

/// No reached cell is further than `bound`.
pub open spec fn within(dist: Seq<usize>, order: Seq<usize>, bound: int) -> bool {
    forall|i: int| 0 <= i < order.len() ==> dist[#[trigger] order[i] as int] <= bound
}

impl BfsTree {
    /// The search from `s` over `g` ran to its end and this is its outcome.
    pub open spec fn complete(&self, g: &Game, s: usize) -> bool {
        &&& tree_shape(g, s, self.seen@, self.dist@, self.prev@, self.order@)
        &&& processed(g, self.seen@, self.dist@, self.order@, self.order@.len() as int)
    }

    /// Every cell was discovered by the first cell in the queue that lists
    /// it, and queued in the order of the neighbor lists.
    pub open spec fn in_stored_order(&self, g: &Game, s: usize) -> bool {
        first_found(g, s, self.seen@, self.prev@, self.order@, self.rank@, self.slot@)
    }

    /// Of the cells with resources of `kind`, `index` was discovered first.
    pub open spec fn first_target(&self, g: &Game, kind: CellKind, index: usize) -> bool {
        exists|i: int|
            0 <= i < self.order@.len() && #[trigger] self.order@[i] == index && g.is_target(
                index,
                kind,
            ) && forall|k: int| 0 <= k < i ==> !g.is_target(#[trigger] self.order@[k], kind)
    }

    /// Every cell of `p` but the first was discovered from the cell before it.
    pub open spec fn leads(&self, p: Seq<usize>) -> bool {
        forall|i: int| 1 <= i < p.len() ==> self.prev@[#[trigger] p[i] as int] == p[i - 1]
    }
}

/// Discovering the unreached neighbor `v` of the cell at the head keeps the
/// record of who found whom, and in which order.
proof fn lemma_discover_order(
    g: &Game,
    s: usize,
    seen: Seq<bool>,
    dist: Seq<usize>,
    prev: Seq<usize>,
    order: Seq<usize>,
    rank: Seq<usize>,
    slot: Seq<usize>,
    h: int,
    j: int,
    v: usize,
)
    requires
        g.wf(),
        tree_shape(g, s, seen, dist, prev, order),
        first_found(g, s, seen, prev, order, rank, slot),
        g.size() <= usize::MAX,
        j <= usize::MAX,
        0 <= h < order.len() <= usize::MAX,
        processed(g, seen, dist, order, h),
        0 <= j < g.adj(order[h] as int).len(),
        expanded(g, seen, dist, order[h] as int, j),
        queued_by(prev, order, rank, slot, h, order[h], j),
        v == g.adj(order[h] as int)[j],
        !seen[v as int],
    ensures
        ({
            let u = order[h];
            let seen2 = seen.update(v as int, true);
            let prev2 = prev.update(v as int, u);
            let order2 = order.push(v);
            let rank2 = rank.update(v as int, order.len() as usize);
            let slot2 = slot.update(v as int, j as usize);
            &&& first_found(g, s, seen2, prev2, order2, rank2, slot2)
            &&& queued_by(prev2, order2, rank2, slot2, h, u, j + 1)
        }),
{
    let n = g.size();
    let u = order[h];
    let seen2 = seen.update(v as int, true);
    let prev2 = prev.update(v as int, u);
    let order2 = order.push(v);
    let rank2 = rank.update(v as int, order.len() as usize);
    let slot2 = slot.update(v as int, j as usize);
    assert(v < n);
    assert(u != v);
    assert(v != s);
    assert(forall|i: int| 0 <= i < order.len() ==> order[i] != v);
    assert(rank[u as int] == h);
    assert forall|i: int| 0 <= i < order2.len() implies rank2[#[trigger] order2[i] as int] == i by {
        if i < order.len() {
            assert(order2[i] == order[i]);
        }
    }
    assert forall|w: int| 0 <= w < n && seen2[w] && w != s implies found_by(
        g,
        order2,
        rank2,
        prev2[w],
        #[trigger] slot2[w] as int,
        w as usize,
    ) by {
        if w == v {
            assert forall|k: int| 0 <= k < j implies #[trigger] g.adj(u as int)[k] != v by {
                assert(seen[g.adj(u as int)[k] as int]);
            }
            assert forall|a: int| 0 <= a < rank2[u as int] implies !g.adj(
                #[trigger] order2[a] as int,
            ).contains(v) by {
                assert(order2[a] == order[a]);
                assert(expanded(g, seen, dist, order[a] as int, g.adj(order[a] as int).len() as int));
                if g.adj(order[a] as int).contains(v) {
                    let k = choose|k: int|
                        0 <= k < g.adj(order[a] as int).len() && g.adj(order[a] as int)[k] == v;
                    assert(seen[g.adj(order[a] as int)[k] as int]);
                }
            }
        } else {
            assert(seen[w]);
            assert(slot2[w] == slot[w]);
            let x = prev[w];
            assert(seen[x as int]);
            assert(found_by(g, order, rank, x, slot[w] as int, w as usize));
            assert(prev2[w] == x);
            assert(x != v);
            assert forall|a: int| 0 <= a < rank2[x as int] implies !g.adj(
                #[trigger] order2[a] as int,
            ).contains(w as usize) by {
                assert(order2[a] == order[a]);
            }
        }
    }
    assert forall|a: int, b: int| 1 <= a < b < order2.len() implies queued_before(
        prev2,
        rank2,
        slot2,
        #[trigger] order2[a],
        #[trigger] order2[b],
    ) by {
        let x = order[a];
        assert(order2[a] == x);
        assert(x != s);
        assert(seen[x as int] && x != v);
        assert(seen[prev[x as int] as int]);
        if b < order.len() {
            let y = order[b];
            assert(order2[b] == y);
            assert(seen[y as int] && y != v && y != s);
            assert(seen[prev[y as int] as int]);
            assert(queued_before(prev, rank, slot, order[a], order[b]));
        }
    }
    assert forall|i: int| 1 <= i < order2.len() implies ({
        let w = #[trigger] order2[i];
        rank2[prev2[w as int] as int] < h || (prev2[w as int] == u && slot2[w as int] < j + 1)
    }) by {
        if i < order.len() {
            let w = order[i];
            assert(order2[i] == w);
            assert(w != s);
            assert(seen[w as int] && w != v);
            assert(seen[prev[w as int] as int]);
        }
    }
}

/// Distinct indices below `n` are at most `n` many.
pub proof fn lemma_distinct_bounded(q: Seq<usize>, n: nat)
    requires
        q.no_duplicates(),
        forall|i: int| 0 <= i < q.len() ==> (#[trigger] q[i]) < n,
    ensures
        q.len() <= n,
{
    let m = q.map_values(|x: usize| x as int);
    assert(m.no_duplicates()) by {
        assert forall|i: int, j: int| 0 <= i < m.len() && 0 <= j < m.len() && i != j implies m[i]
            != m[j] by {
            assert(q[i] != q[j]);
        }
    }
    m.unique_seq_to_set();
    vstd::set_lib::lemma_int_range(0, n as int);
    assert(m.to_set().subset_of(vstd::set_lib::set_int_range(0, n as int))) by {
        assert forall|x: int| m.to_set().contains(x) implies vstd::set_lib::set_int_range(
            0,
            n as int,
        ).contains(x) by {
            let i = choose|i: int| 0 <= i < m.len() && m[i] == x;
            assert(q[i] < n);
        }
    }
    vstd::set_lib::lemma_len_subset(m.to_set(), vstd::set_lib::set_int_range(0, n as int));
}

/// Discovering the unreached neighbor `v` of the cell at the head keeps the search state in shape.
proof fn lemma_discover(
    g: &Game,
    s: usize,
    seen: Seq<bool>,
    dist: Seq<usize>,
    prev: Seq<usize>,
    order: Seq<usize>,
    h: int,
    j: int,
    v: usize,
)
    requires
        g.wf(),
        tree_shape(g, s, seen, dist, prev, order),
        0 <= h < order.len(),
        within(dist, order, dist[order[h] as int] + 1),
        processed(g, seen, dist, order, h),
        0 <= j < g.adj(order[h] as int).len(),
        expanded(g, seen, dist, order[h] as int, j),
        v == g.adj(order[h] as int)[j],
        !seen[v as int],
        dist[order[h] as int] + 1 <= usize::MAX,
    ensures
        ({
            let u = order[h];
            let d = (dist[u as int] + 1) as usize;
            let seen2 = seen.update(v as int, true);
            let dist2 = dist.update(v as int, d);
            let prev2 = prev.update(v as int, u);
            let order2 = order.push(v);
            &&& tree_shape(g, s, seen2, dist2, prev2, order2)
            &&& within(dist2, order2, dist2[order2[h] as int] + 1)
            &&& processed(g, seen2, dist2, order2, h)
            &&& expanded(g, seen2, dist2, u as int, j + 1)
        }),
{
    let n = g.size();
    let u = order[h];
    let d = (dist[u as int] + 1) as usize;
    let seen2 = seen.update(v as int, true);
    let dist2 = dist.update(v as int, d);
    let prev2 = prev.update(v as int, u);
    let order2 = order.push(v);
    assert(v < n);
    assert(u != v);
    assert(forall|i: int| 0 <= i < order.len() ==> order[i] != v);
    assert(v != s);
    assert forall|i: int| 0 <= i < order2.len() implies ({
        let w = #[trigger] order2[i];
        w < n && seen2[w as int] && dist2[w as int] <= i
    }) by {
        if i < order.len() {
            assert(order2[i] == order[i]);
        } else {
            assert(dist[u as int] <= h);
        }
    }
    assert(order2.no_duplicates());
    assert forall|w: int| 0 <= w < n && #[trigger] seen2[w] implies order2.contains(
        w as usize,
    ) by {
        if w == v {
            assert(order2[order.len() as int] == v);
        } else {
            assert(seen[w]);
            let i = choose|i: int| 0 <= i < order.len() && order[i] == w as usize;
            assert(order2[i] == w as usize);
        }
    }
    assert forall|a: int, b: int| 0 <= a <= b < order2.len() implies dist2[#[trigger] order2[a] as int]
        <= dist2[#[trigger] order2[b] as int] by {
        if b < order.len() {
            assert(order2[a] == order[a] && order2[b] == order[b]);
        } else if a < order.len() {
            assert(order2[a] == order[a]);
        }
    }
    assert forall|w: int| 0 <= w < n && seen2[w] && w != s implies ({
        let x = #[trigger] prev2[w];
        x < n && seen2[x as int] && dist2[w] == dist2[x as int] + 1 && g.edge(x, w as usize)
    }) by {
        if w == v {
            assert(g.adj(u as int)[j] == v);
        } else {
            assert(seen[w]);
            assert(prev2[w] == prev[w]);
        }
    }
    assert(linked(g, s, seen2, dist2, prev2));
    assert(tree_shape(g, s, seen2, dist2, prev2, order2));
    assert forall|i: int| 0 <= i < order2.len() implies dist2[#[trigger] order2[i] as int]
        <= dist2[order2[h] as int] + 1 by {
        if i < order.len() {
            assert(order2[i] == order[i]);
        }
    }
    assert forall|i: int| 0 <= i < h implies #[trigger] expanded(
        g,
        seen2,
        dist2,
        order2[i] as int,
        g.adj(order2[i] as int).len() as int,
    ) by {
        assert(order2[i] == order[i]);
        assert(expanded(g, seen, dist, order[i] as int, g.adj(order[i] as int).len() as int));
    }
    assert(expanded(g, seen2, dist2, u as int, j + 1));
}

/// In a finished search every walk from the root ends at a reached cell whose
/// recorded distance is at most the number of edges of the walk.
pub proof fn lemma_tree_covers(g: &Game, s: usize, t: &BfsTree, p: Seq<usize>)
    requires
        g.wf(),
        t.complete(g, s),
        g.is_walk(p),
        p[0] == s,
    ensures
        p[p.len() - 1] < g.size(),
        t.seen@[p[p.len() - 1] as int],
        t.dist@[p[p.len() - 1] as int] <= p.len() - 1,
    decreases p.len(),
{
    if p.len() > 1 {
        let q = p.drop_last();
        assert forall|i: int| 0 <= i < q.len() - 1 implies #[trigger] g.hop(q, i) by {
            assert(g.hop(p, i));
        }
        lemma_tree_covers(g, s, t, q);
        let u = q[q.len() - 1];
        let v = p[p.len() - 1];
        assert(g.hop(p, p.len() - 2));
        assert(g.edge(u, v));
        let k = choose|k: int| 0 <= k < g.adj(u as int).len() && g.adj(u as int)[k] == v;
        let i = choose|i: int| 0 <= i < t.order@.len() && t.order@[i] == u;
        assert(expanded(g, t.seen@, t.dist@, t.order@[i] as int, g.adj(t.order@[i] as int).len() as int));
        assert(g.adj(u as int)[k] == v);
    }
}

/// In a finished search every reached cell has a walk from the root with as
/// many edges as its recorded distance.
pub proof fn lemma_tree_walk(g: &Game, s: usize, t: &BfsTree, v: usize) -> (p: Seq<usize>)
    requires
        g.wf(),
        t.complete(g, s),
        v < g.size(),
        t.seen@[v as int],
    ensures
        g.is_walk_between(p, s, v),
        p.len() == t.dist@[v as int] + 1,
    decreases t.dist@[v as int],
{
    if v == s {
        let p = seq![s];
        assert(g.is_walk_between(p, s, v));
        p
    } else {
        let u = t.prev@[v as int];
        let q = lemma_tree_walk(g, s, t, u);
        let p = q.push(v);
        assert forall|i: int| 0 <= i < p.len() - 1 implies #[trigger] g.hop(p, i) by {
            if i < q.len() - 1 {
                assert(g.hop(q, i));
            }
        }
        assert(g.is_walk_between(p, s, v));
        p
    }
}

/// A finished search records exactly the reachable cells, each with its distance.
pub proof fn lemma_tree_distance(g: &Game, s: usize, t: &BfsTree, v: usize)
    requires
        g.wf(),
        t.complete(g, s),
    ensures
        g.reachable(s, v) <==> (v < g.size() && t.seen@[v as int]),
        g.reachable(s, v) ==> g.is_distance(s, v, t.dist@[v as int] as nat),
        g.reachable(s, v) ==> g.spec_distance(s, v) == t.dist@[v as int],
{
    if v < g.size() && t.seen@[v as int] {
        let p = lemma_tree_walk(g, s, t, v);
        let k = t.dist@[v as int] as nat;
        assert(g.is_walk_between(p, s, v) && p.len() == k + 1);
        assert(g.reachable_in(s, v, k));
        assert forall|j: nat| g.reachable_in(s, v, j) implies k <= j by {
            let q = choose|q: Seq<usize>| #[trigger] g.is_walk_between(q, s, v) && q.len() == j + 1;
            lemma_tree_covers(g, s, t, q);
        }
        lemma_distance_unique(g, s, v, k);
    } else {
        if g.reachable(s, v) {
            let j = choose|j: nat| g.reachable_in(s, v, j);
            let q = choose|q: Seq<usize>| #[trigger] g.is_walk_between(q, s, v) && q.len() == j + 1;
            lemma_tree_covers(g, s, t, q);
        }
    }
}

impl Game {
    /// Breadth-first search from `source` over the whole graph, reading
    /// every neighbor list in its stored order.
    pub fn search(&self, source: usize) -> (t: BfsTree)
        requires
            self.wf(),
            source < self.size(),
        ensures
            t.complete(self, source),
            t.in_stored_order(self, source),
    {
        let n = self.cells.len();
        let mut seen: Vec<bool> = vec![false; n];
        let mut dist: Vec<usize> = vec![0usize; n];
        let mut prev: Vec<usize> = vec![0usize; n];
        let mut rank: Vec<usize> = vec![0usize; n];
        let mut slot: Vec<usize> = vec![0usize; n];
        let mut order: Vec<usize> = Vec::new();
        seen[source] = true;
        order.push(source);
        let mut h: usize = 0;
        assert(order@.contains(source)) by {
            assert(order@[0] == source);
        }
        assert(tree_shape(self, source, seen@, dist@, prev@, order@));
        assert(first_found(self, source, seen@, prev@, order@, rank@, slot@));
        while h < order.len()
            invariant
                self.wf(),
                n == self.size(),
                h <= order.len(),
                tree_shape(self, source, seen@, dist@, prev@, order@),
                processed(self, seen@, dist@, order@, h as int),
                h < order.len() ==> within(dist@, order@, dist@[order@[h as int] as int] + 1),
                first_found(self, source, seen@, prev@, order@, rank@, slot@),
                queued_by(prev@, order@, rank@, slot@, h as int, source, 0),
            decreases n - h,
        {
            proof {
                lemma_distinct_bounded(order@, n as nat);
            }
            let u = order[h];
            let du = dist[u];
            let deg = self.cells[u].neighbors.len();
            let mut j: usize = 0;
            assert(queued_by(prev@, order@, rank@, slot@, h as int, u, 0));
            while j < deg
                invariant
                    self.wf(),
                    n == self.size(),
                    h < order.len(),
                    order.len() <= n,
                    u == order@[h as int],
                    du == dist@[u as int],
                    u < n,
                    deg == self.adj(u as int).len(),
                    j <= deg,
                    tree_shape(self, source, seen@, dist@, prev@, order@),
                    processed(self, seen@, dist@, order@, h as int),
                    within(dist@, order@, du + 1),
                    expanded(self, seen@, dist@, u as int, j as int),
                    first_found(self, source, seen@, prev@, order@, rank@, slot@),
                    queued_by(prev@, order@, rank@, slot@, h as int, u, j as int),
                decreases deg - j,
            {
                let v = self.cells[u].neighbors[j];
                assert(v == self.adj(u as int)[j as int]);
                if !seen[v] {
                    proof {
                        lemma_discover(self, source, seen@, dist@, prev@, order@, h as int, j as int, v);
                        lemma_discover_order(
                            self,
                            source,
                            seen@,
                            dist@,
                            prev@,
                            order@,
                            rank@,
                            slot@,
                            h as int,
                            j as int,
                            v,
                        );
                    }
                    seen[v] = true;
                    dist[v] = du + 1;
                    prev[v] = u;
                    rank[v] = order.len();
                    slot[v] = j;
                    order.push(v);
                    proof {
                        lemma_distinct_bounded(order@, n as nat);
                    }
                } else {
                    assert(order@.contains(v));
                }
                j += 1;
            }
            proof {
                assert forall|i: int| 1 <= i < order@.len() implies ({
                    let w = #[trigger] order@[i];
                    rank@[prev@[w as int] as int] < h + 1 || (prev@[w as int] == source
                        && slot@[w as int] < 0)
                }) by {
                    assert(rank@[order@[h as int] as int] == h);
                }
            }
            h += 1;
            assert(expanded(self, seen@, dist@, order@[h - 1] as int, self.adj(order@[h - 1] as int).len() as int));
        }
        BfsTree { seen, dist, prev, order, rank, slot }
    }
}

/// A walk stays inside the graph.
pub proof fn lemma_walk_in_range(g: &Game, p: Seq<usize>)
    requires
        g.is_walk(p),
    ensures
        p[0] < g.size(),
        p[p.len() - 1] < g.size(),
{
    if p.len() > 1 {
        assert(g.hop(p, p.len() - 2));
    }
}

/// Among the numbers of edges by which `d` can be reached from `s` there is a least.
pub proof fn lemma_least_distance(g: &Game, s: usize, d: usize, k: nat)
    requires
        g.reachable_in(s, d, k),
    ensures
        g.reachable(s, d),
        g.is_distance(s, d, g.spec_distance(s, d)),
        g.spec_distance(s, d) <= k,
    decreases k,
{
    if forall|j: nat| g.reachable_in(s, d, j) ==> k <= j {
        assert(g.is_distance(s, d, k));
    } else {
        let j = choose|j: nat| g.reachable_in(s, d, j) && !(k <= j);
        lemma_least_distance(g, s, d, j);
    }
}

impl Game {
    /// `p` is the shortest path from `s` to `d` that a search from `s` finds
    /// first when it reads every neighbor list in its stored order: every
    /// cell of `p` was discovered from the cell before it.
    pub open spec fn is_first_path(&self, p: Seq<usize>, s: usize, d: usize) -> bool {
        &&& self.is_shortest_path(p, s, d)
        &&& exists|t: BfsTree| #[trigger]
            t.complete(self, s) && t.in_stored_order(self, s) && t.leads(p)
    }

    /// The shortest path from `s` to `d` that a search from `s` finds first,
    /// where `d` is reachable.
    pub open spec fn first_path(&self, s: usize, d: usize) -> Seq<usize> {
        choose|p: Seq<usize>| self.is_first_path(p, s, d)
    }

    /// Cell `v` holds resources of the wanted kind.
    pub open spec fn is_target(&self, v: usize, kind: CellKind) -> bool {
        v < self.size() && self.cells@[v as int].kind == kind && self.cells@[v as int].resources
            != 0
    }

    /// `index` holds resources of `kind`, can be reached from `base`, and no
    /// such cell is nearer to `base`.
    pub open spec fn is_nearest(&self, base: usize, kind: CellKind, index: usize) -> bool {
        &&& self.is_target(index, kind)
        &&& self.reachable(base, index)
        &&& forall|v: usize|
            self.reachable(base, v) && #[trigger] self.is_target(v, kind) ==> self.spec_distance(
                base,
                index,
            ) <= self.spec_distance(base, v)
    }

    /// Some cell with resources of `kind` can be reached from `base`.
    pub open spec fn has_target(&self, base: usize, kind: CellKind) -> bool {
        exists|v: usize| self.reachable(base, v) && #[trigger] self.is_target(v, kind)
    }

    /// `index` is the nearest cell with resources of `kind` that a search
    /// from `source` discovers first.
    pub open spec fn is_closest(&self, source: usize, kind: CellKind, index: usize) -> bool {
        &&& self.is_nearest(source, kind, index)
        &&& exists|t: BfsTree| #[trigger]
            t.complete(self, source) && t.in_stored_order(self, source) && t.first_target(
                self,
                kind,
                index,
            )
    }

    /// Every edge is present in both directions.
    pub open spec fn symmetric(&self) -> bool {
        forall|u: usize, v: usize| #[trigger] self.edge(u, v) ==> self.edge(v, u)
    }

    /// Follows the discoverers back from `destination` to the root of the search.
    fn trace(&self, t: &BfsTree, source: usize, destination: usize) -> (p: Vec<usize>)
        requires
            self.wf(),
            t.complete(self, source),
            destination < self.size(),
            t.seen@[destination as int],
        ensures
            self.is_walk_between(p@, source, destination),
            p@.len() == t.dist@[destination as int] + 1,
            t.leads(p@),
    {
        let n = self.cells.len();
        proof {
            lemma_distinct_bounded(t.order@, n as nat);
            let k = choose|k: int| 0 <= k < t.order@.len() && t.order@[k] == destination;
            assert(t.dist@[t.order@[k] as int] <= k);
        }
        let len = t.dist[destination] + 1;
        let mut p: Vec<usize> = vec![destination; len];
        let mut i: usize = len - 1;
        let mut cur: usize = destination;
        p[i] = destination;
        while i > 0
            invariant
                linked(self, source, t.seen@, t.dist@, t.prev@),
                t.seen@.len() == self.size(),
                t.dist@.len() == self.size(),
                t.prev@.len() == self.size(),
                source < self.size(),
                t.dist@[source as int] == 0,
                i < len,
                p@.len() == len,
                cur < self.size(),
                t.seen@[cur as int],
                t.dist@[cur as int] == i,
                p@[i as int] == cur,
                p@[len - 1] == destination,
                forall|k: int| i <= k < len - 1 ==> #[trigger] self.hop(p@, k),
                forall|k: int| i < k < len ==> t.prev@[#[trigger] p@[k] as int] == p@[k - 1],
            decreases i,
        {
            assert(cur != source);
            let u = t.prev[cur];
            assert(self.edge(u, cur));
            let ghost before = p@;
            i -= 1;
            p[i] = u;
            proof {
                assert forall|k: int| i <= k < len - 1 implies #[trigger] self.hop(p@, k) by {
                    if k > i {
                        assert(self.hop(before, k));
                        assert(p@[k] == before[k] && p@[k + 1] == before[k + 1]);
                    } else {
                        assert(p@[k] == u && p@[k + 1] == cur);
                    }
                }
                assert forall|k: int| i < k < len implies t.prev@[#[trigger] p@[k] as int] == p@[k
                    - 1] by {
                    assert(p@[k] == before[k]);
                    if k > i + 1 {
                        assert(p@[k - 1] == before[k - 1]);
                    }
                }
            }
            cur = u;
        }
        assert(cur == source) by {
            if cur != source {
                assert(t.dist@[cur as int] == t.dist@[t.prev@[cur as int] as int] + 1);
            }
        }
        p
    }

    /// The cells of a shortest route from `source` to `destination`, both
    /// included, or `Unreachable` where there is none.
    pub fn shortest_path(&self, source: usize, destination: usize) -> (r: Result<
        Vec<usize>,
        EngineError,
    >)
        requires
            self.wf(),
        ensures
            r.is_ok() <==> self.reachable(source, destination),
            match r {
                Ok(p) => self.is_first_path(p@, source, destination) && p@ == self.first_path(
                    source,
                    destination,
                ),
                Err(e) => e == EngineError::Unreachable,
            },
    {
        let n = self.cells.len();
        if source >= n || destination >= n {
            proof {
                if self.reachable(source, destination) {
                    let k = choose|k: nat| self.reachable_in(source, destination, k);
                    let q = choose|q: Seq<usize>| #[trigger]
                        self.is_walk_between(q, source, destination) && q.len() == k + 1;
                    lemma_walk_in_range(self, q);
                }
            }
            return Err(EngineError::Unreachable);
        }
        let t = self.search(source);
        proof {
            lemma_tree_distance(self, source, &t, destination);
        }
        if !t.seen[destination] {
            return Err(EngineError::Unreachable);
        }
        let p = self.trace(&t, source, destination);
        proof {
            assert(self.is_first_path(p@, source, destination));
            crate::first_found::law_first_path_unique(
                self,
                source,
                destination,
                p@,
                self.first_path(source, destination),
            );
        }
        Ok(p)
    }

    /// The number of edges on a shortest route from `source` to
    /// `destination`, or `Unreachable` where there is none.
    pub fn shortest_distance(&self, source: usize, destination: usize) -> (r: Result<
        usize,
        EngineError,
    >)
        requires
            self.wf(),
        ensures
            r.is_ok() <==> self.reachable(source, destination),
            match r {
                Ok(k) => k == self.spec_distance(source, destination),
                Err(e) => e == EngineError::Unreachable,
            },
    {
        let n = self.cells.len();
        if source >= n || destination >= n {
            proof {
                if self.reachable(source, destination) {
                    let k = choose|k: nat| self.reachable_in(source, destination, k);
                    let q = choose|q: Seq<usize>| #[trigger]
                        self.is_walk_between(q, source, destination) && q.len() == k + 1;
                    lemma_walk_in_range(self, q);
                }
            }
            return Err(EngineError::Unreachable);
        }
        let t = self.search(source);
        proof {
            lemma_tree_distance(self, source, &t, destination);
        }
        if !t.seen[destination] {
            return Err(EngineError::Unreachable);
        }
        Ok(t.dist[destination])
    }

    /// The cells of a shortest route between two connected cells.
    pub fn path(&self, source: usize, destination: usize) -> (p: Vec<usize>)
        requires
            self.wf(),
            self.reachable(source, destination),
        ensures
            self.is_first_path(p@, source, destination),
            p@ == self.first_path(source, destination),
    {
        match self.shortest_path(source, destination) {
            Ok(p) => p,
            Err(_) => Vec::new(),
        }
    }

    /// The number of edges on a shortest route between two connected cells.
    pub fn distance(&self, source: usize, destination: usize) -> (k: usize)
        requires
            self.wf(),
            self.reachable(source, destination),
        ensures
            k == self.spec_distance(source, destination),
    {
        match self.shortest_distance(source, destination) {
            Ok(k) => k,
            Err(_) => 0,
        }
    }

    /// The nearest cell that holds resources of `target_kind`, with its
    /// distance from `source`; `None` where no such cell can be reached.
    pub fn closest_cell(&self, source: usize, target_kind: CellKind) -> (r: Option<(usize, usize)>)
        requires
            self.wf(),
            source < self.size(),
        ensures
            r.is_some() <==> self.has_target(source, target_kind),
            match r {
                Some((dist, index)) => {
                    &&& self.is_closest(source, target_kind, index)
                    &&& dist == self.spec_distance(source, index)
                },
                None => true,
            },
    {
        let t = self.search(source);
        let mut i: usize = 0;
        while i < t.order.len()
            invariant
                self.wf(),
                t.complete(self, source),
                t.in_stored_order(self, source),
                i <= t.order@.len(),
                forall|k: int| 0 <= k < i ==> !self.is_target(#[trigger] t.order@[k], target_kind),
            decreases t.order@.len() - i,
        {
            let v = t.order[i];
            if self.cells[v].kind == target_kind && self.cells[v].resources != 0 {
                proof {
                    lemma_tree_distance(self, source, &t, v);
                    assert(t.seen@[v as int]);
                    assert(self.reachable(source, v) && self.is_target(v, target_kind));
                    assert forall|w: usize|
                        self.reachable(source, w) && #[trigger] self.is_target(
                            w,
                            target_kind,
                        ) implies t.dist@[v as int] <= self.spec_distance(source, w) by {
                        lemma_tree_distance(self, source, &t, w);
                        let k = choose|k: int| 0 <= k < t.order@.len() && t.order@[k] == w;
                        assert(k >= i);
                    }
                    assert(t.order@[i as int] == v);
                    assert(t.dist@[v as int] == self.spec_distance(source, v));
                    assert(self.is_nearest(source, target_kind, v));
                    assert(t.first_target(self, target_kind, v));
                    assert(self.is_closest(source, target_kind, v));
                }
                return Some((t.dist[v], v));
            }
            i += 1;
        }
        proof {
            assert forall|w: usize| self.reachable(source, w) implies !#[trigger] self.is_target(
                w,
                target_kind,
            ) by {
                lemma_tree_distance(self, source, &t, w);
                let k = choose|k: int| 0 <= k < t.order@.len() && t.order@[k] == w;
                assert(!self.is_target(t.order@[k], target_kind));
            }
        }
        None
    }
}

/// A shortest path has one cell more than the distance between its ends.
pub proof fn law_path_length_is_distance(g: &Game, s: usize, d: usize, p: Seq<usize>)
    requires
        g.is_shortest_path(p, s, d),
    ensures
        g.reachable(s, d),
        p.len() - 1 == g.spec_distance(s, d),
{
    lemma_distance_unique(g, s, d, (p.len() - 1) as nat);
}

/// A cell is at distance zero from itself, and the only shortest path from a
/// cell to itself is that cell alone.
pub proof fn law_self_distance(g: &Game, x: usize, p: Seq<usize>)
    requires
        x < g.size(),
    ensures
        g.reachable(x, x),
        g.spec_distance(x, x) == 0,
        g.is_shortest_path(seq![x], x, x),
        g.is_shortest_path(p, x, x) ==> p == seq![x],
{
    let one = seq![x];
    assert(g.is_walk_between(one, x, x) && one.len() == 0 + 1);
    assert(g.reachable_in(x, x, 0));
    assert(g.is_distance(x, x, 0));
    lemma_distance_unique(g, x, x, 0);
    if g.is_shortest_path(p, x, x) {
        lemma_distance_unique(g, x, x, (p.len() - 1) as nat);
        assert(p =~= one);
    }
}

/// In a graph whose edges all run both ways, the reverse of a walk is a walk.
pub proof fn lemma_reverse_walk(g: &Game, p: Seq<usize>, s: usize, d: usize)
    requires
        g.symmetric(),
        g.is_walk_between(p, s, d),
    ensures
        g.is_walk_between(p.reverse(), d, s),
        p.reverse().len() == p.len(),
{
    let r = p.reverse();
    lemma_walk_in_range(g, p);
    assert forall|i: int| 0 <= i < r.len() - 1 implies #[trigger] g.hop(r, i) by {
        let k = p.len() - 2 - i;
        assert(g.hop(p, k));
        assert(r[i] == p[k + 1]);
        assert(r[i + 1] == p[k]);
        assert(g.edge(p[k], p[k + 1]));
    }
}

/// In a graph whose edges all run both ways, the distance from `s` to `d` is
/// the distance from `d` to `s`.
pub proof fn law_distance_symmetric(g: &Game, s: usize, d: usize)
    requires
        g.symmetric(),
        g.reachable(s, d),
    ensures
        g.reachable(d, s),
        g.spec_distance(s, d) == g.spec_distance(d, s),
{
    let k0 = choose|k: nat| g.reachable_in(s, d, k);
    lemma_least_distance(g, s, d, k0);
    let a = g.spec_distance(s, d);
    let p = choose|p: Seq<usize>| #[trigger] g.is_walk_between(p, s, d) && p.len() == a + 1;
    lemma_reverse_walk(g, p, s, d);
    assert(g.is_walk_between(p.reverse(), d, s) && p.reverse().len() == a + 1);
    assert(g.reachable_in(d, s, a));
    lemma_least_distance(g, d, s, a);
    let b = g.spec_distance(d, s);
    let q = choose|q: Seq<usize>| #[trigger] g.is_walk_between(q, d, s) && q.len() == b + 1;
    lemma_reverse_walk(g, q, d, s);
    assert(g.is_walk_between(q.reverse(), s, d) && q.reverse().len() == b + 1);
    assert(g.reachable_in(s, d, b));
}

} // verus!
