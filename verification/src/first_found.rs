//! The path that a search finds first is determined by the board: two
//! searches from one cell discover the same cells, in the same order, each
//! from the same cell.

use vstd::prelude::*;
use crate::graph::{CellKind, Game};
use crate::pathfinder::{
    found_by, lemma_distance_unique, lemma_tree_distance, queued_before, BfsTree,
};

verus! {

/// A reached cell stands in the queue at its rank.
pub proof fn lemma_rank(g: &Game, s: usize, t: &BfsTree, x: usize)
    requires
        t.complete(g, s),
        t.in_stored_order(g, s),
        x < g.size(),
        t.seen@[x as int],
    ensures
        t.rank@[x as int] < t.order@.len(),
        t.order@[t.rank@[x as int] as int] == x,
{
    assert(t.order@.contains(x));
    let i = choose|i: int| 0 <= i < t.order@.len() && t.order@[i] == x;
    assert(t.rank@[t.order@[i] as int] == i);
}

/// What a second search `b` knows of the discoverer of `v` in a first search
/// `a`, where the two agree on the queue before position `k`: in `b` the
/// cell was discovered no later than that.
proof fn lemma_no_later(g: &Game, s: usize, a: &BfsTree, b: &BfsTree, k: int, v: usize)
    requires
        g.wf(),
        a.complete(g, s),
        a.in_stored_order(g, s),
        b.complete(g, s),
        b.in_stored_order(g, s),
        0 <= k <= a.order@.len(),
        k <= b.order@.len(),
        forall|i: int| 0 <= i < k ==> a.order@[i] == b.order@[i],
        v < g.size(),
        v != s,
        a.seen@[v as int],
        b.seen@[v as int],
        a.rank@[a.prev@[v as int] as int] < k,
    ensures
        b.rank@[b.prev@[v as int] as int] <= a.rank@[a.prev@[v as int] as int],
        b.rank@[b.prev@[v as int] as int] == a.rank@[a.prev@[v as int] as int] ==> b.prev@[v as int]
            == a.prev@[v as int] && b.slot@[v as int] == a.slot@[v as int],
{
    let u = a.prev@[v as int];
    let y = b.prev@[v as int];
    assert(found_by(g, a.order@, a.rank@, u, a.slot@[v as int] as int, v));
    assert(found_by(g, b.order@, b.rank@, y, b.slot@[v as int] as int, v));
    assert(a.seen@[u as int]);
    assert(b.seen@[y as int]);
    lemma_rank(g, s, a, u);
    lemma_rank(g, s, b, y);
    let r = a.rank@[u as int] as int;
    assert(b.order@[r] == u);
    assert(g.adj(u as int)[a.slot@[v as int] as int] == v);
    assert(g.adj(b.order@[r] as int).contains(v));
    if b.rank@[y as int] == r {
        assert(y == u);
        let ka = a.slot@[v as int] as int;
        let kb = b.slot@[v as int] as int;
        if ka < kb {
            assert(g.adj(y as int)[ka] != v);
        }
        if kb < ka {
            assert(g.adj(u as int)[kb] != v);
        }
    }
}

/// Two searches from one cell agree on the first `i` cells of the queue and
/// on who discovered each of them.
pub proof fn lemma_trees_agree(g: &Game, s: usize, a: &BfsTree, b: &BfsTree, i: nat)
    requires
        g.wf(),
        a.complete(g, s),
        a.in_stored_order(g, s),
        b.complete(g, s),
        b.in_stored_order(g, s),
        i <= a.order@.len(),
    ensures
        i <= b.order@.len(),
        forall|k: int| 0 <= k < i ==> a.order@[k] == b.order@[k],
        forall|k: int|
            1 <= k < i ==> a.prev@[(#[trigger] a.order@[k]) as int] == b.prev@[a.order@[k] as int],
    decreases i,
{
    if i >= 1 {
        lemma_trees_agree(g, s, a, b, (i - 1) as nat);
        let k = i - 1;
        if k >= 1 {
            let v = a.order@[k];
            assert(a.seen@[v as int] && v < g.size());
            lemma_tree_distance(g, s, a, v);
            lemma_tree_distance(g, s, b, v);
            lemma_rank(g, s, a, v);
            lemma_rank(g, s, b, v);
            let jb = b.rank@[v as int] as int;
            assert(a.rank@[a.order@[k] as int] == k);
            if jb < k {
                assert(a.order@[jb] == b.order@[jb]);
                assert(a.order@[jb] == a.order@[k]);
                assert(false);
            }
            assert(v != s) by {
                assert(a.order@[0] == s);
            }
            let w = b.order@[k];
            assert(b.seen@[w as int] && w < g.size());
            lemma_tree_distance(g, s, b, w);
            lemma_tree_distance(g, s, a, w);
            lemma_rank(g, s, a, w);
            lemma_rank(g, s, b, w);
            let ja = a.rank@[w as int] as int;
            assert(b.rank@[b.order@[k] as int] == k);
            if ja < k {
                assert(a.order@[ja] == b.order@[ja]);
                assert(b.order@[ja] == b.order@[k]);
                assert(false);
            }
            assert(w != s) by {
                assert(b.order@[0] == s);
            }
            assert(found_by(g, a.order@, a.rank@, a.prev@[v as int], a.slot@[v as int] as int, v));
            assert(found_by(g, b.order@, b.rank@, b.prev@[w as int], b.slot@[w as int] as int, w));
            assert(found_by(g, b.order@, b.rank@, b.prev@[v as int], b.slot@[v as int] as int, v));
            assert(found_by(g, a.order@, a.rank@, a.prev@[w as int], a.slot@[w as int] as int, w));
            lemma_no_later(g, s, a, b, k, v);
            lemma_no_later(g, s, b, a, k, w);
            if v != w {
                assert(jb > k);
                assert(ja > k);
                assert(queued_before(a.prev@, a.rank@, a.slot@, a.order@[k], a.order@[ja]));
                assert(queued_before(b.prev@, b.rank@, b.slot@, b.order@[k], b.order@[jb]));
                assert(false);
            }
            assert(b.rank@[b.prev@[v as int] as int] < k);
            lemma_no_later(g, s, b, a, k, v);
        } else {
            assert(a.order@[0] == s && b.order@[0] == s);
        }
    }
}

/// Two searches from one cell agree on the discoverer of every reached cell but the root.
pub proof fn lemma_same_discoverer(g: &Game, s: usize, a: &BfsTree, b: &BfsTree, v: usize)
    requires
        g.wf(),
        a.complete(g, s),
        a.in_stored_order(g, s),
        b.complete(g, s),
        b.in_stored_order(g, s),
        g.reachable(s, v),
        v != s,
    ensures
        a.prev@[v as int] == b.prev@[v as int],
{
    lemma_tree_distance(g, s, a, v);
    lemma_rank(g, s, a, v);
    let k = a.rank@[v as int] as int;
    lemma_trees_agree(g, s, a, b, (k + 1) as nat);
    assert(a.order@[0] == s);
    assert(a.order@[k] == v);
}

/// A shortest path returns to its first cell nowhere.
pub proof fn lemma_leaves_source(g: &Game, p: Seq<usize>, s: usize, d: usize, i: int)
    requires
        g.is_shortest_path(p, s, d),
        1 <= i < p.len(),
    ensures
        p[i] != s,
        g.reachable(s, p[i]),
{
    let head = p.take(i + 1);
    assert forall|k: int| 0 <= k < head.len() - 1 implies #[trigger] g.hop(head, k) by {
        assert(g.hop(p, k));
    }
    assert(g.is_walk_between(head, s, p[i]) && head.len() == i + 1);
    assert(g.reachable_in(s, p[i], i as nat));
    if p[i] == s {
        let tail = p.skip(i);
        assert forall|k: int| 0 <= k < tail.len() - 1 implies #[trigger] g.hop(tail, k) by {
            assert(g.hop(p, k + i));
        }
        assert(g.is_walk_between(tail, s, d) && tail.len() == (p.len() - i - 1) + 1);
        assert(g.reachable_in(s, d, (p.len() - i - 1) as nat));
    }
}

/// Two paths of one length to one cell, each led by a search from one root,
/// agree from position `i` on.
proof fn lemma_paths_agree(
    g: &Game,
    s: usize,
    d: usize,
    a: &BfsTree,
    b: &BfsTree,
    p: Seq<usize>,
    q: Seq<usize>,
    i: int,
)
    requires
        g.wf(),
        a.complete(g, s),
        a.in_stored_order(g, s),
        b.complete(g, s),
        b.in_stored_order(g, s),
        g.is_shortest_path(p, s, d),
        g.is_shortest_path(q, s, d),
        p.len() == q.len(),
        a.leads(p),
        b.leads(q),
        0 <= i < p.len(),
    ensures
        forall|k: int| i <= k < p.len() ==> p[k] == q[k],
    decreases p.len() - i,
{
    if i < p.len() - 1 {
        lemma_paths_agree(g, s, d, a, b, p, q, i + 1);
        lemma_leaves_source(g, p, s, d, i + 1);
        lemma_same_discoverer(g, s, a, b, p[i + 1]);
        assert(a.prev@[p[i + 1] as int] == p[i]);
        assert(q[i + 1] == p[i + 1]);
        assert(b.prev@[q[i + 1] as int] == q[i]);
    }
}

/// There is one first-found shortest path between two cells at most.
pub proof fn law_first_path_unique(g: &Game, s: usize, d: usize, p: Seq<usize>, q: Seq<usize>)
    requires
        g.wf(),
        g.is_first_path(p, s, d),
        g.is_first_path(q, s, d),
    ensures
        p == q,
{
    let a = choose|t: BfsTree| #[trigger]
        t.complete(g, s) && t.in_stored_order(g, s) && t.leads(p);
    let b = choose|t: BfsTree| #[trigger]
        t.complete(g, s) && t.in_stored_order(g, s) && t.leads(q);
    lemma_distance_unique(g, s, d, (p.len() - 1) as nat);
    lemma_distance_unique(g, s, d, (q.len() - 1) as nat);
    lemma_paths_agree(g, s, d, &a, &b, p, q, 0);
    assert(p =~= q);
}


/// There is one closest cell with resources of a kind at most.
pub proof fn law_closest_unique(g: &Game, source: usize, kind: CellKind, x: usize, y: usize)
    requires
        g.wf(),
        g.is_closest(source, kind, x),
        g.is_closest(source, kind, y),
    ensures
        x == y,
{
    let a = choose|t: BfsTree| #[trigger]
        t.complete(g, source) && t.in_stored_order(g, source) && t.first_target(g, kind, x);
    let b = choose|t: BfsTree| #[trigger]
        t.complete(g, source) && t.in_stored_order(g, source) && t.first_target(g, kind, y);
    let i = choose|i: int|
        0 <= i < a.order@.len() && #[trigger] a.order@[i] == x && g.is_target(x, kind) && forall|
            k: int,
        | 0 <= k < i ==> !g.is_target(#[trigger] a.order@[k], kind);
    let j = choose|j: int|
        0 <= j < b.order@.len() && #[trigger] b.order@[j] == y && g.is_target(y, kind) && forall|
            k: int,
        | 0 <= k < j ==> !g.is_target(#[trigger] b.order@[k], kind);
    lemma_trees_agree(g, source, &a, &b, (i + 1) as nat);
    lemma_trees_agree(g, source, &b, &a, (j + 1) as nat);
    if i < j {
        assert(b.order@[i] == a.order@[i]);
        assert(!g.is_target(b.order@[i], kind));
    }
    if j < i {
        assert(a.order@[j] == b.order@[j]);
        assert(!g.is_target(a.order@[j], kind));
    }
    assert(a.order@[i] == b.order@[i]);
}

} // verus!
