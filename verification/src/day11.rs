//! Directed graph puzzle: parse a name-to-neighbors list, count the
//! distinct simple paths between landmarks, and search for one path.

use vstd::prelude::*;

use crate::strutil::{lines_of, spec_lines, to_chars};

verus! {

pub struct Day11;

/// Adjacency-list digraph over indices `0..n`; edges may point at any
/// index below `n`.
pub struct Graph {
    pub adj_list: Vec<Vec<usize>>,
}

/// Every recorded edge stays inside the graph.
pub open spec fn graph_wf(adj: Seq<Vec<usize>>) -> bool {
    forall|u: int, k: int|
        0 <= u < adj.len() && 0 <= k < adj[u]@.len() ==> (#[trigger] adj[u]@[k]) < adj.len()
}

impl Graph {
    pub fn new(size: usize) -> (g: Graph)
        ensures
            g.adj_list@.len() == size,
            forall|u: int| 0 <= u < size ==> (#[trigger] g.adj_list@[u])@.len() == 0,
    {
        let mut adj_list: Vec<Vec<usize>> = Vec::new();
        let mut k: usize = 0;
        while k < size
            invariant
                k <= size,
                adj_list@.len() == k,
                forall|u: int| 0 <= u < k ==> (#[trigger] adj_list@[u])@.len() == 0,
            decreases size - k,
        {
            adj_list.push(Vec::new());
            k = k + 1;
        }
        Graph { adj_list }
    }

    /// Records the directed edge `u -> v`.
    pub fn add_edge(&mut self, u: usize, v: usize)
        requires
            u < old(self).adj_list@.len(),
        ensures
            final(self).adj_list@.len() == old(self).adj_list@.len(),
            final(self).adj_list@[u as int]@ == old(self).adj_list@[u as int]@.push(v),
            forall|w: int|
                0 <= w < old(self).adj_list@.len() && w != u
                    ==> (#[trigger] final(self).adj_list@[w]) == old(self).adj_list@[w],
    {
        let cell = &mut self.adj_list[u];
        cell.push(v);
    }

    /// The recorded neighbors of `u`, in insertion order.
    pub fn neighbors(&self, u: usize) -> (r: &Vec<usize>)
        requires
            u < self.adj_list@.len(),
        ensures
            r@ == self.adj_list@[u as int]@,
    {
        &self.adj_list[u]
    }
}

/// How many entries of a visited map are still unvisited.
pub open spec fn count_false(v: Seq<bool>) -> nat
    decreases v.len(),
{
    if v.len() == 0 {
        0
    } else {
        count_false(v.drop_last()) + (if v.last() {
            0nat
        } else {
            1nat
        })
    }
}

proof fn lemma_count_false_update(v: Seq<bool>, i: int)
    requires
        0 <= i < v.len(),
        !v[i],
    ensures
        count_false(v.update(i, true)) < count_false(v),
    decreases v.len(),
{
    if i == v.len() - 1 {
        assert(v.update(i, true).drop_last() =~= v.drop_last());
    } else {
        assert(v.update(i, true).drop_last() =~= v.drop_last().update(i, true));
        lemma_count_false_update(v.drop_last(), i);
    }
}

/// The number of simple paths from `cur` to `target` avoiding the
/// visited indices, counted by depth-first search over the neighbor
/// lists in order, and saturating at `usize::MAX`.
pub open spec fn spec_count_paths(
    adj: Seq<Vec<usize>>,
    cur: int,
    target: int,
    visited: Seq<bool>,
) -> nat
    decreases count_false(visited), 0nat, 0nat,
        when 0 <= cur < adj.len() && adj.len() == visited.len() && graph_wf(adj) && !visited[cur]
        via spec_count_paths_dec
{
    if cur == target {
        1
    } else {
        spec_count_nbrs(adj, adj[cur]@, 0, target, visited.update(cur, true))
    }
}

#[via_fn]
proof fn spec_count_paths_dec(adj: Seq<Vec<usize>>, cur: int, target: int, visited: Seq<bool>) {
    if cur != target {
        lemma_count_false_update(visited, cur);
    }
}

pub open spec fn spec_count_nbrs(
    adj: Seq<Vec<usize>>,
    nbrs: Seq<usize>,
    k: int,
    target: int,
    visited: Seq<bool>,
) -> nat
    decreases count_false(visited), 1nat, nbrs.len() - k,
        when adj.len() == visited.len() && graph_wf(adj) && (forall|t: int|
            0 <= t < nbrs.len() ==> (#[trigger] nbrs[t]) < adj.len())
{
    if k < 0 || k >= nbrs.len() {
        0
    } else {
        let rest = spec_count_nbrs(adj, nbrs, k + 1, target, visited);
        if visited[nbrs[k] as int] {
            rest
        } else {
            spec_count_paths(adj, nbrs[k] as int, target, visited) + rest
        }
    }
}

/// Saturating addition on counters.
pub fn sat_add(a: usize, b: usize) -> (r: usize)
    ensures
        r as int == (if a + b <= usize::MAX {
            a + b
        } else {
            usize::MAX as int
        }),
{
    if a <= usize::MAX - b {
        a + b
    } else {
        usize::MAX
    }
}

/// The saturated value of a mathematical counter.
pub open spec fn sat(n: nat) -> nat {
    if n <= usize::MAX {
        n
    } else {
        usize::MAX as nat
    }
}

fn dfs_count(g: &Graph, current: usize, target: usize, visited: &mut Vec<bool>) -> (count: usize)
    requires
        graph_wf(g.adj_list@),
        current < g.adj_list@.len(),
        old(visited)@.len() == g.adj_list@.len(),
        !old(visited)@[current as int],
    ensures
        final(visited)@ == old(visited)@,
        count == sat(spec_count_paths(g.adj_list@, current as int, target as int, old(visited)@)),
    decreases count_false(old(visited)@), 1nat, 0nat,
{
    let ghost v0 = visited@;
    if current == target {
        return 1;
    }
    visited[current] = true;
    let ghost v1 = visited@;
    proof {
        lemma_count_false_update(v0, current as int);
    }
    let nbrs = g.neighbors(current);
    let n = nbrs.len();
    let mut count: usize = 0;
    let mut k: usize = n;
    while k > 0
        invariant
            graph_wf(g.adj_list@),
            current < g.adj_list@.len(),
            nbrs@ == g.adj_list@[current as int]@,
            n == nbrs@.len(),
            k <= n,
            visited@ == v1,
            v0 == old(visited)@,
            v1 == v0.update(current as int, true),
            v0.len() == g.adj_list@.len(),
            0 <= current < v0.len(),
            count_false(v1) < count_false(v0),
            count == sat(spec_count_nbrs(g.adj_list@, nbrs@, k as int, target as int, v1)),
        decreases k,
    {
        k = k - 1;
        let nb = nbrs[k];
        if !visited[nb] {
            let c = dfs_count(g, nb, target, visited);
            count = sat_add(c, count);
        }
    }
    visited[current] = false;
    proof {
        assert(visited@ =~= v0);
    }
    count
}

impl Day11 {
    /// Counts the simple paths from `start` to `target`, walking the
    /// neighbor lists depth-first; the count saturates at `usize::MAX`.
    pub fn count_all_paths_with_memo(graph: &Graph, start: usize, target: usize) -> (count: usize)
        requires
            graph_wf(graph.adj_list@),
            start < graph.adj_list@.len(),
        ensures
            count == sat(spec_count_paths(
                graph.adj_list@,
                start as int,
                target as int,
                Seq::new(graph.adj_list@.len(), |i: int| false),
            )),
    {
        let n = graph.adj_list.len();
        let mut visited: Vec<bool> = Vec::new();
        let mut k: usize = 0;
        while k < n
            invariant
                k <= n,
                visited@.len() == k,
                forall|t: int| 0 <= t < k ==> !(#[trigger] visited@[t]),
            decreases n - k,
        {
            visited.push(false);
            k = k + 1;
        }
        proof {
            assert(visited@ =~= Seq::new(graph.adj_list@.len(), |i: int| false));
        }
        dfs_count(graph, start, target, &mut visited)
    }
}


/// The sum of all current distance labels, the termination measure of
/// the search loop.
pub open spec fn dist_sum(d: Seq<usize>) -> int
    decreases d.len(),
{
    if d.len() == 0 {
        0
    } else {
        d.last() + dist_sum(d.drop_last())
    }
}

proof fn lemma_dist_sum_update(d: Seq<usize>, i: int, v: usize)
    requires
        0 <= i < d.len(),
    ensures
        dist_sum(d.update(i, v)) == dist_sum(d) - d[i] + v,
    decreases d.len(),
{
    if i == d.len() - 1 {
        assert(d.update(i, v).drop_last() =~= d.drop_last());
    } else {
        assert(d.update(i, v).drop_last() =~= d.drop_last().update(i, v));
        lemma_dist_sum_update(d.drop_last(), i, v);
    }
}

proof fn lemma_dist_sum_nonneg(d: Seq<usize>)
    ensures
        dist_sum(d) >= 0,
    decreases d.len(),
{
    if d.len() > 0 {
        lemma_dist_sum_nonneg(d.drop_last());
    }
}

/// The search bookkeeping stays consistent: every recorded predecessor
/// edge exists, strictly decreases the distance label, and only the
/// start can be reached without a predecessor.
pub open spec fn search_inv(
    adj: Seq<Vec<usize>>,
    dist: Seq<usize>,
    came: Seq<Option<usize>>,
    start: int,
) -> bool {
    &&& dist.len() == adj.len()
    &&& came.len() == adj.len()
    &&& forall|v: int|
        0 <= v < came.len() && (#[trigger] came[v]) is Some ==> {
            let u = came[v]->Some_0 as int;
            &&& 0 <= u < adj.len()
            &&& adj[u]@.contains(v as usize)
            &&& dist[u] < dist[v]
            &&& dist[v] < usize::MAX
        }
    &&& forall|v: int|
        0 <= v < dist.len() && (#[trigger] dist[v]) < usize::MAX && v != start ==> came[v] is Some
}

impl Day11 {
    /// Searches for a route from `start` to `target` with uniform edge
    /// costs and no heuristic. A returned path begins at `start`, ends
    /// at `target`, and follows recorded edges throughout; which of
    /// several routes comes back is not pinned down.
    #[allow(non_snake_case)]
    #[verifier::rlimit(60)]
    pub fn Astar(start: usize, target: usize, graph: &Graph) -> (r: Option<Vec<usize>>)
        requires
            graph_wf(graph.adj_list@),
            start < graph.adj_list@.len(),
            target < graph.adj_list@.len(),
        ensures
            r matches Some(path) ==> {
                &&& path@.len() >= 1
                &&& path@[0] == start
                &&& path@.last() == target
                &&& forall|t: int|
                    0 <= t < path@.len() - 1 ==> graph.adj_list@[
                        (#[trigger] path@[t]) as int]@.contains(path@[t + 1])
            },
    {
        let n = graph.adj_list.len();
        let mut dist: Vec<usize> = Vec::new();
        let mut came: Vec<Option<usize>> = Vec::new();
        let mut k: usize = 0;
        while k < n
            invariant
                k <= n,
                dist@.len() == k,
                came@.len() == k,
                forall|v: int| 0 <= v < k ==> (#[trigger] dist@[v]) == usize::MAX,
                forall|v: int| 0 <= v < k ==> (#[trigger] came@[v]) is None,
            decreases n - k,
        {
            dist.push(usize::MAX);
            came.push(None);
            k = k + 1;
        }
        dist[start] = 0;
        proof {
            lemma_dist_sum_nonneg(dist@);
        }
        let mut open: Vec<(usize, usize)> = Vec::new();
        open.push((0, start));
        while open.len() > 0
            invariant
                n == graph.adj_list@.len(),
                graph_wf(graph.adj_list@),
                start < n,
                target < n,
                search_inv(graph.adj_list@, dist@, came@, start as int),
                dist@[start as int] == 0,
                forall|t: int|
                    0 <= t < open@.len() ==> (#[trigger] open@[t]).1 < n && dist@[open@[t].1 as int]
                        < usize::MAX,
                dist_sum(dist@) >= 0,
            decreases dist_sum(dist@), open@.len(),
        {
            let ghost sum0 = dist_sum(dist@);
            let ghost len0 = open@.len();
            // take the entry with the smallest recorded distance
            let mut m: usize = 0;
            let mut q: usize = 1;
            while q < open.len()
                invariant
                    open@.len() > 0,
                    m < q <= open@.len(),
                decreases open@.len() - q,
            {
                if open[q].0 < open[m].0 {
                    m = q;
                }
                q = q + 1;
            }
            let (d, node) = open.swap_remove(m);
            if d > dist[node] {
                continue;  // a better route has already been recorded
            }
            if node == target {
                // reconstruct the route backwards along the predecessors
                let mut path: Vec<usize> = Vec::new();
                let mut current: usize = node;
                path.push(current);
                while came[current].is_some()
                    invariant
                        n == graph.adj_list@.len(),
                        graph_wf(graph.adj_list@),
                        start < n,
                        current < n,
                        search_inv(graph.adj_list@, dist@, came@, start as int),
                        path@.len() >= 1,
                        path@[0] == target,
                        path@.last() == current,
                        target < n,
                        dist@[current as int] < usize::MAX,
                        forall|t: int|
                            0 <= t < path@.len() - 1 ==> graph.adj_list@[
                                path@[t + 1] as int]@.contains(#[trigger] path@[t]),
                    decreases dist@[current as int],
                {
                    let prev = match came[current] {
                        Some(p) => p,
                        None => {
                            proof {
                                assert(false);
                            }
                            0
                        },
                    };
                    path.push(prev);
                    current = prev;
                }
                proof {
                    assert(current == start);
                }
                let mut fwd: Vec<usize> = Vec::new();
                let mut i: usize = path.len();
                while i > 0
                    invariant
                        i <= path@.len(),
                        fwd@.len() == path@.len() - i,
                        forall|t: int|
                            0 <= t < fwd@.len() ==> (#[trigger] fwd@[t]) == path@[path@.len() - 1
                                - t],
                    decreases i,
                {
                    i = i - 1;
                    fwd.push(path[i]);
                }
                proof {
                    assert(fwd@[0] == path@.last());
                    assert(fwd@.last() == path@[0]);
                    assert forall|t: int|
                        0 <= t < fwd@.len() - 1 implies graph.adj_list@[
                        (#[trigger] fwd@[t]) as int]@.contains(fwd@[t + 1]) by {
                        assert(fwd@[t] == path@[path@.len() - 1 - t]);
                        assert(fwd@[t + 1] == path@[path@.len() - 2 - t]);
                    }
                }
                return Some(fwd);
            }
            // relax the neighbors
            let nbrs_len = graph.adj_list[node].len();
            let mut j: usize = 0;
            while j < nbrs_len
                invariant
                    n == graph.adj_list@.len(),
                    graph_wf(graph.adj_list@),
                    start < n,
                    target < n,
                    node < n,
                    nbrs_len == graph.adj_list@[node as int]@.len(),
                    j <= nbrs_len,
                    dist@[node as int] < usize::MAX,
                    dist@[start as int] == 0,
                    search_inv(graph.adj_list@, dist@, came@, start as int),
                    forall|t: int|
                        0 <= t < open@.len() ==> (#[trigger] open@[t]).1 < n && dist@[open@[
                            t].1 as int] < usize::MAX,
                    dist_sum(dist@) >= 0,
                    dist_sum(dist@) <= sum0,
                    dist_sum(dist@) == sum0 ==> open@.len() == len0 - 1,
                decreases nbrs_len - j,
            {
                let nb = graph.adj_list[node][j];
                let new_d = dist[node] + 1;
                if new_d < dist[nb] {
                    proof {
                        lemma_dist_sum_update(dist@, nb as int, new_d);
                        lemma_dist_sum_nonneg(dist@.update(nb as int, new_d));
                        assert(graph.adj_list@[node as int]@.contains(nb));
                    }
                    dist[nb] = new_d;
                    came[nb] = Some(node);
                    open.push((new_d, nb));
                }
                j = j + 1;
            }
        }
        None
    }
}

} // verus!
