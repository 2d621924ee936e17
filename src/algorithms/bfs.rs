use vstd::prelude::*;
use crate::algorithms::{
    NO_PARENT, chain_ok, count_unset, lemma_chain_reaches, lemma_chain_walk, lemma_count_unset_all, lemma_marked_walk,
    lemma_count_unset_le, lemma_count_unset_set, locate_endpoints, mark_expanded, parent_edges_ok,
    reconstruct_path, search_outcome,
};
use crate::grid::Grid;
use crate::stats::Stats;

verus! {

/// Where start and end are connected and distinct a path is found, and no walk from
/// start to end is shorter than the path reported.
pub open spec fn bfs_shortest(before: &Grid, r: Stats) -> bool {
    forall|s: int, e: int|
        #![trigger before.start_at(s), before.end_at(e)]
        before.start_at(s) && before.end_at(e) ==> {
            &&& (s != e && before.connected(s, e) ==> r.path_length > 0)
            &&& forall|len: nat| #[trigger] before.has_walk(s, e, len) ==> r.path_length <= len
        }
}

/// Every walk from `p[0]` whose cells before the bound have been expanded stays inside
/// the discovered cells, each no deeper than its place on the walk.
proof fn lemma_walk_discovered(
    g: &Grid,
    q: Seq<usize>,
    h: int,
    dist: Seq<int>,
    vis: Seq<bool>,
    pos: Seq<int>,
    p: Seq<int>,
    bound: int,
    j: int,
)
    requires
        g.is_walk(p),
        0 <= j < p.len(),
        j <= bound,
        vis.len() == g@.len(),
        dist.len() == g@.len(),
        0 <= h <= q.len(),
        vis[p[0]],
        dist[p[0]] == 0,
        pos.len() == vis.len(),
        forall|v: int| 0 <= v < vis.len() && #[trigger] vis[v] ==> 0 <= pos[v] < q.len() && q[pos[v]] == v,
        forall|k: int| 0 <= k < q.len() ==> #[trigger] q[k] < vis.len(),
        forall|k: int| 0 <= k < q.len() && dist[q[k] as int] < bound ==> k < h,
        forall|k: int, b: int|
            0 <= k < h && #[trigger] g.adjacent(q[k] as int, b) && g.is_open(b) ==> vis[b] && dist[b] <= dist[q[k] as int] + 1,
    ensures
        vis[p[j]],
        dist[p[j]] <= j,
    decreases j,
{
    if j > 0 {
        lemma_walk_discovered(g, q, h, dist, vis, pos, p, bound, j - 1);
        let a = p[j - 1];
        assert(g.adjacent(p[j - 1], p[(j - 1) + 1]) && g.is_open(p[(j - 1) + 1]));
        let k = pos[a];
        assert(k < h);
        assert(g.adjacent(q[k] as int, p[j]));
    }
}

/// Once every open neighbour of the cell at `head - 1` is discovered, the first
/// `head` cells of the queue are closed under steps.
proof fn lemma_expand_closed(
    g: &Grid,
    q: Seq<usize>,
    head: int,
    vis: Seq<bool>,
    dist: Seq<int>,
    nbs: Seq<usize>,
    current: int,
)
    requires
        g.wf(),
        0 <= current < g@.len(),
        nbs == g.neighbor_list(current),
        1 <= head <= q.len(),
        q[head - 1] == current,
        forall|j: int, b: int|
            0 <= j < head - 1 && #[trigger] g.adjacent(q[j] as int, b) && g.is_open(b) ==> vis[b] && dist[b]
                <= dist[q[j] as int] + 1,
        forall|j: int| 0 <= j < nbs.len() ==> vis[#[trigger] nbs[j] as int] && dist[nbs[j] as int] <= dist[current] + 1,
    ensures
        forall|j: int, b: int|
            0 <= j < head && #[trigger] g.adjacent(q[j] as int, b) && g.is_open(b) ==> vis[b] && dist[b]
                <= dist[q[j] as int] + 1,
{
    g.lemma_neighbor_list(current);
    assert forall|j: int, b: int|
        0 <= j < head && #[trigger] g.adjacent(q[j] as int, b) && g.is_open(b) implies vis[b] && dist[b] <= dist[q[j] as int] + 1 by {
        if j == head - 1 {
            assert(g.neighbor_list(current).contains(b as usize));
            let t = choose|t: int| 0 <= t < nbs.len() && nbs[t] == b as usize;
            assert(vis[nbs[t] as int]);
        }
    }
}

/// The state of a breadth-first search from `start` after the first `head` cells of
/// `queue` have been expanded: `dist` gives the depth of each discovered cell and
/// `pos` its place in the queue.
pub open spec fn bfs_inv(
    g: &Grid,
    start: usize,
    end: usize,
    n: usize,
    visited: Seq<bool>,
    parent: Seq<usize>,
    queue: Seq<usize>,
    head: int,
    dist: Seq<int>,
    pos: Seq<int>,
) -> bool {
    &&& g.wf()
    &&& g@.len() == n
    &&& n <= u32::MAX
    &&& g.start_at(start as int)
    &&& g.end_at(end as int)
    &&& visited.len() == n
    &&& parent.len() == n
    &&& dist.len() == n
    &&& head <= queue.len()
    &&& queue.len() <= n
    &&& queue.len() >= 1
    &&& queue[0] == start
    &&& queue.len() + count_unset(visited) == n
    &&& pos.len() == n
    &&& forall|v: int| 0 <= v < n && #[trigger] visited[v] ==> 0 <= pos[v] < queue.len() && queue[pos[v]] == v
    &&& forall|k: int| 0 <= k < queue.len() ==> #[trigger] queue[k] < n && visited[queue[k] as int]
    &&& forall|k: int| 0 <= k < head ==> #[trigger] queue[k] != end
    &&& dist[start as int] == 0
    &&& forall|v: int| 0 <= v < n && #[trigger] visited[v] ==> dist[v] >= 0
    &&& forall|k: int| 0 <= k < queue.len() ==> #[trigger] dist[queue[k] as int] <= k
    &&& parent_edges_ok(g, parent)
    &&& forall|v: int| 0 <= v < n && #[trigger] parent[v] != NO_PARENT ==> v != start && visited[v] && visited[parent[v] as int] && dist[v] == dist[parent[v] as int] + 1
    &&& forall|v: int| 0 <= v < n && #[trigger] visited[v] && v != start ==> parent[v] != NO_PARENT
    &&& forall|k1: int, k2: int| 0 <= k1 <= k2 < queue.len() ==> #[trigger] dist[queue[k1] as int] <= #[trigger] dist[queue[k2] as int]
    &&& head < queue.len() ==> forall|k: int| 0 <= k < queue.len() ==> #[trigger] dist[queue[k] as int] <= dist[queue[head as int] as int] + 1
    &&& forall|k: int, b: int| 0 <= k < head && #[trigger] g.adjacent(queue[k] as int, b) && g.is_open(b) ==> visited[b] && dist[b] <= dist[queue[k] as int] + 1
}

/// Discovers every open neighbour of `current`, the cell at `head - 1` of the queue,
/// that is not yet discovered.
#[verifier::rlimit(100)]
#[verifier::spinoff_prover]
fn expand(
    g: &Grid,
    start: usize,
    end: usize,
    n: usize,
    current: usize,
    head: usize,
    visited: &mut Vec<bool>,
    parent: &mut Vec<usize>,
    queue: &mut Vec<usize>,
    dist0: Ghost<Seq<int>>,
    pos0: Ghost<Seq<int>>,
) -> (r: (Ghost<Seq<int>>, Ghost<Seq<int>>))
    requires
        bfs_inv(g, start, end, n, old(visited)@, old(parent)@, old(queue)@, head - 1, dist0@, pos0@),
        1 <= head <= old(queue)@.len(),
        old(queue)@[head - 1] == current,
        current != end,
    ensures
        bfs_inv(g, start, end, n, final(visited)@, final(parent)@, final(queue)@, head as int, r.0@, r.1@),
        old(queue)@.len() <= final(queue)@.len(),
{
    let ghost mut dist = dist0@;
    let ghost mut pos = pos0@;
    let nbs = g.neighbors(current);
    let ghost dc = dist[current as int];
    let ghost q0 = queue@;
    let mut k: usize = 0;
    while k < nbs.len()
        invariant
            g.wf(),
            n == g@.len(),
            n <= u32::MAX,
            g.start_at(start as int),
            g.end_at(end as int),
            nbs@ == g.neighbor_list(current as int),
            0 <= current < n,
            current == q0[head - 1],
            dc == dist[current as int],
            k <= nbs@.len(),
            visited@.len() == n,
            parent@.len() == n,
            dist.len() == n,
            1 <= head <= q0.len(),
            q0.len() <= queue@.len(),
            queue@.len() <= n,
            queue@.subrange(0, q0.len() as int) == q0,
            queue@[0] == start,
            queue@.len() + count_unset(visited@) == n,
            pos.len() == n,
            forall|v: int| 0 <= v < n && #[trigger] visited@[v] ==> 0 <= pos[v] < queue@.len() && queue@[pos[v]] == v,
            forall|j: int| 0 <= j < queue@.len() ==> #[trigger] queue@[j] < n && visited@[queue@[j] as int],
            forall|j: int| 0 <= j < head ==> #[trigger] queue@[j] != end,
            dist[start as int] == 0,
            forall|v: int| 0 <= v < n && #[trigger] visited@[v] ==> dist[v] >= 0,
            forall|j: int| 0 <= j < queue@.len() ==> #[trigger] dist[queue@[j] as int] <= j,
            parent_edges_ok(g, parent@),
            forall|v: int|
                0 <= v < n && #[trigger] parent@[v] != NO_PARENT ==> v != start && visited@[v]
                    && visited@[parent@[v] as int] && dist[v] == dist[parent@[v] as int] + 1,
            forall|v: int| 0 <= v < n && #[trigger] visited@[v] && v != start ==> parent@[v] != NO_PARENT,
            forall|k1: int, k2: int|
                0 <= k1 <= k2 < queue@.len() ==> #[trigger] dist[queue@[k1] as int] <= #[trigger] dist[queue@[k2] as int],
            forall|j: int| 0 <= j < queue@.len() ==> #[trigger] dist[queue@[j] as int] <= dc + 1,
            forall|j: int| head <= j < queue@.len() ==> dc <= #[trigger] dist[queue@[j] as int],
            forall|j: int, b: int|
                0 <= j < head - 1 && #[trigger] g.adjacent(queue@[j] as int, b) && g.is_open(b)
                    ==> visited@[b] && dist[b] <= dist[queue@[j] as int] + 1,
            forall|j: int| 0 <= j < k ==> visited@[#[trigger] nbs@[j] as int] && dist[nbs@[j] as int] <= dc + 1,
        decreases nbs@.len() - k,
    {
        let nb = nbs[k];
        proof {
            g.lemma_neighbor_list(current as int);
            assert(g.adjacent(current as int, nbs@[k as int] as int));
        }
        if !visited[nb] {
            let ghost q1 = queue@;
            let ghost old_visited = visited@;
            visited.set(nb, true);
            parent.set(nb, current);
            queue.push(nb);
            proof {
                dist = dist.update(nb as int, dc + 1);
                pos = pos.update(nb as int, q1.len() as int);
                lemma_count_unset_set(old_visited, nb as int);
                lemma_count_unset_le(visited@);
                assert(queue@[q1.len() as int] == nb);
                assert(queue@.subrange(0, q0.len() as int) =~= q0);
            }
        }
        k += 1;
    }
    proof {
        assert(queue@.len() >= 1);
        assert(queue@[head - 1] == q0[head - 1]);
        lemma_expand_closed(g, queue@, head as int, visited@, dist, nbs@, current as int);
    }
    (Ghost(dist), Ghost(pos))
}

/// Runs the breadth-first search until the end is taken off the queue (`true`) or the
/// queue runs empty (`false`). Returns the parent map, the queue, how many of its cells
/// were taken off, and whether the end was reached.
#[verifier::rlimit(100)]
fn explore(g: &Grid, start: usize, end: usize) -> (r: (Vec<usize>, Vec<usize>, usize, bool, Ghost<Seq<int>>, Ghost<Seq<int>>, Ghost<Seq<bool>>))
    requires
        g.wf(),
        g.start_at(start as int),
        g.end_at(end as int),
    ensures
        ({
            let (parent, queue, head, reached, dist, pos, visited) = r;
            &&& 1 <= head <= queue@.len()
            &&& reached ==> queue@[head - 1] == end && bfs_inv(g, start, end, g@.len() as usize, visited@, parent@, queue@, head - 1, dist@, pos@)
            &&& !reached ==> head == queue@.len() && bfs_inv(g, start, end, g@.len() as usize, visited@, parent@, queue@, head as int, dist@, pos@)
        }),
{
    let n = g.size();
    let mut visited: Vec<bool> = Vec::new();
    let mut parent: Vec<usize> = Vec::new();
    let mut i: usize = 0;
    while i < n
        invariant
            i <= n,
            visited@ == Seq::new(i as nat, |j: int| false),
            parent@ == Seq::new(i as nat, |j: int| NO_PARENT),
        decreases n - i,
    {
        visited.push(false);
        parent.push(NO_PARENT);
        i += 1;
        assert(visited@ =~= Seq::new(i as nat, |j: int| false));
        assert(parent@ =~= Seq::new(i as nat, |j: int| NO_PARENT));
    }
    let mut queue: Vec<usize> = Vec::new();
    let mut head: usize = 0;
    let ghost mut dist: Seq<int> = Seq::new(n as nat, |j: int| 0);
    let ghost mut pos: Seq<int> = Seq::new(n as nat, |j: int| 0);
    queue.push(start);
    proof {
        lemma_count_unset_all(n as nat);
        lemma_count_unset_set(visited@, start as int);
    }
    visited.set(start, true);
    assert(bfs_inv(g, start, end, n, visited@, parent@, queue@, 0, dist, pos));
    while head < queue.len()
        invariant
            bfs_inv(g, start, end, n, visited@, parent@, queue@, head as int, dist, pos),
        decreases 2 * n - queue@.len() - head,
    {
        let current = queue[head];
        head += 1;
        if current == end {
            return (parent, queue, head, true, Ghost(dist), Ghost(pos), Ghost(visited@));
        }
        let (d, p) = expand(g, start, end, n, current, head, &mut visited, &mut parent, &mut queue, Ghost(dist), Ghost(pos));
        proof {
            dist = d@;
            pos = p@;
        }
    }
    (parent, queue, head, false, Ghost(dist), Ghost(pos), Ghost(visited@))
}

/// Breadth-first search from the start cell to the end cell over open cells, all
/// steps counting alike. Expanded cells other than the start are marked visited and
/// the path found is marked.
#[verifier::rlimit(100)]
#[verifier::spinoff_prover]
pub fn run(grid: &mut Grid) -> (r: Stats)
    requires
        old(grid).wf(),
    ensures
        final(grid).wf(),
        final(grid).cols() == old(grid).cols(),
        final(grid).rows() == old(grid).rows(),
        search_outcome(old(grid), final(grid)@, r),
        bfs_shortest(old(grid), r),
{
    let ends = locate_endpoints(grid);
    let (start, end) = match ends {
        Some(p) => p,
        None => return Stats::default(),
    };
    let (parent, queue, head, reached_end, dist, pos, visited) = explore(grid, start, end);
    let ghost g0 = *old(grid);
    let ghost n = g0@.len();
    let ghost h: int = if reached_end { head - 1 } else { head as int };
    proof {
        assert(bfs_inv(&g0, start, end, n as usize, visited@, parent@, queue@, h, dist@, pos@));
        assert(visited@[queue@[0] as int]);
    }
    let nodes_explored = head as u32;
    mark_expanded(grid, &queue, head, start);
    let ghost g1 = *grid;
    let path_length = reconstruct_path(grid, &parent, start, end);
    proof {
        assert forall|s: int, e: int| g0.start_at(s) && g0.end_at(e) implies s == start && e == end by {
            assert(g0@[s].is_start && g0@[start as int].is_start);
            assert(g0@[e].is_end && g0@[end as int].is_end);
        }
        if reached_end {
            assert(visited@[queue@[head - 1] as int]);
            lemma_chain_reaches(parent@, dist@, start as int, end as int);
            let k = choose|k: nat| k <= dist@[end as int] - dist@[start as int] && #[trigger] chain_ok(parent@, start as int, end as int, k);
            assert(dist@[queue@[head - 1] as int] <= head - 1);
            if end != start {
                assert(k > 0);
                assert(path_length == k);
            }
            assert forall|len: nat| #[trigger] g0.has_walk(start as int, end as int, len) implies path_length <= len by {
                if end != start && len < dist@[end as int] {
                    let p = choose|p: Seq<int>| #[trigger] g0.is_walk(p) && p.len() == len + 1 && p[0] == start && p.last() == end;
                    assert forall|k: int| 0 <= k < queue@.len() && dist@[queue@[k] as int] < dist@[end as int] implies k < h by {
                        if k >= h {
                            assert(dist@[queue@[h] as int] <= dist@[queue@[k] as int]);
                        }
                    }
                    lemma_walk_discovered(&g0, queue@, h, dist@, visited@, pos@, p, dist@[end as int], len as int);
                }
            }
        } else {
            if visited@[end as int] {
                assert(queue@[pos@[end as int]] == end);
            }
            assert(parent@[end as int] == NO_PARENT);
            assert forall|len: nat| #[trigger] g0.has_walk(start as int, end as int, len) implies false by {
                let p = choose|p: Seq<int>| #[trigger] g0.is_walk(p) && p.len() == len + 1 && p[0] == start && p.last() == end;
                lemma_walk_discovered(&g0, queue@, h, dist@, visited@, pos@, p, len as int, len as int);
            }
        }
        if path_length > 0 {
            lemma_chain_walk(&g0, parent@, start as int, end as int, path_length as nat);
            lemma_marked_walk(&g0, grid@, parent@, start as int, end as int, path_length as nat);
        }
        assert forall|i: int| 0 <= i < g0@.len() && #[trigger] grid@[i].is_visited && !g0@[i].is_visited implies g0.connected(start as int, i) by {
            let k = choose|k: int| 0 <= k < head && queue@[k] == i;
            assert(visited@[queue@[k] as int]);
            lemma_chain_reaches(parent@, dist@, start as int, i);
            let c = choose|c: nat| c <= dist@[i] - dist@[start as int] && #[trigger] chain_ok(parent@, start as int, i, c);
            lemma_chain_walk(&g0, parent@, start as int, i, c);
        }
    }
    Stats { nodes_explored, path_length, path_found: path_length > 0 }
}

} // verus!
