use vstd::prelude::*;
use crate::algorithms::{
    NO_PARENT, count_unset, finish, lemma_count_unset_all, lemma_count_unset_le, lemma_count_unset_set,
    finds_path, lemma_closed_marks_walk, locate_endpoints, min_entry, parent_edges_ok, search_outcome,
};
use crate::grid::Grid;
use crate::stats::Stats;

verus! {

/// The state of a least-cost search from `start`: `dist` holds the best known cost of
/// each cell, `closed` the cells expanded (in `order`), `heap` the frontier entries
/// `(cost, cell)`.
pub open spec fn dijkstra_inv(
    g: &Grid,
    start: usize,
    n: usize,
    dist: Seq<u32>,
    parent: Seq<usize>,
    closed: Seq<bool>,
    order: Seq<usize>,
    heap: Seq<(u32, usize)>,
) -> bool {
    &&& g.wf()
    &&& g@.len() == n
    &&& g.start_at(start as int)
    &&& dist.len() == n
    &&& parent.len() == n
    &&& closed.len() == n
    &&& order.len() + count_unset(closed) == n
    &&& forall|k: int| 0 <= k < order.len() ==> #[trigger] order[k] < n
    &&& forall|k: int|
        0 <= k < heap.len() ==> #[trigger] heap[k].1 < n && (heap[k].1 == start || parent[heap[k].1 as int]
            != NO_PARENT) && dist[heap[k].1 as int] <= heap[k].0
    &&& dist[start as int] == 0
    &&& order.len() == 0 ==> heap == seq![(0u32, start)] && !closed[start as int] && forall|v: int| 0 <= v < n ==> #[trigger] parent[v] == NO_PARENT
    &&& forall|k: int| 0 <= k < order.len() ==> #[trigger] order[k] == start || parent[order[k] as int] != NO_PARENT
    &&& parent_edges_ok(g, parent)
    &&& forall|u: int|
        0 <= u < n && #[trigger] parent[u] != NO_PARENT ==> {
            &&& parent[u] as int == start || parent[parent[u] as int] != NO_PARENT
            &&& dist[parent[u] as int] < dist[u]
            &&& dist[u] < u32::MAX
        }
}

/// Frontier entry `(c, v)` is present.
pub open spec fn heap_has(heap: Seq<(u32, usize)>, c: u32, v: int) -> bool {
    exists|k: int| 0 <= k < heap.len() && heap[k] == (c, v as usize)
}

/// What makes a least-cost search reach every reachable cell: costs so far stay below
/// five per expanded cell, expanded cells have a cost and a parent, every open cell
/// next to an expanded cell other than `except` has a cost, and every cell with a
/// cost that is not expanded has its entry in the frontier.
pub open spec fn dijkstra_reach(
    g: &Grid,
    start: usize,
    n: usize,
    dist: Seq<u32>,
    parent: Seq<usize>,
    closed: Seq<bool>,
    order: Seq<usize>,
    heap: Seq<(u32, usize)>,
    except: int,
) -> bool {
    &&& forall|k: int| 0 <= k < heap.len() ==> (#[trigger] heap[k]).0 < u32::MAX
    &&& forall|v: int| 0 <= v < n && #[trigger] dist[v] != u32::MAX ==> dist[v] <= 5 * order.len()
    &&& forall|v: int|
        0 <= v < n && #[trigger] closed[v] ==> dist[v] != u32::MAX && (v == start || parent[v] != NO_PARENT)
    &&& forall|u: int, b: int|
        0 <= u < n && u != except && closed[u] && #[trigger] g.adjacent(u, b) && g.is_open(b) ==> dist[b] != u32::MAX
    &&& forall|v: int| 0 <= v < n && dist[v] != u32::MAX && !closed[v] ==> #[trigger] heap_has(heap, dist[v], v)
}

/// Least-cost search from the start cell to the end cell, where entering a cell costs
/// that cell's terrain cost. The frontier entry of least cost is expanded first (the
/// lower cell index among equal costs); entries whose cost is above the best known
/// cost of their cell are passed over. Expanded cells other than the start are marked
/// visited and the path found is marked.
#[verifier::rlimit(100)]
pub fn run(grid: &mut Grid) -> (r: Stats)
    requires
        old(grid).wf(),
    ensures
        final(grid).wf(),
        final(grid).cols() == old(grid).cols(),
        final(grid).rows() == old(grid).rows(),
        search_outcome(old(grid), final(grid)@, r),
        finds_path(old(grid), r),
{
    let ends = locate_endpoints(grid);
    let (start, end) = match ends {
        Some(p) => p,
        None => return Stats::default(),
    };
    let n = grid.size();
    let mut dist: Vec<u32> = Vec::new();
    let mut parent: Vec<usize> = Vec::new();
    let mut closed: Vec<bool> = Vec::new();
    let mut i: usize = 0;
    while i < n
        invariant
            i <= n,
            dist@ == Seq::new(i as nat, |j: int| u32::MAX),
            parent@ == Seq::new(i as nat, |j: int| NO_PARENT),
            closed@ == Seq::new(i as nat, |j: int| false),
        decreases n - i,
    {
        dist.push(u32::MAX);
        parent.push(NO_PARENT);
        closed.push(false);
        i += 1;
        assert(dist@ =~= Seq::new(i as nat, |j: int| u32::MAX));
        assert(parent@ =~= Seq::new(i as nat, |j: int| NO_PARENT));
        assert(closed@ =~= Seq::new(i as nat, |j: int| false));
    }
    let mut order: Vec<usize> = Vec::new();
    let mut heap: Vec<(u32, usize)> = Vec::new();
    dist.set(start, 0);
    heap.push((0, start));
    proof {
        lemma_count_unset_all(n as nat);
        assert(heap@ =~= seq![(0u32, start)]);
        assert(heap@[0] == (0u32, start));
        assert(heap_has(heap@, 0, start as int));
        assert(old(grid).wf());
        assert(n == old(grid).cols() * old(grid).rows());
        assert(5 * n < u32::MAX);
    }
    let mut found = false;
    while heap.len() > 0
        invariant_except_break
            !found,
            !closed@[end as int],
            dijkstra_reach(old(grid), start, n, dist@, parent@, closed@, order@, heap@, -1),
        invariant
            *grid == *old(grid),
            old(grid).end_at(end as int),
            dijkstra_inv(old(grid), start, n, dist@, parent@, closed@, order@, heap@),
            order@.len() > 0 || heap@.len() > 0,
            5 * n < u32::MAX,
        ensures
            dijkstra_inv(old(grid), start, n, dist@, parent@, closed@, order@, heap@),
            order@.len() >= 1,
            found ==> closed@[end as int] && (end == start || parent@[end as int] != NO_PARENT),
            !found ==> heap@.len() == 0 && !closed@[end as int] && dijkstra_reach(
                old(grid),
                start,
                n,
                dist@,
                parent@,
                closed@,
                order@,
                heap@,
                -1,
            ),
        decreases count_unset(closed@), heap@.len(),
    {
        let ghost h0 = heap@;
        let ix = min_entry(&heap);
        let (cost, current) = heap.remove(ix);
        proof {
            assert(h0[ix as int] == (cost, current));
            assert(heap@ =~= h0.remove(ix as int));
            assert forall|k: int| 0 <= k < heap@.len() implies #[trigger] heap@[k] == h0[if k < ix { k } else { k + 1 }] by {
            }
            assert forall|v: int| 0 <= v < n && dist@[v] != u32::MAX && !closed@[v] && v != current implies #[trigger] heap_has(heap@, dist@[v], v) by {
                assert(heap_has(h0, dist@[v], v));
                let k0 = choose|k: int| 0 <= k < h0.len() && h0[k] == (dist@[v], v as usize);
                assert(k0 != ix);
                if k0 < ix {
                    assert(heap@[k0] == h0[if k0 < ix { k0 } else { k0 + 1 }]);
                    assert(heap@[k0] == h0[k0]);
                } else {
                    assert(heap@[k0 - 1] == h0[if k0 - 1 < ix { k0 - 1 } else { k0 - 1 + 1 }]);
                    assert(heap@[k0 - 1] == h0[k0]);
                }
            }
            if dist@[current as int] != u32::MAX && !closed@[current as int] && cost <= dist@[current as int] {
            } else if dist@[current as int] != u32::MAX && !closed@[current as int] {
                assert(heap_has(h0, dist@[current as int], current as int));
                let k0 = choose|k: int| 0 <= k < h0.len() && h0[k] == (dist@[current as int], current);
                assert(k0 != ix);
                if k0 < ix {
                    assert(heap@[k0] == h0[if k0 < ix { k0 } else { k0 + 1 }]);
                } else {
                    assert(heap@[k0 - 1] == h0[if k0 - 1 < ix { k0 - 1 } else { k0 - 1 + 1 }]);
                }
                assert(heap_has(heap@, dist@[current as int], current as int));
            }
        }
        if cost > dist[current] || closed[current] {
            continue;
        }
        let ghost old_closed = closed@;
        closed.set(current, true);
        proof {
            lemma_count_unset_set(old_closed, current as int);
            lemma_count_unset_le(closed@);
        }
        order.push(current);
        proof {
            assert(order@[order@.len() - 1] == current);
        }
        if current == end {
            found = true;
            proof {
                assert(closed@[current as int]);
            }
            break;
        }
        let nbs = grid.neighbors(current);
        let mut k: usize = 0;
        while k < nbs.len()
            invariant
                *grid == *old(grid),
                nbs@ == old(grid).neighbor_list(current as int),
                k <= nbs@.len(),
                0 <= current < n,
                current == start || parent@[current as int] != NO_PARENT,
                dist@[current as int] == cost,
                cost <= 5 * (order@.len() - 1),
                order@.len() > 0,
                order@.len() <= n,
                5 * n < u32::MAX,
                closed@[current as int],
                dijkstra_inv(old(grid), start, n, dist@, parent@, closed@, order@, heap@),
                dijkstra_reach(old(grid), start, n, dist@, parent@, closed@, order@, heap@, current as int),
                forall|j: int| 0 <= j < k ==> dist@[#[trigger] nbs@[j] as int] != u32::MAX,
            decreases nbs@.len() - k,
        {
            let nb = nbs[k];
            proof {
                old(grid).lemma_neighbor_list(current as int);
                assert(old(grid).adjacent(current as int, nbs@[k as int] as int));
            }
            let neighbor_cost = grid.cell(nb).cost as u32;
            proof {
                assert(old(grid).wf());
                assert(old(grid)@[nb as int].is_wall || !old(grid)@[nb as int].is_wall);
                assert(old(grid)@[nb as int].cost <= 5);
                assert(neighbor_cost == old(grid)@[nb as int].cost);
                assert(cost + neighbor_cost <= 5 * order@.len());
                assert(5 * order@.len() <= 5 * n);
            }
            let next_cost = cost.saturating_add(neighbor_cost);
            let ghost d0 = dist@;
            if next_cost < dist[nb] {
                let ghost hp = heap@;
                dist.set(nb, next_cost);
                parent.set(nb, current);
                heap.push((next_cost, nb));
                proof {
                    assert(heap@ =~= hp.push((next_cost, nb)));
                    assert(heap@[hp.len() as int] == (next_cost, nb));
                    assert forall|v: int| 0 <= v < n && dist@[v] != u32::MAX && !closed@[v] implies #[trigger] heap_has(heap@, dist@[v], v) by {
                        if v != nb {
                            assert(heap_has(hp, d0[v], v));
                            let k0 = choose|k: int| 0 <= k < hp.len() && hp[k] == (d0[v], v as usize);
                            assert(heap@[k0] == hp[k0]);
                        }
                    }
                    assert forall|u: int, b: int| 0 <= u < n && u != current && closed@[u] && #[trigger] old(grid).adjacent(u, b) && old(grid).is_open(b) implies dist@[b] != u32::MAX by {
                        assert(d0[b] != u32::MAX);
                    }
                }
            }
            k += 1;
        }
        proof {
            old(grid).lemma_neighbor_list(current as int);
            assert forall|u: int, b: int| 0 <= u < n && closed@[u] && #[trigger] old(grid).adjacent(u, b) && old(grid).is_open(b) implies dist@[b] != u32::MAX by {
                if u == current {
                    assert(old(grid).neighbor_list(current as int).contains(b as usize));
                    let t = choose|t: int| 0 <= t < nbs@.len() && nbs@[t] == b as usize;
                    assert(dist@[nbs@[t] as int] != u32::MAX);
                }
            }
        }
    }
    let count = order.len();
    let ghost rank = Seq::new(n as nat, |j: int| dist@[j] as int);
    proof {
        assert forall|u: int| 0 <= u < parent@.len() && #[trigger] parent@[u] != NO_PARENT implies {
            &&& parent@[u] < parent@.len()
            &&& parent@[u] as int == start || parent@[parent@[u] as int] != NO_PARENT
            &&& rank[parent@[u] as int] < rank[u]
            &&& rank[start as int] <= rank[parent@[u] as int]
            &&& rank[u] - rank[start as int] < u32::MAX
        } by {
        }
    }
    let ghost g0 = *old(grid);
    proof {
        assert forall|s: int, e: int|
            #![trigger g0.start_at(s), g0.end_at(e)]
            g0.start_at(s) && g0.end_at(e) && s != e && g0.connected(s, e) implies closed@[end as int] by {
            assert(g0@[s].is_start && g0@[start as int].is_start);
            assert(g0@[e].is_end && g0@[end as int].is_end);
            if !found {
                assert forall|v: int| 0 <= v < n && dist@[v] != u32::MAX implies closed@[v] by {
                    if !closed@[v] {
                        assert(heap_has(heap@, dist@[v], v));
                    }
                }
                assert forall|v: int, b: int| 0 <= v < closed@.len() && closed@[v] && #[trigger] g0.adjacent(v, b) && g0.is_open(b) implies closed@[b] by {
                    assert(dist@[b] != u32::MAX);
                }
                assert(closed@[start as int]);
                let len = choose|len: nat| g0.has_walk(s, e, len);
                let p = choose|p: Seq<int>| #[trigger] g0.is_walk(p) && p.len() == len + 1 && p[0] == s && p.last() == e;
                lemma_closed_marks_walk(&g0, closed@, p, p.len() - 1);
            }
        }
        if closed@[end as int] && end != start {
            assert(parent@[end as int] != NO_PARENT);
        }
    }
    finish(grid, &parent, &order, count, start, end, Ghost(rank))
}

} // verus!
