use vstd::prelude::*;
use crate::algorithms::{
    NO_PARENT, count_unset, finish, lemma_count_unset_all, lemma_count_unset_le, lemma_count_unset_set,
    finds_path, lemma_closed_marks_walk, locate_endpoints, parent_edges_ok, search_outcome,
};
use crate::grid::Grid;
use crate::stats::Stats;

verus! {

/// The state of a depth-first search from `start`: `order` holds the cells expanded
/// so far, `rank` the place of each in `order` (`n` for cells not expanded yet).
pub open spec fn dfs_inv(
    g: &Grid,
    start: usize,
    n: usize,
    visited: Seq<bool>,
    parent: Seq<usize>,
    stack: Seq<usize>,
    order: Seq<usize>,
    rank: Seq<int>,
) -> bool {
    &&& g.wf()
    &&& g@.len() == n
    &&& g.start_at(start as int)
    &&& visited.len() == n
    &&& parent.len() == n
    &&& rank.len() == n
    &&& order.len() + count_unset(visited) == n
    &&& forall|k: int| 0 <= k < order.len() ==> #[trigger] order[k] < n
    &&& forall|k: int| 0 <= k < stack.len() ==> #[trigger] stack[k] < n && (stack[k] == start || parent[stack[k] as int] != NO_PARENT)
    &&& forall|v: int| 0 <= v < n ==> (#[trigger] visited[v] ==> 0 <= rank[v] < order.len()) && (!visited[v] ==> rank[v] == n)
    &&& order.len() > 0 ==> visited[start as int] && rank[start as int] == 0
    &&& order.len() == 0 ==> stack == seq![start] && forall|v: int| 0 <= v < n ==> #[trigger] parent[v] == NO_PARENT
    &&& forall|k: int| 0 <= k < order.len() ==> #[trigger] order[k] == start || parent[order[k] as int] != NO_PARENT
    &&& parent_edges_ok(g, parent)
    &&& forall|v: int| 0 <= v < n && #[trigger] visited[v] && v != start ==> parent[v] != NO_PARENT
    &&& forall|u: int|
        0 <= u < n && #[trigger] parent[u] != NO_PARENT ==> {
            &&& visited[parent[u] as int]
            &&& parent[u] as int == start || parent[parent[u] as int] != NO_PARENT
            &&& rank[parent[u] as int] < rank[u]
        }
}

/// Depth-first search from the start cell to the end cell over open cells, all steps
/// counting alike: the most recently discovered cell is expanded first, and a cell is
/// expanded at most once. Expanded cells other than the start are marked visited and
/// the path found is marked.
#[verifier::rlimit(100)]
pub fn run(grid: &mut Grid) -> (r: Stats)
    requires
        old(grid).wf(),
    ensures
        final(grid).wf(),
        final(grid).cols() == old(grid).cols(),
        final(grid).rows() == old(grid).rows(),
        search_outcome(old(grid), final(grid)@, r),
        finds_path(old(grid), r),
{
    let ends = locate_endpoints(grid);
    let (start, end) = match ends {
        Some(p) => p,
        None => return Stats::default(),
    };
    let n = grid.size();
    let mut visited: Vec<bool> = Vec::new();
    let mut parent: Vec<usize> = Vec::new();
    let mut i: usize = 0;
    while i < n
        invariant
            i <= n,
            visited@ == Seq::new(i as nat, |j: int| false),
            parent@ == Seq::new(i as nat, |j: int| NO_PARENT),
        decreases n - i,
    {
        visited.push(false);
        parent.push(NO_PARENT);
        i += 1;
        assert(visited@ =~= Seq::new(i as nat, |j: int| false));
        assert(parent@ =~= Seq::new(i as nat, |j: int| NO_PARENT));
    }
    let mut stack: Vec<usize> = Vec::new();
    let mut order: Vec<usize> = Vec::new();
    let ghost mut rank: Seq<int> = Seq::new(n as nat, |j: int| n as int);
    stack.push(start);
    proof {
        lemma_count_unset_all(n as nat);
        assert(stack@ =~= seq![start]);
    }
    let mut found = false;
    while stack.len() > 0
        invariant_except_break
            !found,
            !visited@[end as int],
            forall|v: int, b: int|
                0 <= v < n && visited@[v] && #[trigger] old(grid).adjacent(v, b) && old(grid).is_open(b) ==> visited@[b]
                    || stack@.contains(b as usize),
        invariant
            *grid == *old(grid),
            old(grid).end_at(end as int),
            dfs_inv(old(grid), start, n, visited@, parent@, stack@, order@, rank),
            order@.len() > 0 || stack@.len() > 0,
            n < u32::MAX,
        ensures
            dfs_inv(old(grid), start, n, visited@, parent@, stack@, order@, rank),
            order@.len() >= 1,
            found ==> visited@[end as int],
            !found ==> stack@.len() == 0 && forall|v: int, b: int|
                0 <= v < n && visited@[v] && #[trigger] old(grid).adjacent(v, b) && old(grid).is_open(b) ==> visited@[b],
        decreases count_unset(visited@), stack@.len(),
    {
        let ghost s0 = stack@;
        let current = stack.pop().unwrap();
        proof {
            assert(current == s0[s0.len() - 1]);
            assert(stack@ =~= s0.drop_last());
        }
        proof {
            assert forall|v: int, b: int|
                0 <= v < n && visited@[v] && #[trigger] old(grid).adjacent(v, b) && old(grid).is_open(b) implies visited@[b]
                    || stack@.contains(b as usize) || b == current by {
                if !visited@[b] && b != current {
                    let i = choose|i: int| 0 <= i < s0.len() && s0[i] == b as usize;
                    assert(i != s0.len() - 1);
                    assert(stack@[i] == b as usize);
                }
            }
        }
        if visited[current] {
            continue;
        }
        let ghost old_visited = visited@;
        visited.set(current, true);
        proof {
            lemma_count_unset_set(old_visited, current as int);
            lemma_count_unset_le(visited@);
            rank = rank.update(current as int, order@.len() as int);
        }
        order.push(current);
        proof {
            assert(order@[order@.len() - 1] == current);
        }
        if current == end {
            found = true;
            break;
        }
        let nbs = grid.neighbors(current);
        let mut k: usize = 0;
        while k < nbs.len()
            invariant
                *grid == *old(grid),
                nbs@ == old(grid).neighbor_list(current as int),
                k <= nbs@.len(),
                0 <= current < n,
                visited@[current as int],
                current == start || parent@[current as int] != NO_PARENT,
                rank[current as int] == order@.len() - 1,
                order@.len() > 0,
                dfs_inv(old(grid), start, n, visited@, parent@, stack@, order@, rank),
                current != end,
                !visited@[end as int],
                forall|v: int, b: int|
                    0 <= v < n && visited@[v] && v != current && #[trigger] old(grid).adjacent(v, b) && old(grid).is_open(b)
                        ==> visited@[b] || stack@.contains(b as usize),
                forall|j: int| 0 <= j < k ==> visited@[#[trigger] nbs@[j] as int] || stack@.contains(nbs@[j]),
            decreases nbs@.len() - k,
        {
            let nb = nbs[k];
            proof {
                old(grid).lemma_neighbor_list(current as int);
                assert(old(grid).adjacent(current as int, nbs@[k as int] as int));
            }
            let ghost s1 = stack@;
            if !visited[nb] {
                parent.set(nb, current);
                stack.push(nb);
                proof {
                    assert(stack@ =~= s1.push(nb));
                    assert(stack@[s1.len() as int] == nb);
                    assert forall|x: usize| s1.contains(x) implies stack@.contains(x) by {
                        let i = choose|i: int| 0 <= i < s1.len() && s1[i] == x;
                        assert(stack@[i] == x);
                    }
                }
            }
            k += 1;
        }
        proof {
            old(grid).lemma_neighbor_list(current as int);
            assert forall|v: int, b: int|
                0 <= v < n && visited@[v] && #[trigger] old(grid).adjacent(v, b) && old(grid).is_open(b) implies visited@[b]
                    || stack@.contains(b as usize) by {
                if v == current {
                    assert(old(grid).neighbor_list(current as int).contains(b as usize));
                    let t = choose|t: int| 0 <= t < nbs@.len() && nbs@[t] == b as usize;
                    assert(visited@[nbs@[t] as int] || stack@.contains(nbs@[t]));
                }
            }
        }
    }
    let count = order.len();
    proof {
        let g0 = *old(grid);
        assert(dfs_inv(&g0, start, n, visited@, parent@, stack@, order@, rank));
        assert(order@.len() >= 1);
        assert forall|u: int| 0 <= u < parent@.len() && #[trigger] parent@[u] != NO_PARENT implies {
            &&& parent@[u] < parent@.len()
            &&& parent@[u] as int == start || parent@[parent@[u] as int] != NO_PARENT
            &&& rank[parent@[u] as int] < rank[u]
            &&& rank[start as int] <= rank[parent@[u] as int]
            &&& rank[u] - rank[start as int] < u32::MAX
        } by {
            assert(visited@[parent@[u] as int]);
            assert(0 <= rank[parent@[u] as int]);
            if visited@[u] {
                assert(rank[u] < order@.len());
            }
            assert(order@.len() <= n);
        }
    }
    let ghost g0 = *old(grid);
    proof {
        assert(g0.start_at(start as int) && g0.end_at(end as int));
        assert forall|s: int, e: int|
            #![trigger g0.start_at(s), g0.end_at(e)]
            g0.start_at(s) && g0.end_at(e) && s != e && g0.connected(s, e) implies visited@[end as int] by {
            assert(g0@[s].is_start && g0@[start as int].is_start);
            assert(g0@[e].is_end && g0@[end as int].is_end);
            if !found {
                let len = choose|len: nat| g0.has_walk(s, e, len);
                let p = choose|p: Seq<int>| #[trigger] g0.is_walk(p) && p.len() == len + 1 && p[0] == s && p.last() == e;
                lemma_closed_marks_walk(&g0, visited@, p, p.len() - 1);
            }
        }
        if visited@[end as int] && end != start {
            assert(parent@[end as int] != NO_PARENT);
        }
    }
    finish(grid, &parent, &order, count, start, end, Ghost(rank))
}

} // verus!
