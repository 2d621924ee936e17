use vstd::prelude::*;
use crate::grid::{Cell, Grid, same_layout};
use crate::stats::Stats;

pub mod bfs;
pub mod dfs;
pub mod dijkstra;
pub mod astar;

verus! {

/// Sentinel of a parent map: no parent recorded.
pub const NO_PARENT: usize = usize::MAX;

/// One step up a parent map: the recorded parent of `v`, or -1 where `v` is off the
/// map, has no parent, or its parent is off the map.
pub open spec fn step(parent: Seq<usize>, v: int) -> int {
    if 0 <= v < parent.len() && parent[v] != NO_PARENT && parent[v] < parent.len() {
        parent[v] as int
    } else {
        -1
    }
}

/// The cell reached from `v` after `k` steps up the parent map (-1 once broken).
pub open spec fn follow(parent: Seq<usize>, v: int, k: nat) -> int
    decreases k,
{
    if k == 0 {
        v
    } else {
        follow(parent, step(parent, v), (k - 1) as nat)
    }
}

/// Following the parent map from `end` reaches `start` for the first time after
/// exactly `k` steps.
pub open spec fn chain_ok(parent: Seq<usize>, start: int, end: int, k: nat) -> bool {
    &&& follow(parent, end, k) == start
    &&& forall|j: nat| j < k ==> #[trigger] follow(parent, end, j) != start && follow(parent, end, j) >= 0
}

/// Every recorded parent edge `parent[v] -> v` is a step of the grid into an open cell.
pub open spec fn parent_edges_ok(g: &Grid, parent: Seq<usize>) -> bool {
    &&& parent.len() == g@.len()
    &&& forall|v: int|
        0 <= v < parent.len() && #[trigger] parent[v] != NO_PARENT ==> {
            &&& parent[v] < parent.len()
            &&& g.adjacent(parent[v] as int, v)
            &&& g.is_open(v)
        }
}

/// `after` differs from `before` only in path marks that were added.
pub open spec fn only_paths_added(before: Seq<Cell>, after: Seq<Cell>) -> bool {
    &&& before.len() == after.len()
    &&& forall|i: int|
        0 <= i < before.len() ==> #[trigger] after[i] == Cell { is_path: after[i].is_path, ..before[i] }
            && (before[i].is_path ==> after[i].is_path)
}

/// `p` is a walk of `len` steps from `s` to `e` through distinct cells, and the path
/// marks of `after` are those of `before` together with the cells of `p` strictly
/// between its ends.
pub open spec fn marked_walk(before: &Grid, after: Seq<Cell>, p: Seq<int>, s: int, e: int, len: nat) -> bool {
    &&& before.is_walk(p)
    &&& p.len() == len + 1
    &&& p[0] == s
    &&& p.last() == e
    &&& p.no_duplicates()
    &&& after.len() == before@.len()
    &&& forall|i: int|
        0 <= i < before@.len() ==> #[trigger] after[i].is_path == (before@[i].is_path || exists|t: int|
            1 <= t < len && p[t] == i)
}

/// What every search run leaves behind, given the grid before it, the cells after it
/// and the statistics it returned.
pub open spec fn search_outcome(before: &Grid, after: Seq<Cell>, r: Stats) -> bool {
    &&& same_layout(before@, after)
    &&& forall|i: int|
        0 <= i < before@.len() ==> (#[trigger] before@[i].is_visited ==> after[i].is_visited) && (
        before@[i].is_path ==> after[i].is_path)
    &&& if !before.has_start() || !before.has_end() {
        r == Stats::zero() && after == before@
    } else {
        forall|s: int, e: int|
            #![trigger before.start_at(s), before.end_at(e)]
            before.start_at(s) && before.end_at(e) ==> {
                &&& r.nodes_explored >= 1
                &&& r.path_found == (r.path_length > 0)
                &&& after[s].is_visited == before@[s].is_visited
                &&& (s == e ==> r.path_length == 0)
                &&& (r.path_length > 0 ==> before.has_walk(s, e, r.path_length as nat))
                &&& (r.path_length > 0 ==> exists|p: Seq<int>| #[trigger] marked_walk(before, after, p, s, e, r.path_length as nat))
                &&& forall|i: int|
                    0 <= i < before@.len() && #[trigger] after[i].is_visited && !before@[i].is_visited ==> before.connected(s, i)
                &&& (r.path_length == 0 ==> forall|i: int|
                    0 <= i < before@.len() ==> #[trigger] after[i].is_path == before@[i].is_path)
            }
    }
}

/// When no walk joins the start to the end, a run on a grid without path marks finds
/// no path and leaves no path marks.
pub proof fn lemma_disconnected_no_path(before: &Grid, after: Seq<Cell>, r: Stats, s: int, e: int)
    requires
        search_outcome(before, after, r),
        before.start_at(s),
        before.end_at(e),
        !before.connected(s, e),
        forall|i: int| 0 <= i < before@.len() ==> !(#[trigger] before@[i]).is_path,
    ensures
        r.path_length == 0,
        !r.path_found,
        forall|i: int| 0 <= i < after.len() ==> !(#[trigger] after[i]).is_path,
{
    assert(before.has_start() && before.has_end());
    if r.path_length > 0 {
        assert(before.has_walk(s, e, r.path_length as nat));
    }
    assert forall|i: int| 0 <= i < after.len() implies !(#[trigger] after[i]).is_path by {
        assert(after[i].is_path == before@[i].is_path);
    }
}

/// Where start and end are connected and distinct a path is found.
pub open spec fn finds_path(before: &Grid, r: Stats) -> bool {
    forall|s: int, e: int|
        #![trigger before.start_at(s), before.end_at(e)]
        before.start_at(s) && before.end_at(e) && s != e && before.connected(s, e) ==> r.path_length > 0
}

/// `follow` can also be unrolled at its last step.
pub proof fn lemma_follow_last(parent: Seq<usize>, v: int, k: nat)
    ensures
        follow(parent, v, k + 1) == step(parent, follow(parent, v, k)),
    decreases k,
{
    assert(follow(parent, v, k + 1) == follow(parent, step(parent, v), k));
    if k > 0 {
        assert(follow(parent, v, k) == follow(parent, step(parent, v), (k - 1) as nat));
        lemma_follow_last(parent, step(parent, v), (k - 1) as nat);
    }
}

/// Where every recorded parent has a strictly smaller rank, no smaller than the rank
/// of `start`, and is itself `start` or has a parent, the chain from any cell with a
/// parent reaches `start` within the difference of their ranks.
pub proof fn lemma_chain_reaches(parent: Seq<usize>, rank: Seq<int>, start: int, v: int)
    requires
        0 <= start < parent.len(),
        0 <= v < parent.len(),
        rank.len() == parent.len(),
        v == start || parent[v] != NO_PARENT,
        forall|u: int|
            0 <= u < parent.len() && #[trigger] parent[u] != NO_PARENT ==> {
                &&& parent[u] < parent.len()
                &&& parent[u] as int == start || parent[parent[u] as int] != NO_PARENT
                &&& rank[parent[u] as int] < rank[u]
                &&& rank[start] <= rank[parent[u] as int]
            },
    ensures
        exists|k: nat| k <= rank[v] - rank[start] && #[trigger] chain_ok(parent, start, v, k),
    decreases rank[v] - rank[start],
{
    if v == start {
        assert(chain_ok(parent, start, v, 0));
    } else {
        let u = parent[v] as int;
        assert(step(parent, v) == u);
        lemma_chain_reaches(parent, rank, start, u);
        let k0 = choose|k: nat| k <= rank[u] - rank[start] && #[trigger] chain_ok(parent, start, u, k);
        let k = k0 + 1;
        assert forall|j: nat| j < k implies #[trigger] follow(parent, v, j) != start && follow(parent, v, j) >= 0 by {
            if j > 0 {
                assert(follow(parent, v, j) == follow(parent, u, (j - 1) as nat));
                assert(follow(parent, u, (j - 1) as nat) != start);
            }
        }
        assert(follow(parent, v, k) == follow(parent, u, k0));
        assert(chain_ok(parent, start, v, k));
    }
}

/// Number of `false` entries.
pub open spec fn count_unset(s: Seq<bool>) -> nat
    decreases s.len(),
{
    if s.len() == 0 {
        0
    } else {
        count_unset(s.drop_last()) + if s.last() { 0nat } else { 1nat }
    }
}

/// Setting an unset entry lowers the count by one.
pub proof fn lemma_count_unset_set(s: Seq<bool>, i: int)
    requires
        0 <= i < s.len(),
        !s[i],
    ensures
        count_unset(s.update(i, true)) + 1 == count_unset(s),
    decreases s.len(),
{
    let t = s.update(i, true);
    if i < s.len() - 1 {
        assert(t.drop_last() =~= s.drop_last().update(i, true));
        lemma_count_unset_set(s.drop_last(), i);
    } else {
        assert(t.drop_last() =~= s.drop_last());
    }
}

/// The count is at most the length.
pub proof fn lemma_count_unset_le(s: Seq<bool>)
    ensures
        count_unset(s) <= s.len(),
    decreases s.len(),
{
    if s.len() > 0 {
        lemma_count_unset_le(s.drop_last());
    }
}

/// All `n` entries of an all-false sequence are unset.
pub proof fn lemma_count_unset_all(n: nat)
    ensures
        count_unset(Seq::new(n, |j: int| false)) == n,
    decreases n,
{
    if n > 0 {
        assert(Seq::new(n, |j: int| false).drop_last() =~= Seq::new((n - 1) as nat, |j: int| false));
        lemma_count_unset_all((n - 1) as nat);
    }
}

/// Where every step out of a marked cell leads to a marked cell, a walk from a marked
/// cell stays on marked cells.
pub proof fn lemma_closed_marks_walk(g: &Grid, marked: Seq<bool>, p: Seq<int>, j: int)
    requires
        g.is_walk(p),
        marked.len() == g@.len(),
        marked[p[0]],
        forall|v: int, b: int| 0 <= v < marked.len() && marked[v] && #[trigger] g.adjacent(v, b) && g.is_open(b) ==> marked[b],
        0 <= j < p.len(),
    ensures
        marked[p[j]],
    decreases j,
{
    if j > 0 {
        lemma_closed_marks_walk(g, marked, p, j - 1);
        let k = j - 1;
        assert(g.adjacent(p[k], p[k + 1]) && g.is_open(p[k + 1]));
    }
}

/// Following `a` steps and then `b` steps is following `a + b` steps.
pub proof fn lemma_follow_add(parent: Seq<usize>, v: int, a: nat, b: nat)
    ensures
        follow(parent, v, a + b) == follow(parent, follow(parent, v, a), b),
    decreases a,
{
    if a > 0 {
        assert(follow(parent, v, a + b) == follow(parent, step(parent, v), (a - 1 + b) as nat));
        lemma_follow_add(parent, step(parent, v), (a - 1) as nat, b);
    }
}

/// The cells of a chain up to the first arrival at `start` are distinct.
pub proof fn lemma_chain_distinct(parent: Seq<usize>, start: int, end: int, k: nat)
    requires
        chain_ok(parent, start, end, k),
    ensures
        forall|i: nat, j: nat| i < j <= k ==> #[trigger] follow(parent, end, i) != #[trigger] follow(parent, end, j),
{
    assert forall|i: nat, j: nat| i < j <= k implies #[trigger] follow(parent, end, i) != #[trigger] follow(parent, end, j) by {
        if follow(parent, end, i) == follow(parent, end, j) {
            let t = (k - j) as nat;
            lemma_follow_add(parent, end, i, t);
            lemma_follow_add(parent, end, j, t);
            assert(follow(parent, end, i + t) == follow(parent, end, k));
            assert(follow(parent, end, i + t) != start);
        }
    }
}

/// A chain that first reaches `start` after `k` steps passes through `k` distinct cells
/// of the map before it, so `k` is at most the map's length.
pub proof fn lemma_chain_short(parent: Seq<usize>, start: int, end: int, k: nat)
    requires
        chain_ok(parent, start, end, k),
        0 <= end < parent.len(),
    ensures
        k <= parent.len(),
{
    let s = Seq::new(k, |j: int| follow(parent, end, j as nat));
    assert forall|i: int, j: int| 0 <= i < j < s.len() implies s[i] != s[j] by {
        if s[i] == s[j] {
            let t = (k - j) as nat;
            lemma_follow_add(parent, end, i as nat, t);
            lemma_follow_add(parent, end, j as nat, t);
            assert(follow(parent, end, (i + t) as nat) == follow(parent, end, k));
            assert(follow(parent, end, (i + t) as nat) != start);
        }
    }
    assert(s.no_duplicates());
    s.unique_seq_to_set();
    assert forall|x: int| s.to_set().contains(x) implies vstd::set_lib::set_int_range(0, parent.len() as int).contains(x) by {
        let j = choose|j: int| 0 <= j < s.len() && s[j] == x;
        assert(follow(parent, end, j as nat) >= 0);
        if j > 0 {
            lemma_follow_last(parent, end, (j - 1) as nat);
            assert(follow(parent, end, (j - 1) as nat) >= 0);
        }
    }
    vstd::set_lib::lemma_int_range(0, parent.len() as int);
    vstd::set_lib::lemma_len_subset(s.to_set(), vstd::set_lib::set_int_range(0, parent.len() as int));
}

/// A broken chain stays broken.
pub proof fn lemma_follow_broken(parent: Seq<usize>, k: nat)
    ensures
        follow(parent, -1, k) == -1,
    decreases k,
{
    if k > 0 {
        lemma_follow_broken(parent, (k - 1) as nat);
    }
}

/// The first `k` steps of the chain from `end`, read backwards.
pub open spec fn chain_walk(parent: Seq<usize>, end: int, k: nat) -> Seq<int> {
    Seq::new(k + 1, |i: int| follow(parent, end, (k - i) as nat))
}

/// A parent chain over valid edges, read backwards, is a walk from `start` to `end`.
pub proof fn lemma_chain_walk(g: &Grid, parent: Seq<usize>, start: int, end: int, k: nat)
    requires
        parent_edges_ok(g, parent),
        chain_ok(parent, start, end, k),
        0 <= start < g@.len(),
        0 <= end < g@.len(),
    ensures
        g.has_walk(start, end, k),
        g.is_walk(chain_walk(parent, end, k)),
{
    let p = chain_walk(parent, end, k);
    assert forall|i: int| 0 <= i < p.len() - 1 implies #[trigger] g.adjacent(p[i], p[i + 1]) && g.is_open(
        p[i + 1],
    ) by {
        let j = (k - i - 1) as nat;
        let v = follow(parent, end, j);
        lemma_follow_last(parent, end, j);
        assert(follow(parent, end, j) >= 0);
        assert(p[i] == follow(parent, end, j + 1));
        assert(p[i + 1] == v);
        assert(step(parent, v) == p[i]);
        if i > 0 {
            assert(follow(parent, end, (k - i) as nat) >= 0);
        }
        assert(p[i] >= 0);
        assert(0 <= v < parent.len() && parent[v] != NO_PARENT);
        assert(parent[v] as int == p[i]);
    }
    assert(p[0] == start);
    if k > 0 {
        assert(follow(parent, end, 0) >= 0);
    }
    assert(p.last() == end);
    assert(p.len() >= 1 && 0 <= p[0] < g@.len());
    assert(g.is_walk(p));
    assert(p.len() == k + 1);
}

/// The chain that `reconstruct_path` walked, read backwards, is a walk through distinct
/// cells whose inner cells are exactly the path marks it added.
pub proof fn lemma_marked_walk(g: &Grid, after: Seq<Cell>, parent: Seq<usize>, start: int, end: int, k: nat)
    requires
        g.wf(),
        parent_edges_ok(g, parent),
        chain_ok(parent, start, end, k),
        k > 0,
        g.start_at(start),
        g.end_at(end),
        after.len() == g@.len(),
        forall|i: int|
            0 <= i < g@.len() ==> #[trigger] after[i].is_path == (g@[i].is_path || (!g@[i].is_end && exists|j: nat|
                j < k && follow(parent, end, j) == i)),
    ensures
        exists|p: Seq<int>| #[trigger] marked_walk(g, after, p, start, end, k),
{
    lemma_chain_walk(g, parent, start, end, k);
    lemma_chain_distinct(parent, start, end, k);
    let p = chain_walk(parent, end, k);
    assert(p[0] == start && p.last() == end);
    assert forall|a: int, b: int| 0 <= a < p.len() && 0 <= b < p.len() && a != b implies p[a] != p[b] by {
        if a < b {
            assert(follow(parent, end, (k - b) as nat) != follow(parent, end, (k - a) as nat));
        } else {
            assert(follow(parent, end, (k - a) as nat) != follow(parent, end, (k - b) as nat));
        }
    }
    assert(p.no_duplicates());
    assert forall|i: int| 0 <= i < g@.len() implies #[trigger] after[i].is_path == (g@[i].is_path || exists|t: int|
        1 <= t < k && p[t] == i) by {
        if !g@[i].is_end && exists|j: nat| j < k && follow(parent, end, j) == i {
            let j = choose|j: nat| j < k && follow(parent, end, j) == i;
            if j == 0 {
                assert(follow(parent, end, 0) == end);
            }
            let t = k - j;
            assert(p[t] == i);
        }
        if exists|t: int| 1 <= t < k && p[t] == i {
            let t = choose|t: int| 1 <= t < k && p[t] == i;
            let j = (k - t) as nat;
            assert(follow(parent, end, j) == i);
            assert(follow(parent, end, 0) == end);
            assert(follow(parent, end, 0) != follow(parent, end, j));
            if g@[i].is_end {
                assert(g@[i].is_end && g@[end].is_end);
            }
        }
    }
    assert(marked_walk(g, after, p, start, end, k));
}

/// Walks back from `end` along `parent` to `start`, marking each cell on the way,
/// except an end cell, as path, and returns the number of steps. Returns 0 without
/// marking when `end` has no parent and is not `start`, and 0 when the chain breaks
/// or runs on for as many steps as the grid has cells (it then repeats a cell).
pub fn reconstruct_path(grid: &mut Grid, parent: &Vec<usize>, start: usize, end: usize) -> (r: u32)
    requires
        old(grid).wf(),
        parent@.len() == old(grid)@.len(),
        start < old(grid)@.len(),
        end < old(grid)@.len(),
    ensures
        final(grid).wf(),
        final(grid).cols() == old(grid).cols(),
        final(grid).rows() == old(grid).rows(),
        only_paths_added(old(grid)@, final(grid)@),
        (parent@[end as int] == NO_PARENT || end == start) && r == 0 ==> final(grid)@ == old(grid)@,
        end == start ==> r == 0,
        r > 0 ==> chain_ok(parent@, start as int, end as int, r as nat),
        forall|k: nat| 0 < k < u32::MAX && #[trigger] chain_ok(parent@, start as int, end as int, k) ==> r == k,
        r > 0 ==> forall|i: int|
            0 <= i < old(grid)@.len() ==> #[trigger] final(grid)@[i].is_path == (old(grid)@[i].is_path || (
            !old(grid)@[i].is_end && exists|j: nat| j < r && follow(parent@, end as int, j) == i)),
{
    let n = grid.size();
    if end == start {
        proof {
            assert(follow(parent@, end as int, 0) == end);
        }
        return 0;
    }
    if parent[end] == NO_PARENT {
        proof {
            assert forall|k: nat| 0 < k < u32::MAX implies !#[trigger] chain_ok(parent@, start as int, end as int, k) by {
                lemma_follow_broken(parent@, (k - 1) as nat);
            }
        }
        return 0;
    }
    let mut length: u32 = 0;
    let mut current = end;
    while current != start
        invariant
            grid.wf(),
            grid.cols() == old(grid).cols(),
            grid.rows() == old(grid).rows(),
            n == grid@.len(),
            n == parent@.len(),
            n <= u32::MAX,
            start < n,
            end < n,
            end != start,
            parent@[end as int] != NO_PARENT,
            current < n,
            length <= n,
            current as int == follow(parent@, end as int, length as nat),
            forall|j: nat| j < length ==> #[trigger] follow(parent@, end as int, j) != start && follow(parent@, end as int, j) >= 0,
            only_paths_added(old(grid)@, grid@),
            length == 0 ==> grid@ == old(grid)@,
            forall|i: int|
                0 <= i < n ==> #[trigger] grid@[i].is_path == (old(grid)@[i].is_path || (!old(grid)@[i].is_end
                    && exists|j: nat| j < length && follow(parent@, end as int, j) == i)),
        decreases n - length,
    {
        if length as usize >= n {
            proof {
                assert forall|k: nat| 0 < k < u32::MAX implies !#[trigger] chain_ok(parent@, start as int, end as int, k) by {
                    if chain_ok(parent@, start as int, end as int, k) {
                        lemma_chain_short(parent@, start as int, end as int, k);
                        assert(k < length || k == length);
                        if k < length {
                            assert(follow(parent@, end as int, k) != start);
                        }
                    }
                }
            }
            return 0;
        }
        let c = grid.cell(current);
        if !c.is_end {
            grid.mark_path(current);
        }
        proof {
            assert forall|i: int|
                0 <= i < n implies #[trigger] grid@[i].is_path == (old(grid)@[i].is_path || (!old(grid)@[i].is_end
                    && exists|j: nat| j < length + 1 && follow(parent@, end as int, j) == i)) by {
                if i == current && !old(grid)@[i].is_end {
                    assert(follow(parent@, end as int, length as nat) == i);
                }
                if exists|j: nat| j < length + 1 && follow(parent@, end as int, j) == i {
                    let j = choose|j: nat| j < length + 1 && follow(parent@, end as int, j) == i;
                    if j < length {
                    } else {
                        assert(i == current);
                    }
                }
            }
        }
        let next = parent[current];
        length += 1;
        proof {
            lemma_follow_last(parent@, end as int, (length - 1) as nat);
        }
        if next == NO_PARENT || next >= n {
            proof {
                assert forall|k: nat| 0 < k < u32::MAX implies !#[trigger] chain_ok(parent@, start as int, end as int, k) by {
                    if chain_ok(parent@, start as int, end as int, k) {
                        if k < length {
                            assert(follow(parent@, end as int, k) != start);
                        } else if k == length {
                        } else {
                            assert(follow(parent@, end as int, length as nat) >= 0);
                        }
                    }
                }
            }
            return 0;
        }
        current = next;
    }
    proof {
        assert forall|k: nat| 0 < k < u32::MAX && #[trigger] chain_ok(parent@, start as int, end as int, k) implies length == k by {
            if k < length {
                assert(follow(parent@, end as int, k) != start);
            } else if k > length {
                assert(follow(parent@, end as int, length as nat) != start);
            }
        }
    }
    length
}

/// Marks the first `count` cells of `order` visited, all but `start`.
pub fn mark_expanded(grid: &mut Grid, order: &Vec<usize>, count: usize, start: usize)
    requires
        old(grid).wf(),
        count <= order@.len(),
        forall|k: int| 0 <= k < count ==> #[trigger] order@[k] < old(grid)@.len(),
    ensures
        final(grid).wf(),
        final(grid).cols() == old(grid).cols(),
        final(grid).rows() == old(grid).rows(),
        final(grid)@.len() == old(grid)@.len(),
        forall|i: int|
            0 <= i < old(grid)@.len() ==> #[trigger] final(grid)@[i] == (Cell {
                is_visited: old(grid)@[i].is_visited || (i != start && exists|k: int|
                    0 <= k < count && order@[k] == i),
                ..old(grid)@[i]
            }),
{
    let mut k: usize = 0;
    while k < count
        invariant
            grid.wf(),
            grid.cols() == old(grid).cols(),
            grid.rows() == old(grid).rows(),
            grid@.len() == old(grid)@.len(),
            k <= count,
            count <= order@.len(),
            forall|j: int| 0 <= j < count ==> #[trigger] order@[j] < old(grid)@.len(),
            forall|i: int|
                0 <= i < old(grid)@.len() ==> #[trigger] grid@[i] == (Cell {
                    is_visited: old(grid)@[i].is_visited || (i != start && exists|j: int|
                        0 <= j < k && order@[j] == i),
                    ..old(grid)@[i]
                }),
        decreases count - k,
    {
        let v = order[k];
        if v != start {
            grid.mark_visited(v);
        }
        proof {
            assert forall|i: int|
                0 <= i < old(grid)@.len() implies #[trigger] grid@[i] == (Cell {
                    is_visited: old(grid)@[i].is_visited || (i != start && exists|j: int|
                        0 <= j < k + 1 && order@[j] == i),
                    ..old(grid)@[i]
                }) by {
                if i == v {
                    assert(order@[k as int] == i);
                }
                if exists|j: int| 0 <= j < k + 1 && order@[j] == i {
                    let j = choose|j: int| 0 <= j < k + 1 && order@[j] == i;
                    if j == k {
                        assert(i == v);
                    }
                }
            }
        }
        k += 1;
    }
}

/// Closes a search run: marks the first `count` cells of `order` visited (all but the
/// start), rebuilds the path from `parent`, and reports. `rank` strictly grows along
/// each recorded parent edge, which keeps every chain finite.
pub fn finish(
    grid: &mut Grid,
    parent: &Vec<usize>,
    order: &Vec<usize>,
    count: usize,
    start: usize,
    end: usize,
    rank: Ghost<Seq<int>>,
) -> (r: Stats)
    requires
        old(grid).wf(),
        old(grid).start_at(start as int),
        old(grid).end_at(end as int),
        1 <= count <= order@.len(),
        count <= old(grid)@.len(),
        forall|k: int| 0 <= k < count ==> #[trigger] order@[k] < old(grid)@.len(),
        forall|k: int| 0 <= k < count ==> #[trigger] order@[k] == start || parent@[order@[k] as int] != NO_PARENT,
        parent_edges_ok(old(grid), parent@),
        rank@.len() == parent@.len(),
        forall|u: int|
            0 <= u < parent@.len() && #[trigger] parent@[u] != NO_PARENT ==> {
                &&& parent@[u] < parent@.len()
                &&& parent@[u] as int == start || parent@[parent@[u] as int] != NO_PARENT
                &&& rank@[parent@[u] as int] < rank@[u]
                &&& rank@[start as int] <= rank@[parent@[u] as int]
                &&& rank@[u] - rank@[start as int] < u32::MAX
            },
    ensures
        final(grid).wf(),
        final(grid).cols() == old(grid).cols(),
        final(grid).rows() == old(grid).rows(),
        search_outcome(old(grid), final(grid)@, r),
        r.nodes_explored == count,
        parent@[end as int] != NO_PARENT && end != start ==> r.path_length > 0,
{
    let ghost g0 = *old(grid);
    mark_expanded(grid, order, count, start);
    let ghost g1 = *grid;
    let path_length = reconstruct_path(grid, parent, start, end);
    proof {
        assert forall|s: int, e: int| g0.start_at(s) && g0.end_at(e) implies s == start && e == end by {
            assert(g0@[s].is_start && g0@[start as int].is_start);
            assert(g0@[e].is_end && g0@[end as int].is_end);
        }
        if parent@[end as int] != NO_PARENT {
            lemma_chain_reaches(parent@, rank@, start as int, end as int);
            let k = choose|k: nat| k <= rank@[end as int] - rank@[start as int] && #[trigger] chain_ok(parent@, start as int, end as int, k);
            if end != start {
                assert(follow(parent@, end as int, 0) == end);
                assert(k > 0);
                assert(path_length == k);
            }
        }
        if path_length > 0 {
            lemma_chain_walk(&g0, parent@, start as int, end as int, path_length as nat);
            lemma_marked_walk(&g0, grid@, parent@, start as int, end as int, path_length as nat);
        } else {
            assert(grid@ == g1@);
        }
        assert(same_layout(g0@, grid@));
        assert(g0.has_start() && g0.has_end());
        assert forall|i: int| 0 <= i < g0@.len() && #[trigger] grid@[i].is_visited && !g0@[i].is_visited implies g0.connected(start as int, i) by {
            let k = choose|k: int| 0 <= k < count && order@[k] == i;
            assert(order@[k] == start || parent@[order@[k] as int] != NO_PARENT);
            lemma_chain_reaches(parent@, rank@, start as int, i);
            let c = choose|c: nat| c <= rank@[i] - rank@[start as int] && #[trigger] chain_ok(parent@, start as int, i, c);
            lemma_chain_walk(&g0, parent@, start as int, i, c);
        }
    }
    Stats { nodes_explored: count as u32, path_length, path_found: path_length > 0 }
}

/// Frontier entry `a` comes out no later than `b`: smaller key first, then smaller cell.
pub open spec fn entry_le(a: (u32, usize), b: (u32, usize)) -> bool {
    a.0 < b.0 || (a.0 == b.0 && a.1 <= b.1)
}

/// The position of the least entry of a non-empty frontier.
pub fn min_entry(heap: &Vec<(u32, usize)>) -> (i: usize)
    requires
        heap@.len() > 0,
    ensures
        i < heap@.len(),
        forall|k: int| 0 <= k < heap@.len() ==> entry_le(heap@[i as int], #[trigger] heap@[k]),
{
    let mut best: usize = 0;
    let mut k: usize = 1;
    while k < heap.len()
        invariant
            1 <= k <= heap@.len(),
            best < k,
            forall|j: int| 0 <= j < k ==> entry_le(heap@[best as int], #[trigger] heap@[j]),
        decreases heap@.len() - k,
    {
        let (c, v) = heap[k];
        let (bc, bv) = heap[best];
        if c < bc || (c == bc && v < bv) {
            best = k;
        }
        k += 1;
    }
    best
}

/// Finds the start and the end cell.
pub fn locate_endpoints(grid: &Grid) -> (r: Option<(usize, usize)>)
    requires
        grid.wf(),
    ensures
        r matches Some((s, e)) ==> grid.start_at(s as int) && grid.end_at(e as int),
        r is None ==> !grid.has_start() || !grid.has_end(),
{
    let n = grid.size();
    let mut start: Option<usize> = None;
    let mut end: Option<usize> = None;
    let mut i: usize = 0;
    while i < n
        invariant
            i <= n,
            n == grid@.len(),
            start matches Some(s) ==> grid.start_at(s as int),
            start is None ==> forall|j: int| 0 <= j < i ==> !#[trigger] grid.start_at(j),
            end matches Some(e) ==> grid.end_at(e as int),
            end is None ==> forall|j: int| 0 <= j < i ==> !#[trigger] grid.end_at(j),
        decreases n - i,
    {
        let c = grid.cell(i);
        if c.is_start {
            start = Some(i);
        }
        if c.is_end {
            end = Some(i);
        }
        i += 1;
    }
    match (start, end) {
        (Some(s), Some(e)) => Some((s, e)),
        _ => None,
    }
}

} // verus!
