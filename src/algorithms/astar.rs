use vstd::prelude::*;
use crate::algorithms::{
    NO_PARENT, count_unset, finish, lemma_count_unset_all, lemma_count_unset_le, lemma_count_unset_set,
    finds_path, lemma_closed_marks_walk, locate_endpoints, min_entry, parent_edges_ok, search_outcome,
};
use crate::algorithms::bfs::bfs_shortest;
use crate::algorithms::dijkstra::heap_has;
use crate::grid::{Cell, Grid};
use crate::stats::Stats;

verus! {

/// `|a - b|`.
pub open spec fn abs_diff(a: int, b: int) -> int {
    if a >= b {
        a - b
    } else {
        b - a
    }
}

/// Rows plus columns between cells `idx` and `end` of a grid `width` cells wide.
pub open spec fn manhattan_spec(idx: int, end: int, width: int) -> int {
    abs_diff(idx / width, end / width) + abs_diff(idx % width, end % width)
}

/// Between two cells of a `width × height` grid lie fewer rows plus columns than the
/// grid has cells.
pub proof fn lemma_manhattan_bound(idx: int, end: int, width: int, height: int)
    requires
        width > 0,
        0 <= idx < width * height,
        0 <= end < width * height,
    ensures
        manhattan_spec(idx, end, width) < width * height,
{
    vstd::arithmetic::div_mod::lemma_fundamental_div_mod(idx, width);
    vstd::arithmetic::div_mod::lemma_fundamental_div_mod(end, width);
    let (r1, c1, r2, c2) = (idx / width, idx % width, end / width, end % width);
    assert(0 <= c1 < width && 0 <= c2 < width);
    assert(0 <= r1 < height) by (nonlinear_arith)
        requires
            idx == width * r1 + c1,
            0 <= c1 < width,
            0 <= idx < width * height,
            width > 0,
    ;
    assert(0 <= r2 < height) by (nonlinear_arith)
        requires
            end == width * r2 + c2,
            0 <= c2 < width,
            0 <= end < width * height,
            width > 0,
    ;
    assert((height - 1) + (width - 1) < width * height) by (nonlinear_arith)
        requires
            width > 0,
            height > 0,
    ;
}

/// Row and column of a cell of a `w × h` grid.
proof fn lemma_coords(x: int, w: int, h: int)
    requires
        w > 0,
        0 <= x < w * h,
    ensures
        0 <= x / w < h,
        0 <= x % w < w,
        x == (x / w) * w + x % w,
{
    vstd::arithmetic::div_mod::lemma_fundamental_div_mod(x, w);
    let (q, r) = (x / w, x % w);
    assert(x == q * w + r) by (nonlinear_arith)
        requires
            x == w * q + r,
    ;
    assert(0 <= q < h) by (nonlinear_arith)
        requires
            x == q * w + r,
            0 <= r < w,
            0 <= x < w * h,
    ;
}

/// A step of the grid moves one row or one column.
proof fn lemma_step_coords(g: &Grid, x: int, y: int)
    requires
        g.wf(),
        g.adjacent(x, y),
    ensures
        ({
            let w = g.cols() as int;
            (y / w == x / w && abs_diff(y % w, x % w) == 1) || (y % w == x % w && abs_diff(y / w, x / w) == 1)
        }),
{
    let w = g.cols() as int;
    let h = g.rows() as int;
    assert(w > 0) by (nonlinear_arith)
        requires
            g@.len() == g.cols() * g.rows(),
            w == g.cols(),
            0 <= x < g@.len(),
    ;
    lemma_coords(x, w, h);
    let (q, r) = (x / w, x % w);
    if y == x - w {
        assert(y == (q - 1) * w + r) by (nonlinear_arith)
            requires
                x == q * w + r,
                y == x - w,
        ;
        vstd::arithmetic::div_mod::lemma_fundamental_div_mod_converse(y, w, q - 1, r);
    } else if y == x + w {
        assert(y == (q + 1) * w + r) by (nonlinear_arith)
            requires
                x == q * w + r,
                y == x + w,
        ;
        vstd::arithmetic::div_mod::lemma_fundamental_div_mod_converse(y, w, q + 1, r);
    } else if y == x - 1 && r != 0 {
        vstd::arithmetic::div_mod::lemma_fundamental_div_mod_converse(y, w, q, r - 1);
    } else {
        vstd::arithmetic::div_mod::lemma_fundamental_div_mod_converse(y, w, q, r + 1);
    }
}

/// No walk from `p[i]` to its last cell is shorter than their Manhattan distance.
proof fn lemma_walk_at_least_manhattan(g: &Grid, p: Seq<int>, i: int)
    requires
        g.wf(),
        g.is_walk(p),
        0 <= i < p.len(),
        i == 0 || g.is_open(p[i]),
    ensures
        p.len() - 1 - i >= manhattan_spec(p[i], p.last(), g.cols() as int),
    decreases p.len() - i,
{
    if i < p.len() - 1 {
        let k = i;
        assert(0 <= k < p.len() - 1);
        assert(g.adjacent(p[k], p[k + 1]));
        lemma_walk_at_least_manhattan(g, p, i + 1);
        lemma_step_coords(g, p[i], p[i + 1]);
    }
}

/// On a grid without walls some walk from `a` to `e` is exactly as long as their
/// Manhattan distance.
proof fn lemma_open_grid_walk(g: &Grid, a: int, e: int)
    requires
        g.wf(),
        forall|i: int| 0 <= i < g@.len() ==> !(#[trigger] g@[i]).is_wall,
        0 <= a < g@.len(),
        0 <= e < g@.len(),
    ensures
        g.has_walk(a, e, manhattan_spec(a, e, g.cols() as int) as nat),
    decreases manhattan_spec(a, e, g.cols() as int),
{
    let w = g.cols() as int;
    let h = g.rows() as int;
    assert(w > 0) by (nonlinear_arith)
        requires
            g@.len() == g.cols() * g.rows(),
            w == g.cols(),
            0 <= a < g@.len(),
    ;
    lemma_coords(a, w, h);
    lemma_coords(e, w, h);
    let (q, r) = (a / w, a % w);
    if a == e {
        let p = seq![a];
        assert(g.is_walk(p));
    } else {
        let y = if q < e / w {
            a + w
        } else if q > e / w {
            a - w
        } else if r < e % w {
            a + 1
        } else {
            a - 1
        };
        if q < e / w {
            assert(a + w < g@.len()) by (nonlinear_arith)
                requires
                    a == q * w + r,
                    r < w,
                    q + 1 < h,
                    w > 0,
                    g@.len() == w * h,
            ;
            assert(y == (q + 1) * w + r) by (nonlinear_arith)
                requires
                    a == q * w + r,
                    y == a + w,
            ;
            vstd::arithmetic::div_mod::lemma_fundamental_div_mod_converse(y, w, q + 1, r);
        } else if q > e / w {
            assert(y == (q - 1) * w + r && y >= 0) by (nonlinear_arith)
                requires
                    a == q * w + r,
                    y == a - w,
                    q >= 1,
                    r >= 0,
                    w > 0,
            ;
            vstd::arithmetic::div_mod::lemma_fundamental_div_mod_converse(y, w, q - 1, r);
        } else if r < e % w {
            assert(a + 1 < g@.len()) by (nonlinear_arith)
                requires
                    a == q * w + r,
                    r + 1 < w,
                    q < h,
                    w > 0,
                    g@.len() == w * h,
            ;
            vstd::arithmetic::div_mod::lemma_fundamental_div_mod_converse(y, w, q, r + 1);
        } else {
            if r == e % w {
                assert(a == e);
            }
            vstd::arithmetic::div_mod::lemma_fundamental_div_mod_converse(y, w, q, r - 1);
        }
        assert(g.adjacent(a, y));
        assert(manhattan_spec(y, e, w) == manhattan_spec(a, e, w) - 1);
        lemma_open_grid_walk(g, y, e);
        let m = manhattan_spec(y, e, w) as nat;
        let p = choose|p: Seq<int>| #[trigger] g.is_walk(p) && p.len() == m + 1 && p[0] == y && p.last() == e;
        let walk = seq![a] + p;
        assert forall|k: int| 0 <= k < walk.len() - 1 implies #[trigger] g.adjacent(walk[k], walk[k + 1]) && g.is_open(walk[k + 1]) by {
            if k > 0 {
                assert(walk[k] == p[k - 1] && walk[k + 1] == p[(k - 1) + 1]);
                assert(g.adjacent(p[k - 1], p[(k - 1) + 1]));
            }
        }
        assert(g.is_walk(walk));
        assert(walk.last() == e);
    }
}

/// On a grid without walls, breadth-first search reports exactly the Manhattan
/// distance from start to end.
pub proof fn lemma_bfs_open_grid_manhattan(before: &Grid, after: Seq<Cell>, r: Stats, s: int, e: int)
    requires
        before.wf(),
        forall|i: int| 0 <= i < before@.len() ==> !(#[trigger] before@[i]).is_wall,
        before.start_at(s),
        before.end_at(e),
        search_outcome(before, after, r),
        bfs_shortest(before, r),
    ensures
        r.path_length == manhattan_spec(s, e, before.cols() as int),
{
    let m = manhattan_spec(s, e, before.cols() as int);
    lemma_open_grid_walk(before, s, e);
    assert(before.has_walk(s, e, m as nat));
    if r.path_length > 0 {
        let p = choose|p: Seq<int>|
            #[trigger] before.is_walk(p) && p.len() == r.path_length + 1 && p[0] == s && p.last() == e;
        lemma_walk_at_least_manhattan(before, p, 0);
    } else if s != e {
        assert(before.connected(s, e));
    } else {
        assert(m == 0);
    }
}

/// Manhattan distance between cells `idx` and `end` of a grid `width` cells wide.
pub fn manhattan(idx: usize, end: usize, width: usize) -> (r: u32)
    requires
        width > 0,
        manhattan_spec(idx as int, end as int, width as int) <= u32::MAX,
    ensures
        r == manhattan_spec(idx as int, end as int, width as int),
{
    let (r1, c1) = (idx / width, idx % width);
    let (r2, c2) = (end / width, end % width);
    let dr = if r1 >= r2 { r1 - r2 } else { r2 - r1 };
    let dc = if c1 >= c2 { c1 - c2 } else { c2 - c1 };
    (dr + dc) as u32
}

/// The state of an A* search from `start`: `g_cost` holds the best known cost of each
/// cell, `closed` the cells expanded (in `order`), `heap` the frontier entries
/// `(estimate, cell)`.
pub open spec fn astar_inv(
    g: &Grid,
    start: usize,
    n: usize,
    g_cost: Seq<u32>,
    parent: Seq<usize>,
    closed: Seq<bool>,
    order: Seq<usize>,
    heap: Seq<(u32, usize)>,
) -> bool {
    &&& g.wf()
    &&& g@.len() == n
    &&& g.start_at(start as int)
    &&& g_cost.len() == n
    &&& parent.len() == n
    &&& closed.len() == n
    &&& order.len() + count_unset(closed) == n
    &&& forall|k: int| 0 <= k < order.len() ==> #[trigger] order[k] < n
    &&& forall|k: int|
        0 <= k < heap.len() ==> #[trigger] heap[k].1 < n && (heap[k].1 == start || parent[heap[k].1 as int]
            != NO_PARENT)
    &&& g_cost[start as int] == 0
    &&& order.len() == 0 ==> heap.len() == 1 && heap[0].1 == start && !closed[start as int] && forall|v: int|
        0 <= v < n ==> #[trigger] parent[v] == NO_PARENT
    &&& forall|k: int| 0 <= k < order.len() ==> #[trigger] order[k] == start || parent[order[k] as int] != NO_PARENT
    &&& parent_edges_ok(g, parent)
    &&& forall|u: int|
        0 <= u < n && #[trigger] parent[u] != NO_PARENT ==> {
            &&& parent[u] as int == start || parent[parent[u] as int] != NO_PARENT
            &&& g_cost[parent[u] as int] < g_cost[u]
            &&& g_cost[u] < u32::MAX
        }
}

/// The frontier key of a cell whose best known cost is `gc`: that cost plus the
/// Manhattan distance still to go, held at `u32::MAX`.
pub open spec fn astar_key(gc: u32, v: int, end: int, width: int) -> u32 {
    let s = gc as int + manhattan_spec(v, end, width);
    if s > u32::MAX {
        u32::MAX
    } else {
        s as u32
    }
}

/// What makes an A* search reach every reachable cell: costs so far stay below five
/// per expanded cell, expanded cells have a cost and a parent, every open cell next to
/// an expanded cell other than `except` has a cost, and every cell with a cost that is
/// not expanded has its entry in the frontier.
pub open spec fn astar_reach(
    g: &Grid,
    start: usize,
    end: usize,
    n: usize,
    g_cost: Seq<u32>,
    parent: Seq<usize>,
    closed: Seq<bool>,
    order: Seq<usize>,
    heap: Seq<(u32, usize)>,
    except: int,
) -> bool {
    &&& forall|v: int| 0 <= v < n && #[trigger] g_cost[v] != u32::MAX ==> g_cost[v] <= 5 * order.len()
    &&& forall|v: int|
        0 <= v < n && #[trigger] closed[v] ==> g_cost[v] != u32::MAX && (v == start || parent[v] != NO_PARENT)
    &&& forall|u: int, b: int|
        0 <= u < n && u != except && closed[u] && #[trigger] g.adjacent(u, b) && g.is_open(b) ==> g_cost[b] != u32::MAX
    &&& forall|v: int|
        0 <= v < n && g_cost[v] != u32::MAX && !closed[v] ==> #[trigger] heap_has(
            heap,
            astar_key(g_cost[v], v, end as int, g.cols() as int),
            v,
        )
}

/// A* search from the start cell to the end cell: least-cost search whose frontier is
/// ordered by cost so far plus the Manhattan distance still to go (the lower cell index
/// among equal estimates). Apart from the start, an entry whose estimate is above its
/// cell's best known cost plus distance is passed over. Expanded cells other than the
/// start are marked visited and the path found is marked.
#[verifier::rlimit(100)]
pub fn run(grid: &mut Grid) -> (r: Stats)
    requires
        old(grid).wf(),
    ensures
        final(grid).wf(),
        final(grid).cols() == old(grid).cols(),
        final(grid).rows() == old(grid).rows(),
        search_outcome(old(grid), final(grid)@, r),
        finds_path(old(grid), r),
{
    let ends = locate_endpoints(grid);
    let (start, end) = match ends {
        Some(p) => p,
        None => return Stats::default(),
    };
    let n = grid.size();
    let width = grid.width();
    proof {
        assert(width > 0 && n == width * grid.rows()) by (nonlinear_arith)
            requires
                n == grid.cols() * grid.rows(),
                width == grid.cols(),
                start < n,
        ;
    }
    let mut g_cost: Vec<u32> = Vec::new();
    let mut parent: Vec<usize> = Vec::new();
    let mut closed: Vec<bool> = Vec::new();
    let mut i: usize = 0;
    while i < n
        invariant
            i <= n,
            g_cost@ == Seq::new(i as nat, |j: int| u32::MAX),
            parent@ == Seq::new(i as nat, |j: int| NO_PARENT),
            closed@ == Seq::new(i as nat, |j: int| false),
        decreases n - i,
    {
        g_cost.push(u32::MAX);
        parent.push(NO_PARENT);
        closed.push(false);
        i += 1;
        assert(g_cost@ =~= Seq::new(i as nat, |j: int| u32::MAX));
        assert(parent@ =~= Seq::new(i as nat, |j: int| NO_PARENT));
        assert(closed@ =~= Seq::new(i as nat, |j: int| false));
    }
    let mut order: Vec<usize> = Vec::new();
    let mut heap: Vec<(u32, usize)> = Vec::new();
    g_cost.set(start, 0);
    proof {
        lemma_manhattan_bound(start as int, end as int, width as int, grid.rows() as int);
    }
    heap.push((manhattan(start, end, width), start));
    proof {
        lemma_count_unset_all(n as nat);
        assert(heap@[0] == (astar_key(0, start as int, end as int, width as int), start));
        assert(heap_has(heap@, astar_key(g_cost@[start as int], start as int, end as int, width as int), start as int));
        assert(old(grid).wf());
        assert(5 * n < u32::MAX);
    }
    let mut found = false;
    while heap.len() > 0
        invariant_except_break
            !found,
            !closed@[end as int],
            astar_reach(old(grid), start, end, n, g_cost@, parent@, closed@, order@, heap@, -1),
        invariant
            *grid == *old(grid),
            old(grid).end_at(end as int),
            astar_inv(old(grid), start, n, g_cost@, parent@, closed@, order@, heap@),
            order@.len() > 0 || heap@.len() > 0,
            5 * n < u32::MAX,
            width > 0,
            width == old(grid).cols(),
            n == width * old(grid).rows(),
            end < n,
        ensures
            astar_inv(old(grid), start, n, g_cost@, parent@, closed@, order@, heap@),
            order@.len() >= 1,
            found ==> closed@[end as int] && (end == start || parent@[end as int] != NO_PARENT),
            !found ==> heap@.len() == 0 && !closed@[end as int] && astar_reach(
                old(grid),
                start,
                end,
                n,
                g_cost@,
                parent@,
                closed@,
                order@,
                heap@,
                -1,
            ),
        decreases count_unset(closed@), heap@.len(),
    {
        let ghost h0 = heap@;
        let ix = min_entry(&heap);
        let (f, current) = heap.remove(ix);
        proof {
            assert(h0[ix as int] == (f, current));
            assert(heap@ =~= h0.remove(ix as int));
            assert forall|k: int| 0 <= k < heap@.len() implies #[trigger] heap@[k] == h0[if k < ix { k } else { k + 1 }] by {
            }
            let key = |v: int| astar_key(g_cost@[v], v, end as int, width as int);
            assert forall|v: int| 0 <= v < n && g_cost@[v] != u32::MAX && !closed@[v] && v != current implies #[trigger] heap_has(heap@, astar_key(g_cost@[v], v, end as int, width as int), v) by {
                assert(heap_has(h0, key(v), v));
                let k0 = choose|k: int| 0 <= k < h0.len() && h0[k] == (key(v), v as usize);
                assert(k0 != ix);
                if k0 < ix {
                    assert(heap@[k0] == h0[if k0 < ix { k0 } else { k0 + 1 }]);
                } else {
                    assert(heap@[k0 - 1] == h0[if k0 - 1 < ix { k0 - 1 } else { k0 - 1 + 1 }]);
                }
            }
            if g_cost@[current as int] != u32::MAX && !closed@[current as int] && f != key(current as int) {
                assert(heap_has(h0, key(current as int), current as int));
                let k0 = choose|k: int| 0 <= k < h0.len() && h0[k] == (key(current as int), current);
                assert(k0 != ix);
                if k0 < ix {
                    assert(heap@[k0] == h0[if k0 < ix { k0 } else { k0 + 1 }]);
                } else {
                    assert(heap@[k0 - 1] == h0[if k0 - 1 < ix { k0 - 1 } else { k0 - 1 + 1 }]);
                }
                assert(heap_has(heap@, key(current as int), current as int));
            }
        }
        if current != start {
            proof {
                lemma_manhattan_bound(current as int, end as int, width as int, grid.rows() as int);
            }
            let expected_f = g_cost[current].saturating_add(manhattan(current, end, width));
            if f > expected_f {
                continue;
            }
        }
        if closed[current] {
            continue;
        }
        let ghost old_closed = closed@;
        closed.set(current, true);
        proof {
            lemma_count_unset_set(old_closed, current as int);
            lemma_count_unset_le(closed@);
        }
        order.push(current);
        proof {
            assert(order@[order@.len() - 1] == current);
        }
        if current == end {
            found = true;
            proof {
                assert(closed@[current as int]);
            }
            break;
        }
        let nbs = grid.neighbors(current);
        let mut k: usize = 0;
        while k < nbs.len()
            invariant
                *grid == *old(grid),
                nbs@ == old(grid).neighbor_list(current as int),
                k <= nbs@.len(),
                0 <= current < n,
                current == start || parent@[current as int] != NO_PARENT,
                order@.len() > 0,
                order@.len() <= n,
                5 * n < u32::MAX,
                closed@[current as int],
                g_cost@[current as int] != u32::MAX,
                g_cost@[current as int] <= 5 * (order@.len() - 1),
                width > 0,
                width == old(grid).cols(),
                n == width * old(grid).rows(),
                end < n,
                astar_inv(old(grid), start, n, g_cost@, parent@, closed@, order@, heap@),
                astar_reach(old(grid), start, end, n, g_cost@, parent@, closed@, order@, heap@, current as int),
                forall|j: int| 0 <= j < k ==> g_cost@[#[trigger] nbs@[j] as int] != u32::MAX,
            decreases nbs@.len() - k,
        {
            let nb = nbs[k];
            proof {
                old(grid).lemma_neighbor_list(current as int);
                assert(old(grid).adjacent(current as int, nbs@[k as int] as int));
            }
            let neighbor_cost = grid.cell(nb).cost as u32;
            proof {
                assert(old(grid).wf());
                assert(old(grid)@[nb as int].is_wall || !old(grid)@[nb as int].is_wall);
                assert(old(grid)@[nb as int].cost <= 5);
                assert(neighbor_cost == old(grid)@[nb as int].cost);
                assert(5 * order@.len() <= 5 * n);
            }
            let tentative_g = g_cost[current].saturating_add(neighbor_cost);
            let ghost d0 = g_cost@;
            if tentative_g < g_cost[nb] {
                let ghost hp = heap@;
                g_cost.set(nb, tentative_g);
                parent.set(nb, current);
                proof {
                    lemma_manhattan_bound(nb as int, end as int, width as int, grid.rows() as int);
                }
                let f = tentative_g.saturating_add(manhattan(nb, end, width));
                heap.push((f, nb));
                proof {
                    assert(heap@ =~= hp.push((f, nb)));
                    assert(heap@[hp.len() as int] == (f, nb));
                    assert(f == astar_key(g_cost@[nb as int], nb as int, end as int, width as int));
                    assert forall|v: int| 0 <= v < n && g_cost@[v] != u32::MAX && !closed@[v] implies #[trigger] heap_has(heap@, astar_key(g_cost@[v], v, end as int, width as int), v) by {
                        if v != nb {
                            assert(heap_has(hp, astar_key(d0[v], v, end as int, width as int), v));
                            let k0 = choose|k: int| 0 <= k < hp.len() && hp[k] == (astar_key(d0[v], v, end as int, width as int), v as usize);
                            assert(heap@[k0] == hp[k0]);
                        }
                    }
                    assert forall|u: int, b: int| 0 <= u < n && u != current && closed@[u] && #[trigger] old(grid).adjacent(u, b) && old(grid).is_open(b) implies g_cost@[b] != u32::MAX by {
                        assert(d0[b] != u32::MAX);
                    }
                }
            }
            k += 1;
        }
        proof {
            old(grid).lemma_neighbor_list(current as int);
            assert forall|u: int, b: int| 0 <= u < n && closed@[u] && #[trigger] old(grid).adjacent(u, b) && old(grid).is_open(b) implies g_cost@[b] != u32::MAX by {
                if u == current {
                    assert(old(grid).neighbor_list(current as int).contains(b as usize));
                    let t = choose|t: int| 0 <= t < nbs@.len() && nbs@[t] == b as usize;
                    assert(g_cost@[nbs@[t] as int] != u32::MAX);
                }
            }
        }
    }
    let count = order.len();
    let ghost rank = Seq::new(n as nat, |j: int| g_cost@[j] as int);
    proof {
        assert forall|u: int| 0 <= u < parent@.len() && #[trigger] parent@[u] != NO_PARENT implies {
            &&& parent@[u] < parent@.len()
            &&& parent@[u] as int == start || parent@[parent@[u] as int] != NO_PARENT
            &&& rank[parent@[u] as int] < rank[u]
            &&& rank[start as int] <= rank[parent@[u] as int]
            &&& rank[u] - rank[start as int] < u32::MAX
        } by {
        }
    }
    let ghost g0 = *old(grid);
    proof {
        assert forall|s: int, e: int|
            #![trigger g0.start_at(s), g0.end_at(e)]
            g0.start_at(s) && g0.end_at(e) && s != e && g0.connected(s, e) implies closed@[end as int] by {
            assert(g0@[s].is_start && g0@[start as int].is_start);
            assert(g0@[e].is_end && g0@[end as int].is_end);
            if !found {
                assert forall|v: int| 0 <= v < n && g_cost@[v] != u32::MAX implies closed@[v] by {
                    if !closed@[v] {
                        assert(heap_has(heap@, astar_key(g_cost@[v], v, end as int, width as int), v));
                    }
                }
                assert forall|v: int, b: int| 0 <= v < closed@.len() && closed@[v] && #[trigger] g0.adjacent(v, b) && g0.is_open(b) implies closed@[b] by {
                    assert(g_cost@[b] != u32::MAX);
                }
                assert(closed@[start as int]);
                let len = choose|len: nat| g0.has_walk(s, e, len);
                let p = choose|p: Seq<int>| #[trigger] g0.is_walk(p) && p.len() == len + 1 && p[0] == s && p.last() == e;
                lemma_closed_marks_walk(&g0, closed@, p, p.len() - 1);
            }
        }
    }
    finish(grid, &parent, &order, count, start, end, Ghost(rank))
}

} // verus!
