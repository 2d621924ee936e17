use vstd::prelude::*;
use crate::grid::{Cell, Grid};

pub mod prims;
pub mod recursive_backtracker;

verus! {

/// A seeded source of random indices (xorshift64), so that a maze can be carved again
/// from the same seed.
pub struct RandomIndex {
    state: u64,
}

/// One xorshift64 step.
pub open spec fn xorshift(x: u64) -> u64 {
    let a = x ^ (x << 13u64);
    let b = a ^ (a >> 7u64);
    b ^ (b << 17u64)
}

/// The state a seed starts from: the seed itself, or a fixed odd constant for 0.
pub open spec fn seeded(seed: u64) -> u64 {
    if seed == 0 { 0x9E37_79B9_7F4A_7C15 } else { seed }
}

impl RandomIndex {
    /// The current state.
    pub closed spec fn state(&self) -> u64 {
        self.state
    }

    pub fn new(seed: u64) -> (r: RandomIndex)
        ensures
            r.state() == seeded(seed),
    {
        RandomIndex { state: if seed == 0 { 0x9E37_79B9_7F4A_7C15 } else { seed } }
    }

    /// An index below `len`.
    pub fn next_index(&mut self, len: usize) -> (r: usize)
        requires
            len > 0,
        ensures
            final(self).state() == xorshift(old(self).state()),
            r == xorshift(old(self).state()) % (len as u64),
            r < len,
    {
        let mut x = self.state;
        x = x ^ (x << 13u64);
        x = x ^ (x >> 7u64);
        x = x ^ (x << 17u64);
        self.state = x;
        (x % (len as u64)) as usize
    }
}

/// Cell `i` is carved or solid: open with cost 1, or a wall with cost 0.
pub open spec fn carved_or_solid(c: Cell) -> bool {
    if c.is_wall {
        c.cost == 0
    } else {
        c.cost == 1
    }
}

/// `after` keeps the roles and marks of `before`; only walls and costs may change, and
/// each cell is either carved or solid.
pub open spec fn maze_layout(before: Seq<Cell>, after: Seq<Cell>) -> bool {
    &&& before.len() == after.len()
    &&& forall|i: int|
        0 <= i < before.len() ==> #[trigger] after[i] == (Cell {
            is_wall: after[i].is_wall,
            cost: after[i].cost,
            ..before[i]
        }) && carved_or_solid(after[i])
}

/// The cells two steps from `i`, each with the cell between: up, down, left, right, as
/// `(cell, between)` pairs.
pub open spec fn maze_neighbor_list(w: int, h: int, i: int) -> Seq<(usize, usize)> {
    let row = i / w;
    let col = i % w;
    let up = if row >= 2 { seq![((i - 2 * w) as usize, (i - w) as usize)] } else { seq![] };
    let down = if row + 2 < h { seq![((i + 2 * w) as usize, (i + w) as usize)] } else { seq![] };
    let left = if col >= 2 { seq![((i - 2) as usize, (i - 1) as usize)] } else { seq![] };
    let right = if col + 2 < w { seq![((i + 2) as usize, (i + 1) as usize)] } else { seq![] };
    up + down + left + right
}

/// Every cell and in-between cell of `maze_neighbor_list` lies on the grid.
pub proof fn lemma_maze_neighbors_in_range(w: int, h: int, i: int)
    requires
        w > 0,
        h > 0,
        0 <= i < w * h,
    ensures
        forall|j: int|
            0 <= j < maze_neighbor_list(w, h, i).len() ==> (#[trigger] maze_neighbor_list(w, h, i)[j]).0 < w * h
                && maze_neighbor_list(w, h, i)[j].1 < w * h,
        i / w >= 2 ==> i >= 2 * w,
        i / w + 2 < h ==> i + 2 * w < w * h,
        i % w >= 2 ==> i >= 2,
        i % w + 2 < w ==> i + 2 < w * h,
{
    vstd::arithmetic::div_mod::lemma_fundamental_div_mod(i, w);
    let row = i / w;
    let col = i % w;
    assert(0 <= col < w);
    assert(row < h) by (nonlinear_arith)
        requires
            i == w * row + col,
            0 <= col,
            i < w * h,
            w > 0,
    ;
    assert(row >= 0) by (nonlinear_arith)
        requires
            i == w * row + col,
            col < w,
            i >= 0,
            w > 0,
    ;
    if row >= 2 {
        assert(i >= 2 * w) by (nonlinear_arith)
            requires
                i == w * row + col,
                col >= 0,
                row >= 2,
                w > 0,
        ;
    }
    if row + 2 < h {
        assert(i + 2 * w < w * h) by (nonlinear_arith)
            requires
                i == w * row + col,
                col < w,
                row + 3 <= h,
                w > 0,
        ;
    }
    if col + 2 < w {
        assert(i + 2 < w * h) by (nonlinear_arith)
            requires
                i == w * row + col,
                col + 2 < w,
                row + 1 <= h,
                w > 0,
        ;
    }
}

/// Cell `i` of a `w × h` grid lies on the carving lattice: odd row and odd column.
pub open spec fn lattice(w: int, h: int, i: int) -> bool {
    0 <= i < w * h && (i / w) % 2 == 1 && (i % w) % 2 == 1
}

/// Cell `i` lies midway between two lattice cells two apart in a row or a column.
pub open spec fn between_cell(w: int, h: int, i: int) -> bool {
    &&& 0 <= i < w * h
    &&& {
        let r = i / w;
        let c = i % w;
        ||| (r % 2 == 1 && c % 2 == 0 && c >= 2 && c + 1 < w)
        ||| (r % 2 == 0 && c % 2 == 1 && r >= 2 && r + 1 < h)
    }
}

/// Every open cell of `cells` is a lattice cell or lies between two.
pub open spec fn carved_on_lattice(w: int, h: int, cells: Seq<Cell>) -> bool {
    forall|v: int| 0 <= v < cells.len() && !(#[trigger] cells[v]).is_wall ==> lattice(w, h, v) || between_cell(w, h, v)
}

/// From a lattice cell, each entry of `maze_neighbor_list` is a lattice cell with the
/// cell between them.
pub proof fn lemma_maze_neighbors_lattice(w: int, h: int, i: int)
    requires
        w > 0,
        h > 0,
        w * h <= usize::MAX,
        lattice(w, h, i),
    ensures
        forall|j: int|
            0 <= j < maze_neighbor_list(w, h, i).len() ==> lattice(w, h, (#[trigger] maze_neighbor_list(w, h, i)[j]).0 as int)
                && between_cell(w, h, maze_neighbor_list(w, h, i)[j].1 as int),
{
    lemma_maze_neighbors_in_range(w, h, i);
    vstd::arithmetic::div_mod::lemma_fundamental_div_mod(i, w);
    let (q, r) = (i / w, i % w);
    assert(i == q * w + r) by (nonlinear_arith)
        requires
            i == w * q + r,
    ;
    assert(0 <= r < w);
    assert(0 <= q < h) by (nonlinear_arith)
        requires
            i == q * w + r,
            0 <= r < w,
            0 <= i < w * h,
            w > 0,
    ;
    if q >= 2 {
        assert(i - 2 * w == (q - 2) * w + r && i - w == (q - 1) * w + r) by (nonlinear_arith)
            requires
                i == q * w + r,
        ;
        vstd::arithmetic::div_mod::lemma_fundamental_div_mod_converse(i - 2 * w, w, q - 2, r);
        vstd::arithmetic::div_mod::lemma_fundamental_div_mod_converse(i - w, w, q - 1, r);
    }
    if q + 2 < h {
        assert(i + 2 * w == (q + 2) * w + r && i + w == (q + 1) * w + r) by (nonlinear_arith)
            requires
                i == q * w + r,
        ;
        vstd::arithmetic::div_mod::lemma_fundamental_div_mod_converse(i + 2 * w, w, q + 2, r);
        vstd::arithmetic::div_mod::lemma_fundamental_div_mod_converse(i + w, w, q + 1, r);
    }
    if r >= 2 {
        vstd::arithmetic::div_mod::lemma_fundamental_div_mod_converse(i - 2, w, q, r - 2);
        vstd::arithmetic::div_mod::lemma_fundamental_div_mod_converse(i - 1, w, q, r - 1);
    }
    if r + 2 < w {
        vstd::arithmetic::div_mod::lemma_fundamental_div_mod_converse(i + 2, w, q, r + 2);
        vstd::arithmetic::div_mod::lemma_fundamental_div_mod_converse(i + 1, w, q, r + 1);
    }
    let l = maze_neighbor_list(w, h, i);
    let up = if q >= 2 { seq![((i - 2 * w) as usize, (i - w) as usize)] } else { seq![] };
    let down = if q + 2 < h { seq![((i + 2 * w) as usize, (i + w) as usize)] } else { seq![] };
    let left = if r >= 2 { seq![((i - 2) as usize, (i - 1) as usize)] } else { seq![] };
    let right = if r + 2 < w { seq![((i + 2) as usize, (i + 1) as usize)] } else { seq![] };
    assert(l == up + down + left + right);
    assert forall|j: int| 0 <= j < l.len() implies lattice(w, h, (#[trigger] l[j]).0 as int) && between_cell(w, h, l[j].1 as int) by {
        assert(l[j].0 < w * h && l[j].1 < w * h);
        let e = l[j];
        if q >= 2 && e == ((i - 2 * w) as usize, (i - w) as usize) {
            assert(lattice(w, h, i - 2 * w));
            assert(between_cell(w, h, i - w));
        } else if q + 2 < h && e == ((i + 2 * w) as usize, (i + w) as usize) {
        } else if r >= 2 && e == ((i - 2) as usize, (i - 1) as usize) {
        } else {
            assert(r + 2 < w && e == ((i + 2) as usize, (i + 1) as usize));
        }
    }
}

/// Marks that contain row 1, column 1 and pass from every marked lattice cell to the
/// cells of its `maze_neighbor_list` cover the whole lattice.
pub proof fn lemma_lattice_covered(w: int, h: int, marked: Seq<bool>, x: int)
    requires
        w >= 2,
        h >= 2,
        w * h <= usize::MAX,
        marked.len() == w * h,
        marked[w + 1],
        forall|v: int, j: int|
            lattice(w, h, v) && marked[v] && 0 <= j < maze_neighbor_list(w, h, v).len() ==> marked[(#[trigger] maze_neighbor_list(w, h, v)[j]).0 as int],
        lattice(w, h, x),
    ensures
        marked[x],
    decreases x,
{
    vstd::arithmetic::div_mod::lemma_fundamental_div_mod(x, w);
    let (q, r) = (x / w, x % w);
    assert(x == q * w + r) by (nonlinear_arith)
        requires
            x == w * q + r,
    ;
    if q == 1 && r == 1 {
        assert(x == 1 * w + 1);
        assert(x == w + 1);
    } else if r >= 3 {
        let y = x - 2;
        vstd::arithmetic::div_mod::lemma_fundamental_div_mod_converse(y, w, q, r - 2);
        assert(lattice(w, h, y));
        lemma_lattice_covered(w, h, marked, y);
        let l = maze_neighbor_list(w, h, y);
        assert(y % w + 2 < w);
        assert(l[l.len() - 1] == ((y + 2) as usize, (y + 1) as usize));
        assert(marked[l[l.len() - 1].0 as int]);
    } else {
        assert(q >= 3);
        let y = x - 2 * w;
        assert(y == (q - 2) * w + r) by (nonlinear_arith)
            requires
                x == q * w + r,
                y == x - 2 * w,
        ;
        vstd::arithmetic::div_mod::lemma_fundamental_div_mod_converse(y, w, q - 2, r);
        assert(q < h) by (nonlinear_arith)
            requires
                x == q * w + r,
                0 <= r < w,
                x < w * h,
                w > 0,
        ;
        assert(0 <= y < w * h);
        assert(lattice(w, h, y));
        lemma_lattice_covered(w, h, marked, y);
        let l = maze_neighbor_list(w, h, y);
        let k = if q - 2 >= 2 { 1int } else { 0int };
        assert(l[k] == ((y + 2 * w) as usize, (y + w) as usize));
        assert(marked[l[k].0 as int]);
    }
}

/// Number of open cells.
pub open spec fn count_open(cells: Seq<Cell>) -> nat
    decreases cells.len(),
{
    if cells.len() == 0 {
        0
    } else {
        count_open(cells.drop_last()) + if cells.last().is_wall { 0nat } else { 1nat }
    }
}

/// Opening a wall adds one open cell.
pub proof fn lemma_count_open_carve(cells: Seq<Cell>, x: int, c: Cell)
    requires
        0 <= x < cells.len(),
        cells[x].is_wall,
        !c.is_wall,
    ensures
        count_open(cells.update(x, c)) == count_open(cells) + 1,
    decreases cells.len(),
{
    let t = cells.update(x, c);
    if x < cells.len() - 1 {
        assert(t.drop_last() =~= cells.drop_last().update(x, c));
        lemma_count_open_carve(cells.drop_last(), x, c);
    } else {
        assert(t.drop_last() =~= cells.drop_last());
    }
}

/// All cells walls: none open.
pub proof fn lemma_count_open_none(cells: Seq<Cell>)
    requires
        forall|i: int| 0 <= i < cells.len() ==> (#[trigger] cells[i]).is_wall,
    ensures
        count_open(cells) == 0,
    decreases cells.len(),
{
    if cells.len() > 0 {
        lemma_count_open_none(cells.drop_last());
    }
}

/// The lattice of a `w × h` grid as flags over its cells.
pub open spec fn lattice_flags(w: int, h: int) -> Seq<bool> {
    Seq::new((w * h) as nat, |i: int| lattice(w, h, i))
}

/// The two lattice cells a between cell joins: left and right in an odd row, above and
/// below otherwise.
pub open spec fn between_ends(w: int, x: int) -> (int, int) {
    if (x / w) % 2 == 1 {
        (x - 1, x + 1)
    } else {
        (x - w, x + w)
    }
}

/// From a lattice cell, each entry of `maze_neighbor_list` is joined to it through its
/// cell between.
pub proof fn lemma_maze_neighbors_ends(w: int, h: int, i: int)
    requires
        w > 0,
        h > 0,
        w * h <= usize::MAX,
        lattice(w, h, i),
    ensures
        forall|j: int|
            0 <= j < maze_neighbor_list(w, h, i).len() ==> {
                let e = #[trigger] maze_neighbor_list(w, h, i)[j];
                let (a, b) = between_ends(w, e.1 as int);
                (a == i && b == e.0 as int) || (b == i && a == e.0 as int)
            },
{
    lemma_maze_neighbors_in_range(w, h, i);
    vstd::arithmetic::div_mod::lemma_fundamental_div_mod(i, w);
    let (q, r) = (i / w, i % w);
    assert(i == q * w + r) by (nonlinear_arith)
        requires
            i == w * q + r,
    ;
    if q >= 2 {
        assert(i - w == (q - 1) * w + r) by (nonlinear_arith)
            requires
                i == q * w + r,
        ;
        vstd::arithmetic::div_mod::lemma_fundamental_div_mod_converse(i - w, w, q - 1, r);
    }
    if q + 2 < h {
        assert(i + w == (q + 1) * w + r) by (nonlinear_arith)
            requires
                i == q * w + r,
        ;
        vstd::arithmetic::div_mod::lemma_fundamental_div_mod_converse(i + w, w, q + 1, r);
    }
    if r >= 2 {
        vstd::arithmetic::div_mod::lemma_fundamental_div_mod_converse(i - 1, w, q, r - 1);
    }
    if r + 2 < w {
        vstd::arithmetic::div_mod::lemma_fundamental_div_mod_converse(i + 1, w, q, r + 1);
    }
    let l = maze_neighbor_list(w, h, i);
    let up = if q >= 2 { seq![((i - 2 * w) as usize, (i - w) as usize)] } else { seq![] };
    let down = if q + 2 < h { seq![((i + 2 * w) as usize, (i + w) as usize)] } else { seq![] };
    let left = if r >= 2 { seq![((i - 2) as usize, (i - 1) as usize)] } else { seq![] };
    let right = if r + 2 < w { seq![((i + 2) as usize, (i + 1) as usize)] } else { seq![] };
    assert(l == up + down + left + right);
    assert forall|j: int| 0 <= j < l.len() implies {
        let e = #[trigger] l[j];
        let (a, b) = between_ends(w, e.1 as int);
        (a == i && b == e.0 as int) || (b == i && a == e.0 as int)
    } by {
        assert(l[j].0 < w * h && l[j].1 < w * h);
    }
}

/// The cells of a perfect maze over the lattice of a `w × h` grid: every lattice cell
/// is open, every open cell is a lattice cell or lies between two, and there is one
/// open cell between lattice cells fewer than lattice cells, so that with every open
/// cell reachable the passages form a tree.
pub open spec fn maze_carved(w: int, h: int, cells: Seq<Cell>) -> bool {
    &&& carved_on_lattice(w, h, cells)
    &&& forall|x: int| lattice(w, h, x) ==> !(#[trigger] cells[x]).is_wall
    &&& count_open(cells) + 1 == 2 * (cells.len() - crate::algorithms::count_unset(lattice_flags(w, h)))
}

/// Carving a lattice cell or a cell between two keeps every open cell on the lattice.
pub proof fn lemma_carve_on_lattice(w: int, h: int, before: Seq<Cell>, after: Seq<Cell>, x: int)
    requires
        carved_on_lattice(w, h, before),
        0 <= x < before.len(),
        lattice(w, h, x) || between_cell(w, h, x),
        after == before.update(x, Cell { is_wall: false, cost: 1, ..before[x] }),
    ensures
        carved_on_lattice(w, h, after),
{
    assert forall|v: int| 0 <= v < after.len() && !(#[trigger] after[v]).is_wall implies lattice(w, h, v) || between_cell(w, h, v) by {
        if v != x {
            assert(!before[v].is_wall);
        }
    }
}

/// Every open cell of `g` is reachable from `origin`.
pub open spec fn open_cells_connected(g: &Grid, origin: int) -> bool {
    forall|v: int| #[trigger] g.is_open(v) ==> g.connected(origin, v)
}

/// `b` is reached from `a` through the cell `between`, by two steps of the grid.
pub open spec fn two_steps(g: &Grid, a: int, between: int, b: int) -> bool {
    g.adjacent(a, between) && g.adjacent(between, b)
}

/// Opening more cells of a grid keeps every walk.
pub proof fn lemma_walks_kept(g1: &Grid, g2: &Grid, p: Seq<int>)
    requires
        g1@.len() == g2@.len(),
        g1.cols() == g2.cols(),
        forall|i: int| #[trigger] g1.is_open(i) ==> g2.is_open(i),
        g1.is_walk(p),
    ensures
        g2.is_walk(p),
{
    assert forall|k: int| 0 <= k < p.len() - 1 implies #[trigger] g2.adjacent(p[k], p[k + 1]) && g2.is_open(p[k + 1]) by {
        assert(g1.adjacent(p[k], p[k + 1]));
    }
}

/// Opening more cells of a grid keeps every open cell reachable that was.
pub proof fn lemma_connected_kept(g1: &Grid, g2: &Grid, origin: int)
    requires
        g1@.len() == g2@.len(),
        g1.cols() == g2.cols(),
        forall|i: int| #[trigger] g1.is_open(i) ==> g2.is_open(i),
    ensures
        forall|v: int| #[trigger] g1.connected(origin, v) ==> g2.connected(origin, v),
{
    assert forall|v: int| #[trigger] g1.connected(origin, v) implies g2.connected(origin, v) by {
        let len = choose|len: nat| g1.has_walk(origin, v, len);
        let p = choose|p: Seq<int>| #[trigger] g1.is_walk(p) && p.len() == len + 1 && p[0] == origin && p.last() == v;
        lemma_walks_kept(g1, g2, p);
        assert(g2.has_walk(origin, v, len));
    }
}

/// Reachability speaks of a grid only through its cells and width.
pub proof fn lemma_connected_same_cells(g1: &Grid, g2: &Grid, origin: int)
    requires
        open_cells_connected(g1, origin),
        g1@ == g2@,
        g1.cols() == g2.cols(),
    ensures
        open_cells_connected(g2, origin),
{
    lemma_connected_kept(g1, g2, origin);
    assert forall|v: int| #[trigger] g2.is_open(v) implies g2.connected(origin, v) by {
        assert(g1.is_open(v));
        assert(g1.connected(origin, v));
    }
}

/// A cell reachable from `origin` makes every open cell next to it reachable.
pub proof fn lemma_connected_step(g: &Grid, origin: int, a: int, b: int)
    requires
        g.connected(origin, a),
        g.adjacent(a, b),
        g.is_open(b),
    ensures
        g.connected(origin, b),
{
    let len = choose|len: nat| g.has_walk(origin, a, len);
    let p = choose|p: Seq<int>| #[trigger] g.is_walk(p) && p.len() == len + 1 && p[0] == origin && p.last() == a;
    let q = p.push(b);
    assert forall|k: int| 0 <= k < q.len() - 1 implies #[trigger] g.adjacent(q[k], q[k + 1]) && g.is_open(q[k + 1]) by {
        if k < p.len() - 1 {
            assert(g.adjacent(p[k], p[k + 1]));
        }
    }
    assert(g.is_walk(q));
    assert(g.has_walk(origin, b, len + 1));
}

/// Carving `between` and then `b`, two steps from a reachable open cell `a`, keeps
/// every open cell reachable from `origin`.
pub proof fn lemma_carve_connected(g0: &Grid, g1: &Grid, g2: &Grid, origin: int, a: int, between: int, b: int)
    requires
        open_cells_connected(g0, origin),
        g0.is_open(a),
        two_steps(g0, a, between, b),
        g1@ == g0@.update(between, Cell { is_wall: false, cost: 1, ..g0@[between] }),
        g2@ == g1@.update(b, Cell { is_wall: false, cost: 1, ..g1@[b] }),
        g1.cols() == g0.cols(),
        g2.cols() == g0.cols(),
    ensures
        open_cells_connected(g2, origin),
{
    lemma_connected_kept(g0, g1, origin);
    lemma_connected_kept(g1, g2, origin);
    assert(g0.connected(origin, a));
    assert(g2.connected(origin, a));
    lemma_connected_step(g2, origin, a, between);
    lemma_connected_step(g2, origin, between, b);
    assert forall|v: int| #[trigger] g2.is_open(v) implies g2.connected(origin, v) by {
        if v != between && v != b {
            assert(g1.is_open(v) && g0.is_open(v));
            assert(g0.connected(origin, v));
            assert(g1.connected(origin, v));
        }
    }
}

/// Each entry of `maze_neighbor_list(i)` is two steps from `i`, through its cell between.
pub proof fn lemma_maze_neighbors_two_steps(g: &Grid, i: int)
    requires
        g.wf(),
        0 <= i < g@.len(),
    ensures
        forall|j: int|
            0 <= j < maze_neighbor_list(g.cols() as int, g.rows() as int, i).len() ==> two_steps(
                g,
                i,
                (#[trigger] maze_neighbor_list(g.cols() as int, g.rows() as int, i)[j]).1 as int,
                maze_neighbor_list(g.cols() as int, g.rows() as int, i)[j].0 as int,
            ),
{
    let w = g.cols() as int;
    let h = g.rows() as int;
    assert(w > 0 && h > 0) by (nonlinear_arith)
        requires
            g@.len() == g.cols() * g.rows(),
            w == g.cols(),
            h == g.rows(),
            0 <= i < g@.len(),
    ;
    lemma_maze_neighbors_in_range(w, h, i);
    vstd::arithmetic::div_mod::lemma_fundamental_div_mod(i, w);
    let (q, r) = (i / w, i % w);
    assert(i == q * w + r) by (nonlinear_arith)
        requires
            i == w * q + r,
    ;
    if r >= 2 {
        vstd::arithmetic::div_mod::lemma_fundamental_div_mod_converse(i - 1, w, q, r - 1);
    }
    if r + 2 < w {
        vstd::arithmetic::div_mod::lemma_fundamental_div_mod_converse(i + 1, w, q, r + 1);
    }
    let l = maze_neighbor_list(w, h, i);
    assert forall|j: int| 0 <= j < l.len() implies two_steps(g, i, (#[trigger] l[j]).1 as int, l[j].0 as int) by {
        assert(l[j].0 < w * h && l[j].1 < w * h);
    }
}

/// The cells two steps from `idx`, each with the cell between, as `(cell, between)`
/// pairs in the order up, down, left, right.
pub fn maze_neighbors(grid: &Grid, idx: usize) -> (r: Vec<(usize, usize)>)
    requires
        grid.wf(),
        idx < grid@.len(),
    ensures
        r@ == maze_neighbor_list(grid.cols() as int, grid.rows() as int, idx as int),
        forall|j: int| 0 <= j < r@.len() ==> (#[trigger] r@[j]).0 < grid@.len() && r@[j].1 < grid@.len(),
{
    let width = grid.width();
    let height = grid.height();
    proof {
        assert(width > 0 && height > 0) by (nonlinear_arith)
            requires
                grid@.len() == width * height,
                idx < grid@.len(),
        ;
        lemma_maze_neighbors_in_range(width as int, height as int, idx as int);
    }
    let row = idx / width;
    let col = idx % width;
    let mut result: Vec<(usize, usize)> = Vec::new();
    if row >= 2 {
        result.push((idx - 2 * width, idx - width));
    }
    if row + 2 < height {
        result.push((idx + 2 * width, idx + width));
    }
    if col >= 2 {
        result.push((idx - 2, idx - 1));
    }
    if width - col > 2 {
        result.push((idx + 2, idx + 1));
    }
    assert(result@ =~= maze_neighbor_list(width as int, height as int, idx as int));
    result
}

/// Makes every cell a wall of cost 0, keeping roles and marks.
pub fn fill_walls(grid: &mut Grid)
    requires
        old(grid).wf(),
    ensures
        final(grid).wf(),
        final(grid).cols() == old(grid).cols(),
        final(grid).rows() == old(grid).rows(),
        final(grid)@.len() == old(grid)@.len(),
        forall|i: int|
            0 <= i < old(grid)@.len() ==> #[trigger] final(grid)@[i] == (Cell { is_wall: true, cost: 0, ..old(grid)@[i] }),
{
    let n = grid.size();
    let mut i: usize = 0;
    while i < n
        invariant
            grid.wf(),
            grid.cols() == old(grid).cols(),
            grid.rows() == old(grid).rows(),
            n == grid@.len(),
            n == old(grid)@.len(),
            i <= n,
            forall|j: int|
                0 <= j < n ==> #[trigger] grid@[j] == if j < i {
                    Cell { is_wall: true, cost: 0, ..old(grid)@[j] }
                } else {
                    old(grid)@[j]
                },
        decreases n - i,
    {
        grid.fill(i);
        i += 1;
    }
}

} // verus!
