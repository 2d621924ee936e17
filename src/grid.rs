use vstd::prelude::*;

verus! {

/// Traversal cost of an ordinary open cell.
pub const COST_NORMAL: u16 = 1;

/// Traversal cost of mud.
pub const COST_MUD: u16 = 3;

/// Traversal cost of water.
pub const COST_WATER: u16 = 5;

/// One grid position: its terrain, its role and the marks a search leaves on it.
#[derive(Clone, Copy, PartialEq, Eq, Structural, Debug)]
pub struct Cell {
    pub is_wall: bool,
    pub is_start: bool,
    pub is_end: bool,
    pub is_visited: bool,
    pub is_path: bool,
    /// Traversal cost: 1 normal, 3 mud, 5 water, 0 for a wall.
    pub cost: u16,
}

impl Cell {
    /// An open cell of normal cost with no role and no search marks.
    pub open spec fn fresh() -> Cell {
        Cell { is_wall: false, is_start: false, is_end: false, is_visited: false, is_path: false, cost: 1 }
    }

    /// A wall cell with no role and no search marks.
    pub open spec fn solid() -> Cell {
        Cell { is_wall: true, is_start: false, is_end: false, is_visited: false, is_path: false, cost: 0 }
    }

    /// The byte a renderer paints for this cell: wall 1, start 2, end 3, path 5,
    /// visited 4, mud 6, water 7, anything else 0 (checked in that order).
    pub open spec fn render_byte_spec(&self) -> u8 {
        if self.is_wall {
            1
        } else if self.is_start {
            2
        } else if self.is_end {
            3
        } else if self.is_path {
            5
        } else if self.is_visited {
            4
        } else if self.cost == COST_MUD {
            6
        } else if self.cost == COST_WATER {
            7
        } else {
            0
        }
    }

    pub fn new() -> (c: Cell)
        ensures
            c == Cell::fresh(),
    {
        Cell { is_wall: false, is_start: false, is_end: false, is_visited: false, is_path: false, cost: COST_NORMAL }
    }

    pub fn wall() -> (c: Cell)
        ensures
            c == Cell::solid(),
    {
        Cell { is_wall: true, is_start: false, is_end: false, is_visited: false, is_path: false, cost: 0 }
    }

    pub fn to_render_byte(&self) -> (b: u8)
        ensures
            b == self.render_byte_spec(),
    {
        if self.is_wall {
            return 1;
        }
        if self.is_start {
            return 2;
        }
        if self.is_end {
            return 3;
        }
        if self.is_path {
            return 5;
        }
        if self.is_visited {
            return 4;
        }
        if self.cost == COST_MUD {
            6
        } else if self.cost == COST_WATER {
            7
        } else {
            0
        }
    }
}

/// A `width × height` grid of cells, stored row by row (`index = row * width + col`),
/// together with a byte per cell for a renderer.
pub struct Grid {
    width: usize,
    height: usize,
    cells: Vec<Cell>,
    render_buffer: Vec<u8>,
}

impl View for Grid {
    type V = Seq<Cell>;

    closed spec fn view(&self) -> Seq<Cell> {
        self.cells@
    }
}

/// The cell sequence with `is_start` set exactly at `idx`.
pub open spec fn with_start(s: Seq<Cell>, idx: int) -> Seq<Cell> {
    Seq::new(s.len(), |i: int| Cell { is_start: i == idx, ..s[i] })
}

/// The cell sequence with `is_end` set exactly at `idx`.
pub open spec fn with_end(s: Seq<Cell>, idx: int) -> Seq<Cell> {
    Seq::new(s.len(), |i: int| Cell { is_end: i == idx, ..s[i] })
}

/// The cell sequence with every search mark cleared.
pub open spec fn without_marks(s: Seq<Cell>) -> Seq<Cell> {
    Seq::new(s.len(), |i: int| Cell { is_visited: false, is_path: false, ..s[i] })
}

/// Clearing the search marks a second time changes nothing, and clearing them keeps
/// walls, terrain, start and end.
pub proof fn lemma_reset_search_idempotent(s: Seq<Cell>)
    ensures
        without_marks(without_marks(s)) == without_marks(s),
        same_layout(s, without_marks(s)),
        forall|i: int| 0 <= i < s.len() ==> !(#[trigger] without_marks(s)[i]).is_visited && !without_marks(s)[i].is_path,
{
    assert(without_marks(without_marks(s)) =~= without_marks(s));
}

/// After a full reset every cell is open with cost 1, with no role and no marks.
pub proof fn lemma_reset_all_defaults(n: nat)
    ensures
        forall|i: int|
            0 <= i < n ==> {
                let c = #[trigger] fresh_cells(n)[i];
                &&& !c.is_wall && c.cost == 1
                &&& !c.is_start && !c.is_end
                &&& !c.is_visited && !c.is_path
            },
{
}

/// `n` fresh cells.
pub open spec fn fresh_cells(n: nat) -> Seq<Cell> {
    Seq::new(n, |i: int| Cell::fresh())
}

/// Two cell sequences that differ at most in their search marks.
pub open spec fn same_layout(a: Seq<Cell>, b: Seq<Cell>) -> bool {
    &&& a.len() == b.len()
    &&& forall|i: int|
        0 <= i < a.len() ==> {
            &&& #[trigger] a[i].is_wall == b[i].is_wall
            &&& a[i].is_start == b[i].is_start
            &&& a[i].is_end == b[i].is_end
            &&& a[i].cost == b[i].cost
        }
}

impl Grid {
    /// Number of columns.
    pub closed spec fn cols(&self) -> usize {
        self.width
    }

    /// Number of rows.
    pub closed spec fn rows(&self) -> usize {
        self.height
    }

    pub fn width(&self) -> (r: usize)
        ensures
            r == self.cols(),
    {
        self.width
    }

    pub fn height(&self) -> (r: usize)
        ensures
            r == self.rows(),
    {
        self.height
    }

    /// The bytes last written by `flush_render_buffer`.
    pub closed spec fn rendered(&self) -> Seq<u8> {
        self.render_buffer@
    }

    /// Cell count matches the dimensions, and five times it fits the `u32` costs and
    /// counters of a run; exactly the walls have cost 0, and no cell costs above 5;
    /// at most one cell is the start and at most one is the end.
    pub open spec fn wf(&self) -> bool {
        &&& self@.len() == self.cols() * self.rows()
        &&& forall|i: int|
            0 <= i < self@.len() ==> (#[trigger] self@[i].is_wall <==> self@[i].cost == 0) && self@[i].cost <= 5
        &&& 5 * (self.cols() * self.rows()) < u32::MAX
        &&& self.rendered().len() == self@.len()
        &&& forall|i: int, j: int|
            0 <= i < self@.len() && 0 <= j < self@.len() && #[trigger] self@[i].is_start
                && #[trigger] self@[j].is_start ==> i == j
        &&& forall|i: int, j: int|
            0 <= i < self@.len() && 0 <= j < self@.len() && #[trigger] self@[i].is_end
                && #[trigger] self@[j].is_end ==> i == j
    }

    pub open spec fn is_open(&self, i: int) -> bool {
        0 <= i < self@.len() && !self@[i].is_wall
    }

    /// `b` is one step up, down, left or right of `a`, both on the grid.
    pub open spec fn adjacent(&self, a: int, b: int) -> bool {
        let w = self.cols() as int;
        &&& 0 <= a < self@.len()
        &&& 0 <= b < self@.len()
        &&& {
            ||| b == a - w
            ||| b == a + w
            ||| (b == a - 1 && a % w != 0)
            ||| (b == a + 1 && a % w != w - 1)
        }
    }

    /// `p` is a walk on the grid: consecutive cells adjacent, every cell after the
    /// first open.
    pub open spec fn is_walk(&self, p: Seq<int>) -> bool {
        &&& p.len() >= 1
        &&& 0 <= p[0] < self@.len()
        &&& forall|k: int|
            0 <= k < p.len() - 1 ==> #[trigger] self.adjacent(p[k], p[k + 1]) && self.is_open(
                p[k + 1],
            )
    }

    /// Some walk of `len` steps leads from `a` to `b`.
    pub open spec fn has_walk(&self, a: int, b: int, len: nat) -> bool {
        exists|p: Seq<int>|
            #[trigger] self.is_walk(p) && p.len() == len + 1 && p[0] == a && p.last() == b
    }

    /// Some walk leads from `a` to `b`.
    pub open spec fn connected(&self, a: int, b: int) -> bool {
        exists|len: nat| self.has_walk(a, b, len)
    }

    /// Cell `i` is the start.
    pub open spec fn start_at(&self, i: int) -> bool {
        0 <= i < self@.len() && self@[i].is_start
    }

    /// Cell `i` is the end.
    pub open spec fn end_at(&self, i: int) -> bool {
        0 <= i < self@.len() && self@[i].is_end
    }

    pub open spec fn has_start(&self) -> bool {
        exists|i: int| self.start_at(i)
    }

    pub open spec fn has_end(&self) -> bool {
        exists|i: int| self.end_at(i)
    }

    /// The open cells next to `i`, in the order up, down, left, right.
    pub open spec fn neighbor_list(&self, i: int) -> Seq<usize> {
        let w = self.cols() as int;
        let n = self@.len() as int;
        let up = if i >= w && !self@[i - w].is_wall { seq![(i - w) as usize] } else { seq![] };
        let down = if i + w < n && !self@[i + w].is_wall { seq![(i + w) as usize] } else { seq![] };
        let left = if i % w != 0 && !self@[i - 1].is_wall { seq![(i - 1) as usize] } else { seq![] };
        let right = if i + 1 < n && i % w != w - 1 && !self@[i + 1].is_wall {
            seq![(i + 1) as usize]
        } else {
            seq![]
        };
        up + down + left + right
    }

    /// The cells of `neighbor_list(i)` are exactly the open cells adjacent to `i`.
    pub proof fn lemma_neighbor_list(&self, i: int)
        requires
            self.wf(),
            0 <= i < self@.len(),
        ensures
            forall|j: int|
                0 <= j < self.neighbor_list(i).len() ==> self.adjacent(i, #[trigger] self.neighbor_list(i)[j] as int)
                    && self.is_open(self.neighbor_list(i)[j] as int),
            forall|b: int| #[trigger] self.adjacent(i, b) && self.is_open(b) ==> self.neighbor_list(i).contains(b as usize),
    {
        let l = self.neighbor_list(i);
        let w = self.cols() as int;
        let n = self@.len() as int;
        assert(w > 0) by (nonlinear_arith)
            requires
                n == self.cols() * self.rows(),
                w == self.cols(),
                0 <= i < n,
        ;
        vstd::arithmetic::div_mod::lemma_small_mod(0, w as nat);
        if i % w != 0 {
            assert(i != 0);
        }
        assert forall|b: int| #[trigger] self.adjacent(i, b) && self.is_open(b) implies l.contains(b as usize) by {
            let up = if i >= w && !self@[i - w].is_wall { seq![(i - w) as usize] } else { seq![] };
            let down = if i + w < n && !self@[i + w].is_wall { seq![(i + w) as usize] } else { seq![] };
            let left = if i % w != 0 && !self@[i - 1].is_wall { seq![(i - 1) as usize] } else { seq![] };
            let right = if i + 1 < n && i % w != w - 1 && !self@[i + 1].is_wall {
                seq![(i + 1) as usize]
            } else {
                seq![]
            };
            assert(l == up + down + left + right);
            if b == i - w {
                assert(l[0] == b as usize);
            } else if b == i + w {
                assert(l[up.len() as int] == b as usize);
            } else if b == i - 1 && i % w != 0 {
                assert(l[(up.len() + down.len()) as int] == b as usize);
            } else {
                assert(l[(up.len() + down.len() + left.len()) as int] == b as usize);
            }
        }
    }

    pub fn new(width: usize, height: usize) -> (g: Grid)
        requires
            5 * (width * height) < u32::MAX,
        ensures
            g.wf(),
            g.cols() == width,
            g.rows() == height,
            g@ == fresh_cells((width * height) as nat),
            g.rendered() == Seq::new((width * height) as nat, |i: int| 0u8),
    {
        let size = width * height;
        let mut cells: Vec<Cell> = Vec::new();
        let mut render_buffer: Vec<u8> = Vec::new();
        let mut i: usize = 0;
        while i < size
            invariant
                i <= size,
                cells@ == fresh_cells(i as nat),
                render_buffer@ == Seq::new(i as nat, |j: int| 0u8),
            decreases size - i,
        {
            cells.push(Cell::new());
            render_buffer.push(0);
            i += 1;
            assert(cells@ =~= fresh_cells(i as nat));
            assert(render_buffer@ =~= Seq::new(i as nat, |j: int| 0u8));
        }
        assert(render_buffer@ =~= Seq::new((width * height) as nat, |j: int| 0u8));
        Grid { width, height, cells, render_buffer }
    }

    pub fn render_buffer(&self) -> (r: &[u8])
        ensures
            r@ == self.rendered(),
    {
        self.render_buffer.as_slice()
    }

    pub fn render_buffer_len(&self) -> (r: usize)
        requires
            self.wf(),
        ensures
            r == self@.len(),
    {
        self.render_buffer.len()
    }

    /// Writes each cell's render byte into the render buffer.
    pub fn flush_render_buffer(&mut self)
        requires
            old(self).wf(),
        ensures
            final(self).wf(),
            final(self)@ == old(self)@,
            final(self).cols() == old(self).cols(),
            final(self).rows() == old(self).rows(),
            final(self).rendered() == Seq::new(
                old(self)@.len(),
                |i: int| old(self)@[i].render_byte_spec(),
            ),
    {
        let n = self.cells.len();
        let mut i: usize = 0;
        while i < n
            invariant
                i <= n,
                n == self.cells@.len(),
                self.cells@ == old(self).cells@,
                self.width == old(self).width,
                self.height == old(self).height,
                self.render_buffer@.len() == n,
                forall|j: int| 0 <= j < i ==> self.render_buffer@[j] == self.cells@[j].render_byte_spec(),
            decreases n - i,
        {
            let b = self.cells[i].to_render_byte();
            self.render_buffer.set(i, b);
            i += 1;
        }
        assert(self.rendered() =~= Seq::new(old(self)@.len(), |i: int| old(self)@[i].render_byte_spec()));
    }

    /// Makes cell `idx` a wall (cost 0) or clears it (cost 1); an index off the grid
    /// changes nothing.
    pub fn set_wall(&mut self, idx: usize, value: bool)
        requires
            old(self).wf(),
        ensures
            final(self).wf(),
            final(self).cols() == old(self).cols(),
            final(self).rows() == old(self).rows(),
            final(self)@ == if idx < old(self)@.len() {
                old(self)@.update(
                    idx as int,
                    Cell { is_wall: value, cost: if value { 0 } else { 1 }, ..old(self)@[idx as int] },
                )
            } else {
                old(self)@
            },
    {
        if idx < self.cells.len() {
            let mut c = self.cells[idx];
            c.is_wall = value;
            c.cost = if value { 0 } else { COST_NORMAL };
            self.cells.set(idx, c);
        }
    }

    /// Makes `idx` the only start cell; an index off the grid leaves no start.
    pub fn set_start(&mut self, idx: usize)
        requires
            old(self).wf(),
        ensures
            final(self).wf(),
            final(self).cols() == old(self).cols(),
            final(self).rows() == old(self).rows(),
            final(self)@ == with_start(old(self)@, idx as int),
    {
        let n = self.cells.len();
        let mut i: usize = 0;
        while i < n
            invariant
                i <= n,
                n == self.cells@.len(),
                n == old(self)@.len(),
                self.width == old(self).width,
                self.height == old(self).height,
                self.render_buffer@ == old(self).render_buffer@,
                forall|j: int|
                    0 <= j < n ==> #[trigger] self.cells@[j] == if j < i {
                        Cell { is_start: j == idx, ..old(self)@[j] }
                    } else {
                        old(self)@[j]
                    },
            decreases n - i,
        {
            let mut c = self.cells[i];
            c.is_start = i == idx;
            self.cells.set(i, c);
            i += 1;
        }
        assert(self@ =~= with_start(old(self)@, idx as int));
    }

    /// Makes `idx` the only end cell; an index off the grid leaves no end.
    pub fn set_end(&mut self, idx: usize)
        requires
            old(self).wf(),
        ensures
            final(self).wf(),
            final(self).cols() == old(self).cols(),
            final(self).rows() == old(self).rows(),
            final(self)@ == with_end(old(self)@, idx as int),
    {
        let n = self.cells.len();
        let mut i: usize = 0;
        while i < n
            invariant
                i <= n,
                n == self.cells@.len(),
                n == old(self)@.len(),
                self.width == old(self).width,
                self.height == old(self).height,
                self.render_buffer@ == old(self).render_buffer@,
                forall|j: int|
                    0 <= j < n ==> #[trigger] self.cells@[j] == if j < i {
                        Cell { is_end: j == idx, ..old(self)@[j] }
                    } else {
                        old(self)@[j]
                    },
            decreases n - i,
        {
            let mut c = self.cells[i];
            c.is_end = i == idx;
            self.cells.set(i, c);
            i += 1;
        }
        assert(self@ =~= with_end(old(self)@, idx as int));
    }

    /// Gives an open cell the traversal cost `cost`; a wall, an index off the grid,
    /// or a cost outside 1..=5 (0 is for walls alone) changes nothing.
    pub fn set_terrain(&mut self, idx: usize, cost: u16)
        requires
            old(self).wf(),
        ensures
            final(self).wf(),
            final(self).cols() == old(self).cols(),
            final(self).rows() == old(self).rows(),
            final(self)@ == if idx < old(self)@.len() && !old(self)@[idx as int].is_wall && 1 <= cost <= 5 {
                old(self)@.update(idx as int, Cell { cost, ..old(self)@[idx as int] })
            } else {
                old(self)@
            },
    {
        if idx < self.cells.len() {
            let mut c = self.cells[idx];
            if !c.is_wall && 1 <= cost && cost <= 5 {
                c.cost = cost;
                self.cells.set(idx, c);
            }
        }
    }

    /// Clears every visited and path mark; walls, terrain, start and end stay.
    pub fn reset_search_state(&mut self)
        requires
            old(self).wf(),
        ensures
            final(self).wf(),
            final(self).cols() == old(self).cols(),
            final(self).rows() == old(self).rows(),
            final(self)@ == without_marks(old(self)@),
    {
        let n = self.cells.len();
        let mut i: usize = 0;
        while i < n
            invariant
                i <= n,
                n == self.cells@.len(),
                n == old(self)@.len(),
                self.width == old(self).width,
                self.height == old(self).height,
                self.render_buffer@ == old(self).render_buffer@,
                forall|j: int|
                    0 <= j < n ==> #[trigger] self.cells@[j] == if j < i {
                        Cell { is_visited: false, is_path: false, ..old(self)@[j] }
                    } else {
                        old(self)@[j]
                    },
            decreases n - i,
        {
            let mut c = self.cells[i];
            c.is_visited = false;
            c.is_path = false;
            self.cells.set(i, c);
            i += 1;
        }
        assert(self@ =~= without_marks(old(self)@));
    }

    /// Returns every cell to the fresh state: no walls, cost 1, no start, no end, no marks.
    pub fn reset_all(&mut self)
        requires
            old(self).wf(),
        ensures
            final(self).wf(),
            final(self).cols() == old(self).cols(),
            final(self).rows() == old(self).rows(),
            final(self)@ == fresh_cells(old(self)@.len()),
    {
        let n = self.cells.len();
        let mut i: usize = 0;
        while i < n
            invariant
                i <= n,
                n == self.cells@.len(),
                n == old(self)@.len(),
                self.width == old(self).width,
                self.height == old(self).height,
                self.render_buffer@ == old(self).render_buffer@,
                forall|j: int| 0 <= j < n ==> #[trigger] self.cells@[j] == if j < i {
                    Cell::fresh()
                } else {
                    old(self)@[j]
                },
            decreases n - i,
        {
            self.cells.set(i, Cell::new());
            i += 1;
        }
        assert(self@ =~= fresh_cells(old(self)@.len()));
    }

    pub fn idx(&self, row: usize, col: usize) -> (r: usize)
        requires
            row * self.cols() + col <= usize::MAX,
        ensures
            r == row * self.cols() + col,
    {
        row * self.width + col
    }

    pub fn get(&self, idx: usize) -> (r: Option<&Cell>)
        ensures
            r == if idx < self@.len() { Some(&self@[idx as int]) } else { None },
    {
        if idx < self.cells.len() {
            Some(&self.cells[idx])
        } else {
            None
        }
    }

    /// The cell at `idx` for change in place. What is written through it is not held
    /// to the grid's well-formedness: a caller that needs `wf` afterwards must keep
    /// walls at cost 0, open cells above it, and one start and one end at most.
    pub fn get_mut(&mut self, idx: usize) -> (r: Option<&mut Cell>)
        ensures
            final(self).cols() == old(self).cols(),
            final(self).rows() == old(self).rows(),
            final(self).rendered() == old(self).rendered(),
            (idx < old(self)@.len()) == r is Some,
            r matches Some(c) ==> *c == old(self)@[idx as int] && final(self)@ == old(self)@.update(idx as int, *final(c)),
            r is None ==> final(self)@ == old(self)@,
    {
        if idx < self.cells.len() {
            Some(&mut self.cells[idx])
        } else {
            None
        }
    }

    /// Number of cells.
    pub fn size(&self) -> (r: usize)
        ensures
            r == self@.len(),
    {
        self.cells.len()
    }

    /// The cell at `idx`, which must be on the grid.
    pub fn cell(&self, idx: usize) -> (c: Cell)
        requires
            idx < self@.len(),
        ensures
            c == self@[idx as int],
    {
        self.cells[idx]
    }

    /// The open cells next to `idx`, in the order up, down, left, right.
    pub fn neighbors(&self, idx: usize) -> (r: Vec<usize>)
        requires
            self.wf(),
            idx < self@.len(),
        ensures
            r@ == self.neighbor_list(idx as int),
    {
        let w = self.width;
        let n = self.cells.len();
        let mut result: Vec<usize> = Vec::new();
        proof {
            assert(w > 0 && w <= n && n == w * self.height) by (nonlinear_arith)
                requires
                    n == self.width * self.height,
                    w == self.width,
                    idx < n,
            ;
            vstd::arithmetic::div_mod::lemma_small_mod(0, w as nat);
            if idx % w != w - 1 && idx + 1 >= n {
                let h = self.height as int;
                assert(idx == w * (h - 1) + (w - 1)) by (nonlinear_arith)
                    requires
                        idx + 1 == n,
                        n == w * h,
                ;
                vstd::arithmetic::div_mod::lemma_mod_multiples_vanish(h - 1, w - 1, w as int);
                vstd::arithmetic::div_mod::lemma_small_mod((w - 1) as nat, w as nat);
            }
        }
        if idx >= w && !self.cells[idx - w].is_wall {
            result.push(idx - w);
        }
        if idx < n - w && !self.cells[idx + w].is_wall {
            result.push(idx + w);
        }
        if idx % w != 0 && !self.cells[idx - 1].is_wall {
            result.push(idx - 1);
        }
        if idx + 1 < n && idx % w != w - 1 && !self.cells[idx + 1].is_wall {
            result.push(idx + 1);
        }
        assert(result@ =~= self.neighbor_list(idx as int));
        result
    }

    /// Sets the visited mark of cell `idx`.
    pub(crate) fn mark_visited(&mut self, idx: usize)
        requires
            old(self).wf(),
            idx < old(self)@.len(),
        ensures
            final(self).wf(),
            final(self).cols() == old(self).cols(),
            final(self).rows() == old(self).rows(),
            final(self)@ == old(self)@.update(idx as int, Cell { is_visited: true, ..old(self)@[idx as int] }),
    {
        let mut c = self.cells[idx];
        c.is_visited = true;
        self.cells.set(idx, c);
    }

    /// Sets the path mark of cell `idx`.
    pub(crate) fn mark_path(&mut self, idx: usize)
        requires
            old(self).wf(),
            idx < old(self)@.len(),
        ensures
            final(self).wf(),
            final(self).cols() == old(self).cols(),
            final(self).rows() == old(self).rows(),
            final(self)@ == old(self)@.update(idx as int, Cell { is_path: true, ..old(self)@[idx as int] }),
    {
        let mut c = self.cells[idx];
        c.is_path = true;
        self.cells.set(idx, c);
    }

    /// Makes cell `idx` open with normal cost.
    pub(crate) fn carve(&mut self, idx: usize)
        requires
            old(self).wf(),
            idx < old(self)@.len(),
        ensures
            final(self).wf(),
            final(self).cols() == old(self).cols(),
            final(self).rows() == old(self).rows(),
            final(self)@ == old(self)@.update(
                idx as int,
                Cell { is_wall: false, cost: 1, ..old(self)@[idx as int] },
            ),
    {
        let mut c = self.cells[idx];
        c.is_wall = false;
        c.cost = COST_NORMAL;
        self.cells.set(idx, c);
    }

    /// Makes cell `idx` a wall of cost 0, keeping its role and marks.
    pub(crate) fn fill(&mut self, idx: usize)
        requires
            old(self).wf(),
            idx < old(self)@.len(),
        ensures
            final(self).wf(),
            final(self).cols() == old(self).cols(),
            final(self).rows() == old(self).rows(),
            final(self)@ == old(self)@.update(
                idx as int,
                Cell { is_wall: true, cost: 0, ..old(self)@[idx as int] },
            ),
    {
        let mut c = self.cells[idx];
        c.is_wall = true;
        c.cost = 0;
        self.cells.set(idx, c);
    }
}

} // verus!
