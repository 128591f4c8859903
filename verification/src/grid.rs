use vstd::prelude::*;

verus! {

/// One grid position: carved (`open`) or solid, with a region id that is carried for display
/// and never read by the generation logic.
#[derive(Clone, Copy, Debug, PartialEq, Eq)]
pub struct Cell {
    pub open: bool,
    pub region: Option<usize>,
}

/// The solid cell that every position holds after a reset.
pub open spec fn solid_cell() -> Cell {
    Cell { open: false, region: None }
}

/// A carved cell that belongs to the given region.
pub open spec fn carved_cell(region: usize) -> Cell {
    Cell { open: true, region: Some(region) }
}

/// Mathematical model of a grid: its dimensions and its cells in row-major order.
pub struct GridView {
    pub width: nat,
    pub height: nat,
    pub cells: Seq<Cell>,
}

impl GridView {
    /// Both dimensions are positive, there is one cell per position, and twice the cell
    /// count fits in a machine word (an allocation spans at most half the address space).
    pub open spec fn wf(self) -> bool {
        &&& self.width > 0
        &&& self.height > 0
        &&& self.cells.len() == self.width * self.height
        &&& 2 * (self.width * self.height) <= usize::MAX
    }

    /// `p` names a cell of the grid.
    pub open spec fn in_bounds(self, p: (usize, usize)) -> bool {
        p.0 < self.width && p.1 < self.height
    }

    /// Row-major position of a coordinate in `cells`.
    pub open spec fn index(self, p: (usize, usize)) -> int {
        p.1 * self.width + p.0
    }

    /// The cell at `p`, absent outside the grid.
    pub open spec fn cell(self, p: (usize, usize)) -> Option<Cell> {
        if self.in_bounds(p) {
            Some(self.cells[self.index(p)])
        } else {
            None
        }
    }

    /// `p` lies in the grid and is carved.
    pub open spec fn is_open(self, p: (usize, usize)) -> bool {
        self.in_bounds(p) && self.cells[self.index(p)].open
    }

    /// The grid with the cell at `p` replaced; unchanged when `p` lies outside.
    pub open spec fn with_cell(self, p: (usize, usize), c: Cell) -> GridView {
        if self.in_bounds(p) {
            GridView { cells: self.cells.update(self.index(p), c), ..self }
        } else {
            self
        }
    }

    /// The grid of the same dimensions with every cell solid.
    pub open spec fn cleared(self) -> GridView {
        GridView { cells: Seq::new(self.cells.len(), |i: int| solid_cell()), ..self }
    }

    /// The grid with `p` carved for `region`.
    pub open spec fn carve(self, p: (usize, usize), region: usize) -> GridView {
        self.with_cell(p, carved_cell(region))
    }

    /// The grid with every cell of `cells` carved for `region`, in order.
    pub open spec fn carve_all(self, cells: Seq<(usize, usize)>, region: usize) -> GridView
        decreases cells.len(),
    {
        if cells.len() == 0 {
            self
        } else {
            self.carve_all(cells.drop_last(), region).carve(cells.last(), region)
        }
    }

    /// `other` has the same dimensions, keeps every carved cell carved, and differs from
    /// `self` only in cells that are carved in `other`.
    pub open spec fn grows_to(self, other: GridView) -> bool {
        &&& other.width == self.width
        &&& other.height == self.height
        &&& other.cells.len() == self.cells.len()
        &&& forall|i: int|
            0 <= i < self.cells.len() ==> (#[trigger] other.cells[i]).open || other.cells[i]
                == self.cells[i]
    }
}

/// A position inside the grid has its row-major index inside the cell sequence.
pub proof fn lemma_index_in_range(g: GridView, p: (usize, usize))
    requires
        g.wf(),
        g.in_bounds(p),
    ensures
        0 <= g.index(p) < g.cells.len(),
        g.index(p) <= usize::MAX,
{
    let w = g.width as int;
    let h = g.height as int;
    let x = p.0 as int;
    let y = p.1 as int;
    assert(y * w + x < h * w) by (nonlinear_arith)
        requires
            0 <= x < w,
            0 <= y < h,
    ;
    assert(0 <= y * w) by (nonlinear_arith)
        requires
            0 <= y,
            0 < w,
    ;
    assert(h * w == w * h) by (nonlinear_arith);
}

/// Two positions inside the grid with the same row-major index are the same position.
pub proof fn lemma_index_injective(g: GridView, p: (usize, usize), q: (usize, usize))
    requires
        g.wf(),
        g.in_bounds(p),
        g.in_bounds(q),
        g.index(p) == g.index(q),
    ensures
        p == q,
{
    let w = g.width as int;
    let px = p.0 as int;
    let py = p.1 as int;
    let qx = q.0 as int;
    let qy = q.1 as int;
    assert(py == qy) by (nonlinear_arith)
        requires
            0 <= px < w,
            0 <= qx < w,
            0 <= py,
            0 <= qy,
            py * w + px == qy * w + qx,
    ;
}

/// Carving a cell keeps the grid well formed and only adds carved cells.
pub proof fn lemma_carve_grows(g: GridView, p: (usize, usize), region: usize)
    requires
        g.wf(),
    ensures
        g.carve(p, region).wf(),
        g.grows_to(g.carve(p, region)),
        g.in_bounds(p) ==> g.carve(p, region).is_open(p),
{
    if g.in_bounds(p) {
        lemma_index_in_range(g, p);
    }
}

/// Growth of a grid by carving is transitive.
pub proof fn lemma_grows_transitive(a: GridView, b: GridView, c: GridView)
    requires
        a.grows_to(b),
        b.grows_to(c),
    ensures
        a.grows_to(c),
{
    assert forall|i: int| 0 <= i < a.cells.len() implies (#[trigger] c.cells[i]).open || c.cells[i]
        == a.cells[i] by {
        assert(b.cells[i].open || b.cells[i] == a.cells[i]);
    }
}

/// Cells that are carved stay carved when the grid grows.
pub proof fn lemma_open_survives(a: GridView, b: GridView, p: (usize, usize))
    requires
        a.wf(),
        a.grows_to(b),
        a.is_open(p),
    ensures
        b.is_open(p),
{
    lemma_index_in_range(a, p);
    let i = a.index(p);
    assert(b.cells[i].open || b.cells[i] == a.cells[i]);
}

/// Carving a sequence of cells keeps the grid well formed and only adds carved cells.
pub proof fn lemma_carve_all_grows(g: GridView, cells: Seq<(usize, usize)>, region: usize)
    requires
        g.wf(),
    ensures
        g.carve_all(cells, region).wf(),
        g.grows_to(g.carve_all(cells, region)),
    decreases cells.len(),
{
    if cells.len() > 0 {
        let before = g.carve_all(cells.drop_last(), region);
        lemma_carve_all_grows(g, cells.drop_last(), region);
        lemma_carve_grows(before, cells.last(), region);
        lemma_grows_transitive(g, before, before.carve(cells.last(), region));
    }
}

/// Carving one more cell after a sequence is carving the sequence with that cell appended.
pub proof fn lemma_carve_all_push(g: GridView, cells: Seq<(usize, usize)>, p: (usize, usize), region: usize)
    ensures
        g.carve_all(cells.push(p), region) == g.carve_all(cells, region).carve(p, region),
{
    assert(cells.push(p).drop_last() =~= cells);
}

/// Outside the grid a read finds nothing and a write changes nothing.
pub proof fn lemma_out_of_bounds_is_inert(g: GridView, p: (usize, usize), c: Cell)
    requires
        !g.in_bounds(p),
    ensures
        g.cell(p) is None,
        g.with_cell(p, c) == g,
{
}

/// Clearing a grid twice leaves the same all-solid grid as clearing it once.
pub proof fn lemma_reset_idempotent(g: GridView)
    ensures
        g.cleared().cleared() == g.cleared(),
        forall|i: int| 0 <= i < g.cells.len() ==> g.cleared().cells[i] == solid_cell(),
{
    assert(g.cleared().cleared().cells =~= g.cleared().cells);
}

/// A fixed-size dense grid of cells with bounds-checked access.
pub struct Grid {
    width: usize,
    height: usize,
    cells: Vec<Cell>,
}

impl View for Grid {
    type V = GridView;

    /// The dimensions and the cells, row by row.
    closed spec fn view(&self) -> GridView {
        GridView { width: self.width as nat, height: self.height as nat, cells: self.cells@ }
    }
}

impl Grid {
    /// Allocates a grid of the given dimensions with every cell solid.
    pub fn new(width: usize, height: usize) -> (g: Grid)
        requires
            width > 0,
            height > 0,
            2 * (width * height) <= usize::MAX,
        ensures
            g@.wf(),
            g@.width == width,
            g@.height == height,
            forall|i: int| 0 <= i < g@.cells.len() ==> g@.cells[i] == solid_cell(),
    {
        let n: usize = width * height;
        let cells = vec![Cell { open: false, region: None }; n];
        Grid { width, height, cells }
    }

    /// Number of columns.
    pub fn width(&self) -> (w: usize)
        ensures
            w == self@.width,
    {
        self.width
    }

    /// Number of rows.
    pub fn height(&self) -> (h: usize)
        ensures
            h == self@.height,
    {
        self.height
    }

    /// Makes every cell solid again; the dimensions stay.
    pub fn reset(&mut self)
        requires
            old(self)@.wf(),
        ensures
            final(self)@ == old(self)@.cleared(),
            final(self)@.wf(),
    {
        let n: usize = self.cells.len();
        let mut i: usize = 0;
        while i < n
            invariant
                i <= n,
                n == self.cells@.len(),
                self.width == old(self).width,
                self.height == old(self).height,
                self.cells@.len() == old(self).cells@.len(),
                forall|j: int| 0 <= j < i ==> self.cells@[j] == solid_cell(),
            decreases n - i,
        {
            self.cells.set(i, Cell { open: false, region: None });
            i = i + 1;
        }
        assert(self.cells@ =~= old(self)@.cleared().cells);
    }

    /// The cell at `(x, y)`, or `None` when the position lies outside the grid.
    pub fn get(&self, x: usize, y: usize) -> (c: Option<Cell>)
        requires
            self@.wf(),
        ensures
            c == self@.cell((x, y)),
            !self@.in_bounds((x, y)) ==> c is None,
    {
        if x < self.width && y < self.height {
            proof {
                lemma_index_in_range(self@, (x, y));
            }
            Some(self.cells[y * self.width + x])
        } else {
            None
        }
    }

    /// Replaces the cell at `(x, y)`; does nothing when the position lies outside the grid.
    pub fn set(&mut self, x: usize, y: usize, cell: Cell)
        requires
            old(self)@.wf(),
        ensures
            final(self)@ == old(self)@.with_cell((x, y), cell),
            final(self)@.wf(),
            !old(self)@.in_bounds((x, y)) ==> final(self)@ == old(self)@,
    {
        if x < self.width && y < self.height {
            proof {
                lemma_index_in_range(self@, (x, y));
            }
            let i: usize = y * self.width + x;
            self.cells.set(i, cell);
        }
    }

    /// Row-major position of a coordinate of the grid among its cells.
    pub fn index_of(&self, p: (usize, usize)) -> (i: usize)
        requires
            self@.wf(),
            self@.in_bounds(p),
        ensures
            i == self@.index(p),
            i < self@.cells.len(),
    {
        proof {
            lemma_index_in_range(self@, p);
        }
        p.1 * self.width + p.0
    }

    /// Whether `(x, y)` lies in the grid and is carved.
    pub fn is_open(&self, x: usize, y: usize) -> (b: bool)
        requires
            self@.wf(),
        ensures
            b == self@.is_open((x, y)),
    {
        match self.get(x, y) {
            Some(c) => c.open,
            None => false,
        }
    }
}

} // verus!
