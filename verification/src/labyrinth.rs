//! A perfect labyrinth on a rectangular grid of cells, each cell tracking
//! which of its four sides is closed, and the conversion of a labyrinth
//! into wall segments for the scene: either one segment per closed side, or
//! maximal runs of collinear walls merged into single segments.

use vstd::prelude::*;

verus! {

use std::collections::VecDeque;

/// One side of a grid cell.
pub enum Side {
    Top,
    Bottom,
    Left,
    Right,
}

/// A grid cell: the low four bits of `sides` record which sides are closed
/// (top, bottom, left, right from high to low).
#[derive(Clone, Copy, PartialEq, Eq, Structural, Debug)]
pub struct Cell {
    pub sides: u8,
}

impl Cell {
    /// The bits of this cell.
    pub open spec fn spec_sides(self) -> u8 {
        self.sides
    }
}

/// The mask that clears (opens) a side.
pub open spec fn spec_open_mask(side: Side) -> u8 {
    match side {
        Side::Top => 0xF7,
        Side::Bottom => 0xFB,
        Side::Left => 0xFD,
        Side::Right => 0xFE,
    }
}

/// Whether a side of a cell is open.  The test for the right side also
/// checks bit four, which no constructor or opening ever sets, so on cells
/// built from [`Cell::new`] it reduces to bit zero being clear.
pub open spec fn spec_is_open(c: Cell, side: Side) -> bool {
    match side {
        Side::Top => c.spec_sides() & 0x08 == 0,
        Side::Bottom => c.spec_sides() & 0x04 == 0,
        Side::Left => c.spec_sides() & 0x02 == 0,
        Side::Right => c.spec_sides() & 0x11 == 0,
    }
}

impl Cell {
    /// A cell with all four sides closed.
    pub fn new() -> (c: Cell)
        ensures
            c.spec_sides() == 0x0F,
    {
        Cell { sides: 0x0F }
    }

    /// A cell with all sides open.
    pub fn new_empty() -> (c: Cell)
        ensures
            c.spec_sides() == 0x00,
    {
        Cell { sides: 0x00 }
    }

    /// Open one side.
    pub fn open(&mut self, side: Side)
        ensures
            final(self).spec_sides() == old(self).spec_sides() & spec_open_mask(side),
    {
        match side {
            Side::Top => self.sides = self.sides & 0xF7,
            Side::Bottom => self.sides = self.sides & 0xFB,
            Side::Left => self.sides = self.sides & 0xFD,
            Side::Right => self.sides = self.sides & 0xFE,
        }
    }

    /// Whether a side is open.
    pub fn is_open(self, side: Side) -> (r: bool)
        ensures
            r == spec_is_open(self, side),
    {
        match side {
            Side::Top => self.sides & 0x08 == 0,
            Side::Bottom => self.sides & 0x04 == 0,
            Side::Left => self.sides & 0x02 == 0,
            Side::Right => self.sides & 0x11 == 0,
        }
    }

    /// Whether a side is closed.
    pub fn is_closed(self, side: Side) -> (r: bool)
        ensures
            r == !spec_is_open(self, side),
    {
        !self.is_open(side)
    }

    /// The raw side bits.
    pub fn get_sides(&self) -> (r: u8)
        ensures
            r == self.spec_sides(),
    {
        self.sides
    }
}

/// Opening a side opens exactly that side: afterwards the side tests open,
/// and every other side keeps its state.  Holds for cells whose unused high
/// bits are clear, as all cells built by this module are.
pub proof fn lemma_open_opens(sides: u8)
    by (bit_vector)
    requires
        sides < 16,
    ensures
        (sides & 0xF7) & 0x08 == 0,
        (sides & 0xFB) & 0x04 == 0,
        (sides & 0xFD) & 0x02 == 0,
        (sides & 0xFE) & 0x11 == 0,
        (sides & 0xF7) & 0x04 == sides & 0x04,
        (sides & 0xF7) & 0x02 == sides & 0x02,
        (sides & 0xF7) & 0x11 == sides & 0x11,
        (sides & 0xFB) & 0x08 == sides & 0x08,
        (sides & 0xFB) & 0x02 == sides & 0x02,
        (sides & 0xFB) & 0x11 == sides & 0x11,
        (sides & 0xFD) & 0x08 == sides & 0x08,
        (sides & 0xFD) & 0x04 == sides & 0x04,
        (sides & 0xFD) & 0x11 == sides & 0x11,
        (sides & 0xFE) & 0x08 == sides & 0x08,
        (sides & 0xFE) & 0x04 == sides & 0x04,
        (sides & 0xFE) & 0x02 == sides & 0x02,
        sides & 0xF7 < 16,
        sides & 0xFB < 16,
        sides & 0xFD < 16,
        sides & 0xFE < 16,
{
}

/// A rectangular labyrinth: `size` is `(width, height)` in cells, each cell
/// `cell_size` units across.
pub struct Labyrinth {
    pub cell_size: i64,
    pub size: (usize, usize),
    pub cells: Vec<Vec<Cell>>,
}

/// One wall segment, as a pair of integer points.
pub open spec fn wall(x0: int, y0: int, x1: int, y1: int) -> ((i64, i64), (i64, i64)) {
    ((x0 as i64, y0 as i64), (x1 as i64, y1 as i64))
}

impl Labyrinth {
    /// The grid contents, as mathematical sequences.
    pub open spec fn spec_cells(&self) -> Seq<Seq<Cell>> {
        self.cells@.map_values(|row: Vec<Cell>| row@)
    }

    /// A well-formed labyrinth: the grid has `size.1` rows of `size.0`
    /// cells, and no cell uses the unused high bits.
    pub open spec fn wf(&self) -> bool {
        &&& self.spec_cells().len() == self.size.1
        &&& forall|y: int|
            0 <= y < self.size.1 ==> (#[trigger] self.spec_cells()[y]).len() == self.size.0
        &&& forall|y: int, x: int|
            0 <= y < self.size.1 && 0 <= x < self.size.0 ==> (#[trigger] self.spec_cells()[y][x])
                .spec_sides() < 16
    }

    /// Coordinates stay within the scene bounds.
    pub open spec fn sized_ok(&self) -> bool {
        &&& 0 <= self.cell_size
        &&& self.size.0 <= 1_000_000
        &&& self.size.1 <= 1_000_000
        &&& 0 <= self.size.0 * self.cell_size <= 1_000_000
        &&& 0 <= self.size.1 * self.cell_size <= 1_000_000
    }

    /// A new labyrinth with every wall in place.
    pub fn new(cell_size: i64, size: (usize, usize)) -> (l: Labyrinth)
        ensures
            l.cell_size == cell_size,
            l.size == size,
            l.wf(),
            forall|y: int, x: int|
                0 <= y < size.1 && 0 <= x < size.0 ==> (#[trigger] l.spec_cells()[y][x])
                    .spec_sides() == 0x0F,
    {
        let mut cells: Vec<Vec<Cell>> = Vec::new();
        let mut y: usize = 0;
        while y < size.1
            invariant
                0 <= y <= size.1,
                cells@.len() == y,
                forall|j: int| 0 <= j < y ==> (#[trigger] cells@[j])@.len() == size.0,
                forall|j: int, x: int|
                    0 <= j < y && 0 <= x < size.0 ==> (#[trigger] cells@[j]@[x]).spec_sides()
                        == 0x0F,
            decreases size.1 - y,
        {
            let mut row: Vec<Cell> = Vec::new();
            let mut x: usize = 0;
            while x < size.0
                invariant
                    0 <= x <= size.0,
                    row@.len() == x,
                    forall|i: int| 0 <= i < x ==> (#[trigger] row@[i]).spec_sides() == 0x0F,
                decreases size.0 - x,
            {
                row.push(Cell::new());
                x = x + 1;
            }
            cells.push(row);
            y = y + 1;
        }
        Labyrinth { cell_size, size, cells }
    }

    /// The grid of cells.
    pub fn get_cells(&self) -> (r: &Vec<Vec<Cell>>)
        ensures
            r@.map_values(|row: Vec<Cell>| row@) == self.spec_cells(),
    {
        &self.cells
    }
}

/// The walls of one cell, one segment per closed side, in the order top,
/// bottom, left, right.
pub open spec fn spec_cell_walls(c: Cell, x: int, y: int, cs: int) -> Seq<((i64, i64), (i64, i64))> {
    let x0: int = x * cs;
    let y0: int = y * cs;
    let x1: int = (x + 1) * cs;
    let y1: int = (y + 1) * cs;
    (if !spec_is_open(c, Side::Top) {
        seq![wall(x0, y0, x1, y0)]
    } else {
        Seq::empty()
    }) + (if !spec_is_open(c, Side::Bottom) {
        seq![wall(x0, y1, x1, y1)]
    } else {
        Seq::empty()
    }) + (if !spec_is_open(c, Side::Left) {
        seq![wall(x0, y0, x0, y1)]
    } else {
        Seq::empty()
    }) + (if !spec_is_open(c, Side::Right) {
        seq![wall(x1, y0, x1, y1)]
    } else {
        Seq::empty()
    })
}

/// All per-cell walls from cell `(x, y)` on, in row-major order.
pub open spec fn spec_explicit_from(
    cells: Seq<Seq<Cell>>,
    w: int,
    cs: int,
    y: int,
    x: int,
) -> Seq<((i64, i64), (i64, i64))>
    decreases cells.len() - y, w - x,
{
    if y < 0 || y >= cells.len() || x < 0 || x > w {
        Seq::empty()
    } else if x == w {
        spec_explicit_from(cells, w, cs, y + 1, 0)
    } else {
        spec_cell_walls(cells[y][x], x, y, cs) + spec_explicit_from(cells, w, cs, y, x + 1)
    }
}

impl Labyrinth {
    /// Every closed side of every cell as its own wall segment, cell by
    /// cell in row-major order, each cell contributing its top, bottom,
    /// left and right wall in that order.
    pub fn get_as_lines_explicit(&self) -> (r: Vec<((i64, i64), (i64, i64))>)
        requires
            self.wf(),
            self.sized_ok(),
        ensures
            r@ == spec_explicit_from(
                self.spec_cells(),
                self.size.0 as int,
                self.cell_size as int,
                0,
                0,
            ),
    {
        let mut lines: Vec<((i64, i64), (i64, i64))> = Vec::new();
        let cell_size: i64 = self.cell_size;
        let w: usize = self.size.0;
        let h: usize = self.size.1;
        let ghost cells: Seq<Seq<Cell>> = self.spec_cells();
        let ghost total: Seq<((i64, i64), (i64, i64))> = spec_explicit_from(
            cells,
            w as int,
            cell_size as int,
            0,
            0,
        );
        let mut y: usize = 0;
        while y < h
            invariant
                self.wf(),
                self.sized_ok(),
                cells == self.spec_cells(),
                w == self.size.0,
                h == self.size.1,
                cell_size == self.cell_size,
                0 <= y <= h,
                lines@ + spec_explicit_from(cells, w as int, cell_size as int, y as int, 0)
                    == total,
            decreases h - y,
        {
            let mut x: usize = 0;
            while x < w
                invariant
                    self.wf(),
                    self.sized_ok(),
                    cells == self.spec_cells(),
                    w == self.size.0,
                    h == self.size.1,
                    cell_size == self.cell_size,
                    0 <= y < h,
                    0 <= x <= w,
                    lines@ + spec_explicit_from(cells, w as int, cell_size as int, y as int, x as int)
                        == total,
                decreases w - x,
            {
                proof {
                    crate::num::lemma_mul_le_mono(x as int + 1, w as int, cell_size as int);
                    crate::num::lemma_mul_le_mono(y as int + 1, h as int, cell_size as int);
                    crate::num::lemma_mul_le_mono(0, x as int, cell_size as int);
                    crate::num::lemma_mul_le_mono(0, y as int, cell_size as int);
                    crate::num::lemma_mul_le_mono(x as int, x as int + 1, cell_size as int);
                    crate::num::lemma_mul_le_mono(y as int, y as int + 1, cell_size as int);
                }
                let ghost lines0: Seq<((i64, i64), (i64, i64))> = lines@;
                let cell: Cell = self.cells[y][x];
                let x_pos: i64 = x as i64 * cell_size;
                let y_pos: i64 = y as i64 * cell_size;
                let x_next: i64 = (x as i64 + 1) * cell_size;
                let y_next: i64 = (y as i64 + 1) * cell_size;
                if !cell.is_open(Side::Top) {
                    lines.push(((x_pos, y_pos), (x_next, y_pos)));
                }
                if !cell.is_open(Side::Bottom) {
                    lines.push(((x_pos, y_next), (x_next, y_next)));
                }
                if !cell.is_open(Side::Left) {
                    lines.push(((x_pos, y_pos), (x_pos, y_next)));
                }
                if !cell.is_open(Side::Right) {
                    lines.push(((x_next, y_pos), (x_next, y_next)));
                }
                proof {
                    assert(lines@ =~= lines0 + spec_cell_walls(
                        cells[y as int][x as int],
                        x as int,
                        y as int,
                        cell_size as int,
                    ));
                    assert(lines@ + spec_explicit_from(
                        cells,
                        w as int,
                        cell_size as int,
                        y as int,
                        x as int + 1,
                    ) =~= total);
                }
                x = x + 1;
            }
            y = y + 1;
        }
        proof {
            assert(lines@ + spec_explicit_from(cells, w as int, cell_size as int, h as int, 0)
                =~= lines@);
        }
        lines
    }
}

/// Walls of the top border: maximal runs of closed top sides along the
/// first row, merged into single segments.  A run breaks where a cell's
/// right side is closed (the wall is flushed including that cell) or where
/// a top side is open; the final cell flushes a pending run.
pub open spec fn spec_top_from(row: Seq<Cell>, cs: int, x: int, start: Option<int>) -> Seq<
    ((i64, i64), (i64, i64)),
>
    decreases row.len() - x,
{
    if x < 0 || x >= row.len() {
        Seq::empty()
    } else {
        let c = row[x];
        let x_pos: int = x * cs;
        let x_next: int = (x + 1) * cs;
        if !spec_is_open(c, Side::Top) {
            let s: int = if start is Some {
                start->Some_0
            } else {
                x_pos
            };
            if !spec_is_open(c, Side::Right) {
                seq![wall(s, 0, x_next, 0)] + spec_top_from(row, cs, x + 1, None)
            } else if x == row.len() - 1 {
                seq![wall(s, 0, x_next, 0)] + spec_top_from(row, cs, x + 1, Some(s))
            } else {
                spec_top_from(row, cs, x + 1, Some(s))
            }
        } else {
            if start is Some {
                seq![wall(start->Some_0, 0, x_pos, 0)] + spec_top_from(row, cs, x + 1, None)
            } else {
                spec_top_from(row, cs, x + 1, None)
            }
        }
    }
}

/// Merged walls along the bottom sides of one row.  A run breaks where this
/// cell's right side or the right side of the cell below is closed; below
/// the last row an all-open cell stands in.
pub open spec fn spec_hrow_from(
    cells: Seq<Seq<Cell>>,
    w: int,
    cs: int,
    y: int,
    x: int,
    start: Option<int>,
) -> Seq<((i64, i64), (i64, i64))>
    decreases w - x,
{
    if x < 0 || x >= w || y < 0 || y >= cells.len() {
        Seq::empty()
    } else {
        let c = cells[y][x];
        let below = if y < cells.len() - 1 {
            cells[y + 1][x]
        } else {
            Cell { sides: 0 }
        };
        let x_pos: int = x * cs;
        let x_next: int = (x + 1) * cs;
        let y_next: int = (y + 1) * cs;
        if !spec_is_open(c, Side::Bottom) {
            let s: int = if start is Some {
                start->Some_0
            } else {
                x_pos
            };
            if !spec_is_open(below, Side::Right) || !spec_is_open(c, Side::Right) {
                seq![wall(s, y_next, x_next, y_next)] + spec_hrow_from(cells, w, cs, y, x + 1, None)
            } else if x == w - 1 {
                seq![wall(s, y_next, x_next, y_next)] + spec_hrow_from(
                    cells,
                    w,
                    cs,
                    y,
                    x + 1,
                    Some(s),
                )
            } else {
                spec_hrow_from(cells, w, cs, y, x + 1, Some(s))
            }
        } else {
            if start is Some {
                seq![wall(start->Some_0, y_next, x_pos, y_next)] + spec_hrow_from(
                    cells,
                    w,
                    cs,
                    y,
                    x + 1,
                    None,
                )
            } else {
                spec_hrow_from(cells, w, cs, y, x + 1, None)
            }
        }
    }
}

/// Merged bottom-side walls of every row from `y` down.
pub open spec fn spec_hall_from(cells: Seq<Seq<Cell>>, w: int, cs: int, y: int) -> Seq<
    ((i64, i64), (i64, i64)),
>
    decreases cells.len() - y,
{
    if y < 0 || y >= cells.len() {
        Seq::empty()
    } else {
        spec_hrow_from(cells, w, cs, y, 0, None) + spec_hall_from(cells, w, cs, y + 1)
    }
}

/// Walls of the left border: maximal runs of closed left sides along the
/// first column; a run breaks where a cell's bottom side is closed.
pub open spec fn spec_left_from(cells: Seq<Seq<Cell>>, cs: int, y: int, start: Option<int>) -> Seq<
    ((i64, i64), (i64, i64)),
>
    decreases cells.len() - y,
{
    if y < 0 || y >= cells.len() {
        Seq::empty()
    } else {
        let c = cells[y][0];
        let y_pos: int = y * cs;
        let y_next: int = (y + 1) * cs;
        if !spec_is_open(c, Side::Left) {
            let s: int = if start is Some {
                start->Some_0
            } else {
                y_pos
            };
            if !spec_is_open(c, Side::Bottom) {
                seq![wall(0, s, 0, y_next)] + spec_left_from(cells, cs, y + 1, None)
            } else if y == cells.len() - 1 {
                seq![wall(0, s, 0, y_next)] + spec_left_from(cells, cs, y + 1, Some(s))
            } else {
                spec_left_from(cells, cs, y + 1, Some(s))
            }
        } else {
            if start is Some {
                seq![wall(0, start->Some_0, 0, y_pos)] + spec_left_from(cells, cs, y + 1, None)
            } else {
                spec_left_from(cells, cs, y + 1, None)
            }
        }
    }
}

/// Merged walls along the right sides of one column.  A run breaks where
/// this cell's bottom side or the bottom side of the cell to the right is
/// closed; past the last column an all-open cell stands in.
pub open spec fn spec_vcol_from(
    cells: Seq<Seq<Cell>>,
    w: int,
    cs: int,
    x: int,
    y: int,
    start: Option<int>,
) -> Seq<((i64, i64), (i64, i64))>
    decreases cells.len() - y,
{
    if y < 0 || y >= cells.len() || x < 0 || x >= w {
        Seq::empty()
    } else {
        let c = cells[y][x];
        let right = if x < w - 1 {
            cells[y][x + 1]
        } else {
            Cell { sides: 0 }
        };
        let y_pos: int = y * cs;
        let y_next: int = (y + 1) * cs;
        let x_next: int = (x + 1) * cs;
        if !spec_is_open(c, Side::Right) {
            let s: int = if start is Some {
                start->Some_0
            } else {
                y_pos
            };
            if !spec_is_open(right, Side::Bottom) || !spec_is_open(c, Side::Bottom) {
                seq![wall(x_next, s, x_next, y_next)] + spec_vcol_from(cells, w, cs, x, y + 1, None)
            } else if y == cells.len() - 1 {
                seq![wall(x_next, s, x_next, y_next)] + spec_vcol_from(
                    cells,
                    w,
                    cs,
                    x,
                    y + 1,
                    Some(s),
                )
            } else {
                spec_vcol_from(cells, w, cs, x, y + 1, Some(s))
            }
        } else {
            if start is Some {
                seq![wall(x_next, start->Some_0, x_next, y_pos)] + spec_vcol_from(
                    cells,
                    w,
                    cs,
                    x,
                    y + 1,
                    None,
                )
            } else {
                spec_vcol_from(cells, w, cs, x, y + 1, None)
            }
        }
    }
}

/// Merged right-side walls of every column from `x` on.
pub open spec fn spec_vall_from(cells: Seq<Seq<Cell>>, w: int, cs: int, x: int) -> Seq<
    ((i64, i64), (i64, i64)),
>
    decreases w - x,
{
    if x < 0 || x >= w {
        Seq::empty()
    } else {
        spec_vcol_from(cells, w, cs, x, 0, None) + spec_vall_from(cells, w, cs, x + 1)
    }
}

/// All merged walls of a labyrinth: the top border, then the bottom-side
/// rows, then the left border, then the right-side columns.
pub open spec fn spec_merged_lines(cells: Seq<Seq<Cell>>, w: int, cs: int) -> Seq<
    ((i64, i64), (i64, i64)),
> {
    (if cells.len() > 0 {
        spec_top_from(cells[0], cs, 0, None)
    } else {
        Seq::empty()
    }) + spec_hall_from(cells, w, cs, 0) + (if w > 0 {
        spec_left_from(cells, cs, 0, None)
    } else {
        Seq::empty()
    }) + spec_vall_from(cells, w, cs, 0)
}

/// The exec-side run state, as the spec sees it.
pub open spec fn opt_int(o: Option<i64>) -> Option<int> {
    match o {
        Some(v) => Some(v as int),
        None => None,
    }
}

impl Labyrinth {
    /// The merged walls of the top border.
    fn top_lines(&self) -> (r: Vec<((i64, i64), (i64, i64))>)
        requires
            self.wf(),
            self.sized_ok(),
            self.size.1 > 0,
        ensures
            r@ == spec_top_from(self.spec_cells()[0], self.cell_size as int, 0, None),
    {
        let mut lines: Vec<((i64, i64), (i64, i64))> = Vec::new();
        let cell_size: i64 = self.cell_size;
        let w: usize = self.size.0;
        let ghost row: Seq<Cell> = self.spec_cells()[0];
        let ghost total: Seq<((i64, i64), (i64, i64))> = spec_top_from(row, cell_size as int, 0, None);
        let mut x_start: Option<i64> = None;
        let mut x: usize = 0;
        while x < w
            invariant
                self.wf(),
                self.sized_ok(),
                self.size.1 > 0,
                row == self.spec_cells()[0],
                w == self.size.0,
                cell_size == self.cell_size,
                0 <= x <= w,
                total == spec_top_from(row, cell_size as int, 0, None),
                lines@ + spec_top_from(row, cell_size as int, x as int, opt_int(x_start)) == total,
            decreases w - x,
        {
            proof {
                crate::num::lemma_mul_le_mono(x as int + 1, w as int, cell_size as int);
                crate::num::lemma_mul_le_mono(0, x as int, cell_size as int);
                crate::num::lemma_mul_le_mono(x as int, x as int + 1, cell_size as int);
            }
            let cell: Cell = self.cells[0][x];
            let x_pos: i64 = x as i64 * cell_size;
            let x_next: i64 = (x as i64 + 1) * cell_size;
            if cell.is_closed(Side::Top) {
                let s: i64 = match x_start {
                    Some(v) => v,
                    None => x_pos,
                };
                if !cell.is_open(Side::Right) {
                    lines.push(((s, 0), (x_next, 0)));
                    x_start = None;
                } else if x == w - 1 {
                    lines.push(((s, 0), (x_next, 0)));
                    x_start = Some(s);
                } else {
                    x_start = Some(s);
                }
            } else {
                match x_start {
                    Some(st) => {
                        lines.push(((st, 0), (x_pos, 0)));
                        x_start = None;
                    },
                    None => {},
                }
            }
            x = x + 1;
        }
        lines
    }

    /// The merged bottom-side walls of every row.
    fn hall_lines(&self) -> (r: Vec<((i64, i64), (i64, i64))>)
        requires
            self.wf(),
            self.sized_ok(),
        ensures
            r@ == spec_hall_from(self.spec_cells(), self.size.0 as int, self.cell_size as int, 0),
    {
        let mut lines: Vec<((i64, i64), (i64, i64))> = Vec::new();
        let cell_size: i64 = self.cell_size;
        let w: usize = self.size.0;
        let h: usize = self.size.1;
        let ghost cells: Seq<Seq<Cell>> = self.spec_cells();
        let ghost total: Seq<((i64, i64), (i64, i64))> = spec_hall_from(
            cells,
            w as int,
            cell_size as int,
            0,
        );
        let mut y: usize = 0;
        while y < h
            invariant
                self.wf(),
                self.sized_ok(),
                cells == self.spec_cells(),
                w == self.size.0,
                h == self.size.1,
                cell_size == self.cell_size,
                0 <= y <= h,
                total == spec_hall_from(cells, w as int, cell_size as int, 0),
                lines@ + spec_hall_from(cells, w as int, cell_size as int, y as int) == total,
            decreases h - y,
        {
            let mut x_start: Option<i64> = None;
            let mut x: usize = 0;
            let ghost row_base: Seq<((i64, i64), (i64, i64))> = lines@;
            while x < w
                invariant
                    self.wf(),
                    self.sized_ok(),
                    cells == self.spec_cells(),
                    w == self.size.0,
                    h == self.size.1,
                    cell_size == self.cell_size,
                    0 <= y < h,
                    0 <= x <= w,
                    lines@ + spec_hrow_from(
                        cells,
                        w as int,
                        cell_size as int,
                        y as int,
                        x as int,
                        opt_int(x_start),
                    ) == row_base + spec_hrow_from(
                        cells,
                        w as int,
                        cell_size as int,
                        y as int,
                        0,
                        None,
                    ),
                decreases w - x,
            {
                proof {
                    crate::num::lemma_mul_le_mono(x as int + 1, w as int, cell_size as int);
                    crate::num::lemma_mul_le_mono(0, x as int, cell_size as int);
                    crate::num::lemma_mul_le_mono(x as int, x as int + 1, cell_size as int);
                    crate::num::lemma_mul_le_mono(y as int + 1, h as int, cell_size as int);
                    crate::num::lemma_mul_le_mono(0, y as int, cell_size as int);
                }
                let cell: Cell = self.cells[y][x];
                let cell_below: Cell = if y < h - 1 {
                    self.cells[y + 1][x]
                } else {
                    Cell::new_empty()
                };
                let x_pos: i64 = x as i64 * cell_size;
                let x_next: i64 = (x as i64 + 1) * cell_size;
                let y_next: i64 = (y as i64 + 1) * cell_size;
                if cell.is_closed(Side::Bottom) {
                    let s: i64 = match x_start {
                        Some(v) => v,
                        None => x_pos,
                    };
                    if !cell_below.is_open(Side::Right) || !cell.is_open(Side::Right) {
                        lines.push(((s, y_next), (x_next, y_next)));
                        x_start = None;
                    } else if x == w - 1 {
                        lines.push(((s, y_next), (x_next, y_next)));
                        x_start = Some(s);
                    } else {
                        x_start = Some(s);
                    }
                } else {
                    match x_start {
                        Some(st) => {
                            lines.push(((st, y_next), (x_pos, y_next)));
                            x_start = None;
                        },
                        None => {},
                    }
                }
                x = x + 1;
            }
            y = y + 1;
        }
        lines
    }

    /// The merged walls of the left border.
    fn left_lines(&self) -> (r: Vec<((i64, i64), (i64, i64))>)
        requires
            self.wf(),
            self.sized_ok(),
            self.size.0 > 0,
        ensures
            r@ == spec_left_from(self.spec_cells(), self.cell_size as int, 0, None),
    {
        let mut lines: Vec<((i64, i64), (i64, i64))> = Vec::new();
        let cell_size: i64 = self.cell_size;
        let h: usize = self.size.1;
        let ghost cells: Seq<Seq<Cell>> = self.spec_cells();
        let ghost total: Seq<((i64, i64), (i64, i64))> = spec_left_from(
            cells,
            cell_size as int,
            0,
            None,
        );
        let mut y_start: Option<i64> = None;
        let mut y: usize = 0;
        while y < h
            invariant
                self.wf(),
                self.sized_ok(),
                self.size.0 > 0,
                cells == self.spec_cells(),
                h == self.size.1,
                cell_size == self.cell_size,
                0 <= y <= h,
                total == spec_left_from(cells, cell_size as int, 0, None),
                lines@ + spec_left_from(cells, cell_size as int, y as int, opt_int(y_start))
                    == total,
            decreases h - y,
        {
            proof {
                crate::num::lemma_mul_le_mono(y as int + 1, h as int, cell_size as int);
                crate::num::lemma_mul_le_mono(0, y as int, cell_size as int);
                crate::num::lemma_mul_le_mono(y as int, y as int + 1, cell_size as int);
            }
            let cell: Cell = self.cells[y][0];
            let y_pos: i64 = y as i64 * cell_size;
            let y_next: i64 = (y as i64 + 1) * cell_size;
            if cell.is_closed(Side::Left) {
                let s: i64 = match y_start {
                    Some(v) => v,
                    None => y_pos,
                };
                if !cell.is_open(Side::Bottom) {
                    lines.push(((0, s), (0, y_next)));
                    y_start = None;
                } else if y == h - 1 {
                    lines.push(((0, s), (0, y_next)));
                    y_start = Some(s);
                } else {
                    y_start = Some(s);
                }
            } else {
                match y_start {
                    Some(st) => {
                        lines.push(((0, st), (0, y_pos)));
                        y_start = None;
                    },
                    None => {},
                }
            }
            y = y + 1;
        }
        lines
    }

    /// The merged right-side walls of every column.
    fn vall_lines(&self) -> (r: Vec<((i64, i64), (i64, i64))>)
        requires
            self.wf(),
            self.sized_ok(),
        ensures
            r@ == spec_vall_from(self.spec_cells(), self.size.0 as int, self.cell_size as int, 0),
    {
        let mut lines: Vec<((i64, i64), (i64, i64))> = Vec::new();
        let cell_size: i64 = self.cell_size;
        let w: usize = self.size.0;
        let h: usize = self.size.1;
        let ghost cells: Seq<Seq<Cell>> = self.spec_cells();
        let ghost total: Seq<((i64, i64), (i64, i64))> = spec_vall_from(
            cells,
            w as int,
            cell_size as int,
            0,
        );
        let mut x: usize = 0;
        while x < w
            invariant
                self.wf(),
                self.sized_ok(),
                cells == self.spec_cells(),
                w == self.size.0,
                h == self.size.1,
                cell_size == self.cell_size,
                0 <= x <= w,
                total == spec_vall_from(cells, w as int, cell_size as int, 0),
                lines@ + spec_vall_from(cells, w as int, cell_size as int, x as int) == total,
            decreases w - x,
        {
            let mut y_start: Option<i64> = None;
            let mut y: usize = 0;
            let ghost col_base: Seq<((i64, i64), (i64, i64))> = lines@;
            while y < h
                invariant
                    self.wf(),
                    self.sized_ok(),
                    cells == self.spec_cells(),
                    w == self.size.0,
                    h == self.size.1,
                    cell_size == self.cell_size,
                    0 <= x < w,
                    0 <= y <= h,
                    lines@ + spec_vcol_from(
                        cells,
                        w as int,
                        cell_size as int,
                        x as int,
                        y as int,
                        opt_int(y_start),
                    ) == col_base + spec_vcol_from(
                        cells,
                        w as int,
                        cell_size as int,
                        x as int,
                        0,
                        None,
                    ),
                decreases h - y,
            {
                proof {
                    crate::num::lemma_mul_le_mono(x as int + 1, w as int, cell_size as int);
                    crate::num::lemma_mul_le_mono(0, x as int, cell_size as int);
                    crate::num::lemma_mul_le_mono(y as int + 1, h as int, cell_size as int);
                    crate::num::lemma_mul_le_mono(0, y as int, cell_size as int);
                    crate::num::lemma_mul_le_mono(y as int, y as int + 1, cell_size as int);
                }
                let cell: Cell = self.cells[y][x];
                let cell_right: Cell = if x < w - 1 {
                    self.cells[y][x + 1]
                } else {
                    Cell::new_empty()
                };
                let y_pos: i64 = y as i64 * cell_size;
                let y_next: i64 = (y as i64 + 1) * cell_size;
                let x_next: i64 = (x as i64 + 1) * cell_size;
                if cell.is_closed(Side::Right) {
                    let s: i64 = match y_start {
                        Some(v) => v,
                        None => y_pos,
                    };
                    if !cell_right.is_open(Side::Bottom) || !cell.is_open(Side::Bottom) {
                        lines.push(((x_next, s), (x_next, y_next)));
                        y_start = None;
                    } else if y == h - 1 {
                        lines.push(((x_next, s), (x_next, y_next)));
                        y_start = Some(s);
                    } else {
                        y_start = Some(s);
                    }
                } else {
                    match y_start {
                        Some(st) => {
                            lines.push(((x_next, st), (x_next, y_pos)));
                            y_start = None;
                        },
                        None => {},
                    }
                }
                y = y + 1;
            }
            x = x + 1;
        }
        lines
    }

    /// Every wall of the labyrinth, with collinear runs merged into single
    /// segments: first the top border, then the bottom sides row by row,
    /// then the left border, then the right sides column by column.
    pub fn get_as_lines(&self) -> (r: Vec<((i64, i64), (i64, i64))>)
        requires
            self.wf(),
            self.sized_ok(),
        ensures
            r@ == spec_merged_lines(self.spec_cells(), self.size.0 as int, self.cell_size as int),
    {
        let mut lines: Vec<((i64, i64), (i64, i64))> = Vec::new();
        if self.size.1 > 0 {
            let mut top: Vec<((i64, i64), (i64, i64))> = self.top_lines();
            lines.append(&mut top);
        }
        let mut hall: Vec<((i64, i64), (i64, i64))> = self.hall_lines();
        lines.append(&mut hall);
        if self.size.0 > 0 {
            let mut left: Vec<((i64, i64), (i64, i64))> = self.left_lines();
            lines.append(&mut left);
        }
        let mut vall: Vec<((i64, i64), (i64, i64))> = self.vall_lines();
        lines.append(&mut vall);
        proof {
            assert(lines@ =~= spec_merged_lines(
                self.spec_cells(),
                self.size.0 as int,
                self.cell_size as int,
            ));
        }
        lines
    }
}

/// Shared walls agree from both sides: a cell's right side is open exactly
/// when its right neighbour's left side is, and a cell's bottom side is
/// open exactly when the top side of the cell below is.  A fresh labyrinth
/// has it trivially (everything closed), and carving preserves it because
/// walls are always opened from both sides at once.
pub open spec fn spec_paired(cells: Seq<Seq<Cell>>, w: int, h: int) -> bool {
    &&& forall|y: int, x: int|
        0 <= y < h && 0 <= x < w - 1 ==> (spec_is_open(#[trigger] cells[y][x], Side::Right)
            <==> spec_is_open(cells[y][x + 1], Side::Left))
    &&& forall|y: int, x: int|
        0 <= y < h - 1 && 0 <= x < w ==> (spec_is_open(#[trigger] cells[y][x], Side::Bottom)
            <==> spec_is_open(cells[y + 1][x], Side::Top))
}

/// The outer boundary of `c2` is in the same state as in `c1`: the left
/// sides of the first column, the right sides of the last column, the top
/// sides of the first row and the bottom sides of the last row all agree.
/// Carving a maze never touches these, because walls are only opened
/// between two in-bounds neighbours.
pub open spec fn boundary_sides_match(c1: Seq<Seq<Cell>>, c2: Seq<Seq<Cell>>, w: int, h: int) -> bool {
    &&& forall|y: int|
        0 <= y < h ==> spec_is_open(#[trigger] c2[y][0], Side::Left) == spec_is_open(
            c1[y][0],
            Side::Left,
        )
    &&& forall|y: int|
        0 <= y < h ==> spec_is_open(#[trigger] c2[y][w - 1], Side::Right) == spec_is_open(
            c1[y][w - 1],
            Side::Right,
        )
    &&& forall|x: int|
        0 <= x < w ==> spec_is_open(#[trigger] c2[0][x], Side::Top) == spec_is_open(
            c1[0][x],
            Side::Top,
        )
    &&& forall|x: int|
        0 <= x < w ==> spec_is_open(#[trigger] c2[h - 1][x], Side::Bottom) == spec_is_open(
            c1[h - 1][x],
            Side::Bottom,
        )
}

/// Agreement of boundary sides chains across successive grids.
proof fn lemma_boundary_match_trans(
    c1: Seq<Seq<Cell>>,
    c2: Seq<Seq<Cell>>,
    c3: Seq<Seq<Cell>>,
    w: int,
    h: int,
)
    requires
        boundary_sides_match(c1, c2, w, h),
        boundary_sides_match(c2, c3, w, h),
    ensures
        boundary_sides_match(c1, c3, w, h),
{
    assert forall|y: int| 0 <= y < h implies spec_is_open(#[trigger] c3[y][0], Side::Left)
        == spec_is_open(c1[y][0], Side::Left) by {
        assert(spec_is_open(c2[y][0], Side::Left) == spec_is_open(c1[y][0], Side::Left));
    }
    assert forall|y: int| 0 <= y < h implies spec_is_open(#[trigger] c3[y][w - 1], Side::Right)
        == spec_is_open(c1[y][w - 1], Side::Right) by {
        assert(spec_is_open(c2[y][w - 1], Side::Right) == spec_is_open(c1[y][w - 1], Side::Right));
    }
    assert forall|x: int| 0 <= x < w implies spec_is_open(#[trigger] c3[0][x], Side::Top)
        == spec_is_open(c1[0][x], Side::Top) by {
        assert(spec_is_open(c2[0][x], Side::Top) == spec_is_open(c1[0][x], Side::Top));
    }
    assert forall|x: int| 0 <= x < w implies spec_is_open(#[trigger] c3[h - 1][x], Side::Bottom)
        == spec_is_open(c1[h - 1][x], Side::Bottom) by {
        assert(spec_is_open(c2[h - 1][x], Side::Bottom) == spec_is_open(c1[h - 1][x], Side::Bottom));
    }
}

/// A grid whose cells are all fully closed is paired: every shared wall is
/// closed from both sides.
pub proof fn lemma_all_closed_is_paired(cells: Seq<Seq<Cell>>, w: int, h: int)
    requires
        forall|y: int, x: int|
            0 <= y < h && 0 <= x < w ==> (#[trigger] cells[y][x]).spec_sides() == 0x0F,
        cells.len() == h,
        forall|y: int| 0 <= y < h ==> (#[trigger] cells[y]).len() == w,
    ensures
        spec_paired(cells, w, h),
{
    assert(0x0Fu8 & 0x11 != 0 && 0x0Fu8 & 0x02 != 0 && 0x0Fu8 & 0x04 != 0 && 0x0Fu8 & 0x08 != 0)
        by (bit_vector);
}

/// Opening the wall between two horizontal neighbours -- the right side of
/// `(x0, y)` and the left side of `(x0 + 1, y)` -- keeps the grid paired.
proof fn lemma_paired_open_horizontal(
    cells0: Seq<Seq<Cell>>,
    cells2: Seq<Seq<Cell>>,
    w: int,
    h: int,
    x0: int,
    y: int,
)
    requires
        cells0.len() == h,
        cells2.len() == h,
        forall|b: int| 0 <= b < h ==> (#[trigger] cells0[b]).len() == w,
        forall|b: int| 0 <= b < h ==> (#[trigger] cells2[b]).len() == w,
        0 <= y < h,
        0 <= x0,
        x0 + 1 < w,
        cells0[y][x0].spec_sides() < 16,
        cells0[y][x0 + 1].spec_sides() < 16,
        cells2[y][x0].spec_sides() == cells0[y][x0].spec_sides() & 0xFE,
        cells2[y][x0 + 1].spec_sides() == cells0[y][x0 + 1].spec_sides() & 0xFD,
        forall|b: int, a: int|
            0 <= b < h && 0 <= a < w && !(b == y && (a == x0 || a == x0 + 1))
                ==> #[trigger] cells2[b][a] == cells0[b][a],
    ensures
        spec_paired(cells0, w, h) ==> spec_paired(cells2, w, h),
        boundary_sides_match(cells0, cells2, w, h),
{
    lemma_open_opens(cells0[y][x0].spec_sides());
    lemma_open_opens(cells0[y][x0 + 1].spec_sides());
    if spec_paired(cells0, w, h) {
        assert forall|b: int, a: int| 0 <= b < h && 0 <= a < w - 1 implies (spec_is_open(
            #[trigger] cells2[b][a],
            Side::Right,
        ) <==> spec_is_open(cells2[b][a + 1], Side::Left)) by {
            assert(spec_is_open(cells0[b][a], Side::Right) <==> spec_is_open(
                cells0[b][a + 1],
                Side::Left,
            ));
        }
        assert forall|b: int, a: int| 0 <= b < h - 1 && 0 <= a < w implies (spec_is_open(
            #[trigger] cells2[b][a],
            Side::Bottom,
        ) <==> spec_is_open(cells2[b + 1][a], Side::Top)) by {
            assert(spec_is_open(cells0[b][a], Side::Bottom) <==> spec_is_open(
                cells0[b + 1][a],
                Side::Top,
            ));
        }
    }
    // Both opened sides are interior walls; every boundary side keeps its
    // bits.
    assert forall|b: int| 0 <= b < h implies spec_is_open(#[trigger] cells2[b][0], Side::Left)
        == spec_is_open(cells0[b][0], Side::Left) by {}
    assert forall|b: int| 0 <= b < h implies spec_is_open(#[trigger] cells2[b][w - 1], Side::Right)
        == spec_is_open(cells0[b][w - 1], Side::Right) by {}
    assert forall|a: int| 0 <= a < w implies spec_is_open(#[trigger] cells2[0][a], Side::Top)
        == spec_is_open(cells0[0][a], Side::Top) by {}
    assert forall|a: int| 0 <= a < w implies spec_is_open(#[trigger] cells2[h - 1][a], Side::Bottom)
        == spec_is_open(cells0[h - 1][a], Side::Bottom) by {}
}

/// Opening the wall between two vertical neighbours -- the bottom side of
/// `(x, y0)` and the top side of `(x, y0 + 1)` -- keeps the grid paired.
proof fn lemma_paired_open_vertical(
    cells0: Seq<Seq<Cell>>,
    cells2: Seq<Seq<Cell>>,
    w: int,
    h: int,
    x: int,
    y0: int,
)
    requires
        cells0.len() == h,
        cells2.len() == h,
        forall|b: int| 0 <= b < h ==> (#[trigger] cells0[b]).len() == w,
        forall|b: int| 0 <= b < h ==> (#[trigger] cells2[b]).len() == w,
        0 <= x < w,
        0 <= y0,
        y0 + 1 < h,
        cells0[y0][x].spec_sides() < 16,
        cells0[y0 + 1][x].spec_sides() < 16,
        cells2[y0][x].spec_sides() == cells0[y0][x].spec_sides() & 0xFB,
        cells2[y0 + 1][x].spec_sides() == cells0[y0 + 1][x].spec_sides() & 0xF7,
        forall|b: int, a: int|
            0 <= b < h && 0 <= a < w && !(a == x && (b == y0 || b == y0 + 1))
                ==> #[trigger] cells2[b][a] == cells0[b][a],
    ensures
        spec_paired(cells0, w, h) ==> spec_paired(cells2, w, h),
        boundary_sides_match(cells0, cells2, w, h),
{
    lemma_open_opens(cells0[y0][x].spec_sides());
    lemma_open_opens(cells0[y0 + 1][x].spec_sides());
    if spec_paired(cells0, w, h) {
        assert forall|b: int, a: int| 0 <= b < h && 0 <= a < w - 1 implies (spec_is_open(
            #[trigger] cells2[b][a],
            Side::Right,
        ) <==> spec_is_open(cells2[b][a + 1], Side::Left)) by {
            assert(spec_is_open(cells0[b][a], Side::Right) <==> spec_is_open(
                cells0[b][a + 1],
                Side::Left,
            ));
        }
        assert forall|b: int, a: int| 0 <= b < h - 1 && 0 <= a < w implies (spec_is_open(
            #[trigger] cells2[b][a],
            Side::Bottom,
        ) <==> spec_is_open(cells2[b + 1][a], Side::Top)) by {
            assert(spec_is_open(cells0[b][a], Side::Bottom) <==> spec_is_open(
                cells0[b + 1][a],
                Side::Top,
            ));
        }
    }
    // Both opened sides are interior walls; every boundary side keeps its
    // bits.
    assert forall|b: int| 0 <= b < h implies spec_is_open(#[trigger] cells2[b][0], Side::Left)
        == spec_is_open(cells0[b][0], Side::Left) by {}
    assert forall|b: int| 0 <= b < h implies spec_is_open(#[trigger] cells2[b][w - 1], Side::Right)
        == spec_is_open(cells0[b][w - 1], Side::Right) by {}
    assert forall|a: int| 0 <= a < w implies spec_is_open(#[trigger] cells2[0][a], Side::Top)
        == spec_is_open(cells0[0][a], Side::Top) by {}
    assert forall|a: int| 0 <= a < w implies spec_is_open(#[trigger] cells2[h - 1][a], Side::Bottom)
        == spec_is_open(cells0[h - 1][a], Side::Bottom) by {}
}

/// The number of unvisited entries in one row, from `x` on.
pub open spec fn count_row(row: Seq<bool>, x: int) -> nat
    decreases row.len() - x,
{
    if x < 0 || x >= row.len() {
        0
    } else {
        (if row[x] {
            0nat
        } else {
            1nat
        }) + count_row(row, x + 1)
    }
}

/// The number of unvisited entries in a grid, from row `y` on.
pub open spec fn count_grid(v: Seq<Seq<bool>>, y: int) -> nat
    decreases v.len() - y,
{
    if y < 0 || y >= v.len() {
        0
    } else {
        count_row(v[y], 0) + count_grid(v, y + 1)
    }
}

/// Rows that agree from `x` on have the same count from `x` on.
proof fn lemma_count_row_agree(r1: Seq<bool>, r2: Seq<bool>, x: int)
    requires
        r1.len() == r2.len(),
        forall|i: int| x <= i < r1.len() ==> r1[i] == r2[i],
    ensures
        count_row(r1, x) == count_row(r2, x),
    decreases r1.len() - x,
{
    if 0 <= x < r1.len() {
        lemma_count_row_agree(r1, r2, x + 1);
    }
}

/// Marking an unvisited entry decreases the row count by one.
proof fn lemma_count_row_update(row: Seq<bool>, x0: int, x: int)
    requires
        0 <= x <= x0 < row.len(),
        !row[x0],
    ensures
        count_row(row.update(x0, true), x) + 1 == count_row(row, x),
    decreases x0 - x,
{
    let upd = row.update(x0, true);
    if x == x0 {
        lemma_count_row_agree(upd, row, x + 1);
    } else {
        lemma_count_row_update(row, x0, x + 1);
    }
}

/// Grids that agree row by row from `y` on have the same count.
proof fn lemma_count_grid_agree(v1: Seq<Seq<bool>>, v2: Seq<Seq<bool>>, y: int)
    requires
        v1.len() == v2.len(),
        forall|i: int| y <= i < v1.len() ==> v1[i] == v2[i],
    ensures
        count_grid(v1, y) == count_grid(v2, y),
    decreases v1.len() - y,
{
    if 0 <= y < v1.len() {
        lemma_count_grid_agree(v1, v2, y + 1);
    }
}

/// Marking an unvisited cell decreases the grid count by one.
proof fn lemma_count_grid_update(v: Seq<Seq<bool>>, y0: int, x0: int, y: int)
    requires
        0 <= y <= y0 < v.len(),
        0 <= x0 < v[y0].len(),
        !v[y0][x0],
    ensures
        count_grid(v.update(y0, v[y0].update(x0, true)), y) + 1 == count_grid(v, y),
    decreases y0 - y,
{
    let v2 = v.update(y0, v[y0].update(x0, true));
    if y == y0 {
        lemma_count_row_update(v[y0], x0, 0);
        lemma_count_grid_agree(v2, v, y0 + 1);
    } else {
        lemma_count_grid_update(v, y0, x0, y + 1);
    }
}

/// The visited grid, as mathematical sequences.
pub open spec fn vis_view(v: Seq<Vec<bool>>) -> Seq<Seq<bool>> {
    v.map_values(|row: Vec<bool>| row@)
}

impl Labyrinth {
    /// Open one side of one cell, in place.
    fn open_cell(&mut self, x: usize, y: usize, side: Side)
        requires
            old(self).wf(),
            x < old(self).size.0,
            y < old(self).size.1,
        ensures
            final(self).wf(),
            final(self).size == old(self).size,
            final(self).cell_size == old(self).cell_size,
            final(self).spec_cells() == old(self).spec_cells().update(
                y as int,
                old(self).spec_cells()[y as int].update(
                    x as int,
                    Cell {
                        sides: (old(self).spec_cells()[y as int][x as int].spec_sides()
                            & spec_open_mask(side)) as u8,
                    },
                ),
            ),
    {
        proof {
            lemma_open_opens(self.spec_cells()[y as int][x as int].spec_sides());
        }
        let mut c: Cell = self.cells[y][x];
        c.open(side);
        self.cells[y].set(x, c);
        proof {
            assert(final(self).spec_cells() =~= old(self).spec_cells().update(
                y as int,
                old(self).spec_cells()[y as int].update(x as int, c),
            ));
        }
    }

    /// Carve a maze by a randomized depth-first walk: repeatedly take the
    /// cell on top of the work stack, pick an unvisited neighbour in an
    /// order drawn from the supplied random words, open the wall between
    /// the two cells, and continue from the neighbour.  When `avoid_last`
    /// is set, the walk refuses to continue straight in the direction it
    /// just came from, which biases the maze towards turns.
    fn generate_inner(&mut self, rand: &[u64], avoid_last: bool)
        requires
            old(self).wf(),
            1 <= old(self).size.0 <= 1_000_000,
            1 <= old(self).size.1 <= 1_000_000,
        ensures
            final(self).wf(),
            final(self).size == old(self).size,
            final(self).cell_size == old(self).cell_size,
            spec_paired(
                old(self).spec_cells(),
                old(self).size.0 as int,
                old(self).size.1 as int,
            ) ==> spec_paired(
                final(self).spec_cells(),
                final(self).size.0 as int,
                final(self).size.1 as int,
            ),
            boundary_sides_match(
                old(self).spec_cells(),
                final(self).spec_cells(),
                old(self).size.0 as int,
                old(self).size.1 as int,
            ),
    {
        let w: usize = self.size.0;
        let h: usize = self.size.1;
        let ghost cells_start: Seq<Seq<Cell>> = self.spec_cells();
        let ghost paired0: bool = spec_paired(cells_start, w as int, h as int);
        let mut visited: Vec<Vec<bool>> = Vec::new();
        let mut vy: usize = 0;
        while vy < h
            invariant
                0 <= vy <= h,
                visited@.len() == vy,
                forall|j: int| 0 <= j < vy ==> (#[trigger] visited@[j])@.len() == w,
            decreases h - vy,
        {
            let mut vrow: Vec<bool> = Vec::new();
            let mut vx: usize = 0;
            while vx < w
                invariant
                    0 <= vx <= w,
                    vrow@.len() == vx,
                decreases w - vx,
            {
                vrow.push(false);
                vx = vx + 1;
            }
            visited.push(vrow);
            vy = vy + 1;
        }
        let mut stack: VecDeque<(usize, usize)> = VecDeque::new();
        stack.push_back((0, 0));
        let mut last_dir: (i64, i64) = (0, -1);
        let mut ri: usize = 0;
        while stack.len() != 0
            invariant
                self.wf(),
                self.size.0 == w,
                self.size.1 == h,
                self.cell_size == old(self).cell_size,
                1 <= w <= 1_000_000,
                1 <= h <= 1_000_000,
                visited@.len() == h,
                forall|j: int| 0 <= j < h ==> (#[trigger] visited@[j])@.len() == w,
                forall|i: int|
                    0 <= i < stack@.len() ==> (#[trigger] stack@[i]).0 < w && stack@[i].1 < h,
                paired0 ==> spec_paired(self.spec_cells(), w as int, h as int),
                boundary_sides_match(cells_start, self.spec_cells(), w as int, h as int),
            decreases count_grid(vis_view(visited@), 0), stack.len(),
        {
            let ghost vis0: Seq<Seq<bool>> = vis_view(visited@);
            let ghost stk0: Seq<(usize, usize)> = stack@;
            let popped: (usize, usize) = stack.pop_front().unwrap();
            let x: usize = popped.0;
            let y: usize = popped.1;
            let wsel: u64 = if ri < rand.len() {
                rand[ri]
            } else {
                0
            };
            if ri < usize::MAX {
                ri = ri + 1;
            }
            // Decode the word into an order over the four directions.
            let mut pool: Vec<(i64, i64)> = Vec::new();
            pool.push((0, 1));
            pool.push((0, -1));
            pool.push((1, 0));
            pool.push((-1, 0));
            let mut order: Vec<(i64, i64)> = Vec::new();
            let mut sel: u64 = wsel;
            while pool.len() > 0
                invariant
                    forall|i: int|
                        0 <= i < pool@.len() ==> -1 <= (#[trigger] pool@[i]).0 <= 1 && -1
                            <= pool@[i].1 <= 1,
                    forall|i: int|
                        0 <= i < order@.len() ==> -1 <= (#[trigger] order@[i]).0 <= 1 && -1
                            <= order@[i].1 <= 1,
                decreases pool.len(),
            {
                let idx: usize = (sel % (pool.len() as u64)) as usize;
                sel = sel / (pool.len() as u64);
                let d: (i64, i64) = pool.remove(idx);
                order.push(d);
            }
            // Open the wall to the first usable neighbour, if any.
            let mut k: usize = 0;
            let mut done: bool = false;
            while k < order.len() && !done
                invariant
                    self.wf(),
                    self.size.0 == w,
                    self.size.1 == h,
                    self.cell_size == old(self).cell_size,
                    1 <= w <= 1_000_000,
                    1 <= h <= 1_000_000,
                    x < w,
                    y < h,
                    visited@.len() == h,
                    forall|j: int| 0 <= j < h ==> (#[trigger] visited@[j])@.len() == w,
                    forall|i: int|
                        0 <= i < stack@.len() ==> (#[trigger] stack@[i]).0 < w && stack@[i].1 < h,
                    forall|i: int|
                        0 <= i < order@.len() ==> -1 <= (#[trigger] order@[i]).0 <= 1 && -1
                            <= order@[i].1 <= 1,
                    !done ==> vis_view(visited@) == vis0 && stack@ == stk0.drop_first(),
                    done ==> count_grid(vis_view(visited@), 0) + 1 == count_grid(vis0, 0),
                    paired0 ==> spec_paired(self.spec_cells(), w as int, h as int),
                    boundary_sides_match(cells_start, self.spec_cells(), w as int, h as int),
                decreases order.len() - k,
            {
                let d: (i64, i64) = order[k];
                let mut skip: bool = false;
                if avoid_last && d.0 == last_dir.0 && d.1 == last_dir.1 {
                    skip = true;
                }
                if !skip {
                    let nx_i: i64 = x as i64 + d.0;
                    let ny_i: i64 = y as i64 + d.1;
                    if nx_i >= 0 && ny_i >= 0 && nx_i < w as i64 && ny_i < h as i64 {
                        let nx: usize = nx_i as usize;
                        let ny: usize = ny_i as usize;
                        if !visited[ny][nx] {
                            proof {
                                lemma_count_grid_update(
                                    vis_view(visited@),
                                    ny as int,
                                    nx as int,
                                    0,
                                );
                            }
                            let ghost visb: Seq<Seq<bool>> = vis_view(visited@);
                            visited[ny].set(nx, true);
                            proof {
                                assert(vis_view(visited@) =~= visb.update(
                                    ny as int,
                                    visb[ny as int].update(nx as int, true),
                                ));
                            }
                            last_dir = d;
                            stack.push_front((x, y));
                            stack.push_front((nx, ny));
                            let ghost cells0: Seq<Seq<Cell>> = self.spec_cells();
                            if d.0 == 0 && d.1 == -1 {
                                self.open_cell(x, y, Side::Top);
                                self.open_cell(nx, ny, Side::Bottom);
                                proof {
                                    let cells2: Seq<Seq<Cell>> = self.spec_cells();
                                    assert forall|b: int, a: int|
                                        0 <= b < h && 0 <= a < w && !(a == x && (b == ny || b
                                            == ny + 1)) implies #[trigger] cells2[b][a]
                                        == cells0[b][a] by {}
                                    lemma_paired_open_vertical(cells0, cells2, w as int, h as int,
                                        x as int, ny as int);
                                    lemma_boundary_match_trans(cells_start, cells0, cells2,
                                        w as int, h as int);
                                }
                            } else if d.0 == 0 && d.1 == 1 {
                                self.open_cell(x, y, Side::Bottom);
                                self.open_cell(nx, ny, Side::Top);
                                proof {
                                    let cells2: Seq<Seq<Cell>> = self.spec_cells();
                                    assert forall|b: int, a: int|
                                        0 <= b < h && 0 <= a < w && !(a == x && (b == y || b
                                            == y + 1)) implies #[trigger] cells2[b][a]
                                        == cells0[b][a] by {}
                                    lemma_paired_open_vertical(cells0, cells2, w as int, h as int,
                                        x as int, y as int);
                                    lemma_boundary_match_trans(cells_start, cells0, cells2,
                                        w as int, h as int);
                                }
                            } else if d.0 == 1 && d.1 == 0 {
                                self.open_cell(x, y, Side::Right);
                                self.open_cell(nx, ny, Side::Left);
                                proof {
                                    let cells2: Seq<Seq<Cell>> = self.spec_cells();
                                    assert forall|b: int, a: int|
                                        0 <= b < h && 0 <= a < w && !(b == y && (a == x || a
                                            == x + 1)) implies #[trigger] cells2[b][a]
                                        == cells0[b][a] by {}
                                    lemma_paired_open_horizontal(cells0, cells2, w as int,
                                        h as int, x as int, y as int);
                                    lemma_boundary_match_trans(cells_start, cells0, cells2,
                                        w as int, h as int);
                                }
                            } else if d.0 == -1 && d.1 == 0 {
                                self.open_cell(x, y, Side::Left);
                                self.open_cell(nx, ny, Side::Right);
                                proof {
                                    let cells2: Seq<Seq<Cell>> = self.spec_cells();
                                    assert forall|b: int, a: int|
                                        0 <= b < h && 0 <= a < w && !(b == y && (a == nx || a
                                            == nx + 1)) implies #[trigger] cells2[b][a]
                                        == cells0[b][a] by {}
                                    lemma_paired_open_horizontal(cells0, cells2, w as int,
                                        h as int, nx as int, y as int);
                                    lemma_boundary_match_trans(cells_start, cells0, cells2,
                                        w as int, h as int);
                                }
                            }
                            done = true;
                        }
                    }
                }
                k = k + 1;
            }
        }
    }

    /// Carve a maze by a randomized depth-first walk that avoids continuing
    /// in the direction it just came from.  The randomness is supplied as a
    /// list of words, one consumed per step; when they run out the walk
    /// continues deterministically.  Walls are only ever opened between two
    /// in-bounds neighbours, from both sides at once: pairing is preserved
    /// and the outer boundary is never opened.
    pub fn generate_depth_first(&mut self, rand: &[u64])
        requires
            old(self).wf(),
            1 <= old(self).size.0 <= 1_000_000,
            1 <= old(self).size.1 <= 1_000_000,
        ensures
            final(self).wf(),
            final(self).size == old(self).size,
            final(self).cell_size == old(self).cell_size,
            spec_paired(
                old(self).spec_cells(),
                old(self).size.0 as int,
                old(self).size.1 as int,
            ) ==> spec_paired(
                final(self).spec_cells(),
                final(self).size.0 as int,
                final(self).size.1 as int,
            ),
            boundary_sides_match(
                old(self).spec_cells(),
                final(self).spec_cells(),
                old(self).size.0 as int,
                old(self).size.1 as int,
            ),
    {
        self.generate_inner(rand, true)
    }

    /// Carve a maze by a randomized depth-first walk with no constraint on
    /// the walk's direction.  As with [`Labyrinth::generate_depth_first`],
    /// pairing is preserved and the outer boundary is never opened.
    pub fn generate_depth_first2(&mut self, rand: &[u64])
        requires
            old(self).wf(),
            1 <= old(self).size.0 <= 1_000_000,
            1 <= old(self).size.1 <= 1_000_000,
        ensures
            final(self).wf(),
            final(self).size == old(self).size,
            final(self).cell_size == old(self).cell_size,
            spec_paired(
                old(self).spec_cells(),
                old(self).size.0 as int,
                old(self).size.1 as int,
            ) ==> spec_paired(
                final(self).spec_cells(),
                final(self).size.0 as int,
                final(self).size.1 as int,
            ),
            boundary_sides_match(
                old(self).spec_cells(),
                final(self).spec_cells(),
                old(self).size.0 as int,
                old(self).size.1 as int,
            ),
    {
        self.generate_inner(rand, false)
    }
}

} // verus!
