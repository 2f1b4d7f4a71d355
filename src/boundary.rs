use vstd::prelude::*;
use crate::board::{Cage, Cell, cell_in_grid};

verus! {

/// A line segment of a cage outline, from one pixel point to another.
pub type Segment = ((i32, i32), (i32, i32));

/// Among the first `n` cells, one stands at `(r, c)`.
pub open spec fn occupied(cells: Seq<Cell>, n: int, r: int, c: int) -> bool {
    exists|k: int| 0 <= k < n && #[trigger] cells[k].row == r && cells[k].col == c
}

/// The cage holds the cell `(dr, dc)` away from `cell`.
pub open spec fn nb(cells: Seq<Cell>, cell: Cell, dr: int, dc: int) -> bool {
    occupied(cells, cells.len() as int, cell.row + dr, cell.col + dc)
}

/// Inset of a side end: flush where the cage goes on, `off` elsewhere.
pub open spec fn inset(flush: bool, off: int) -> int {
    if flush { 0 } else { off }
}

/// A cross corner overrides an inset with the negative offset.
pub open spec fn corner(cross: bool, base: int, off: int) -> int {
    if cross { -off } else { base }
}

/// The segment from `(x1, y1)` to `(x2, y2)`.
pub open spec fn seg(x1: int, y1: int, x2: int, y2: int) -> Segment {
    ((x1 as i32, y1 as i32), (x2 as i32, y2 as i32))
}

/// The top side of `cell`, unless the cell above belongs to the cage.
pub open spec fn top_side(cells: Seq<Cell>, cell: Cell, size: int, off: int) -> Seq<Segment> {
    let x = cell.col * size;
    let y = cell.row * size;
    if nb(cells, cell, -1, 0) {
        seq![]
    } else {
        seq![seg(
            x + corner(nb(cells, cell, -1, -1), inset(nb(cells, cell, 0, -1), off), off),
            y + off,
            x + size - corner(nb(cells, cell, -1, 1), inset(nb(cells, cell, 0, 1), off), off),
            y + off,
        )]
    }
}

/// The bottom side of `cell`, unless the cell below belongs to the cage.
pub open spec fn bottom_side(cells: Seq<Cell>, cell: Cell, size: int, off: int) -> Seq<Segment> {
    let x = cell.col * size;
    let y = cell.row * size;
    if nb(cells, cell, 1, 0) {
        seq![]
    } else {
        seq![seg(
            x + corner(nb(cells, cell, 1, -1), inset(nb(cells, cell, 0, -1), off), off),
            y + size - off,
            x + size - corner(nb(cells, cell, 1, 1), inset(nb(cells, cell, 0, 1), off), off),
            y + size - off,
        )]
    }
}

/// The left side of `cell`, unless the cell to its left belongs to the cage.
pub open spec fn left_side(cells: Seq<Cell>, cell: Cell, size: int, off: int) -> Seq<Segment> {
    let x = cell.col * size;
    let y = cell.row * size;
    if nb(cells, cell, 0, -1) {
        seq![]
    } else {
        seq![seg(
            x + off,
            y + corner(nb(cells, cell, -1, -1), inset(nb(cells, cell, -1, 0), off), off),
            x + off,
            y + size - corner(nb(cells, cell, 1, -1), inset(nb(cells, cell, 1, 0), off), off),
        )]
    }
}

/// The right side of `cell`, unless the cell to its right belongs to the cage.
pub open spec fn right_side(cells: Seq<Cell>, cell: Cell, size: int, off: int) -> Seq<Segment> {
    let x = cell.col * size;
    let y = cell.row * size;
    if nb(cells, cell, 0, 1) {
        seq![]
    } else {
        seq![seg(
            x + size - off,
            y + corner(nb(cells, cell, -1, 1), inset(nb(cells, cell, -1, 0), off), off),
            x + size - off,
            y + size - corner(nb(cells, cell, 1, 1), inset(nb(cells, cell, 1, 0), off), off),
        )]
    }
}

/// The outline segments that `cell` contributes: one for each side that no
/// cell of the cage shares, in the order top, bottom, left, right. A side end
/// is flush (inset 0) where the cage continues past the perpendicular side,
/// and sticks out by `off` where the cage touches that corner diagonally.
pub open spec fn cell_segments(cells: Seq<Cell>, cell: Cell, size: int, off: int) -> Seq<Segment> {
    top_side(cells, cell, size, off) + bottom_side(cells, cell, size, off) + left_side(cells, cell, size, off)
        + right_side(cells, cell, size, off)
}

/// The segments of the first `n` cells, cell after cell.
pub open spec fn outline_upto(cells: Seq<Cell>, n: int, size: int, off: int) -> Seq<Segment>
    decreases n,
{
    if n <= 0 {
        seq![]
    } else {
        outline_upto(cells, n - 1, size, off) + cell_segments(cells, cells[n - 1], size, off)
    }
}

/// The outline of a cage of `cells` with cells of `size` pixels and inset `off`.
pub open spec fn outline(cells: Seq<Cell>, size: int, off: int) -> Seq<Segment> {
    outline_upto(cells, cells.len() as int, size, off)
}

/// Sizes for which every outline coordinate fits in `i32`.
pub open spec fn pixel_bounds_ok(cell_size: i32, cage_offset: i32) -> bool {
    cell_size > 0 && cage_offset > 0 && 9 * cell_size + cage_offset <= i32::MAX
}

/// Which of the eight cells around a cell belong to the same cage.
struct Around {
    up: bool,
    down: bool,
    left: bool,
    right: bool,
    top_left: bool,
    top_right: bool,
    bottom_left: bool,
    bottom_right: bool,
}

impl Cage {
    /// The segments of this cage's outline, with cells of `cell_size` pixels
    /// and an inset of `cage_offset`, relative to the board's origin.
    pub fn outline(&self, cell_size: i32, cage_offset: i32) -> (lines: Vec<Segment>)
        requires
            pixel_bounds_ok(cell_size, cage_offset),
            forall|j: int| 0 <= j < self.cells@.len() ==> cell_in_grid(#[trigger] self.cells@[j]),
        ensures
            lines@ == outline(self.cells@, cell_size as int, cage_offset as int),
    {
        let ghost cells = self.cells@;
        let ghost size = cell_size as int;
        let ghost off = cage_offset as int;
        let mut lines: Vec<Segment> = Vec::new();
        let mut i: usize = 0;
        while i < self.cells.len()
            invariant
                cells == self.cells@,
                size == cell_size as int,
                off == cage_offset as int,
                pixel_bounds_ok(cell_size, cage_offset),
                forall|j: int| 0 <= j < cells.len() ==> cell_in_grid(#[trigger] cells[j]),
                i <= cells.len(),
                lines@ == outline_upto(cells, i as int, size, off),
            decreases cells.len() - i,
        {
            let cell = self.cells[i];
            assert(cell_in_grid(cells[i as int]));
            self.push_cell_lines(&cell, cell_size, cage_offset, &mut lines);
            assert(lines@ == outline_upto(cells, i as int + 1, size, off));
            i += 1;
        }
        lines
    }

    /// Which of the eight cells around `cell` belong to this cage.
    fn scan_neighbours(&self, cell: &Cell) -> (a: Around)
        ensures
            a.up == nb(self.cells@, *cell, -1, 0),
            a.down == nb(self.cells@, *cell, 1, 0),
            a.left == nb(self.cells@, *cell, 0, -1),
            a.right == nb(self.cells@, *cell, 0, 1),
            a.top_left == nb(self.cells@, *cell, -1, -1),
            a.top_right == nb(self.cells@, *cell, -1, 1),
            a.bottom_left == nb(self.cells@, *cell, 1, -1),
            a.bottom_right == nb(self.cells@, *cell, 1, 1),
    {
        let ghost cells = self.cells@;
        let mut draw_top = true;
        let mut draw_bottom = true;
        let mut draw_left = true;
        let mut draw_right = true;
        let mut top_left = false;
        let mut top_right = false;
        let mut bottom_left = false;
        let mut bottom_right = false;

        let mut k: usize = 0;
        while k < self.cells.len()
            invariant
                cells == self.cells@,
                k <= cells.len(),
                draw_top == !occupied(cells, k as int, cell.row - 1, cell.col as int),
                draw_bottom == !occupied(cells, k as int, cell.row + 1, cell.col as int),
                draw_left == !occupied(cells, k as int, cell.row as int, cell.col - 1),
                draw_right == !occupied(cells, k as int, cell.row as int, cell.col + 1),
                top_left == occupied(cells, k as int, cell.row - 1, cell.col - 1),
                top_right == occupied(cells, k as int, cell.row - 1, cell.col + 1),
                bottom_left == occupied(cells, k as int, cell.row + 1, cell.col - 1),
                bottom_right == occupied(cells, k as int, cell.row + 1, cell.col + 1),
            decreases cells.len() - k,
        {
            let neighbor = self.cells[k];
            if self.is_adjacent(cell, &neighbor) {
                if neighbor.row < cell.row {
                    draw_top = false;
                }
                if neighbor.row > cell.row {
                    draw_bottom = false;
                }
                if neighbor.col < cell.col {
                    draw_left = false;
                }
                if neighbor.col > cell.col {
                    draw_right = false;
                }
            } else if self.is_cross_join(cell, &neighbor) {
                bottom_left = bottom_left || (neighbor.row > cell.row && neighbor.col < cell.col);
                bottom_right = bottom_right || (neighbor.row > cell.row && neighbor.col > cell.col);
                top_left = top_left || (neighbor.row < cell.row && neighbor.col < cell.col);
                top_right = top_right || (neighbor.row < cell.row && neighbor.col > cell.col);
            }
            proof {
                lemma_occupied_step(cells, k as int, cell.row - 1, cell.col as int);
                lemma_occupied_step(cells, k as int, cell.row + 1, cell.col as int);
                lemma_occupied_step(cells, k as int, cell.row as int, cell.col - 1);
                lemma_occupied_step(cells, k as int, cell.row as int, cell.col + 1);
                lemma_occupied_step(cells, k as int, cell.row - 1, cell.col - 1);
                lemma_occupied_step(cells, k as int, cell.row - 1, cell.col + 1);
                lemma_occupied_step(cells, k as int, cell.row + 1, cell.col - 1);
                lemma_occupied_step(cells, k as int, cell.row + 1, cell.col + 1);
            }
            k += 1;
        }
        Around {
            up: !draw_top,
            down: !draw_bottom,
            left: !draw_left,
            right: !draw_right,
            top_left,
            top_right,
            bottom_left,
            bottom_right,
        }
    }

    /// Fills the outline cache on first use; a filled cache is kept as it is.
    pub fn ensure_lines(&mut self, cell_size: i32, cage_offset: i32)
        requires
            pixel_bounds_ok(cell_size, cage_offset),
            forall|j: int| 0 <= j < old(self).cells@.len() ==> cell_in_grid(#[trigger] old(self).cells@[j]),
        ensures
            final(self).cells == old(self).cells,
            final(self).sum == old(self).sum,
            old(self).lines.is_none() ==> match final(self).lines {
                Some(l) => l@ == outline(old(self).cells@, cell_size as int, cage_offset as int),
                None => false,
            },
            old(self).lines.is_some() ==> final(self).lines == old(self).lines,
    {
        if self.lines.is_none() {
            let lines = self.outline(cell_size, cage_offset);
            self.lines = Some(lines);
        }
    }

    /// Appends the segments that `cell` contributes to the outline.
    fn push_cell_lines(&self, cell: &Cell, cell_size: i32, cage_offset: i32, lines: &mut Vec<Segment>)
        requires
            pixel_bounds_ok(cell_size, cage_offset),
            cell_in_grid(*cell),
        ensures
            final(lines)@ == old(lines)@ + cell_segments(self.cells@, *cell, cell_size as int, cage_offset as int),
    {
        let ghost cells = self.cells@;
        let ghost size = cell_size as int;
        let ghost off = cage_offset as int;
        proof {
            assert(cell.col * size <= 8 * size) by (nonlinear_arith)
                requires cell.col < 9, size > 0;
            assert(cell.row * size <= 8 * size) by (nonlinear_arith)
                requires cell.row < 9, size > 0;
            assert(cell.col * size >= 0) by (nonlinear_arith)
                requires size > 0;
            assert(cell.row * size >= 0) by (nonlinear_arith)
                requires size > 0;
        }
        let x: i32 = (cell.col as i32) * cell_size;
        let y: i32 = (cell.row as i32) * cell_size;

        let around = self.scan_neighbours(cell);
        let draw_top = !around.up;
        let draw_bottom = !around.down;
        let draw_left = !around.left;
        let draw_right = !around.right;
        let top_left = around.top_left;
        let top_right = around.top_right;
        let bottom_left = around.bottom_left;
        let bottom_right = around.bottom_right;

        // Ends next to a cage neighbour are flush; the others are inset.
        let offset_y1: i32 = if draw_top { cage_offset } else { 0 };
        let offset_y2: i32 = if draw_bottom { cage_offset } else { 0 };
        let offset_x1: i32 = if draw_left { cage_offset } else { 0 };
        let offset_x2: i32 = if draw_right { cage_offset } else { 0 };
        let ghost pre = lines@;

        if draw_top {
            let ox1 = if top_left { -cage_offset } else { offset_x1 };
            let ox2 = if top_right { -cage_offset } else { offset_x2 };
            lines.push(((x + ox1, y + offset_y1), (x + cell_size - ox2, y + offset_y1)));
        }
        let ghost after_top = lines@;
        assert(after_top == pre + top_side(cells, *cell, size, off));
        if draw_bottom {
            let ox1 = if bottom_left { -cage_offset } else { offset_x1 };
            let ox2 = if bottom_right { -cage_offset } else { offset_x2 };
            lines.push(((x + ox1, y + cell_size - offset_y2), (x + cell_size - ox2, y + cell_size - offset_y2)));
        }
        let ghost after_bottom = lines@;
        assert(after_bottom == after_top + bottom_side(cells, *cell, size, off));
        if draw_left {
            let oy1 = if top_left { -cage_offset } else { offset_y1 };
            let oy2 = if bottom_left { -cage_offset } else { offset_y2 };
            lines.push(((x + offset_x1, y + oy1), (x + offset_x1, y + cell_size - oy2)));
        }
        let ghost after_left = lines@;
        assert(after_left == after_bottom + left_side(cells, *cell, size, off));
        if draw_right {
            let oy1 = if top_right { -cage_offset } else { offset_y1 };
            let oy2 = if bottom_right { -cage_offset } else { offset_y2 };
            lines.push(((x + cell_size - offset_x2, y + oy1), (x + cell_size - offset_x2, y + cell_size - oy2)));
        }
        assert(lines@ == after_left + right_side(cells, *cell, size, off));
        assert(lines@ =~= pre + cell_segments(cells, *cell, size, off));
    }
}

/// The four sides of a lone cell at the default inset `off`: top, bottom,
/// left, right.
pub open spec fn lone_cell_segments(cell: Cell, size: int, off: int) -> Seq<Segment> {
    let x = cell.col * size;
    let y = cell.row * size;
    seq![
        seg(x + off, y + off, x + size - off, y + off),
        seg(x + off, y + size - off, x + size - off, y + size - off),
        seg(x + off, y + off, x + off, y + size - off),
        seg(x + size - off, y + off, x + size - off, y + size - off),
    ]
}

/// A cage of a single cell is outlined by all four of its sides at the
/// default inset: nothing is suppressed and no corner is notched.
pub proof fn lemma_single_cell_outline(cell: Cell, size: int, off: int)
    ensures
        outline(seq![cell], size, off) == lone_cell_segments(cell, size, off),
{
    let cells = seq![cell];
    assert forall|dr: int, dc: int| (dr != 0 || dc != 0) implies !#[trigger] nb(cells, cell, dr, dc) by {
        if nb(cells, cell, dr, dc) {
            let k = choose|k: int| 0 <= k < 1 && #[trigger] cells[k].row == cell.row + dr && cells[k].col == cell.col + dc;
            assert(cells[k] == cell);
        }
    }
    assert(!nb(cells, cell, -1, 0) && !nb(cells, cell, 1, 0) && !nb(cells, cell, 0, -1) && !nb(cells, cell, 0, 1));
    assert(!nb(cells, cell, -1, -1) && !nb(cells, cell, -1, 1) && !nb(cells, cell, 1, -1) && !nb(cells, cell, 1, 1));
    assert(outline_upto(cells, 0, size, off) == Seq::<Segment>::empty());
    assert(outline(cells, size, off) =~= lone_cell_segments(cell, size, off));
}

/// A cell whose four edge neighbours all belong to its cage adds no segment:
/// the outline has no internal segments.
pub proof fn lemma_inner_cell_silent(cells: Seq<Cell>, cell: Cell, size: int, off: int)
    requires
        nb(cells, cell, -1, 0),
        nb(cells, cell, 1, 0),
        nb(cells, cell, 0, -1),
        nb(cells, cell, 0, 1),
    ensures
        cell_segments(cells, cell, size, off) == Seq::<Segment>::empty(),
{
    assert(cell_segments(cells, cell, size, off) =~= Seq::<Segment>::empty());
}

/// The outline depends on the cells and the sizes alone: two computations of
/// it give the same segments in the same order.
pub proof fn lemma_outline_deterministic(cells: Seq<Cell>, size: int, off: int, first: Seq<Segment>, second: Seq<Segment>)
    requires
        first == outline(cells, size, off),
        second == outline(cells, size, off),
    ensures
        first == second,
{
}

/// The segment runs along the outer border of the board, inset by `off`,
/// and stays within the inset border.
pub open spec fn on_perimeter(s: Segment, size: int, off: int) -> bool {
    &&& (s.0.1 == s.1.1 && (s.0.1 == off || s.0.1 == 9 * size - off))
        || (s.0.0 == s.1.0 && (s.0.0 == off || s.0.0 == 9 * size - off))
    &&& off <= s.0.0 <= 9 * size - off
    &&& off <= s.0.1 <= 9 * size - off
    &&& off <= s.1.0 <= 9 * size - off
    &&& off <= s.1.1 <= 9 * size - off
}

/// Every cell of the grid is among `cells`, and nothing else.
pub open spec fn covers_grid(cells: Seq<Cell>) -> bool {
    &&& forall|x: Cell| cell_in_grid(x) ==> #[trigger] cells.contains(x)
    &&& forall|j: int| 0 <= j < cells.len() ==> cell_in_grid(#[trigger] cells[j])
}

proof fn lemma_has_neighbour(cells: Seq<Cell>, cell: Cell, dr: int, dc: int)
    requires
        covers_grid(cells),
        0 <= cell.row + dr < 9,
        0 <= cell.col + dc < 9,
    ensures
        nb(cells, cell, dr, dc),
{
    let x = Cell { row: (cell.row + dr) as usize, col: (cell.col + dc) as usize };
    assert(cell_in_grid(x));
    assert(cells.contains(x));
    let k = choose|k: int| 0 <= k < cells.len() && cells[k] == x;
    assert(cells[k].row == cell.row + dr && cells[k].col == cell.col + dc);
}

proof fn lemma_cell_on_perimeter(cells: Seq<Cell>, cell: Cell, size: int, off: int)
    requires
        covers_grid(cells),
        cell_in_grid(cell),
        0 < off,
        2 * off < size,
        9 * size + off <= i32::MAX,
    ensures
        forall|k: int| 0 <= k < cell_segments(cells, cell, size, off).len() ==>
            on_perimeter(#[trigger] cell_segments(cells, cell, size, off)[k], size, off),
{
    if cell.row > 0 {
        lemma_has_neighbour(cells, cell, -1, 0);
    }
    if cell.row < 8 {
        lemma_has_neighbour(cells, cell, 1, 0);
    }
    if cell.col > 0 {
        lemma_has_neighbour(cells, cell, 0, -1);
    }
    if cell.col < 8 {
        lemma_has_neighbour(cells, cell, 0, 1);
    }
    assert(0 <= cell.col * size <= 8 * size) by (nonlinear_arith)
        requires cell.col < 9, size > 0;
    assert(0 <= cell.row * size <= 8 * size) by (nonlinear_arith)
        requires cell.row < 9, size > 0;
    if cell.row == 8 {
        assert(cell.row * size == 8 * size) by (nonlinear_arith)
            requires cell.row == 8;
    }
    assert(cell.row >= 1 ==> cell.row * size >= size) by (nonlinear_arith)
        requires size > 0;
    assert(cell.col >= 1 ==> cell.col * size >= size) by (nonlinear_arith)
        requires size > 0;
    assert(cell.row <= 7 ==> cell.row * size + size <= 8 * size) by (nonlinear_arith)
        requires size > 0;
    assert(cell.col <= 7 ==> cell.col * size + size <= 8 * size) by (nonlinear_arith)
        requires size > 0;
    if cell.row == 0 {
        assert(cell.row * size == 0) by (nonlinear_arith)
            requires cell.row == 0;
    }
    if cell.col == 0 {
        assert(cell.col * size == 0) by (nonlinear_arith)
            requires cell.col == 0;
    }
    if cell.col == 8 {
        assert(cell.col * size == 8 * size) by (nonlinear_arith)
            requires cell.col == 8;
    }
    let t = top_side(cells, cell, size, off);
    let b = bottom_side(cells, cell, size, off);
    let l = left_side(cells, cell, size, off);
    let r = right_side(cells, cell, size, off);
    assert forall|k: int| 0 <= k < t.len() implies on_perimeter(#[trigger] t[k], size, off) by {}
    assert forall|k: int| 0 <= k < b.len() implies on_perimeter(#[trigger] b[k], size, off) by {}
    assert forall|k: int| 0 <= k < l.len() implies on_perimeter(#[trigger] l[k], size, off) by {}
    assert forall|k: int| 0 <= k < r.len() implies on_perimeter(#[trigger] r[k], size, off) by {}
    let all = cell_segments(cells, cell, size, off);
    assert forall|k: int| 0 <= k < all.len() implies on_perimeter(#[trigger] all[k], size, off) by {
        if k < t.len() {
            assert(all[k] == t[k]);
        } else if k < t.len() + b.len() {
            assert(all[k] == b[k - t.len()]);
        } else if k < t.len() + b.len() + l.len() {
            assert(all[k] == l[k - t.len() - b.len()]);
        } else {
            assert(all[k] == r[k - t.len() - b.len() - l.len()]);
        }
    }
}

/// A cage that covers the whole grid is outlined along the board's border
/// only: every segment lies on the outer perimeter inset by `off`, and no
/// segment runs inside.
pub proof fn lemma_whole_grid_outline(cells: Seq<Cell>, size: int, off: int)
    requires
        covers_grid(cells),
        0 < off,
        2 * off < size,
        9 * size + off <= i32::MAX,
    ensures
        forall|k: int| 0 <= k < outline(cells, size, off).len() ==> on_perimeter(#[trigger] outline(cells, size, off)[k],
            size, off),
{
    lemma_outline_upto_on_perimeter(cells, cells.len() as int, size, off);
}

proof fn lemma_outline_upto_on_perimeter(cells: Seq<Cell>, n: int, size: int, off: int)
    requires
        covers_grid(cells),
        0 <= n <= cells.len(),
        0 < off,
        2 * off < size,
        9 * size + off <= i32::MAX,
    ensures
        forall|k: int| 0 <= k < outline_upto(cells, n, size, off).len() ==> on_perimeter(
            #[trigger] outline_upto(cells, n, size, off)[k], size, off),
    decreases n,
{
    if n > 0 {
        lemma_outline_upto_on_perimeter(cells, n - 1, size, off);
        lemma_cell_on_perimeter(cells, cells[n - 1], size, off);
        let pre = outline_upto(cells, n - 1, size, off);
        let last = cell_segments(cells, cells[n - 1], size, off);
        let all = outline_upto(cells, n, size, off);
        assert(all == pre + last);
        assert forall|k: int| 0 <= k < all.len() implies on_perimeter(#[trigger] all[k], size, off) by {
            if k < pre.len() {
                assert(all[k] == pre[k]);
            } else {
                assert(all[k] == last[k - pre.len()]);
            }
        }
    }
}

proof fn lemma_occupied_step(cells: Seq<Cell>, k: int, r: int, c: int)
    requires
        0 <= k < cells.len(),
    ensures
        occupied(cells, k + 1, r, c) == (occupied(cells, k, r, c) || (cells[k].row == r && cells[k].col == c)),
{
    if occupied(cells, k + 1, r, c) && !(cells[k].row == r && cells[k].col == c) {
        let q = choose|q: int| 0 <= q < k + 1 && #[trigger] cells[q].row == r && cells[q].col == c;
        assert(q < k);
    }
}

} // verus!
