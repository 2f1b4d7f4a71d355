use vstd::prelude::*;
use std::time::Instant;
use crate::board::{SumdokuBoard, grid_of, is_grid, set_cell, is_solution, is_partition, cage_total};

verus! {

#[verifier::external_type_specification]
#[verifier::external_body]
pub struct ExInstant(Instant);

/// Relies on `std::time::Instant::now`: the current instant.
#[verifier::external_body]
fn now() -> (t: Instant) {
    Instant::now()
}

/// What the player has put in a cell: a value (0 for none) and pencil notes,
/// bit `n` standing for a note of `n`.
#[derive(Debug, Clone, Copy)]
pub struct GameCell {
    pub notes: u16,
    pub value: u32,
}

impl GameCell {
    pub fn new() -> (c: GameCell)
        ensures
            c.notes == 0,
            c.value == 0,
    {
        GameCell { notes: 0, value: 0 }
    }

    /// Flips the note for `v`.
    pub fn toggle_note(&mut self, v: u8)
        requires
            v < 16,
        ensures
            final(self).notes == old(self).notes ^ (1u16 << v),
            final(self).value == old(self).value,
    {
        let mask: u16 = 1u16 << v;
        self.notes = self.notes ^ mask;
    }

    /// Removes the note for `v`.
    fn clear_note(&mut self, v: u8)
        requires
            v < 16,
        ensures
            final(self).notes == old(self).notes & !(1u16 << v),
            final(self).value == old(self).value,
    {
        let mask: u16 = 1u16 << v;
        self.notes = self.notes & !mask;
    }

    /// Removes every note.
    pub fn zero_notes(&mut self)
        ensures
            final(self).notes == 0,
            final(self).value == old(self).value,
    {
        self.notes = 0;
    }
}

/// A 9x9 grid of player cells.
pub open spec fn cells_wf(cells: &Vec<Vec<GameCell>>) -> bool {
    is_grid(cells)
}

/// The cells whose note for a value goes when that value is set at `(r, c)`:
/// its row, its column and its 3x3 block.
pub open spec fn notes_cleared_at(r: int, c: int, i: int, j: int) -> bool {
    i == r || j == c || (3 * (r / 3) <= i < 3 * (r / 3) + 3 && 3 * (c / 3) <= j < 3 * (c / 3) + 3)
}

/// An interactive game: the puzzle, the player's cells, mistakes made, the
/// start time and the earlier states of the cells for undo.
pub struct Game {
    pub board: SumdokuBoard,
    pub mistakes: u8,
    pub cells: Vec<Vec<GameCell>>,
    pub time: Instant,
    pub undo_state: Vec<Vec<Vec<GameCell>>>,
}

impl Game {
    /// The cells and every saved state are 9x9, and the solution is a solved grid.
    pub closed spec fn wf(&self) -> bool {
        &&& cells_wf(&self.cells)
        &&& is_grid(&self.board.solution)
        &&& forall|k: int| 0 <= k < self.undo_state@.len() ==> cells_wf(&#[trigger] self.undo_state@[k])
    }

    pub closed spec fn undo_depth(&self) -> nat {
        self.undo_state@.len()
    }

    pub closed spec fn last_state(&self) -> Seq<Seq<GameCell>> {
        grid_of(&self.undo_state@.last())
    }

    /// A new game on a fresh puzzle with cages of up to 6 cells.
    pub fn new() -> (g: Game)
        ensures
            g.wf(),
            g.mistakes == 0,
            g.undo_depth() == 0,
            is_solution(grid_of(&g.board.solution)),
            is_partition(g.board.cages@, 6),
            forall|i: int| 0 <= i < g.board.cages@.len() ==> (#[trigger] g.board.cages@[i]).sum
                == cage_total(g.board.cages@[i].cells@, grid_of(&g.board.solution))
                && g.board.cages@[i].lines.is_none(),
            forall|r: int, c: int| 0 <= r < 9 && 0 <= c < 9 ==> (#[trigger] grid_of(&g.cells)[r][c]).value == 0
                && grid_of(&g.cells)[r][c].notes == 0,
    {
        let mut cells: Vec<Vec<GameCell>> = Vec::new();
        let mut r: usize = 0;
        while r < 9
            invariant
                r <= 9,
                cells@.len() == r,
                forall|i: int| 0 <= i < r ==> (#[trigger] cells@[i])@.len() == 9,
                forall|i: int, c: int| 0 <= i < r && 0 <= c < 9 ==> (#[trigger] cells@[i]@[c]).value == 0
                    && cells@[i]@[c].notes == 0,
            decreases 9 - r,
        {
            let mut row: Vec<GameCell> = Vec::new();
            let mut c: usize = 0;
            while c < 9
                invariant
                    c <= 9,
                    row@.len() == c,
                    forall|k: int| 0 <= k < c ==> (#[trigger] row@[k]).value == 0 && row@[k].notes == 0,
                decreases 9 - c,
            {
                row.push(GameCell::new());
                c += 1;
            }
            cells.push(row);
            r += 1;
        }
        Game { board: SumdokuBoard::new(6), mistakes: 0, cells, time: now(), undo_state: Vec::new() }
    }

    /// Saves the cells, removes the notes for `value` in the row, the column
    /// and the 3x3 block of `(row, col)`, sets `value` there (or clears it if
    /// it was already there) and drops its notes. Returns whether `value` is
    /// the solution's value there.
    pub fn set_value(&mut self, row: usize, col: usize, value: u32) -> (correct: bool)
        requires
            old(self).wf(),
            row < 9,
            col < 9,
            value < 16,
        ensures
            final(self).wf(),
            final(self).undo_depth() == old(self).undo_depth() + 1,
            final(self).last_state() == grid_of(&old(self).cells),
            final(self).board == old(self).board,
            final(self).mistakes == old(self).mistakes,
            correct == (grid_of(&old(self).board.solution)[row as int][col as int] == value),
            grid_of(&final(self).cells)[row as int][col as int].value == (if grid_of(&old(self).cells)[row as int][col as int].value
                == value { 0 } else { value }),
            grid_of(&final(self).cells)[row as int][col as int].notes == 0,
            forall|i: int, j: int| 0 <= i < 9 && 0 <= j < 9 && !(i == row && j == col) ==>
                #[trigger] grid_of(&final(self).cells)[i][j] == (if notes_cleared_at(row as int, col as int, i, j) {
                    GameCell { notes: grid_of(&old(self).cells)[i][j].notes & !(1u16 << (value as u8)), ..grid_of(&old(self).cells)[i][j] }
                } else {
                    grid_of(&old(self).cells)[i][j]
                }),
    {
        self.push_state();
        self.remove_notes(row, col, value);
        let mut cell = self.cells[row][col];
        cell.value = if cell.value == value { 0 } else { value };
        cell.notes = 0;
        set_cell(&mut self.cells, row, col, cell);
        self.board.solution[row][col] == value
    }

    /// Saves the cells and empties the cell at `(row, col)`.
    pub fn clear_cell(&mut self, row: usize, col: usize)
        requires
            old(self).wf(),
            row < 9,
            col < 9,
        ensures
            final(self).wf(),
            final(self).undo_depth() == old(self).undo_depth() + 1,
            final(self).last_state() == grid_of(&old(self).cells),
            final(self).board == old(self).board,
            final(self).mistakes == old(self).mistakes,
            grid_of(&final(self).cells) == grid_of(&old(self).cells).update(row as int,
                grid_of(&old(self).cells)[row as int].update(col as int, GameCell { notes: 0, value: 0 })),
    {
        self.push_state();
        set_cell(&mut self.cells, row, col, GameCell { notes: 0, value: 0 });
    }

    fn remove_notes(&mut self, r: usize, c: usize, v: u32)
        requires
            old(self).wf(),
            r < 9,
            c < 9,
            v < 16,
        ensures
            final(self).wf(),
            final(self).undo_state == old(self).undo_state,
            final(self).board == old(self).board,
            final(self).mistakes == old(self).mistakes,
            forall|i: int, j: int| 0 <= i < 9 && 0 <= j < 9 ==>
                #[trigger] grid_of(&final(self).cells)[i][j] == (if notes_cleared_at(r as int, c as int, i, j) {
                    GameCell { notes: grid_of(&old(self).cells)[i][j].notes & !(1u16 << (v as u8)), ..grid_of(&old(self).cells)[i][j] }
                } else {
                    grid_of(&old(self).cells)[i][j]
                }),
    {
        let ghost g0 = grid_of(&self.cells);
        let br = 3 * (r / 3);
        let bc = 3 * (c / 3);
        let mut i: usize = 0;
        while i < 3
            invariant
                self.wf(),
                self.undo_state == old(self).undo_state,
                self.board == old(self).board,
                self.mistakes == old(self).mistakes,
                br == 3 * (r / 3),
                bc == 3 * (c / 3),
                r < 9,
                c < 9,
                v < 16,
                i <= 3,
                forall|a: int, b: int| 0 <= a < 9 && 0 <= b < 9 ==>
                    #[trigger] grid_of(&self.cells)[a][b] == (if br <= a < br + i && bc <= b < bc + 3 {
                        GameCell { notes: g0[a][b].notes & !(1u16 << (v as u8)), ..g0[a][b] }
                    } else {
                        g0[a][b]
                    }),
            decreases 3 - i,
        {
            let mut j: usize = 0;
            while j < 3
                invariant
                    self.wf(),
                    self.undo_state == old(self).undo_state,
                    self.board == old(self).board,
                    self.mistakes == old(self).mistakes,
                    br == 3 * (r / 3),
                    bc == 3 * (c / 3),
                    r < 9,
                    c < 9,
                    v < 16,
                    i < 3,
                    j <= 3,
                    forall|a: int, b: int| 0 <= a < 9 && 0 <= b < 9 ==>
                        #[trigger] grid_of(&self.cells)[a][b] == (if (br <= a < br + i && bc <= b < bc + 3) || (a == br + i
                            && bc <= b < bc + j) {
                            GameCell { notes: g0[a][b].notes & !(1u16 << (v as u8)), ..g0[a][b] }
                        } else {
                            g0[a][b]
                        }),
                decreases 3 - j,
            {
                self.clear_at(br + i, bc + j, v as u8);
                j += 1;
            }
            i += 1;
        }
        let ghost g1 = grid_of(&self.cells);
        let mut k: usize = 0;
        while k < 9
            invariant
                self.wf(),
                self.undo_state == old(self).undo_state,
                self.board == old(self).board,
                self.mistakes == old(self).mistakes,
                r < 9,
                c < 9,
                v < 16,
                k <= 9,
                forall|a: int, b: int| 0 <= a < 9 && 0 <= b < 9 ==>
                    #[trigger] grid_of(&self.cells)[a][b] == (if (a == r && b < k) || (b == c && a < k) {
                        GameCell { notes: g1[a][b].notes & !(1u16 << (v as u8)), ..g1[a][b] }
                    } else {
                        g1[a][b]
                    }),
            decreases 9 - k,
        {
            self.clear_at(r, k, v as u8);
            self.clear_at(k, c, v as u8);
            proof {
                lemma_clear_twice(g1[r as int][k as int].notes, 1u16 << (v as u8));
                lemma_clear_twice(g1[k as int][c as int].notes, 1u16 << (v as u8));
            }
            k += 1;
        }
        proof {
            assert forall|a: int, b: int| 0 <= a < 9 && 0 <= b < 9 implies
                #[trigger] grid_of(&self.cells)[a][b] == (if notes_cleared_at(r as int, c as int, a, b) {
                    GameCell { notes: g0[a][b].notes & !(1u16 << (v as u8)), ..g0[a][b] }
                } else {
                    g0[a][b]
                }) by {
                lemma_clear_twice(g0[a][b].notes, 1u16 << (v as u8));
            }
        }
    }

    /// Removes the note for `v` at `(r, c)`.
    fn clear_at(&mut self, r: usize, c: usize, v: u8)
        requires
            old(self).wf(),
            r < 9,
            c < 9,
            v < 16,
        ensures
            final(self).wf(),
            final(self).undo_state == old(self).undo_state,
            final(self).board == old(self).board,
            final(self).mistakes == old(self).mistakes,
            grid_of(&final(self).cells) == grid_of(&old(self).cells).update(r as int, grid_of(&old(self).cells)[r as int].update(
                c as int, GameCell { notes: grid_of(&old(self).cells)[r as int][c as int].notes & !(1u16 << v), ..grid_of(&old(self).cells)[r as int][c as int] })),
    {
        let mut cell = self.cells[r][c];
        cell.clear_note(v);
        set_cell(&mut self.cells, r, c, cell);
    }

    /// Saves a copy of the cells for undo.
    pub fn push_state(&mut self)
        requires
            old(self).wf(),
        ensures
            final(self).wf(),
            final(self).undo_depth() == old(self).undo_depth() + 1,
            final(self).last_state() == grid_of(&old(self).cells),
            final(self).cells == old(self).cells,
            final(self).board == old(self).board,
            final(self).mistakes == old(self).mistakes,
    {
        let copy = copy_cells(&self.cells);
        self.undo_state.push(copy);
    }

    /// Restores the cells saved last, if any.
    pub fn pop_state(&mut self)
        requires
            old(self).wf(),
        ensures
            final(self).wf(),
            final(self).board == old(self).board,
            final(self).mistakes == old(self).mistakes,
            old(self).undo_depth() == 0 ==> final(self).undo_depth() == 0 && grid_of(&final(self).cells) == grid_of(&old(self).cells),
            old(self).undo_depth() > 0 ==> final(self).undo_depth() == old(self).undo_depth() - 1
                && grid_of(&final(self).cells) == old(self).last_state(),
    {
        if let Some(last_state) = self.undo_state.pop() {
            assert(cells_wf(&last_state)) by {
                assert(last_state == old(self).undo_state@[old(self).undo_state@.len() - 1]);
            }
            self.cells = copy_cells(&last_state);
        }
    }

    pub fn can_undo(self) -> (r: bool)
        ensures
            r == (self.undo_depth() > 0),
    {
        self.undo_state.len() > 0
    }
}

proof fn lemma_clear_twice(n: u16, m: u16)
    ensures
        (n & !m) & !m == n & !m,
{
    assert((n & !m) & !m == n & !m) by (bit_vector);
}

/// A copy of a grid of cells.
fn copy_cells(cells: &Vec<Vec<GameCell>>) -> (copy: Vec<Vec<GameCell>>)
    requires
        cells_wf(cells),
    ensures
        cells_wf(&copy),
        grid_of(&copy) == grid_of(cells),
{
    let mut out: Vec<Vec<GameCell>> = Vec::new();
    let mut r: usize = 0;
    while r < 9
        invariant
            cells_wf(cells),
            r <= 9,
            out@.len() == r,
            forall|i: int| 0 <= i < r ==> (#[trigger] out@[i])@ == cells@[i]@,
        decreases 9 - r,
    {
        let mut row: Vec<GameCell> = Vec::new();
        let mut c: usize = 0;
        while c < 9
            invariant
                cells_wf(cells),
                r < 9,
                c <= 9,
                row@ == cells@[r as int]@.take(c as int),
            decreases 9 - c,
        {
            row.push(cells[r][c]);
            c += 1;
            assert(row@ =~= cells@[r as int]@.take(c as int));
        }
        assert(row@ =~= cells@[r as int]@);
        out.push(row);
        r += 1;
    }
    assert(grid_of(&out) =~= grid_of(cells));
    out
}

} // verus!
