use vstd::prelude::*;
use rand::seq::SliceRandom;

verus! {

/// A cell coordinate of the 9x9 grid.
#[derive(Debug, Clone, Copy, PartialEq, Eq, Structural)]
pub struct Cell {
    pub row: usize,
    pub col: usize,
}

impl Cell {
    pub fn new(row: usize, col: usize) -> (r: Cell)
        ensures
            r.row == row,
            r.col == col,
    {
        Cell { row, col }
    }
}

/// The grid held by nested vectors, as rows of values.
pub open spec fn grid_of<T>(b: &Vec<Vec<T>>) -> Seq<Seq<T>> {
    Seq::new(b@.len(), |r: int| b@[r]@)
}

/// Nested vectors of 9 rows of 9 values.
pub open spec fn is_grid<T>(b: &Vec<Vec<T>>) -> bool {
    b@.len() == 9 && forall|r: int| 0 <= r < 9 ==> (#[trigger] b@[r])@.len() == 9
}

/// Top-left corner coordinate of the 3x3 block holding coordinate `i`.
pub open spec fn block_start(i: int) -> int {
    3 * (i / 3)
}

/// `num` already stands in the row, the column or the 3x3 block of `(row, col)`.
pub open spec fn conflicts(g: Seq<Seq<u32>>, row: int, col: int, num: u32) -> bool {
    (exists|x: int| 0 <= x < 9 && #[trigger] g[row][x] == num)
    || (exists|x: int| 0 <= x < 9 && #[trigger] g[x][col] == num)
    || (exists|i: int, j: int|
        0 <= i < 3 && 0 <= j < 3 && #[trigger] g[block_start(row) + i][block_start(col) + j] == num)
}

/// Placing `num` at `(row, col)` repeats no value of its row, column or block.
fn is_valid(board: &Vec<Vec<u32>>, row: usize, col: usize, num: u32) -> (r: bool)
    requires
        is_grid(board),
        row < 9,
        col < 9,
    ensures
        r == !conflicts(grid_of(board), row as int, col as int, num),
{
    let ghost g = grid_of(board);
    let mut x: usize = 0;
    while x < 9
        invariant
            g == grid_of(board),
            is_grid(board),
            row < 9,
            0 <= x <= 9,
            forall|y: int| 0 <= y < x ==> g[row as int][y] != num,
        decreases 9 - x,
    {
        if board[row][x] == num {
            assert(g[row as int][x as int] == num);
            return false;
        }
        x += 1;
    }
    x = 0;
    while x < 9
        invariant
            g == grid_of(board),
            is_grid(board),
            col < 9,
            0 <= x <= 9,
            forall|y: int| 0 <= y < x ==> g[y][col as int] != num,
        decreases 9 - x,
    {
        if board[x][col] == num {
            assert(g[x as int][col as int] == num);
            return false;
        }
        x += 1;
    }
    let start_row: usize = 3 * (row / 3);
    let start_col: usize = 3 * (col / 3);
    assert(start_row == block_start(row as int) && start_row + 2 < 9);
    assert(start_col == block_start(col as int) && start_col + 2 < 9);
    let mut i: usize = 0;
    while i < 3
        invariant
            g == grid_of(board),
            is_grid(board),
            start_row == block_start(row as int),
            start_col == block_start(col as int),
            start_row + 2 < 9,
            start_col + 2 < 9,
            0 <= i <= 3,
            forall|a: int, b: int| 0 <= a < i && 0 <= b < 3 ==>
                #[trigger] g[start_row + a][start_col + b] != num,
        decreases 3 - i,
    {
        let mut j: usize = 0;
        while j < 3
            invariant
                g == grid_of(board),
                is_grid(board),
                start_row == block_start(row as int),
                start_col == block_start(col as int),
                start_row + 2 < 9,
                start_col + 2 < 9,
                0 <= i < 3,
                0 <= j <= 3,
                forall|a: int, b: int| 0 <= a < i && 0 <= b < 3 ==>
                    #[trigger] g[start_row + a][start_col + b] != num,
                forall|b: int| 0 <= b < j ==> #[trigger] g[start_row + i][start_col + b] != num,
            decreases 3 - j,
        {
            if board[i + start_row][j + start_col] == num {
                assert(g[block_start(row as int) + i][block_start(col as int) + j] == num);
                return false;
            }
            j += 1;
        }
        i += 1;
    }
    assert(!conflicts(g, row as int, col as int, num)) by {
        assert forall|a: int, b: int| 0 <= a < 3 && 0 <= b < 3 implies
            #[trigger] g[block_start(row as int) + a][block_start(col as int) + b] != num by {
            assert(g[start_row + a][start_col + b] != num);
        }
    }
    true
}


/// `(r1, c1)` comes before `(r2, c2)` in row-major order.
pub open spec fn before(r1: int, c1: int, r2: int, c2: int) -> bool {
    r1 < r2 || (r1 == r2 && c1 < c2)
}

/// Two distinct cells that share a row, a column or a 3x3 block.
pub open spec fn same_unit(r1: int, c1: int, r2: int, c2: int) -> bool {
    (r1 != r2 || c1 != c2) && (r1 == r2 || c1 == c2 || (block_start(r1) == block_start(r2)
        && block_start(c1) == block_start(c2)))
}

pub open spec fn in_grid(r: int, c: int) -> bool {
    0 <= r < 9 && 0 <= c < 9
}

/// Values are in 0..=9 (0 is an empty cell) and no filled value repeats within a unit.
pub open spec fn partial_valid(g: Seq<Seq<u32>>) -> bool {
    &&& forall|r: int, c: int| in_grid(r, c) ==> #[trigger] g[r][c] <= 9
    &&& forall|r1: int, c1: int, r2: int, c2: int|
        in_grid(r1, c1) && in_grid(r2, c2) && same_unit(r1, c1, r2, c2) && g[r1][c1] != 0
            ==> #[trigger] g[r1][c1] != #[trigger] g[r2][c2]
}

/// Every cell is filled.
pub open spec fn complete(g: Seq<Seq<u32>>) -> bool {
    forall|r: int, c: int| in_grid(r, c) ==> #[trigger] g[r][c] != 0
}

/// A solved Sudoku grid: every cell holds 1..=9 and no value repeats in a row,
/// a column or a 3x3 block.
pub open spec fn is_solution(g: Seq<Seq<u32>>) -> bool {
    g.len() == 9 && (forall|r: int| 0 <= r < 9 ==> (#[trigger] g[r]).len() == 9)
        && complete(g) && partial_valid(g)
}

/// The first empty cell in row-major order.
fn find_empty_cell(b: &Vec<Vec<u32>>) -> (res: Option<(usize, usize)>)
    requires
        is_grid(b),
    ensures
        match res {
            Some((r, c)) => in_grid(r as int, c as int) && grid_of(b)[r as int][c as int] == 0
                && forall|r2: int, c2: int| in_grid(r2, c2) && before(r2, c2, r as int, c as int)
                    ==> #[trigger] grid_of(b)[r2][c2] != 0,
            None => complete(grid_of(b)),
        },
{
    let ghost g = grid_of(b);
    let mut r: usize = 0;
    while r < 9
        invariant
            g == grid_of(b),
            is_grid(b),
            r <= 9,
            forall|r2: int, c2: int| in_grid(r2, c2) && r2 < r ==> #[trigger] g[r2][c2] != 0,
        decreases 9 - r,
    {
        let mut c: usize = 0;
        while c < 9
            invariant
                g == grid_of(b),
                is_grid(b),
                r < 9,
                c <= 9,
                forall|r2: int, c2: int| in_grid(r2, c2) && r2 < r ==> #[trigger] g[r2][c2] != 0,
                forall|c2: int| 0 <= c2 < c ==> #[trigger] g[r as int][c2] != 0,
            decreases 9 - c,
        {
            if b[r][c] == 0 {
                return Some((r, c));
            }
            c += 1;
        }
        r += 1;
    }
    None
}

/// Writes `v` at `(r, c)`.
pub(crate) fn set_cell<T>(b: &mut Vec<Vec<T>>, r: usize, c: usize, v: T)
    requires
        is_grid(old(b)),
        r < 9,
        c < 9,
    ensures
        is_grid(final(b)),
        grid_of(final(b)) == grid_of(old(b)).update(r as int, grid_of(old(b))[r as int].update(c as int, v)),
{
    let mut row = b.remove(r);
    row.set(c, v);
    b.insert(r, row);
    assert(grid_of(b) =~~= grid_of(old(b)).update(r as int, grid_of(old(b))[r as int].update(c as int, v)));
}

/// Relies on rand's `SliceRandom::shuffle` with the thread-local generator:
/// it reorders the values in place.
#[verifier::external_body]
fn shuffle(v: &mut Vec<u32>)
    ensures
        final(v)@.to_multiset() == old(v)@.to_multiset(),
        final(v)@.len() == old(v)@.len(),
{
    v.shuffle(&mut rand::thread_rng());
}

/// The digits 1..=9 in a fresh random order.
fn random_digits() -> (r: Vec<u32>)
    ensures
        r@.len() == 9,
        forall|i: int| 0 <= i < 9 ==> 1 <= #[trigger] r@[i] <= 9,
        forall|d: u32| 1 <= d <= 9 ==> #[trigger] r@.contains(d),
{
    let mut v: Vec<u32> = Vec::new();
    let mut d: u32 = 1;
    while d <= 9
        invariant
            1 <= d <= 10,
            v@.len() == d - 1,
            forall|i: int| 0 <= i < v@.len() ==> #[trigger] v@[i] == i + 1,
        decreases 10 - d,
    {
        v.push(d);
        d += 1;
    }
    let ghost before_shuffle = v@;
    shuffle(&mut v);
    proof {
        assert forall|i: int| 0 <= i < 9 implies 1 <= #[trigger] v@[i] <= 9 by {
            v@.to_multiset_ensures();
            before_shuffle.to_multiset_ensures();
            assert(v@.contains(v@[i]));
            assert(v@.to_multiset().count(v@[i]) > 0);
            assert(before_shuffle.to_multiset().count(v@[i]) > 0);
            assert(before_shuffle.contains(v@[i]));
            let k = choose|k: int| 0 <= k < before_shuffle.len() && before_shuffle[k] == v@[i];
            assert(1 <= before_shuffle[k] <= 9);
        }
        assert forall|d: u32| 1 <= d <= 9 implies #[trigger] v@.contains(d) by {
            v@.to_multiset_ensures();
            before_shuffle.to_multiset_ensures();
            assert(before_shuffle[d - 1] == d);
            assert(before_shuffle.contains(d));
            assert(before_shuffle.to_multiset().count(d) > 0);
            assert(v@.to_multiset().count(d) > 0);
        }
    }
    v
}

/// `s` agrees with every filled cell of `g`.
pub open spec fn extends(s: Seq<Seq<u32>>, g: Seq<Seq<u32>>) -> bool {
    forall|r: int, c: int| in_grid(r, c) && #[trigger] g[r][c] != 0 ==> s[r][c] == g[r][c]
}

/// `s` is a solved grid that fills in `g`.
pub open spec fn completes(s: Seq<Seq<u32>>, g: Seq<Seq<u32>>) -> bool {
    is_solution(s) && extends(s, g)
}

/// The value that a completion puts in an empty cell is a valid placement.
proof fn lemma_completion_value_valid(s: Seq<Seq<u32>>, g: Seq<Seq<u32>>, row: int, col: int)
    requires
        completes(s, g),
        in_grid(row, col),
        g[row][col] == 0,
    ensures
        !conflicts(g, row, col, s[row][col]),
        1 <= s[row][col] <= 9,
{
    let v = s[row][col];
    assert(v != 0 && v <= 9);
    if conflicts(g, row, col, v) {
        if exists|x: int| 0 <= x < 9 && #[trigger] g[row][x] == v {
            let x = choose|x: int| 0 <= x < 9 && #[trigger] g[row][x] == v;
            assert(s[row][x] == v);
            assert(same_unit(row, col, row, x));
        } else if exists|x: int| 0 <= x < 9 && #[trigger] g[x][col] == v {
            let x = choose|x: int| 0 <= x < 9 && #[trigger] g[x][col] == v;
            assert(s[x][col] == v);
            assert(same_unit(row, col, x, col));
        } else {
            let (i, j) = choose|i: int, j: int|
                0 <= i < 3 && 0 <= j < 3 && #[trigger] g[block_start(row) + i][block_start(col) + j] == v;
            let (r2, c2) = (block_start(row) + i, block_start(col) + j);
            assert(in_grid(r2, c2));
            assert(s[r2][c2] == v);
            assert(same_unit(row, col, r2, c2));
        }
    }
}

/// The shifted-rows solved grid.
pub open spec fn pattern() -> Seq<Seq<u32>> {
    Seq::new(9, |r: int| Seq::new(9, |c: int| ((row_shift(r) + c) % 9 + 1) as u32))
}

/// A solved grid exists, so every empty grid has a completion.
proof fn lemma_pattern_is_solution()
    ensures
        is_solution(pattern()),
{
    let g = pattern();
    assert forall|r1: int, c1: int, r2: int, c2: int|
        in_grid(r1, c1) && in_grid(r2, c2) && same_unit(r1, c1, r2, c2) && g[r1][c1] != 0
            implies #[trigger] g[r1][c1] != #[trigger] g[r2][c2] by {
        lemma_pattern_valid(r1, c1, r2, c2);
    }
}

/// The candidate order of cell `(r, c)`.
pub open spec fn order_at(orders: Seq<Vec<Vec<u32>>>, r: int, c: int) -> Seq<u32> {
    orders[r]@[c]@
}

/// A candidate order for each of the 9x9 cells: values in 1..=9, every digit present.
pub open spec fn valid_orders(orders: Seq<Vec<Vec<u32>>>) -> bool {
    &&& orders.len() == 9
    &&& forall|r: int| 0 <= r < 9 ==> (#[trigger] orders[r])@.len() == 9
    &&& forall|r: int, c: int, k: int| in_grid(r, c) && 0 <= k < order_at(orders, r, c).len()
        ==> 1 <= #[trigger] order_at(orders, r, c)[k] <= 9
    &&& forall|r: int, c: int, d: u32| in_grid(r, c) && 1 <= d <= 9 ==> #[trigger] order_at(orders, r, c).contains(d)
}

/// In the order `o`, `u` comes before the first `v`.
pub open spec fn precedes(o: Seq<u32>, u: u32, v: u32) -> bool {
    exists|p: int| 0 <= p < o.len() && #[trigger] o[p] == u && forall|j: int| 0 <= j <= p ==> o[j] != v
}

/// The grids agree on every cell before `(r, c)` in row-major order.
pub open spec fn agree_before(a: Seq<Seq<u32>>, b: Seq<Seq<u32>>, r: int, c: int) -> bool {
    forall|r2: int, c2: int| in_grid(r2, c2) && before(r2, c2, r, c) ==> #[trigger] a[r2][c2] == b[r2][c2]
}

/// `a` comes before `b` when the cells are read in row-major order and the
/// values of a cell are ranked by that cell's candidate order.
pub open spec fn earlier_in_order(a: Seq<Seq<u32>>, b: Seq<Seq<u32>>, orders: Seq<Vec<Vec<u32>>>) -> bool {
    exists|r: int, c: int| in_grid(r, c) && #[trigger] agree_before(a, b, r, c)
        && precedes(order_at(orders, r, c), a[r][c], b[r][c])
}

/// No completion of `g` comes before `s` in the candidate orders.
pub open spec fn first_completion(s: Seq<Seq<u32>>, g: Seq<Seq<u32>>, orders: Seq<Vec<Vec<u32>>>) -> bool {
    completes(s, g) && forall|t: Seq<Seq<u32>>| #[trigger] completes(t, g) ==> !earlier_in_order(t, s, orders)
}

/// Fills the empty cells of `b` by backtracking, trying at each cell the
/// values in that cell's candidate order. On success the grid is the first
/// completion in those orders; otherwise none exists and `b` is unchanged.
fn solve(b: &mut Vec<Vec<u32>>, orders: &Vec<Vec<Vec<u32>>>, Ghost(sr): Ghost<int>, Ghost(sc): Ghost<int>)
    -> (solved: bool)
    requires
        is_grid(old(b)),
        valid_orders(orders@),
        partial_valid(grid_of(old(b))),
        0 <= sr <= 9,
        0 <= sc <= 9,
        forall|r: int, c: int| in_grid(r, c) && before(r, c, sr, sc) ==> #[trigger] grid_of(old(b))[r][c] != 0,
    ensures
        is_grid(final(b)),
        solved ==> first_completion(grid_of(final(b)), grid_of(old(b)), orders@),
        !solved ==> grid_of(final(b)) == grid_of(old(b)),
        !solved ==> forall|s: Seq<Seq<u32>>| !#[trigger] completes(s, grid_of(old(b))),
    decreases 9 - sr, 10 - sc,
{
    let ghost g0 = grid_of(b);
    match find_empty_cell(b) {
        None => {
            assert(completes(g0, g0));
            assert forall|t: Seq<Seq<u32>>| #[trigger] completes(t, g0) implies !earlier_in_order(t, g0, orders@) by {
                if earlier_in_order(t, g0, orders@) {
                    let (r, c) = choose|r: int, c: int| in_grid(r, c) && #[trigger] agree_before(t, g0, r, c)
                        && precedes(order_at(orders@, r, c), t[r][c], g0[r][c]);
                    assert(g0[r][c] != 0);
                    lemma_precedes_irreflexive(order_at(orders@, r, c), t[r][c]);
                }
            }
            true
        },
        Some((row, col)) => {
            let numbers: &Vec<u32> = &orders[row][col];
            let ghost o = numbers@;
            assert(o == order_at(orders@, row as int, col as int));
            let mut i: usize = 0;
            while i < numbers.len()
                invariant
                    is_grid(b),
                    valid_orders(orders@),
                    o == numbers@,
                    o == order_at(orders@, row as int, col as int),
                    grid_of(b) == g0,
                    g0 == grid_of(old(b)),
                    partial_valid(g0),
                    in_grid(row as int, col as int),
                    g0[row as int][col as int] == 0,
                    forall|r2: int, c2: int| in_grid(r2, c2) && before(r2, c2, row as int, col as int)
                        ==> #[trigger] g0[r2][c2] != 0,
                    0 <= sr <= 9,
                    0 <= sc <= 9,
                    !before(row as int, col as int, sr, sc),
                    i <= o.len(),
                    forall|s: Seq<Seq<u32>>, k: int| 0 <= k < i && #[trigger] completes(s, g0)
                        ==> #[trigger] o[k] != s[row as int][col as int],
                decreases o.len() - i,
            {
                let num = numbers[i];
                assert(1 <= num <= 9);
                let ghost g1 = g0.update(row as int, g0[row as int].update(col as int, num));
                if is_valid(b, row, col, num) {
                    set_cell(b, row, col, num);
                    proof {
                        lemma_place(g0, row as int, col as int, num);
                    }
                    assert(grid_of(b) == g1);
                    if solve(b, orders, Ghost(row as int), Ghost(col as int + 1)) {
                        proof {
                            let f = grid_of(b);
                            assert(completes(f, g1));
                            assert forall|r: int, c: int| in_grid(r, c) && #[trigger] g0[r][c] != 0 implies f[r][c] == g0[r][c] by {
                                assert(g1[r][c] == g0[r][c]);
                            }
                            assert(extends(f, g0));
                            assert(completes(f, g0));
                            assert(g1[row as int][col as int] == num);
                            assert(f[row as int][col as int] == num);
                            assert forall|rr: int| 0 <= rr < 9 implies (#[trigger] g0[rr]).len() == 9 by {
                                assert(g0[rr] == old(b)@[rr]@);
                            }
                            assert forall|t: Seq<Seq<u32>>| #[trigger] completes(t, g0) implies !earlier_in_order(t, f, orders@) by {
                                assert forall|k: int| 0 <= k < i implies #[trigger] order_at(orders@, row as int, col as int)[k] != t[row as int][col as int] by {
                                    assert(o[k] != t[row as int][col as int]);
                                }
                                lemma_first_in_order(t, f, g0, g1, orders@, row as int, col as int, i as int);
                            }
                        }
                        return true;
                    }
                    proof {
                        assert forall|s: Seq<Seq<u32>>| #[trigger] completes(s, g0) implies num != s[row as int][col as int] by {
                            if num == s[row as int][col as int] {
                                assert forall|r: int, c: int| in_grid(r, c) && #[trigger] g1[r][c] != 0 implies s[r][c] == g1[r][c] by {
                                    if r != row || c != col {
                                        assert(g1[r][c] == g0[r][c]);
                                    }
                                }
                                assert(completes(s, g1));
                            }
                        }
                    }
                    set_cell(b, row, col, 0);
                    assert(grid_of(b) =~~= g0);
                } else {
                    proof {
                        assert forall|s: Seq<Seq<u32>>| #[trigger] completes(s, g0) implies num != s[row as int][col as int] by {
                            lemma_completion_value_valid(s, g0, row as int, col as int);
                        }
                    }
                }
                i += 1;
            }
            proof {
                assert forall|s: Seq<Seq<u32>>| !#[trigger] completes(s, g0) by {
                    if completes(s, g0) {
                        lemma_completion_value_valid(s, g0, row as int, col as int);
                        let v = s[row as int][col as int];
                        assert(o.contains(v));
                        let k = choose|k: int| 0 <= k < o.len() && o[k] == v;
                        assert(o[k] != s[row as int][col as int]);
                    }
                }
            }
            false
        },
    }
}

proof fn lemma_precedes_irreflexive(o: Seq<u32>, u: u32)
    ensures
        !precedes(o, u, u),
{
    if precedes(o, u, u) {
        let p = choose|p: int| 0 <= p < o.len() && #[trigger] o[p] == u && forall|j: int| 0 <= j <= p ==> o[j] != u;
        assert(o[p] != u);
    }
}

/// The completion found through candidate `o[i]` at the first empty cell comes
/// first: earlier candidates have no completion, and among completions with
/// `o[i]` there, `f` comes first.
proof fn lemma_first_in_order(
    t: Seq<Seq<u32>>,
    f: Seq<Seq<u32>>,
    g0: Seq<Seq<u32>>,
    g1: Seq<Seq<u32>>,
    orders: Seq<Vec<Vec<u32>>>,
    row: int,
    col: int,
    i: int,
)
    requires
        completes(t, g0),
        completes(f, g0),
        g0.len() == 9,
        forall|r: int| 0 <= r < 9 ==> (#[trigger] g0[r]).len() == 9,
        in_grid(row, col),
        0 <= i < order_at(orders, row, col).len(),
        g0[row][col] == 0,
        g1 == g0.update(row, g0[row].update(col, order_at(orders, row, col)[i])),
        f[row][col] == order_at(orders, row, col)[i],
        forall|r2: int, c2: int| in_grid(r2, c2) && before(r2, c2, row, col) ==> #[trigger] g0[r2][c2] != 0,
        forall|k: int| 0 <= k < i ==> #[trigger] order_at(orders, row, col)[k] != t[row][col],
        completes(t, g1) ==> !earlier_in_order(t, f, orders),
    ensures
        !earlier_in_order(t, f, orders),
{
    let o = order_at(orders, row, col);
    if earlier_in_order(t, f, orders) {
        let (r, c) = choose|r: int, c: int| in_grid(r, c) && #[trigger] agree_before(t, f, r, c)
            && precedes(order_at(orders, r, c), t[r][c], f[r][c]);
        if before(r, c, row, col) {
            assert(g0[r][c] != 0);
            assert(t[r][c] == f[r][c]);
            lemma_precedes_irreflexive(order_at(orders, r, c), t[r][c]);
        } else if r == row && c == col {
            let p = choose|p: int| 0 <= p < o.len() && #[trigger] o[p] == t[row][col]
                && forall|j: int| 0 <= j <= p ==> o[j] != f[row][col];
            if p < i {
                assert(o[p] != t[row][col]);
            } else {
                assert(o[i] != f[row][col]);
            }
        } else {
            assert(before(row, col, r, c));
            assert(t[row][col] == f[row][col]);
            if t[row][col] == f[row][col] {
                assert forall|r2: int, c2: int| in_grid(r2, c2) && #[trigger] g1[r2][c2] != 0 implies t[r2][c2] == g1[r2][c2] by {
                    if r2 != row || c2 != col {
                        assert(g1[r2][c2] == g0[r2][c2]);
                    }
                }
                assert(completes(t, g1));
            } else {
                assert(t[row][col] == f[row][col]);
            }
        }
    }
}

/// The first solved grid in the candidate orders: cells are filled in
/// row-major order, each trying its candidates in its own order, backtracking
/// when no candidate fits.
pub fn solution_in_order(orders: &Vec<Vec<Vec<u32>>>) -> (board: Vec<Vec<u32>>)
    requires
        valid_orders(orders@),
    ensures
        is_grid(&board),
        first_completion(grid_of(&board), empty_grid(), orders@),
{
    let mut board: Vec<Vec<u32>> = Vec::new();
    let mut r: usize = 0;
    while r < 9
        invariant
            r <= 9,
            board@.len() == r,
            forall|i: int| 0 <= i < r ==> (#[trigger] board@[i])@.len() == 9,
            forall|i: int, c: int| 0 <= i < r && 0 <= c < 9 ==> #[trigger] board@[i]@[c] == 0,
        decreases 9 - r,
    {
        board.push(vec![0u32; 9]);
        r += 1;
    }
    assert(grid_of(&board) =~~= empty_grid());
    assert(partial_valid(grid_of(&board)));
    proof {
        lemma_pattern_is_solution();
        assert(completes(pattern(), grid_of(&board)));
    }
    let solved = solve(&mut board, orders, Ghost(0), Ghost(0));
    assert(solved);
    board
}

/// The 9x9 grid of empty cells.
pub open spec fn empty_grid() -> Seq<Seq<u32>> {
    Seq::new(9, |r: int| Seq::new(9, |c: int| 0u32))
}

/// Generates a randomly chosen solved 9x9 grid: the first in candidate
/// orders drawn at random for each cell.
pub fn generate_solution() -> (board: Vec<Vec<u32>>)
    ensures
        is_grid(&board),
        is_solution(grid_of(&board)),
{
    let orders = random_orders();
    solution_in_order(&orders)
}

/// A fresh random candidate order for each cell.
fn random_orders() -> (orders: Vec<Vec<Vec<u32>>>)
    ensures
        valid_orders(orders@),
{
    let mut orders: Vec<Vec<Vec<u32>>> = Vec::new();
    let mut r: usize = 0;
    while r < 9
        invariant
            r <= 9,
            orders@.len() == r,
            forall|i: int| 0 <= i < r ==> (#[trigger] orders@[i])@.len() == 9,
            forall|i: int, c: int, k: int| 0 <= i < r && 0 <= c < 9 && 0 <= k < order_at(orders@, i, c).len()
                ==> 1 <= #[trigger] order_at(orders@, i, c)[k] <= 9,
            forall|i: int, c: int, d: u32| 0 <= i < r && 0 <= c < 9 && 1 <= d <= 9 ==> #[trigger] order_at(orders@, i, c).contains(d),
        decreases 9 - r,
    {
        let mut row: Vec<Vec<u32>> = Vec::new();
        let mut c: usize = 0;
        while c < 9
            invariant
                c <= 9,
                row@.len() == c,
                forall|j: int, k: int| 0 <= j < c && 0 <= k < row@[j]@.len() ==> 1 <= #[trigger] row@[j]@[k] <= 9,
                forall|j: int, d: u32| 0 <= j < c && 1 <= d <= 9 ==> #[trigger] row@[j]@.contains(d),
            decreases 9 - c,
        {
            row.push(random_digits());
            c += 1;
        }
        let ghost old_orders = orders@;
        let ghost row_v = row@;
        orders.push(row);
        assert(orders@[r as int]@ == row_v);
        proof {
            assert forall|i: int, c: int, k: int| 0 <= i < r + 1 && 0 <= c < 9 && 0 <= k < order_at(orders@, i, c).len()
                implies 1 <= #[trigger] order_at(orders@, i, c)[k] <= 9 by {
                if i < r {
                    assert(order_at(orders@, i, c) == order_at(old_orders, i, c));
                } else {
                    assert(order_at(orders@, i, c) == row_v[c]@);
                    assert(1 <= row_v[c]@[k] <= 9);
                }
            }
            assert forall|i: int, c: int, d: u32| 0 <= i < r + 1 && 0 <= c < 9 && 1 <= d <= 9 implies
                #[trigger] order_at(orders@, i, c).contains(d) by {
                if i < r {
                    assert(order_at(orders@, i, c) == order_at(old_orders, i, c));
                } else {
                    assert(order_at(orders@, i, c) == row_v[c]@);
                    assert(row_v[c]@.contains(d));
                }
            }
        }
        r += 1;
    }
    orders
}

proof fn lemma_place(g: Seq<Seq<u32>>, row: int, col: int, num: u32)
    requires
        g.len() == 9,
        forall|r: int| 0 <= r < 9 ==> (#[trigger] g[r]).len() == 9,
        partial_valid(g),
        in_grid(row, col),
        1 <= num <= 9,
        !conflicts(g, row, col, num),
    ensures
        partial_valid(g.update(row, g[row].update(col, num))),
{
    let g2 = g.update(row, g[row].update(col, num));
    assert forall|r1: int, c1: int, r2: int, c2: int|
        in_grid(r1, c1) && in_grid(r2, c2) && same_unit(r1, c1, r2, c2) && g2[r1][c1] != 0
            implies #[trigger] g2[r1][c1] != #[trigger] g2[r2][c2] by {
        if r1 == row && c1 == col {
            lemma_unit_conflict(g, row, col, r2, c2);
        } else if r2 == row && c2 == col {
            lemma_unit_conflict(g, row, col, r1, c1);
        }
    }
}

proof fn lemma_unit_conflict(g: Seq<Seq<u32>>, row: int, col: int, r: int, c: int)
    requires
        in_grid(row, col),
        in_grid(r, c),
        same_unit(row, col, r, c),
    ensures
        conflicts(g, row, col, g[r][c]),
{
    if r == row {
        assert(g[row][c] == g[r][c]);
    } else if c == col {
        assert(g[r][col] == g[r][c]);
    } else {
        let i = r - block_start(row);
        let j = c - block_start(col);
        assert(0 <= i < 3 && 0 <= j < 3);
        assert(g[block_start(row) + i][block_start(col) + j] == g[r][c]);
    }
}

/// Offset of row `r` in the shifted-rows pattern.
pub open spec fn row_shift(r: int) -> int {
    if r == 0 { 0 } else if r == 1 { 3 } else if r == 2 { 6 } else if r == 3 { 1 } else if r == 4 {
        4 } else if r == 5 { 7 } else if r == 6 { 2 } else if r == 7 { 5 } else { 8 }
}

proof fn lemma_pattern_valid(r1: int, c1: int, r2: int, c2: int)
    requires
        in_grid(r1, c1),
        in_grid(r2, c2),
        same_unit(r1, c1, r2, c2),
    ensures
        (row_shift(r1) + c1) % 9 != (row_shift(r2) + c2) % 9,
{
}

/// A cage: connected cells of the grid and the sum of their solution values.
/// `lines` caches the outline once it has been computed.
#[derive(Debug)]
pub struct Cage {
    pub sum: u32,
    pub cells: Vec<Cell>,
    pub lines: Option<Vec<((i32, i32), (i32, i32))>>,
}

/// The two cells share an edge.
pub open spec fn adjacent(a: Cell, b: Cell) -> bool {
    (a.row == b.row && (a.col + 1 == b.col || b.col + 1 == a.col))
    || (a.col == b.col && (a.row + 1 == b.row || b.row + 1 == a.row))
}

/// The two cells touch at a corner only.
pub open spec fn diagonal(a: Cell, b: Cell) -> bool {
    (a.row + 1 == b.row || b.row + 1 == a.row) && (a.col + 1 == b.col || b.col + 1 == a.col)
}

/// Each element after the first is adjacent to the earlier element that
/// `parent` names.
pub open spec fn grows_by_adjacency(p: Seq<Cell>, parent: Seq<int>) -> bool {
    parent.len() == p.len() && forall|i: int| 0 < i < p.len() ==> 0 <= #[trigger] parent[i] < i
        && adjacent(p[i], p[parent[i]])
}

/// The cells form one component under edge adjacency: some ordering of them
/// reaches each cell from an earlier one.
pub open spec fn connected(cells: Seq<Cell>) -> bool {
    exists|p: Seq<Cell>, parent: Seq<int>| p.len() > 0 && #[trigger] p.to_set() == cells.to_set()
        && #[trigger] grows_by_adjacency(p, parent)
}

pub open spec fn cell_in_grid(c: Cell) -> bool {
    c.row < 9 && c.col < 9
}

/// Strictly increasing in row-major order.
pub open spec fn row_major(cells: Seq<Cell>) -> bool {
    forall|i: int, j: int| 0 <= i < j < cells.len() ==>
        before(#[trigger] cells[i].row as int, cells[i].col as int, #[trigger] cells[j].row as int, cells[j].col as int)
}

/// The cages cover each of the 81 cells exactly once, each cage holds between
/// 1 and `k` cells, is connected and lists its cells in row-major order.
pub open spec fn is_partition(cages: Seq<Cage>, k: int) -> bool {
    &&& forall|i: int, j: int| 0 <= i < cages.len() && 0 <= j < cages[i].cells@.len()
        ==> cell_in_grid(#[trigger] cages[i].cells@[j])
    &&& forall|r: int, c: int| #![trigger in_grid(r, c)] in_grid(r, c) ==> exists|i: int, j: int|
        0 <= i < cages.len() && 0 <= j < cages[i].cells@.len() && #[trigger] cages[i].cells@[j]
            == Cell { row: r as usize, col: c as usize }
    &&& forall|i1: int, j1: int, i2: int, j2: int|
        0 <= i1 < cages.len() && 0 <= j1 < cages[i1].cells@.len() && 0 <= i2 < cages.len() && 0
            <= j2 < cages[i2].cells@.len() && #[trigger] cages[i1].cells@[j1]
            == #[trigger] cages[i2].cells@[j2] ==> i1 == i2 && j1 == j2
    &&& forall|i: int| 0 <= i < cages.len() ==> 1 <= (#[trigger] cages[i]).cells@.len() <= k
    &&& forall|i: int| 0 <= i < cages.len() ==> connected((#[trigger] cages[i]).cells@)
    &&& forall|i: int| 0 <= i < cages.len() ==> row_major((#[trigger] cages[i]).cells@)
}

/// Relies on rand's `random::<usize>()`: any value may come back.
#[verifier::external_body]
fn random_usize() -> (r: usize) {
    rand::random::<usize>()
}

/// The first unlabelled cell in row-major order.
fn find_available_cell(labels: &Vec<Vec<usize>>) -> (res: Option<(usize, usize)>)
    requires
        is_grid(labels),
    ensures
        match res {
            Some((r, c)) => in_grid(r as int, c as int) && grid_of(labels)[r as int][c as int] == 0
                && forall|r2: int, c2: int| in_grid(r2, c2) && before(r2, c2, r as int, c as int)
                    ==> #[trigger] grid_of(labels)[r2][c2] != 0,
            None => forall|r: int, c: int| in_grid(r, c) ==> #[trigger] grid_of(labels)[r][c] != 0,
        },
{
    let ghost g = grid_of(labels);
    let mut r: usize = 0;
    while r < 9
        invariant
            g == grid_of(labels),
            is_grid(labels),
            r <= 9,
            forall|r2: int, c2: int| in_grid(r2, c2) && r2 < r ==> #[trigger] g[r2][c2] != 0,
        decreases 9 - r,
    {
        let mut c: usize = 0;
        while c < 9
            invariant
                g == grid_of(labels),
                is_grid(labels),
                r < 9,
                c <= 9,
                forall|r2: int, c2: int| in_grid(r2, c2) && r2 < r ==> #[trigger] g[r2][c2] != 0,
                forall|c2: int| 0 <= c2 < c ==> #[trigger] g[r as int][c2] != 0,
            decreases 9 - c,
        {
            if labels[r][c] == 0 {
                return Some((r, c));
            }
            c += 1;
        }
        r += 1;
    }
    None
}

/// The neighbour of `(r, c)` in direction `dir` (up, down, left, right), if it
/// lies on the grid.
fn step(r: usize, c: usize, dir: usize) -> (res: Option<(usize, usize)>)
    requires
        r < 9,
        c < 9,
    ensures
        as_cell(res) == neighbour(Cell { row: r, col: c }, dir as int),
        match res {
            Some((nr, nc)) => nr < 9 && nc < 9 && adjacent(Cell { row: r, col: c }, Cell { row: nr, col: nc }),
            None => true,
        },
{
    if dir == 0 {
        if r > 0 { Some((r - 1, c)) } else { None }
    } else if dir == 1 {
        if r < 8 { Some((r + 1, c)) } else { None }
    } else if dir == 2 {
        if c > 0 { Some((r, c - 1)) } else { None }
    } else {
        if c < 8 { Some((r, c + 1)) } else { None }
    }
}

/// The cells labelled `id`, in row-major order.
fn collect_label(labels: &Vec<Vec<usize>>, id: usize) -> (cells: Vec<Cell>)
    requires
        is_grid(labels),
    ensures
        row_major(cells@),
        forall|j: int| 0 <= j < cells@.len() ==> cell_in_grid(#[trigger] cells@[j]),
        forall|c: Cell| cell_in_grid(c) ==> (cells@.contains(c) <==> grid_of(labels)[c.row as int][c.col as int] == id),
{
    let ghost g = grid_of(labels);
    let mut cells: Vec<Cell> = Vec::new();
    let mut r: usize = 0;
    while r < 9
        invariant
            g == grid_of(labels),
            is_grid(labels),
            r <= 9,
            row_major(cells@),
            forall|j: int| 0 <= j < cells@.len() ==> cell_in_grid(#[trigger] cells@[j]) && cells@[j].row < r,
            forall|x: Cell| cell_in_grid(x) ==> (cells@.contains(x) <==> (x.row < r && g[x.row as int][x.col as int] == id)),
        decreases 9 - r,
    {
        let mut c: usize = 0;
        while c < 9
            invariant
                g == grid_of(labels),
                is_grid(labels),
                r < 9,
                c <= 9,
                row_major(cells@),
                forall|j: int| 0 <= j < cells@.len() ==> cell_in_grid(#[trigger] cells@[j])
                    && before(cells@[j].row as int, cells@[j].col as int, r as int, c as int),
                forall|x: Cell| cell_in_grid(x) ==> (cells@.contains(x) <==> (before(x.row as int, x.col as int, r as int, c as int)
                    && g[x.row as int][x.col as int] == id)),
            decreases 9 - c,
        {
            if labels[r][c] == id {
                let ghost old_cells = cells@;
                cells.push(Cell { row: r, col: c });
                proof {
                    assert forall|x: Cell| cell_in_grid(x) implies (cells@.contains(x) <==> (before(x.row as int, x.col as int, r as int, c as int + 1)
                        && g[x.row as int][x.col as int] == id)) by {
                        if x == (Cell { row: r, col: c }) {
                            assert(cells@[cells@.len() - 1] == x);
                        } else if old_cells.contains(x) {
                            let k = choose|k: int| 0 <= k < old_cells.len() && old_cells[k] == x;
                            assert(cells@[k] == x);
                        } else if cells@.contains(x) {
                            let k = choose|k: int| 0 <= k < cells@.len() && cells@[k] == x;
                            if k < old_cells.len() {
                                assert(old_cells[k] == x);
                            }
                        }
                    }
                }
            }
            c += 1;
        }
        r += 1;
    }
    cells
}


/// A coordinate pair as a cell.
pub open spec fn as_cell(o: Option<(usize, usize)>) -> Option<Cell> {
    match o {
        Some((r, c)) => Some(Cell { row: r, col: c }),
        None => None,
    }
}

/// The neighbour of `pos` on the grid in direction `dir`: 0 up, 1 down,
/// 2 left, any other right.
pub open spec fn neighbour(pos: Cell, dir: int) -> Option<Cell> {
    if dir == 0 {
        if pos.row > 0 { Some(Cell { row: (pos.row - 1) as usize, col: pos.col }) } else { None }
    } else if dir == 1 {
        if pos.row < 8 { Some(Cell { row: (pos.row + 1) as usize, col: pos.col }) } else { None }
    } else if dir == 2 {
        if pos.col > 0 { Some(Cell { row: pos.row, col: (pos.col - 1) as usize }) } else { None }
    } else {
        if pos.col < 8 { Some(Cell { row: pos.row, col: (pos.col + 1) as usize }) } else { None }
    }
}

/// The first free neighbour of `pos` in the directions `k`, `k + 1`, .., 3.
pub open spec fn first_free(free: spec_fn(Cell) -> bool, pos: Cell, k: int) -> Option<Cell>
    decreases 4 - k,
{
    if k >= 4 {
        None
    } else {
        match neighbour(pos, k) {
            Some(n) => if free(n) { Some(n) } else { first_free(free, pos, k + 1) },
            None => first_free(free, pos, k + 1),
        }
    }
}

/// One growth step from `pos` with the direction draw `draw`: the neighbour
/// in direction `draw % 4` if it is free, else the first free neighbour
/// looking up, down, left, right; `None` when no neighbour is free.
pub open spec fn next_step(free: spec_fn(Cell) -> bool, pos: Cell, draw: usize) -> Option<Cell> {
    match neighbour(pos, (draw % 4) as int) {
        Some(n) => if free(n) { Some(n) } else { first_free(free, pos, 0) },
        None => first_free(free, pos, 0),
    }
}

/// Some cage of `earlier` holds `x`.
pub open spec fn taken(earlier: Seq<Cage>, x: Cell) -> bool {
    exists|k: int| 0 <= k < earlier.len() && #[trigger] earlier[k].cells@.contains(x)
}

/// The cells that neither the cages of `earlier` nor the cells of `prefix` hold.
pub open spec fn free_cell(earlier: Seq<Cage>, prefix: Seq<Cell>) -> spec_fn(Cell) -> bool {
    |x: Cell| cell_in_grid(x) && !taken(earlier, x) && !prefix.contains(x)
}

/// The `j`-th draw, or 0 past the end.
pub open spec fn draw_at(draws: Seq<usize>, j: int) -> usize {
    if 0 <= j < draws.len() { draws[j] } else { 0 }
}

/// Consecutive cells share an edge.
pub open spec fn is_walk(path: Seq<Cell>) -> bool {
    forall|j: int| 0 <= j < path.len() - 1 ==> adjacent(#[trigger] path[j], path[j + 1])
}

/// `path` is the growth from its first cell beside the cages `earlier`: step
/// `j` uses draw `j`, growth stops after `t` steps or when no neighbour is free.
pub open spec fn grown_by_draws(earlier: Seq<Cage>, path: Seq<Cell>, t: int, draws: Seq<usize>) -> bool {
    &&& 1 <= path.len() <= t + 1
    &&& forall|j: int| #![trigger path[j]] 0 <= j < path.len() - 1 ==>
        next_step(free_cell(earlier, path.take(j + 1)), path[j], draw_at(draws, j)) == Some(path[j + 1])
    &&& path.len() - 1 < t ==> next_step(free_cell(earlier, path), path.last(), draw_at(draws, path.len() - 1))
        is None
}

/// `seed` is the first cell in row-major order that no cage of `earlier` holds.
pub open spec fn is_first_free(earlier: Seq<Cage>, seed: Cell) -> bool {
    &&& cell_in_grid(seed)
    &&& !taken(earlier, seed)
    &&& forall|x: Cell| cell_in_grid(x) && before(x.row as int, x.col as int, seed.row as int, seed.col as int)
        ==> #[trigger] taken(earlier, x)
}

/// `cage` is the cage that grows beside `earlier` with step count `t` and
/// direction draws `draws`: seeded at the first free cell, grown along a walk,
/// its cells listed in row-major order, its sum 0 and its outline not computed.
pub open spec fn cage_from_draws(earlier: Seq<Cage>, cage: Cage, t: int, draws: Seq<usize>) -> bool {
    &&& cage.cells@.len() > 0
    &&& is_first_free(earlier, cage.cells@[0])
    &&& row_major(cage.cells@)
    &&& cage.sum == 0
    &&& cage.lines.is_none()
    &&& exists|path: Seq<Cell>| #[trigger] grown_by_draws(earlier, path, t, draws) && is_walk(path)
        && path[0] == cage.cells@[0] && path.to_set() == cage.cells@.to_set()
}

/// `cage` grows beside `earlier` for some step count below `k` and some
/// direction draws.
pub open spec fn grown_by_some_draws(earlier: Seq<Cage>, cage: Cage, k: int) -> bool {
    exists|t: int, draws: Seq<usize>| 0 <= t < k && #[trigger] cage_from_draws(earlier, cage, t, draws)
}

/// The `i`-th step count draw, or 0 past the end.
pub open spec fn target_at(targets: Seq<usize>, i: int) -> usize {
    if 0 <= i < targets.len() { targets[i] } else { 0 }
}

/// The direction draws of cage `i`, or none past the end.
pub open spec fn dirs_at(dirs: Seq<Vec<usize>>, i: int) -> Seq<usize> {
    if 0 <= i < dirs.len() { dirs[i]@ } else { Seq::empty() }
}

pub open spec fn label_at(l: Seq<Seq<usize>>, x: Cell) -> usize {
    l[x.row as int][x.col as int]
}

/// Labels the cell `(nr, nc)` with `id` if it is still unlabelled.
fn claim(labels: &mut Vec<Vec<usize>>, nr: usize, nc: usize, id: usize) -> (done: bool)
    requires
        is_grid(old(labels)),
        nr < 9,
        nc < 9,
    ensures
        is_grid(final(labels)),
        done == (grid_of(old(labels))[nr as int][nc as int] == 0),
        done ==> grid_of(final(labels)) == grid_of(old(labels)).update(nr as int, grid_of(old(labels))[nr as int].update(nc as int, id)),
        !done ==> grid_of(final(labels)) == grid_of(old(labels)),
{
    if labels[nr][nc] == 0 {
        set_cell(labels, nr, nc, id);
        true
    } else {
        false
    }
}

/// One growth step from `(x, y)` on the label grid, where the free cells
/// are the unlabelled ones: see `next_step`.
fn choose_next(labels: &Vec<Vec<usize>>, x: usize, y: usize, draw: usize, Ghost(free): Ghost<spec_fn(Cell) -> bool>)
    -> (next: Option<(usize, usize)>)
    requires
        is_grid(labels),
        x < 9,
        y < 9,
        forall|n: Cell| cell_in_grid(n) ==> (label_at(grid_of(labels), n) == 0) == free(n),
    ensures
        as_cell(next) == next_step(free, Cell { row: x, col: y }, draw),
        match next {
            Some((nr, nc)) => nr < 9 && nc < 9 && grid_of(labels)[nr as int][nc as int] == 0
                && adjacent(Cell { row: x, col: y }, Cell { row: nr, col: nc }),
            None => true,
        },
{
    let ghost pos = Cell { row: x, col: y };
    let first = step(x, y, draw % 4);
    assert(as_cell(first) == neighbour(pos, (draw % 4) as int));
    if let Some((nr, nc)) = first {
        let ghost n = Cell { row: nr, col: nc };
        assert(cell_in_grid(n));
        assert(label_at(grid_of(labels), n) == grid_of(labels)[nr as int][nc as int]);
        assert((label_at(grid_of(labels), n) == 0) == free(n));
        if labels[nr][nc] == 0 {
            return Some((nr, nc));
        }
    }
    assert(next_step(free, pos, draw) == first_free(free, pos, 0));
    let mut d: usize = 0;
    while d < 4
        invariant
            is_grid(labels),
            x < 9,
            y < 9,
            pos == (Cell { row: x, col: y }),
            d <= 4,
            forall|n: Cell| cell_in_grid(n) ==> (label_at(grid_of(labels), n) == 0) == free(n),
            next_step(free, pos, draw) == first_free(free, pos, 0),
            first_free(free, pos, 0) == first_free(free, pos, d as int),
        decreases 4 - d,
    {
        let s = step(x, y, d);
        proof {
            lemma_first_free_unfold(free, pos, d as int);
        }
        assert(as_cell(s) == neighbour(pos, d as int));
        if let Some((nr, nc)) = s {
            let ghost n = Cell { row: nr, col: nc };
            assert(cell_in_grid(n));
            assert(label_at(grid_of(labels), n) == grid_of(labels)[nr as int][nc as int]);
            assert((label_at(grid_of(labels), n) == 0) == free(n));
            if labels[nr][nc] == 0 {
                return Some((nr, nc));
            }
        }
        d += 1;
    }
    None
}

proof fn lemma_first_free_unfold(free: spec_fn(Cell) -> bool, pos: Cell, k: int)
    requires
        0 <= k < 4,
    ensures
        first_free(free, pos, k) == match neighbour(pos, k) {
            Some(n) => if free(n) { Some(n) } else { first_free(free, pos, k + 1) },
            None => first_free(free, pos, k + 1),
        },
{
}

/// Labels with `id` the cell `(r, c)` and the cells that growth from it takes:
/// up to `target` steps, step `j` following `next_step` with draw `j` of
/// `draws`. A cell is free while it is unlabelled. Returns the cells taken,
/// in order, and for each the index of the cell it grew from.
fn grow(
    labels: &mut Vec<Vec<usize>>,
    r: usize,
    c: usize,
    id: usize,
    target: usize,
    draws: &Vec<usize>,
    Ghost(earlier): Ghost<Seq<Cage>>,
) -> (res: Ghost<(Seq<Cell>, Seq<int>)>)
    requires
        is_grid(old(labels)),
        in_grid(r as int, c as int),
        grid_of(old(labels))[r as int][c as int] == 0,
        id > 0,
        forall|x: Cell| cell_in_grid(x) ==> #[trigger] label_at(grid_of(old(labels)), x) != id,
        forall|x: Cell| cell_in_grid(x) ==> ((#[trigger] label_at(grid_of(old(labels)), x) == 0) == !taken(earlier, x)),
    ensures
        is_grid(final(labels)),
        ({
            let (path, parent) = res@;
            &&& 1 <= path.len() <= target + 1
            &&& path[0] == (Cell { row: r, col: c })
            &&& grows_by_adjacency(path, parent)
            &&& grown_by_draws(earlier, path, target as int, draws@)
            &&& is_walk(path)
            &&& path.no_duplicates()
            &&& forall|j: int| 0 <= j < path.len() ==> cell_in_grid(#[trigger] path[j])
                && label_at(grid_of(old(labels)), path[j]) == 0
            &&& forall|x: Cell| cell_in_grid(x) ==> #[trigger] label_at(grid_of(final(labels)), x)
                == if path.contains(x) { id } else { label_at(grid_of(old(labels)), x) }
        }),
{
    let ghost l0 = grid_of(labels);
    set_cell(labels, r, c, id);
    let ghost mut path: Seq<Cell> = seq![Cell { row: r, col: c }];
    let ghost mut parent: Seq<int> = seq![0int];
    proof {
        assert forall|x: Cell| cell_in_grid(x) implies #[trigger] label_at(grid_of(labels), x)
            == if path.contains(x) { id } else { label_at(l0, x) } by {
            if x == (Cell { row: r, col: c }) {
                assert(path[0] == x);
            } else {
                assert(!path.contains(x));
            }
        }
    }
    let mut x: usize = r;
    let mut y: usize = c;
    let mut i: usize = 0;
    let mut stop = false;
    assert(path[0] == (Cell { row: x, col: y }));
    while i < target && !stop
        invariant
            is_grid(labels),
            i <= target,
            path.len() == i + 1,
            path[0] == (Cell { row: r, col: c }),
            grows_by_adjacency(path, parent),
            is_walk(path),
            path.no_duplicates(),
            x < 9,
            y < 9,
            path.last() == (Cell { row: x, col: y }),
            forall|j: int| 0 <= j < path.len() ==> cell_in_grid(#[trigger] path[j]) && label_at(l0, path[j]) == 0,
            forall|x: Cell| cell_in_grid(x) ==> #[trigger] label_at(grid_of(labels), x)
                == if path.contains(x) { id } else { label_at(l0, x) },
            id > 0,
            forall|x: Cell| cell_in_grid(x) ==> #[trigger] label_at(l0, x) != id,
            forall|x: Cell| cell_in_grid(x) ==> ((#[trigger] label_at(l0, x) == 0) == !taken(earlier, x)),
            forall|j: int| #![trigger path[j]] 0 <= j < path.len() - 1 ==>
                next_step(free_cell(earlier, path.take(j + 1)), path[j], draw_at(draws@, j)) == Some(path[j + 1]),
            stop ==> next_step(free_cell(earlier, path), path.last(), draw_at(draws@, path.len() - 1)) is None,
        decreases target - i, if stop { 0int } else { 1int },
    {
        let ghost pos = Cell { row: x, col: y };
        let ghost free = free_cell(earlier, path);
        proof {
            assert forall|n: Cell| cell_in_grid(n) implies (label_at(grid_of(labels), n) == 0) == free(n) by {
                if path.contains(n) {
                    let q = choose|q: int| 0 <= q < path.len() && path[q] == n;
                    assert(label_at(l0, path[q]) == 0);
                }
            }
        }
        let draw: usize = if i < draws.len() { draws[i] } else { 0 };
        assert(draw == draw_at(draws@, i as int));
        let next = choose_next(labels, x, y, draw, Ghost(free));
        assert(as_cell(next) == next_step(free, pos, draw));
        match next {
            None => {
                stop = true;
            },
            Some((nr, nc)) => {
                let ghost lb = grid_of(labels);
                let ghost n = Cell { row: nr, col: nc };
                assert(label_at(lb, n) == 0);
                assert(!path.contains(n));
                claim(labels, nr, nc, id);
                proof {
                    let k = path.len() - 1;
                    let old_path = path;
                    path = path.push(n);
                    let old_parent = parent;
                    parent = parent.push(k);
                    assert forall|a: int| 0 < a < path.len() implies 0 <= #[trigger] parent[a] < a
                        && adjacent(path[a], path[parent[a]]) by {
                        if a < old_path.len() {
                            assert(parent[a] == old_parent[a]);
                            assert(path[a] == old_path[a]);
                            assert(path[parent[a]] == old_path[old_parent[a]]);
                        }
                    }
                    assert forall|j: int| 0 <= j < path.len() - 1 implies adjacent(#[trigger] path[j], path[j + 1]) by {
                        if j < old_path.len() - 1 {
                            assert(path[j] == old_path[j] && path[j + 1] == old_path[j + 1]);
                        }
                    }
                    assert forall|j: int| #![trigger path[j]] 0 <= j < path.len() - 1 implies
                        next_step(free_cell(earlier, path.take(j + 1)), path[j], draw_at(draws@, j)) == Some(path[j + 1]) by {
                        if j < old_path.len() - 1 {
                            assert(path.take(j + 1) =~= old_path.take(j + 1));
                            assert(path[j] == old_path[j] && path[j + 1] == old_path[j + 1]);
                        } else {
                            assert(path.take(j + 1) =~= old_path);
                        }
                    }
                    assert forall|x: Cell| cell_in_grid(x) implies #[trigger] label_at(grid_of(labels), x)
                        == if path.contains(x) { id } else { label_at(l0, x) } by {
                        if x == n {
                            assert(path[path.len() - 1] == x);
                        } else {
                            assert(label_at(grid_of(labels), x) == label_at(lb, x));
                            if old_path.contains(x) {
                                let q = choose|q: int| 0 <= q < old_path.len() && old_path[q] == x;
                                assert(path[q] == x);
                            }
                            if path.contains(x) {
                                let q = choose|q: int| 0 <= q < path.len() && path[q] == x;
                                assert(old_path[q] == x);
                            }
                        }
                    }
                    assert(path[path.len() - 1] == n);
                    assert forall|a: int, b: int| 0 <= a < path.len() && 0 <= b < path.len() && a != b
                        implies path[a] != path[b] by {
                        if a < old_path.len() && b < old_path.len() {
                            assert(old_path[a] != old_path[b]);
                        } else if a < old_path.len() {
                            assert(old_path.contains(old_path[a]));
                        } else if b < old_path.len() {
                            assert(old_path.contains(old_path[b]));
                        }
                    }
                }
                x = nr;
                y = nc;
                i += 1;
            },
        }
    }
    Ghost((path, parent))
}

/// The facts that the partition loop keeps about the cages built so far and
/// the label grid: cage `i` holds exactly the cells labelled `i + 1`.
pub open spec fn cages_match_labels(cages: Seq<Cage>, l: Seq<Seq<usize>>, k: int) -> bool {
    &&& forall|x: Cell| cell_in_grid(x) ==> #[trigger] label_at(l, x) <= cages.len()
    &&& forall|i: int, x: Cell| 0 <= i < cages.len() && cell_in_grid(x) ==>
        (#[trigger] cages[i].cells@.contains(x) <==> #[trigger] label_at(l, x) == i + 1)
    &&& forall|i: int, j: int| 0 <= i < cages.len() && 0 <= j < cages[i].cells@.len()
        ==> cell_in_grid(#[trigger] cages[i].cells@[j])
    &&& forall|i: int| 0 <= i < cages.len() ==> 1 <= (#[trigger] cages[i]).cells@.len() <= k
    &&& forall|i: int| 0 <= i < cages.len() ==> connected((#[trigger] cages[i]).cells@)
    &&& forall|i: int| 0 <= i < cages.len() ==> row_major((#[trigger] cages[i]).cells@)
    &&& forall|i: int| 0 <= i < cages.len() ==> (#[trigger] cages[i]).sum == 0 && cages[i].lines.is_none()
}

proof fn lemma_row_major_no_duplicates(cells: Seq<Cell>)
    requires
        row_major(cells),
    ensures
        cells.no_duplicates(),
{
    assert forall|i: int, j: int| 0 <= i < cells.len() && 0 <= j < cells.len() && i != j
        implies cells[i] != cells[j] by {
        if i < j {
            assert(before(cells[i].row as int, cells[i].col as int, cells[j].row as int, cells[j].col as int));
        } else {
            assert(before(cells[j].row as int, cells[j].col as int, cells[i].row as int, cells[i].col as int));
        }
    }
}

/// Partitions the 81 cells into cages driven by the given draws. Cage `i` is
/// seeded at the first free cell in row-major order and grows for
/// `targets[i] % max_cage_size` steps, step `j` with direction draw
/// `dirs[i][j]` (see `next_step`); its cells are then sorted in row-major
/// order. A missing draw counts as 0. Sums are 0.
#[verifier::rlimit(100)]
pub fn partition_with(max_cage_size: usize, targets: &Vec<usize>, dirs: &Vec<Vec<usize>>) -> (cages: Vec<Cage>)
    requires
        max_cage_size >= 1,
    ensures
        is_partition(cages@, max_cage_size as int),
        forall|i: int| 0 <= i < cages@.len() ==> (#[trigger] cages@[i]).sum == 0 && cages@[i].lines.is_none(),
        forall|i: int| 0 <= i < cages@.len() ==> #[trigger] cage_from_draws(cages@.take(i), cages@[i],
            (target_at(targets@, i) % max_cage_size) as int, dirs_at(dirs@, i)),
        drawn_partition(cages@, max_cage_size, targets@, dirs@),
{
    let mut result: Vec<Cage> = Vec::new();
    let mut labels: Vec<Vec<usize>> = Vec::new();
    let mut r: usize = 0;
    while r < 9
        invariant
            r <= 9,
            labels@.len() == r,
            forall|i: int| 0 <= i < r ==> (#[trigger] labels@[i])@.len() == 9,
            forall|i: int, c: int| 0 <= i < r && 0 <= c < 9 ==> #[trigger] labels@[i]@[c] == 0,
        decreases 9 - r,
    {
        labels.push(vec![0usize; 9]);
        r += 1;
    }
    assert(cages_match_labels(result@, grid_of(&labels), max_cage_size as int));
    let ghost mut sr: int = 0;
    let ghost mut sc: int = 0;
    loop
        invariant
            is_grid(&labels),
            max_cage_size >= 1,
            cages_match_labels(result@, grid_of(&labels), max_cage_size as int),
            0 <= sr <= 9,
            0 <= sc <= 9,
            result@.len() <= 9 * sr + sc,
            forall|x: Cell| cell_in_grid(x) && before(x.row as int, x.col as int, sr, sc)
                ==> #[trigger] label_at(grid_of(&labels), x) != 0,
            forall|i: int| 0 <= i < result@.len() ==> #[trigger] cage_from_draws(result@.take(i), result@[i],
                (target_at(targets@, i) % max_cage_size) as int, dirs_at(dirs@, i)),
        decreases 9 - sr, 10 - sc,
    {
        let ghost l0 = grid_of(&labels);
        match find_available_cell(&labels) {
            None => {
                proof {
                    lemma_partition(result@, l0, max_cage_size as int);
                }
                return result;
            },
            Some((r, c)) => {
                let id: usize = result.len() + 1;
                proof {
                    assert(!before(r as int, c as int, sr, sc)) by {
                        assert(label_at(l0, Cell { row: r, col: c }) == 0);
                    }
                    assert forall|x: Cell| cell_in_grid(x) implies #[trigger] label_at(l0, x) != id by {
                        assert(label_at(l0, x) <= result@.len());
                    }
                }
                proof {
                    lemma_label_taken(result@, l0, max_cage_size as int);
                }
                let k = result.len();
                let raw: usize = if k < targets.len() { targets[k] } else { 0 };
                assert(raw == target_at(targets@, k as int));
                let target: usize = raw % max_cage_size;
                let no_draws: Vec<usize> = Vec::new();
                let draws: &Vec<usize> = if k < dirs.len() { &dirs[k] } else { &no_draws };
                assert(target as int == (target_at(targets@, k as int) % max_cage_size) as int);
                assert(draws@ == dirs_at(dirs@, k as int));
                let ghost_res = grow(&mut labels, r, c, id, target, draws, Ghost(result@));
                let ghost path = ghost_res@.0;
                let ghost parent = ghost_res@.1;
                let cells = collect_label(&labels, id);
                let ghost l1 = grid_of(&labels);
                proof {
                    assert(path.to_set() =~= cells@.to_set()) by {
                        assert forall|x: Cell| path.to_set().contains(x) implies cells@.to_set().contains(x) by {
                            let q = choose|q: int| 0 <= q < path.len() && path[q] == x;
                            assert(cell_in_grid(path[q]));
                            assert(path.contains(x));
                            assert(label_at(l1, x) == id);
                            assert(cells@.contains(x));
                        }
                        assert forall|x: Cell| cells@.to_set().contains(x) implies path.to_set().contains(x) by {
                            let q = choose|q: int| 0 <= q < cells@.len() && cells@[q] == x;
                            assert(cell_in_grid(cells@[q]));
                            assert(label_at(l1, x) == id);
                        }
                    }
                    lemma_row_major_no_duplicates(cells@);
                    path.unique_seq_to_set();
                    cells@.unique_seq_to_set();
                    assert(connected(cells@));
                    let seed = Cell { row: r, col: c };
                    assert(path.contains(seed)) by { assert(path[0] == seed); }
                    assert(cell_in_grid(seed));
                    assert(label_at(l1, seed) == id);
                    assert(cells@.contains(seed));
                    let ks = choose|ks: int| 0 <= ks < cells@.len() && cells@[ks] == seed;
                    assert(cells@.to_set().contains(cells@[0]));
                    assert(path.to_set().contains(cells@[0]));
                    let q = choose|q: int| 0 <= q < path.len() && path[q] == cells@[0];
                    assert(label_at(l0, path[q]) == 0);
                    if ks > 0 {
                        assert(before(cells@[0].row as int, cells@[0].col as int, cells@[ks].row as int, cells@[ks].col as int));
                        assert(cell_in_grid(cells@[0]));
                        assert(label_at(l0, cells@[0]) != 0);
                    }
                    assert(cells@[0] == seed);
                    assert forall|x: Cell| cell_in_grid(x) && before(x.row as int, x.col as int, seed.row as int, seed.col as int)
                        implies #[trigger] taken(result@, x) by {
                        assert(label_at(l0, x) != 0);
                    }
                    assert(is_first_free(result@, cells@[0]));
                    assert(grown_by_draws(result@, path, target as int, draws@));
                }
                let ghost old_result = result@;
                result.push(Cage { sum: 0, cells, lines: None });
                proof {
                    let cm = result@;
                    assert(cm.take(k as int) =~= old_result);
                    assert(cm[k as int].cells@ == cells@);
                    assert(cage_from_draws(cm.take(k as int), cm[k as int],
                        (target_at(targets@, k as int) % max_cage_size) as int, dirs_at(dirs@, k as int)));
                    assert forall|i: int| 0 <= i < cm.len() implies #[trigger] cage_from_draws(cm.take(i), cm[i],
                        (target_at(targets@, i) % max_cage_size) as int, dirs_at(dirs@, i)) by {
                        if i < k {
                            assert(cm.take(i) =~= old_result.take(i));
                            assert(cm[i] == old_result[i]);
                        }
                    }
                    assert forall|x: Cell| cell_in_grid(x) implies #[trigger] label_at(l1, x) <= cm.len() by {
                        assert(label_at(l0, x) <= old_result.len());
                    }
                    assert forall|i: int, x: Cell| 0 <= i < cm.len() && cell_in_grid(x) implies
                        (#[trigger] cm[i].cells@.contains(x) <==> #[trigger] label_at(l1, x) == i + 1) by {
                        if i < old_result.len() {
                            assert(cm[i] == old_result[i]);
                            assert(old_result[i].cells@.contains(x) <==> label_at(l0, x) == i + 1);
                        }
                    }
                    assert forall|i: int, j: int| 0 <= i < cm.len() && 0 <= j < cm[i].cells@.len()
                        implies cell_in_grid(#[trigger] cm[i].cells@[j]) by {
                        if i < old_result.len() {
                            assert(cm[i] == old_result[i]);
                        }
                    }
                    assert forall|i: int| 0 <= i < cm.len() implies 1 <= (#[trigger] cm[i]).cells@.len()
                        <= max_cage_size && connected(cm[i].cells@) && row_major(cm[i].cells@)
                        && cm[i].sum == 0 && cm[i].lines.is_none() by {
                        if i < old_result.len() {
                            assert(cm[i] == old_result[i]);
                        }
                    }
                    assert forall|x: Cell| cell_in_grid(x) && before(x.row as int, x.col as int, r as int, c as int + 1)
                        implies #[trigger] label_at(l1, x) != 0 by {
                        if x == (Cell { row: r, col: c }) {
                            assert(path[0] == x);
                            assert(path.contains(x));
                        } else {
                            assert(label_at(l0, x) != 0);
                        }
                    }
                    sr = r as int;
                    sc = c as int + 1;
                }
            },
        }
    }
}

/// Partitions the 81 cells into cages of 1 to `max_cage_size` connected cells,
/// each grown from the first free cell in row-major order with random draws.
/// Sums are 0.
pub fn generate_cages(max_cage_size: usize) -> (cages: Vec<Cage>)
    requires
        max_cage_size >= 1,
    ensures
        is_partition(cages@, max_cage_size as int),
        forall|i: int| 0 <= i < cages@.len() ==> (#[trigger] cages@[i]).sum == 0 && cages@[i].lines.is_none(),
        forall|i: int| #![trigger cages@[i]] 0 <= i < cages@.len() ==> grown_by_some_draws(cages@.take(i), cages@[i],
            max_cage_size as int),
{
    let (targets, dirs) = random_draws(max_cage_size);
    let cages = partition_with(max_cage_size, &targets, &dirs);
    proof {
        lemma_drawn_cages(cages@, max_cage_size as int, targets@, dirs@);
    }
    cages
}

proof fn lemma_drawn_cages(cages: Seq<Cage>, k: int, targets: Seq<usize>, dirs: Seq<Vec<usize>>)
    requires
        k >= 1,
        forall|i: int| 0 <= i < cages.len() ==> #[trigger] cage_from_draws(cages.take(i), cages[i],
            (target_at(targets, i) % (k as usize)) as int, dirs_at(dirs, i)),
        k <= usize::MAX,
    ensures
        forall|i: int| #![trigger cages[i]] 0 <= i < cages.len() ==> grown_by_some_draws(cages.take(i), cages[i], k),
{
    assert forall|i: int| #![trigger cages[i]] 0 <= i < cages.len() implies grown_by_some_draws(cages.take(i), cages[i], k) by {
        let t = (target_at(targets, i) % (k as usize)) as int;
        assert(cage_from_draws(cages.take(i), cages[i], t, dirs_at(dirs, i)));
        assert(0 <= t < k);
    }
}

/// Random draws for `partition_with`: a step count draw for each of up to
/// 81 cages, and for each as many direction draws as it can use.
fn random_draws(max_cage_size: usize) -> (res: (Vec<usize>, Vec<Vec<usize>>))
    requires
        max_cage_size >= 1,
{
    let mut targets: Vec<usize> = Vec::new();
    let mut dirs: Vec<Vec<usize>> = Vec::new();
    let mut k: usize = 0;
    while k < 81
        invariant
            k <= 81,
            max_cage_size >= 1,
        decreases 81 - k,
    {
        let t = random_usize();
        let steps: usize = if t % max_cage_size < 81 { t % max_cage_size } else { 81 };
        let mut draws: Vec<usize> = Vec::new();
        let mut j: usize = 0;
        while j < steps
            invariant
                j <= steps,
            decreases steps - j,
        {
            draws.push(random_usize());
            j += 1;
        }
        targets.push(t);
        dirs.push(draws);
        k += 1;
    }
    (targets, dirs)
}

/// Cells without a label are exactly those that no cage holds.
proof fn lemma_label_taken(cages: Seq<Cage>, l: Seq<Seq<usize>>, k: int)
    requires
        cages_match_labels(cages, l, k),
    ensures
        forall|x: Cell| cell_in_grid(x) ==> ((#[trigger] label_at(l, x) == 0) == !taken(cages, x)),
{
    assert forall|x: Cell| cell_in_grid(x) implies ((#[trigger] label_at(l, x) == 0) == !taken(cages, x)) by {
        if label_at(l, x) == 0 {
            if taken(cages, x) {
                let q = choose|q: int| 0 <= q < cages.len() && #[trigger] cages[q].cells@.contains(x);
                assert(label_at(l, x) == q + 1);
            }
        } else {
            let q = label_at(l, x) - 1;
            assert(cages[q].cells@.contains(x));
        }
    }
}

proof fn lemma_partition(cages: Seq<Cage>, l: Seq<Seq<usize>>, k: int)
    requires
        cages_match_labels(cages, l, k),
        forall|x: Cell| cell_in_grid(x) ==> #[trigger] label_at(l, x) != 0,
    ensures
        is_partition(cages, k),
{
    assert forall|r: int, c: int| #![trigger in_grid(r, c)] in_grid(r, c) implies exists|i: int, j: int|
        0 <= i < cages.len() && 0 <= j < cages[i].cells@.len() && #[trigger] cages[i].cells@[j]
            == Cell { row: r as usize, col: c as usize } by {
        let x = Cell { row: r as usize, col: c as usize };
        assert(cell_in_grid(x));
        let i = label_at(l, x) - 1;
        assert(cages[i].cells@.contains(x));
        let j = choose|j: int| 0 <= j < cages[i].cells@.len() && cages[i].cells@[j] == x;
        assert(cages[i].cells@[j] == x);
    }
    assert forall|i1: int, j1: int, i2: int, j2: int|
        0 <= i1 < cages.len() && 0 <= j1 < cages[i1].cells@.len() && 0 <= i2 < cages.len() && 0
            <= j2 < cages[i2].cells@.len() && #[trigger] cages[i1].cells@[j1]
            == #[trigger] cages[i2].cells@[j2] implies i1 == i2 && j1 == j2 by {
        let x = cages[i1].cells@[j1];
        assert(cell_in_grid(x));
        assert(cages[i1].cells@.contains(x));
        assert(cages[i2].cells@.contains(x));
        assert(label_at(l, x) == i1 + 1);
        lemma_row_major_no_duplicates(cages[i1].cells@);
    }
}


/// Absolute difference of two coordinates is one.
fn differ_by_one(a: usize, b: usize) -> (r: bool)
    ensures
        r == (a + 1 == b || b + 1 == a),
{
    (a < b && b - a == 1) || (b < a && a - b == 1)
}

impl Cage {
    /// The two cells share an edge.
    pub fn is_adjacent(&self, cell1: &Cell, cell2: &Cell) -> (r: bool)
        ensures
            r == adjacent(*cell1, *cell2),
    {
        (cell1.row == cell2.row && differ_by_one(cell1.col, cell2.col))
            || (cell1.col == cell2.col && differ_by_one(cell1.row, cell2.row))
    }

    /// The two cells touch at a corner only.
    pub fn is_cross_join(&self, cell: &Cell, other: &Cell) -> (r: bool)
        ensures
            r == diagonal(*cell, *other),
    {
        differ_by_one(cell.row, other.row) && differ_by_one(cell.col, other.col)
    }

    /// The total of the grid values at the cage's cells.
    pub fn compute_sum(&self, grid: &Vec<Vec<u32>>) -> (total: u32)
        requires
            is_grid(grid),
            values_at_most_nine(grid_of(grid)),
            self.cells@.len() <= 81,
            forall|j: int| 0 <= j < self.cells@.len() ==> cell_in_grid(#[trigger] self.cells@[j]),
        ensures
            total == cage_total(self.cells@, grid_of(grid)),
    {
        let mut total: u32 = 0;
        let mut j: usize = 0;
        while j < self.cells.len()
            invariant
                is_grid(grid),
                values_at_most_nine(grid_of(grid)),
                self.cells@.len() <= 81,
                forall|j: int| 0 <= j < self.cells@.len() ==> cell_in_grid(#[trigger] self.cells@[j]),
                j <= self.cells@.len(),
                total == cage_total(self.cells@.take(j as int), grid_of(grid)),
                total <= 9 * j,
            decreases self.cells@.len() - j,
        {
            let cell = self.cells[j];
            assert(self.cells@.take(j as int + 1).drop_last() =~= self.cells@.take(j as int));
            assert(grid_of(grid)[cell.row as int][cell.col as int] <= 9);
            total = total + grid[cell.row][cell.col];
            j += 1;
        }
        assert(self.cells@.take(j as int) =~= self.cells@);
        total
    }
}

/// A cage's sum is a function of its cells and the grid: computing it again
/// gives the same total.
pub proof fn lemma_cage_total_deterministic(cells: Seq<Cell>, g: Seq<Seq<u32>>, first: int, second: int)
    requires
        first == cage_total(cells, g),
        second == cage_total(cells, g),
    ensures
        first == second,
{
}

/// Two row-major lists of the same cells are the same list.
proof fn lemma_row_major_unique(a: Seq<Cell>, b: Seq<Cell>)
    requires
        row_major(a),
        row_major(b),
        a.to_set() == b.to_set(),
    ensures
        a == b,
    decreases a.len(),
{
    lemma_row_major_no_duplicates(a);
    lemma_row_major_no_duplicates(b);
    if a.len() == 0 {
        if b.len() > 0 {
            assert(b.to_set().contains(b[0]));
        }
        assert(a =~= b);
    } else if b.len() == 0 {
        assert(a.to_set().contains(a[0]));
    } else {
        assert(a.to_set().contains(a[0]));
        assert(b.to_set().contains(b[0]));
        let j = choose|j: int| 0 <= j < b.len() && b[j] == a[0];
        let i = choose|i: int| 0 <= i < a.len() && a[i] == b[0];
        if j > 0 {
            assert(before(b[0].row as int, b[0].col as int, b[j].row as int, b[j].col as int));
            if i > 0 {
                assert(before(a[0].row as int, a[0].col as int, a[i].row as int, a[i].col as int));
            }
        }
        assert(a[0] == b[0]);
        let ta = a.drop_first();
        let tb = b.drop_first();
        assert forall|i1: int, j1: int| 0 <= i1 < j1 < ta.len() implies
            before(#[trigger] ta[i1].row as int, ta[i1].col as int, #[trigger] ta[j1].row as int, ta[j1].col as int) by {
            assert(ta[i1] == a[i1 + 1] && ta[j1] == a[j1 + 1]);
        }
        assert forall|i1: int, j1: int| 0 <= i1 < j1 < tb.len() implies
            before(#[trigger] tb[i1].row as int, tb[i1].col as int, #[trigger] tb[j1].row as int, tb[j1].col as int) by {
            assert(tb[i1] == b[i1 + 1] && tb[j1] == b[j1 + 1]);
        }
        assert(ta.to_set() =~= tb.to_set()) by {
            assert forall|x: Cell| ta.to_set().contains(x) implies tb.to_set().contains(x) by {
                let q = choose|q: int| 0 <= q < ta.len() && ta[q] == x;
                assert(a[q + 1] == x);
                assert(a.to_set().contains(x));
                let q2 = choose|q2: int| 0 <= q2 < b.len() && b[q2] == x;
                if q2 == 0 {
                    assert(a[0] == a[q + 1]);
                }
                assert(tb[q2 - 1] == x);
            }
            assert forall|x: Cell| tb.to_set().contains(x) implies ta.to_set().contains(x) by {
                let q = choose|q: int| 0 <= q < tb.len() && tb[q] == x;
                assert(b[q + 1] == x);
                assert(b.to_set().contains(x));
                let q2 = choose|q2: int| 0 <= q2 < a.len() && a[q2] == x;
                if q2 == 0 {
                    assert(b[0] == b[q + 1]);
                }
                assert(ta[q2 - 1] == x);
            }
        }
        lemma_row_major_unique(ta, tb);
        assert(a =~= seq![a[0]] + ta);
        assert(b =~= seq![b[0]] + tb);
    }
}

/// The sum of a cage depends on its set of cells and the grid alone: two
/// cages that list the same cells in row-major order have the same total.
pub proof fn lemma_cage_total_by_cells(a: Seq<Cell>, b: Seq<Cell>, g: Seq<Seq<u32>>)
    requires
        row_major(a),
        row_major(b),
        a.to_set() == b.to_set(),
    ensures
        cage_total(a, g) == cage_total(b, g),
{
    lemma_row_major_unique(a, b);
}

/// Every value of the grid is at most 9.
pub open spec fn values_at_most_nine(g: Seq<Seq<u32>>) -> bool {
    forall|r: int, c: int| in_grid(r, c) ==> #[trigger] g[r][c] <= 9
}

/// The sum of the grid values at `cells`.
pub open spec fn cage_total(cells: Seq<Cell>, g: Seq<Seq<u32>>) -> int
    decreases cells.len(),
{
    if cells.len() == 0 {
        0
    } else {
        cage_total(cells.drop_last(), g) + g[cells.last().row as int][cells.last().col as int]
    }
}

/// A puzzle: a solved grid and its cages, each stamped with its sum.
#[derive(Debug)]
pub struct SumdokuBoard {
    pub solution: Vec<Vec<u32>>,
    pub cages: Vec<Cage>,
}

/// `parts` is the partition that `partition_with` makes from these draws.
pub open spec fn drawn_partition(parts: Seq<Cage>, k: usize, targets: Seq<usize>, dirs: Seq<Vec<usize>>) -> bool {
    &&& is_partition(parts, k as int)
    &&& forall|i: int| 0 <= i < parts.len() ==> #[trigger] cage_from_draws(parts.take(i), parts[i],
        (target_at(targets, i) % k) as int, dirs_at(dirs, i))
}

/// `cages` hold the cells of `parts`, one for one, each with its sum over `g`
/// and no outline yet.
pub open spec fn summed_cages(cages: Seq<Cage>, parts: Seq<Cage>, g: Seq<Seq<u32>>) -> bool {
    &&& cages.len() == parts.len()
    &&& forall|i: int| 0 <= i < cages.len() ==> (#[trigger] cages[i]).cells@ == parts[i].cells@
        && cages[i].sum == cage_total(cages[i].cells@, g) && cages[i].lines.is_none()
}

/// `cages` are the partition drawn from `targets` and `dirs`, summed over `g`.
pub open spec fn cages_from_draws(cages: Seq<Cage>, k: usize, targets: Seq<usize>, dirs: Seq<Vec<usize>>, g: Seq<Seq<u32>>)
    -> bool {
    exists|parts: Seq<Cage>| #[trigger] drawn_partition(parts, k, targets, dirs) && summed_cages(cages, parts, g)
}

impl SumdokuBoard {
    /// The puzzle that the given draws make: the first solved grid in the
    /// candidate orders `orders`, and the partition of `partition_with` for
    /// `targets` and `dirs`, each cage stamped with its sum over that grid.
    pub fn from_draws(
        orders: &Vec<Vec<Vec<u32>>>,
        max_cage_size: usize,
        targets: &Vec<usize>,
        dirs: &Vec<Vec<usize>>,
    ) -> (board: SumdokuBoard)
        requires
            valid_orders(orders@),
            max_cage_size >= 1,
        ensures
            is_grid(&board.solution),
            first_completion(grid_of(&board.solution), empty_grid(), orders@),
            cages_from_draws(board.cages@, max_cage_size, targets@, dirs@, grid_of(&board.solution)),
    {
        let solution = solution_in_order(orders);
        let parts = partition_with(max_cage_size, targets, dirs);
        let ghost pv = parts@;
        proof {
            assert forall|i: int| 0 <= i < pv.len() implies (#[trigger] pv[i]).cells@.len() <= 81 by {
                lemma_cage_len(pv, max_cage_size as int, i);
            }
        }
        let mut board = SumdokuBoard { solution, cages: Vec::new() };
        add_cages(&mut board, parts);
        proof {
            assert(drawn_partition(pv, max_cage_size, targets@, dirs@));
            assert forall|i: int| 0 <= i < board.cages@.len() implies (#[trigger] board.cages@[i]).cells@ == pv[i].cells@
                && board.cages@[i].sum == cage_total(board.cages@[i].cells@, grid_of(&board.solution))
                && board.cages@[i].lines.is_none() by {
                assert(board.cages@.subrange(0, board.cages@.len() as int)[i] == board.cages@[i]);
            }
            assert(summed_cages(board.cages@, pv, grid_of(&board.solution)));
        }
        board
    }

    /// Generates a solved grid and, independently, a partition into cages of
    /// at most `max_cage_size` cells, then stamps each cage with its sum.
    pub fn new(max_cage_size: usize) -> (board: SumdokuBoard)
        requires
            max_cage_size >= 1,
        ensures
            is_grid(&board.solution),
            is_solution(grid_of(&board.solution)),
            is_partition(board.cages@, max_cage_size as int),
            forall|i: int| 0 <= i < board.cages@.len() ==> (#[trigger] board.cages@[i]).sum
                == cage_total(board.cages@[i].cells@, grid_of(&board.solution))
                && board.cages@[i].lines.is_none(),
    {
        let orders = random_orders();
        let (targets, dirs) = random_draws(max_cage_size);
        let board = SumdokuBoard::from_draws(&orders, max_cage_size, &targets, &dirs);
        proof {
            let parts = choose|parts: Seq<Cage>| #[trigger] drawn_partition(parts, max_cage_size, targets@, dirs@)
                && summed_cages(board.cages@, parts, grid_of(&board.solution));
            assert forall|i: int| 0 <= i < parts.len() implies (#[trigger] board.cages@[i]).cells@ == parts[i].cells@ by {}
            lemma_partition_same_cells(parts, board.cages@, max_cage_size as int);
        }
        board
    }
}

/// Appends a cage for each of `parts`, with the same cells and its sum over
/// `board.solution`; the cages already there are kept.
pub fn add_cages(board: &mut SumdokuBoard, parts: Vec<Cage>)
    requires
        is_grid(&old(board).solution),
        values_at_most_nine(grid_of(&old(board).solution)),
        forall|k: int| 0 <= k < parts@.len() ==> (#[trigger] parts@[k]).cells@.len() <= 81,
        forall|k: int, j: int| 0 <= k < parts@.len() && 0 <= j < parts@[k].cells@.len()
            ==> cell_in_grid(#[trigger] parts@[k].cells@[j]),
    ensures
        final(board).solution == old(board).solution,
        final(board).cages@.subrange(0, old(board).cages@.len() as int) == old(board).cages@,
        summed_cages(final(board).cages@.subrange(old(board).cages@.len() as int, final(board).cages@.len() as int),
            parts@, grid_of(&final(board).solution)),
{
    let ghost pv = parts@;
    let ghost n0 = board.cages@.len();
    let mut cages = parts;
    let n: usize = cages.len();
    let mut i: usize = 0;
    while cages.len() > 0
        invariant
            pv.len() == n,
            is_grid(&board.solution),
            values_at_most_nine(grid_of(&board.solution)),
            board.solution == old(board).solution,
            n0 == old(board).cages@.len(),
            i <= pv.len(),
            cages@ == pv.subrange(i as int, pv.len() as int),
            board.cages@.len() == n0 + i,
            board.cages@.subrange(0, n0 as int) == old(board).cages@,
            forall|k: int| 0 <= k < pv.len() ==> (#[trigger] pv[k]).cells@.len() <= 81,
            forall|k: int, j: int| 0 <= k < pv.len() && 0 <= j < pv[k].cells@.len()
                ==> cell_in_grid(#[trigger] pv[k].cells@[j]),
            forall|k: int| 0 <= k < i ==> (#[trigger] board.cages@[n0 + k]).cells@ == pv[k].cells@
                && board.cages@[n0 + k].sum == cage_total(pv[k].cells@, grid_of(&board.solution))
                && board.cages@[n0 + k].lines.is_none(),
        decreases cages@.len(),
    {
        assert(cages@.len() == pv.len() - i);
        let cage = cages.remove(0);
        assert(cage == pv[i as int]);
        proof {
            assert forall|j: int| 0 <= j < cage.cells@.len() implies cell_in_grid(#[trigger] cage.cells@[j]) by {
                assert(pv[i as int].cells@[j] == cage.cells@[j]);
            }
        }
        let total = cage.compute_sum(&board.solution);
        let ghost before_push = board.cages@;
        board.cages.push(Cage { sum: total, cells: cage.cells, lines: None });
        proof {
            assert(board.cages@.subrange(0, n0 as int) =~= before_push.subrange(0, n0 as int));
            assert forall|k: int| 0 <= k < i + 1 implies (#[trigger] board.cages@[n0 + k]).cells@ == pv[k].cells@
                && board.cages@[n0 + k].sum == cage_total(pv[k].cells@, grid_of(&board.solution))
                && board.cages@[n0 + k].lines.is_none() by {
                if k < i {
                    assert(board.cages@[n0 + k] == before_push[n0 + k]);
                }
            }
        }
        i += 1;
        assert(cages@ =~= pv.subrange(i as int, pv.len() as int));
    }
    proof {
        let tail = board.cages@.subrange(n0 as int, board.cages@.len() as int);
        assert forall|k: int| 0 <= k < tail.len() implies (#[trigger] tail[k]).cells@ == pv[k].cells@
            && tail[k].sum == cage_total(tail[k].cells@, grid_of(&board.solution)) && tail[k].lines.is_none() by {
            assert(tail[k] == board.cages@[n0 + k]);
        }
    }
}

/// A cage of a partition has at most 81 cells.
proof fn lemma_cage_len(cages: Seq<Cage>, k: int, i: int)
    requires
        is_partition(cages, k),
        0 <= i < cages.len(),
    ensures
        cages[i].cells@.len() <= 81,
{
    let cells = cages[i].cells@;
    assert forall|j: int| 0 <= j < cells.len() implies cell_in_grid(#[trigger] cells[j]) by {
        assert(cages[i].cells@[j] == cells[j]);
    }
    if cells.len() > 0 {
        lemma_row_major_key(cells, cells.len() - 1);
    }
}

/// In a row-major sequence of grid cells, the cell at `i` has row-major
/// index at least `i`.
proof fn lemma_row_major_key(cells: Seq<Cell>, i: int)
    requires
        row_major(cells),
        forall|j: int| 0 <= j < cells.len() ==> cell_in_grid(#[trigger] cells[j]),
        0 <= i < cells.len(),
    ensures
        9 * cells[i].row + cells[i].col >= i,
    decreases i,
{
    if i > 0 {
        lemma_row_major_key(cells, i - 1);
        assert(before(cells[i - 1].row as int, cells[i - 1].col as int, cells[i].row as int, cells[i].col as int));
        assert(cell_in_grid(cells[i - 1]));
        assert(cell_in_grid(cells[i]));
    }
}

/// Whether cages form a partition depends on their cells alone.
proof fn lemma_partition_same_cells(a: Seq<Cage>, b: Seq<Cage>, k: int)
    requires
        is_partition(a, k),
        a.len() == b.len(),
        forall|i: int| 0 <= i < a.len() ==> (#[trigger] b[i]).cells@ == a[i].cells@,
    ensures
        is_partition(b, k),
{
    assert forall|i: int, j: int| 0 <= i < b.len() && 0 <= j < b[i].cells@.len()
        implies cell_in_grid(#[trigger] b[i].cells@[j]) by {
        assert(a[i].cells@[j] == b[i].cells@[j]);
    }
    assert forall|r: int, c: int| #![trigger in_grid(r, c)] in_grid(r, c) implies exists|i: int, j: int|
        0 <= i < b.len() && 0 <= j < b[i].cells@.len() && #[trigger] b[i].cells@[j]
            == Cell { row: r as usize, col: c as usize } by {
        let (i, j) = choose|i: int, j: int| 0 <= i < a.len() && 0 <= j < a[i].cells@.len() && #[trigger] a[i].cells@[j]
            == Cell { row: r as usize, col: c as usize };
        assert(b[i].cells@[j] == a[i].cells@[j]);
    }
    assert forall|i1: int, j1: int, i2: int, j2: int|
        0 <= i1 < b.len() && 0 <= j1 < b[i1].cells@.len() && 0 <= i2 < b.len() && 0
            <= j2 < b[i2].cells@.len() && #[trigger] b[i1].cells@[j1]
            == #[trigger] b[i2].cells@[j2] implies i1 == i2 && j1 == j2 by {
        assert(a[i1].cells@[j1] == b[i1].cells@[j1]);
        assert(a[i2].cells@[j2] == b[i2].cells@[j2]);
    }
    assert forall|i: int| 0 <= i < b.len() implies 1 <= (#[trigger] b[i]).cells@.len() <= k
        && connected(b[i].cells@) && row_major(b[i].cells@) by {
        assert(a[i].cells@ == b[i].cells@);
    }
}


/// Row `r` holds `v`.
pub open spec fn row_has(g: Seq<Seq<u32>>, r: int, v: u32) -> bool {
    exists|c: int| 0 <= c < 9 && #[trigger] g[r][c] == v
}

/// Column `c` holds `v`.
pub open spec fn col_has(g: Seq<Seq<u32>>, c: int, v: u32) -> bool {
    exists|r: int| 0 <= r < 9 && #[trigger] g[r][c] == v
}

/// The 3x3 block in block row `br` and block column `bc` holds `v`.
pub open spec fn block_has(g: Seq<Seq<u32>>, br: int, bc: int, v: u32) -> bool {
    exists|i: int, j: int| 0 <= i < 3 && 0 <= j < 3 && #[trigger] g[3 * br + i][3 * bc + j] == v
}

/// Nine distinct values in 1..=9 take every value of 1..=9.
proof fn lemma_nine_distinct(s: Seq<int>)
    requires
        s.len() == 9,
        s.no_duplicates(),
        forall|k: int| 0 <= k < 9 ==> 1 <= #[trigger] s[k] <= 9,
    ensures
        forall|v: int| 1 <= v <= 9 ==> #[trigger] s.contains(v),
{
    s.unique_seq_to_set();
    vstd::set_lib::lemma_int_range(1, 10);
    let digits = vstd::set_lib::set_int_range(1, 10);
    assert(s.to_set().subset_of(digits));
    vstd::set_lib::lemma_subset_equality(s.to_set(), digits);
    assert forall|v: int| 1 <= v <= 9 implies #[trigger] s.contains(v) by {
        assert(digits.contains(v));
        assert(s.to_set().contains(v));
    }
}

/// In a solved grid every row, every column and every 3x3 block holds each
/// of 1..=9 exactly once.
pub proof fn lemma_solution_has_each_digit_once(g: Seq<Seq<u32>>)
    requires
        is_solution(g),
    ensures
        forall|r: int, v: u32| 0 <= r < 9 && 1 <= v <= 9 ==> #[trigger] row_has(g, r, v),
        forall|c: int, v: u32| 0 <= c < 9 && 1 <= v <= 9 ==> #[trigger] col_has(g, c, v),
        forall|br: int, bc: int, v: u32| 0 <= br < 3 && 0 <= bc < 3 && 1 <= v <= 9 ==> #[trigger] block_has(g, br, bc, v),
        forall|r: int, c1: int, c2: int| 0 <= r < 9 && 0 <= c1 < 9 && 0 <= c2 < 9 && #[trigger] g[r][c1]
            == #[trigger] g[r][c2] ==> c1 == c2,
        forall|c: int, r1: int, r2: int| 0 <= c < 9 && 0 <= r1 < 9 && 0 <= r2 < 9 && #[trigger] g[r1][c]
            == #[trigger] g[r2][c] ==> r1 == r2,
        forall|br: int, bc: int, i1: int, j1: int, i2: int, j2: int|
            0 <= br < 3 && 0 <= bc < 3 && 0 <= i1 < 3 && 0 <= j1 < 3 && 0 <= i2 < 3 && 0 <= j2 < 3
                && #[trigger] g[3 * br + i1][3 * bc + j1] == #[trigger] g[3 * br + i2][3 * bc + j2]
                ==> i1 == i2 && j1 == j2,
{
    assert forall|r: int, v: u32| 0 <= r < 9 && 1 <= v <= 9 implies #[trigger] row_has(g, r, v) by {
        let s = Seq::new(9, |c: int| g[r][c] as int);
        assert forall|k: int| 0 <= k < 9 implies 1 <= #[trigger] s[k] <= 9 by {
            assert(g[r][k] != 0 && g[r][k] <= 9);
        }
        assert(s.no_duplicates()) by {
            assert forall|a: int, b: int| 0 <= a < 9 && 0 <= b < 9 && a != b implies s[a] != s[b] by {
                assert(same_unit(r, a, r, b));
                assert(g[r][a] != 0);
            }
        }
        lemma_nine_distinct(s);
        assert(s.contains(v as int));
        let c = choose|c: int| 0 <= c < 9 && s[c] == v as int;
        assert(g[r][c] == v);
    }
    assert forall|c: int, v: u32| 0 <= c < 9 && 1 <= v <= 9 implies #[trigger] col_has(g, c, v) by {
        let s = Seq::new(9, |r: int| g[r][c] as int);
        assert forall|k: int| 0 <= k < 9 implies 1 <= #[trigger] s[k] <= 9 by {
            assert(g[k][c] != 0 && g[k][c] <= 9);
        }
        assert(s.no_duplicates()) by {
            assert forall|a: int, b: int| 0 <= a < 9 && 0 <= b < 9 && a != b implies s[a] != s[b] by {
                assert(same_unit(a, c, b, c));
                assert(g[a][c] != 0);
            }
        }
        lemma_nine_distinct(s);
        assert(s.contains(v as int));
        let r = choose|r: int| 0 <= r < 9 && s[r] == v as int;
        assert(g[r][c] == v);
    }
    assert forall|br: int, bc: int, v: u32| 0 <= br < 3 && 0 <= bc < 3 && 1 <= v <= 9 implies #[trigger] block_has(g, br, bc, v) by {
        let s = Seq::new(9, |k: int| g[3 * br + k / 3][3 * bc + k % 3] as int);
        assert forall|k: int| 0 <= k < 9 implies 1 <= #[trigger] s[k] <= 9 by {
            assert(in_grid(3 * br + k / 3, 3 * bc + k % 3));
            assert(g[3 * br + k / 3][3 * bc + k % 3] != 0);
        }
        assert(s.no_duplicates()) by {
            assert forall|a: int, b: int| 0 <= a < 9 && 0 <= b < 9 && a != b implies s[a] != s[b] by {
                let (r1, c1, r2, c2) = (3 * br + a / 3, 3 * bc + a % 3, 3 * br + b / 3, 3 * bc + b % 3);
                assert(in_grid(r1, c1) && in_grid(r2, c2));
                assert(block_start(r1) == block_start(r2) && block_start(c1) == block_start(c2));
                assert(same_unit(r1, c1, r2, c2));
                assert(g[r1][c1] != 0);
            }
        }
        lemma_nine_distinct(s);
        assert(s.contains(v as int));
        let k = choose|k: int| 0 <= k < 9 && s[k] == v as int;
        assert(g[3 * br + k / 3][3 * bc + k % 3] == v);
        assert(0 <= k / 3 < 3 && 0 <= k % 3 < 3);
    }
    assert forall|r: int, c1: int, c2: int| 0 <= r < 9 && 0 <= c1 < 9 && 0 <= c2 < 9 && #[trigger] g[r][c1]
        == #[trigger] g[r][c2] implies c1 == c2 by {
        if c1 != c2 {
            assert(same_unit(r, c1, r, c2));
            assert(g[r][c1] != 0);
        }
    }
    assert forall|c: int, r1: int, r2: int| 0 <= c < 9 && 0 <= r1 < 9 && 0 <= r2 < 9 && #[trigger] g[r1][c]
        == #[trigger] g[r2][c] implies r1 == r2 by {
        if r1 != r2 {
            assert(same_unit(r1, c, r2, c));
            assert(g[r1][c] != 0);
        }
    }
    assert forall|br: int, bc: int, i1: int, j1: int, i2: int, j2: int|
        0 <= br < 3 && 0 <= bc < 3 && 0 <= i1 < 3 && 0 <= j1 < 3 && 0 <= i2 < 3 && 0 <= j2 < 3
            && #[trigger] g[3 * br + i1][3 * bc + j1] == #[trigger] g[3 * br + i2][3 * bc + j2]
            implies i1 == i2 && j1 == j2 by {
        let (r1, c1, r2, c2) = (3 * br + i1, 3 * bc + j1, 3 * br + i2, 3 * bc + j2);
        if r1 != r2 || c1 != c2 {
            assert(block_start(r1) == block_start(r2) && block_start(c1) == block_start(c2));
            assert(same_unit(r1, c1, r2, c2));
            assert(in_grid(r1, c1));
            assert(g[r1][c1] != 0);
        }
    }
}

} // verus!
