use sumdoku::board::{add_cages, generate_cages, generate_solution, partition_with, solution_in_order, Cage, Cell, SumdokuBoard};

fn assert_solved(g: &Vec<Vec<u32>>) {
    assert_eq!(g.len(), 9);
    for r in 0..9 {
        assert_eq!(g[r].len(), 9);
        let mut seen = [false; 10];
        for c in 0..9 {
            let v = g[r][c] as usize;
            assert!(v >= 1 && v <= 9);
            assert!(!seen[v]);
            seen[v] = true;
        }
    }
    for c in 0..9 {
        let mut seen = [false; 10];
        for r in 0..9 {
            let v = g[r][c] as usize;
            assert!(!seen[v]);
            seen[v] = true;
        }
    }
    for b in 0..9 {
        let mut seen = [false; 10];
        for k in 0..9 {
            let v = g[3 * (b / 3) + k / 3][3 * (b % 3) + k % 3] as usize;
            assert!(!seen[v]);
            seen[v] = true;
        }
    }
}

fn connected(cells: &Vec<Cell>) -> bool {
    let mut reached = vec![false; cells.len()];
    reached[0] = true;
    let mut changed = true;
    while changed {
        changed = false;
        for i in 0..cells.len() {
            if reached[i] {
                continue;
            }
            for j in 0..cells.len() {
                if reached[j] {
                    let dr = (cells[i].row as i64 - cells[j].row as i64).abs();
                    let dc = (cells[i].col as i64 - cells[j].col as i64).abs();
                    if dr + dc == 1 {
                        reached[i] = true;
                        changed = true;
                        break;
                    }
                }
            }
        }
    }
    reached.iter().all(|r| *r)
}

fn assert_partition(cages: &Vec<Cage>, k: usize) {
    let mut seen = vec![vec![false; 9]; 9];
    let mut total = 0;
    for cage in cages {
        assert!(cage.cells.len() >= 1 && cage.cells.len() <= k);
        assert!(connected(&cage.cells));
        for w in cage.cells.windows(2) {
            assert!((w[0].row, w[0].col) < (w[1].row, w[1].col));
        }
        for cell in &cage.cells {
            assert!(cell.row < 9 && cell.col < 9);
            assert!(!seen[cell.row][cell.col]);
            seen[cell.row][cell.col] = true;
            total += 1;
        }
    }
    assert_eq!(total, 81);
}

/// A solved grid whose first row starts 4, 9, 2.
fn sample_grid() -> Vec<Vec<u32>> {
    let first = [4u32, 9, 2, 3, 5, 7, 8, 1, 6];
    let shifts = [0usize, 3, 6, 1, 4, 7, 2, 5, 8];
    (0..9).map(|r| (0..9).map(|c| first[(c + shifts[r]) % 9]).collect()).collect()
}

#[test]
fn generated_grid_is_solved() {
    for _ in 0..5 {
        assert_solved(&generate_solution());
    }
}

#[test]
fn sample_grid_is_solved() {
    assert_solved(&sample_grid());
}

#[test]
fn partition_with_six() {
    for _ in 0..20 {
        assert_partition(&generate_cages(6), 6);
    }
}

#[test]
fn partition_with_one_gives_singletons() {
    let cages = generate_cages(1);
    assert_eq!(cages.len(), 81);
    assert_partition(&cages, 1);
}

#[test]
fn partition_with_whole_grid_size() {
    for _ in 0..10 {
        assert_partition(&generate_cages(81), 81);
    }
}

#[test]
fn partition_cages_start_unsummed() {
    for cage in generate_cages(4) {
        assert_eq!(cage.sum, 0);
        assert!(cage.lines.is_none());
    }
}

#[test]
fn board_sums_match_solution() {
    let board = SumdokuBoard::new(6);
    assert_solved(&board.solution);
    assert_partition(&board.cages, 6);
    let mut all = 0;
    for cage in &board.cages {
        let expected: u32 = cage.cells.iter().map(|c| board.solution[c.row][c.col]).sum();
        assert_eq!(cage.sum, expected);
        assert!(cage.lines.is_none());
        all += cage.sum;
    }
    assert_eq!(all, 405);
}

#[test]
fn strip_cage_sum_is_fifteen() {
    let grid = sample_grid();
    let cage = Cage { sum: 0, cells: vec![Cell::new(0, 0), Cell::new(0, 1), Cell::new(0, 2)], lines: None };
    assert_eq!(cage.compute_sum(&grid), 15);
    assert_eq!(cage.compute_sum(&grid), 15);
}

#[test]
fn sum_of_whole_grid() {
    let grid = sample_grid();
    let mut cells = Vec::new();
    for r in 0..9 {
        for c in 0..9 {
            cells.push(Cell::new(r, c));
        }
    }
    let cage = Cage { sum: 0, cells, lines: None };
    assert_eq!(cage.compute_sum(&grid), 405);
}

#[test]
fn sum_of_empty_cage() {
    let cage = Cage { sum: 0, cells: vec![], lines: None };
    assert_eq!(cage.compute_sum(&sample_grid()), 0);
}

#[test]
fn adjacency_and_cross_join() {
    let cage = Cage { sum: 0, cells: vec![], lines: None };
    let a = Cell::new(4, 4);
    assert!(cage.is_adjacent(&a, &Cell::new(3, 4)));
    assert!(cage.is_adjacent(&a, &Cell::new(4, 5)));
    assert!(!cage.is_adjacent(&a, &Cell::new(5, 5)));
    assert!(!cage.is_adjacent(&a, &a));
    assert!(!cage.is_adjacent(&a, &Cell::new(4, 6)));
    assert!(cage.is_cross_join(&a, &Cell::new(5, 5)));
    assert!(cage.is_cross_join(&a, &Cell::new(3, 3)));
    assert!(!cage.is_cross_join(&a, &Cell::new(3, 4)));
    assert!(!cage.is_cross_join(&Cell::new(0, 0), &Cell::new(2, 2)));
}

#[test]
fn solutions_vary_between_calls() {
    let first = generate_solution();
    let mut differs = false;
    for _ in 0..5 {
        if generate_solution() != first {
            differs = true;
        }
    }
    assert!(differs);
}

fn identity_orders() -> Vec<Vec<Vec<u32>>> {
    vec![vec![(1..=9).collect(); 9]; 9]
}

#[test]
fn first_solution_in_ascending_order() {
    let g = solution_in_order(&identity_orders());
    let expected: Vec<Vec<u32>> = vec![
        vec![1, 2, 3, 4, 5, 6, 7, 8, 9],
        vec![4, 5, 6, 7, 8, 9, 1, 2, 3],
        vec![7, 8, 9, 1, 2, 3, 4, 5, 6],
        vec![2, 1, 4, 3, 6, 5, 8, 9, 7],
        vec![3, 6, 5, 8, 9, 7, 2, 1, 4],
        vec![8, 9, 7, 2, 1, 4, 3, 6, 5],
        vec![5, 3, 1, 6, 4, 2, 9, 7, 8],
        vec![6, 4, 2, 9, 7, 8, 5, 3, 1],
        vec![9, 7, 8, 5, 3, 1, 6, 4, 2],
    ];
    assert_eq!(g, expected);
}

#[test]
fn first_solution_in_descending_order() {
    let orders = vec![vec![(1..=9).rev().collect(); 9]; 9];
    let g = solution_in_order(&orders);
    assert_solved(&g);
    assert_eq!(g[0], vec![9, 8, 7, 6, 5, 4, 3, 2, 1]);
    // the same orders give the same grid
    assert_eq!(solution_in_order(&orders), g);
}

#[test]
fn partition_of_singletons_is_row_major() {
    let cages = partition_with(1, &vec![], &vec![]);
    assert_eq!(cages.len(), 81);
    for (i, cage) in cages.iter().enumerate() {
        assert_eq!(cage.cells.len(), 1);
        assert_eq!((cage.cells[0].row, cage.cells[0].col), (i / 9, i % 9));
    }
}

#[test]
fn partition_follows_the_draws() {
    // cage 0: three steps from (0,0): right, down, then left
    let targets = vec![3];
    let dirs = vec![vec![3, 1, 2]];
    let cages = partition_with(4, &targets, &dirs);
    let first: Vec<(usize, usize)> = cages[0].cells.iter().map(|c| (c.row, c.col)).collect();
    assert_eq!(first, vec![(0, 0), (0, 1), (1, 0), (1, 1)]);
    // every later cage gets no draws: 0 steps, a single cell
    assert_eq!(cages.len(), 78);
    assert_eq!((cages[1].cells[0].row, cages[1].cells[0].col), (0, 2));
    assert_eq!(cages[1].cells.len(), 1);
    assert_partition(&cages, 4);
}

#[test]
fn blocked_direction_falls_back_in_fixed_order() {
    // from (0,0) "up" is off the grid: the first free neighbour going
    // up, down, left, right is below
    let cages = partition_with(2, &vec![1], &vec![vec![0]]);
    let first: Vec<(usize, usize)> = cages[0].cells.iter().map(|c| (c.row, c.col)).collect();
    assert_eq!(first, vec![(0, 0), (1, 0)]);
    // the step count is taken modulo the largest cage size
    let cages = partition_with(2, &vec![7], &vec![vec![3]]);
    let first: Vec<(usize, usize)> = cages[0].cells.iter().map(|c| (c.row, c.col)).collect();
    assert_eq!(first, vec![(0, 0), (0, 1)]);
}

#[test]
fn board_from_draws_is_fixed_by_them() {
    let orders = identity_orders();
    let b1 = SumdokuBoard::from_draws(&orders, 3, &vec![2, 2, 2], &vec![vec![3, 3], vec![1, 1]]);
    let b2 = SumdokuBoard::from_draws(&orders, 3, &vec![2, 2, 2], &vec![vec![3, 3], vec![1, 1]]);
    assert_eq!(b1.solution, b2.solution);
    assert_eq!(b1.cages.len(), b2.cages.len());
    let first: Vec<(usize, usize)> = b1.cages[0].cells.iter().map(|c| (c.row, c.col)).collect();
    assert_eq!(first, vec![(0, 0), (0, 1), (0, 2)]);
    assert_eq!(b1.cages[0].sum, 6);
    let second: Vec<(usize, usize)> = b1.cages[1].cells.iter().map(|c| (c.row, c.col)).collect();
    assert_eq!(second, vec![(0, 3), (1, 3), (2, 3)]);
    assert_eq!(b1.cages[1].sum, 4 + 7 + 1);
    assert_partition(&b1.cages, 3);
}

#[test]
fn add_cages_keeps_existing_and_sums_new() {
    let grid = sample_grid();
    let kept = Cage { sum: 99, cells: vec![Cell::new(8, 8)], lines: None };
    let mut board = SumdokuBoard { solution: grid, cages: vec![kept] };
    let strip = Cage { sum: 0, cells: vec![Cell::new(0, 0), Cell::new(0, 1), Cell::new(0, 2)], lines: None };
    add_cages(&mut board, vec![strip]);
    assert_eq!(board.cages.len(), 2);
    assert_eq!(board.cages[0].sum, 99);
    assert_eq!(board.cages[1].sum, 15);
    assert!(board.cages[1].lines.is_none());
}
