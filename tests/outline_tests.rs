use sumdoku::board::{generate_cages, Cage, Cell};

fn cage_of(cells: &[(usize, usize)]) -> Cage {
    Cage { sum: 0, cells: cells.iter().map(|&(r, c)| Cell::new(r, c)).collect(), lines: None }
}

#[test]
fn strip_outline_is_perimeter_only() {
    let cage = cage_of(&[(0, 0), (0, 1), (0, 2)]);
    let lines = cage.outline(80, 5);
    let expected = vec![
        ((5, 5), (80, 5)),
        ((5, 75), (80, 75)),
        ((5, 5), (5, 75)),
        ((80, 5), (160, 5)),
        ((80, 75), (160, 75)),
        ((160, 5), (235, 5)),
        ((160, 75), (235, 75)),
        ((235, 5), (235, 75)),
    ];
    assert_eq!(lines, expected);
}

#[test]
fn single_cell_outline_has_four_default_sides() {
    let cage = cage_of(&[(2, 3)]);
    let lines = cage.outline(80, 5);
    assert_eq!(
        lines,
        vec![
            ((245, 165), (315, 165)),
            ((245, 235), (315, 235)),
            ((245, 165), (245, 235)),
            ((315, 165), (315, 235)),
        ]
    );
}

#[test]
fn singleton_partition_emits_all_sides() {
    let cages = generate_cages(1);
    for cage in &cages {
        let cell = cage.cells[0];
        let x = cell.col as i32 * 80;
        let y = cell.row as i32 * 80;
        let lines = cage.outline(80, 5);
        assert_eq!(
            lines,
            vec![
                ((x + 5, y + 5), (x + 75, y + 5)),
                ((x + 5, y + 75), (x + 75, y + 75)),
                ((x + 5, y + 5), (x + 5, y + 75)),
                ((x + 75, y + 5), (x + 75, y + 75)),
            ]
        );
    }
}

#[test]
fn whole_grid_outline_lies_on_the_perimeter() {
    let mut cells = Vec::new();
    for r in 0..9 {
        for c in 0..9 {
            cells.push((r, c));
        }
    }
    let cage = cage_of(&cells);
    let lines = cage.outline(80, 5);
    // one segment per border side of a border cell, none inside
    assert_eq!(lines.len(), 36);
    for ((x1, y1), (x2, y2)) in &lines {
        let horizontal = y1 == y2 && (*y1 == 5 || *y1 == 715);
        let vertical = x1 == x2 && (*x1 == 5 || *x1 == 715);
        assert!(horizontal || vertical);
        for v in [x1, y1, x2, y2] {
            assert!(*v >= 0 && *v <= 720);
        }
    }
    assert!(lines.contains(&((5, 5), (80, 5))));
    assert!(lines.contains(&((640, 715), (715, 715))));
}

#[test]
fn diagonal_touch_notches_the_corner() {
    let cage = cage_of(&[(0, 0), (0, 1), (1, 1)]);
    let lines = cage.outline(80, 5);
    assert_eq!(
        lines,
        vec![
            ((5, 5), (80, 5)),
            ((5, 75), (85, 75)),
            ((5, 5), (5, 75)),
            ((80, 5), (155, 5)),
            ((155, 5), (155, 80)),
            ((85, 155), (155, 155)),
            ((85, 75), (85, 155)),
            ((155, 80), (155, 155)),
        ]
    );
}

#[test]
fn outline_is_idempotent() {
    for cage in generate_cages(6) {
        assert_eq!(cage.outline(80, 5), cage.outline(80, 5));
    }
}

#[test]
fn cached_outline_is_filled_once() {
    let mut cage = cage_of(&[(0, 0), (0, 1), (0, 2)]);
    assert!(cage.lines.is_none());
    cage.ensure_lines(80, 5);
    let first = cage.lines.clone().unwrap();
    assert_eq!(first, cage.outline(80, 5));
    cage.ensure_lines(40, 2);
    assert_eq!(cage.lines.clone().unwrap(), first);
}
