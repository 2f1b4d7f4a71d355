use sumdoku::game::{Game, GameCell};

#[test]
fn game_cell_notes() {
    let mut c = GameCell::new();
    assert_eq!((c.notes, c.value), (0, 0));
    c.toggle_note(3);
    assert_eq!(c.notes, 8);
    c.toggle_note(5);
    assert_eq!(c.notes, 40);
    c.toggle_note(3);
    assert_eq!(c.notes, 32);
    c.zero_notes();
    assert_eq!(c.notes, 0);
}

#[test]
fn game_set_clear_and_undo() {
    let mut g = Game::new();
    assert_eq!(g.mistakes, 0);
    let right = g.board.solution[0][0];
    g.cells[0][5].toggle_note(right as u8);
    g.cells[4][4].toggle_note(right as u8);
    assert!(g.set_value(0, 0, right));
    assert_eq!(g.cells[0][0].value, right);
    assert_eq!(g.cells[0][5].notes, 0);
    assert_eq!(g.cells[4][4].notes, 1 << right);
    let wrong = if right == 9 { 1 } else { right + 1 };
    assert!(!g.set_value(0, 0, wrong));
    assert_eq!(g.cells[0][0].value, wrong);
    assert!(!g.set_value(0, 0, wrong));
    assert_eq!(g.cells[0][0].value, 0);
    g.pop_state();
    assert_eq!(g.cells[0][0].value, wrong);
    g.clear_cell(0, 0);
    assert_eq!(g.cells[0][0].value, 0);
    g.pop_state();
    g.pop_state();
    assert_eq!(g.cells[0][0].value, right);
    g.pop_state();
    assert_eq!(g.cells[0][0].value, 0);
    assert_eq!(g.cells[0][5].notes, 1 << right);
    g.pop_state();
    assert!(!g.can_undo());
}

#[test]
fn notes_cleared_in_the_block_of_the_cell() {
    let mut g = Game::new();
    let v = g.board.solution[4][4];
    g.cells[3][5].toggle_note(v as u8);
    g.cells[1][1].toggle_note(v as u8);
    g.set_value(4, 4, v);
    assert_eq!(g.cells[3][5].notes, 0);
    assert_eq!(g.cells[1][1].notes, 1 << v);
}
