use std::collections::HashSet;
use sudoku::Table;

fn digits(list: &[u8]) -> HashSet<u8> {
    list.iter().copied().collect()
}

fn solved_four() -> Table {
    Table {
        grid: vec![1, 2, 3, 4, 3, 4, 1, 2, 2, 1, 4, 3, 4, 3, 2, 1],
        quadrant_side: 2,
        side: 4,
    }
}

#[test]
fn every_digit_is_valid_on_an_empty_grid() {
    let table = Table::new(3);
    for i in 0..81 {
        assert_eq!(table.valid(i), digits(&[1, 2, 3, 4, 5, 6, 7, 8, 9]));
    }
    let table = Table::new(1);
    assert_eq!(table.valid(0), digits(&[1]));
}

#[test]
fn digits_of_peers_are_not_valid() {
    let mut table = Table::new(2);
    // Column 0 holds a 1 below, row 0 holds a 2 to the right, the quadrant holds a 3.
    table.grid[8] = 1;
    table.grid[3] = 2;
    table.grid[5] = 3;
    assert_eq!(table.valid(0), digits(&[4]));
    // A digit outside column, row and quadrant does not count.
    table.grid[5] = 0;
    table.grid[10] = 3;
    assert_eq!(table.valid(0), digits(&[3, 4]));
}

#[test]
fn own_digit_does_not_rule_itself_out() {
    let mut table = Table::new(2);
    table.grid[0] = 3;
    assert_eq!(table.valid(0), digits(&[1, 2, 3, 4]));
    assert_eq!(table.valid(1), digits(&[1, 2, 4]));
    assert_eq!(table.valid(4), digits(&[1, 2, 4]));
    assert_eq!(table.valid(5), digits(&[1, 2, 4]));
    assert_eq!(table.valid(10), digits(&[1, 2, 3, 4]));
}

#[test]
fn no_digit_may_be_valid() {
    let mut table = Table::new(2);
    table.grid[1] = 1;
    table.grid[2] = 2;
    table.grid[4] = 3;
    table.grid[8] = 4;
    assert_eq!(table.valid(0), digits(&[]));
}

#[test]
fn valid_does_not_change_the_grid() {
    let table = solved_four();
    let before = table.grid.clone();
    for i in 0..16 {
        let _ = table.valid(i);
    }
    assert_eq!(table.grid, before);
}

#[test]
fn a_solved_cell_has_no_candidate_but_its_own_digit() {
    let table = solved_four();
    for i in 0..16 {
        assert_eq!(table.valid(i), digits(&[table.grid[i]]));
    }
    let mut table = Table::new(3);
    assert!(table.fill(0));
    for i in 0..81 {
        let mut possibles = table.valid(i);
        assert!(possibles.remove(&table.grid[i]));
        assert!(possibles.is_empty());
    }
}
