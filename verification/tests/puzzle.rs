use std::collections::HashSet;
use sudoku::Table;

fn solved_four() -> Table {
    Table {
        grid: vec![1, 2, 3, 4, 3, 4, 1, 2, 2, 1, 4, 3, 4, 3, 2, 1],
        quadrant_side: 2,
        side: 4,
    }
}

fn shifted_nine() -> Table {
    let mut grid = Vec::new();
    for y in 0..9 {
        for x in 0..9 {
            grid.push(((3 * (y % 3) + y / 3 + x) % 9 + 1) as u8);
        }
    }
    Table { grid, quadrant_side: 3, side: 9 }
}

fn blanks(table: &Table) -> HashSet<usize> {
    (0..table.grid.len()).filter(|i| table.grid[*i] == 0).collect()
}

#[test]
fn random_cell_is_a_cell() {
    let table = Table::new(1);
    for _ in 0..20 {
        assert_eq!(table.random_cell(), 0);
    }
    let table = Table::new(2);
    for _ in 0..200 {
        assert!(table.random_cell() < 16);
    }
}

#[test]
fn random_cell_reaches_every_cell() {
    let table = Table::new(2);
    let mut seen = HashSet::new();
    for _ in 0..2000 {
        seen.insert(table.random_cell());
    }
    assert_eq!(seen.len(), 16);
}

#[test]
fn unsolve_from_the_first_cell() {
    let mut table = solved_four();
    table.unsolve_from(0);
    assert_eq!(table.grid, vec![0, 0, 0, 0, 0, 0, 1, 2, 0, 1, 0, 3, 0, 3, 2, 0]);
}

#[test]
fn unsolve_from_a_cell_in_the_middle() {
    let mut table = solved_four();
    table.unsolve_from(5);
    assert_eq!(table.grid, vec![0, 2, 0, 4, 3, 0, 0, 0, 0, 0, 0, 0, 0, 0, 2, 1]);
}

#[test]
fn unsolve_from_the_last_cell() {
    let mut table = solved_four();
    table.unsolve_from(15);
    assert_eq!(table.grid, vec![0, 0, 0, 0, 0, 0, 1, 2, 0, 1, 0, 3, 0, 3, 2, 0]);
}

#[test]
fn unsolve_from_on_a_standard_grid() {
    let mut table = shifted_nine();
    table.unsolve_from(0);
    let expected: Vec<u8> = vec![
        0, 0, 0, 0, 0, 0, 0, 0, 0, 0, 0, 0, 0, 0, 0, 1, 2, 3, 0, 0, 0, 1, 2, 3, 4, 5, 6, 0, 0, 0,
        0, 0, 0, 0, 0, 0, 0, 0, 0, 0, 0, 0, 2, 3, 4, 0, 0, 1, 2, 3, 4, 5, 6, 7, 0, 0, 0, 0, 0, 0,
        0, 0, 0, 0, 0, 0, 0, 0, 0, 3, 4, 5, 0, 1, 2, 3, 4, 5, 6, 7, 8,
    ];
    assert_eq!(table.grid, expected);
    let mut table = shifted_nine();
    table.unsolve_from(40);
    let expected: Vec<u8> = vec![
        0, 0, 0, 0, 0, 0, 0, 0, 0, 0, 0, 6, 0, 0, 9, 1, 2, 0, 0, 8, 0, 1, 2, 0, 4, 0, 6, 0, 0, 0,
        0, 0, 7, 8, 9, 1, 5, 6, 7, 8, 0, 0, 0, 0, 0, 0, 0, 0, 0, 0, 0, 0, 0, 0, 0, 0, 0, 0, 0, 0,
        0, 0, 0, 0, 0, 0, 0, 0, 0, 3, 4, 5, 0, 0, 0, 3, 4, 5, 6, 7, 8,
    ];
    assert_eq!(table.grid, expected);
}

#[test]
fn unsolve_of_the_smallest_grid_empties_its_cell() {
    let mut table = Table::new(1);
    assert!(table.fill(0));
    table.unsolve();
    assert_eq!(table.grid, vec![0]);
    let asked = blanks(&table);
    assert!(table.obvious(&asked));
    let mut left = asked.clone();
    assert!(table.obvious_step(&mut left));
    assert_eq!(table.grid, vec![1]);
}

#[test]
fn unsolve_keeps_givens_and_leaves_deducible_holes() {
    for q in 1..=3usize {
        let mut table = Table::new(q);
        assert!(table.fill(0));
        let solution = table.grid.clone();
        table.unsolve();
        for i in 0..solution.len() {
            assert!(table.grid[i] == 0 || table.grid[i] == solution[i]);
        }
        let asked = blanks(&table);
        assert!(!asked.is_empty());
        let puzzle = table.grid.clone();
        assert!(table.obvious(&asked));
        assert_eq!(table.grid, puzzle);
    }
}

#[test]
fn holes_are_deducible_over_the_solved_grid_too() {
    let mut table = Table::new(3);
    assert!(table.fill(0));
    let solution = table.grid.clone();
    table.unsolve();
    let asked = blanks(&table);
    let puzzle = table.grid.clone();
    let mut again = Table { grid: solution, quadrant_side: 3, side: 9 };
    assert!(again.obvious(&asked));
    assert_eq!(again.grid, puzzle);
}

#[test]
fn solving_the_puzzle_gives_the_solution_back() {
    for _ in 0..3 {
        let mut table = Table::new(3);
        assert!(table.fill(0));
        let solution = table.grid.clone();
        table.unsolve();
        let mut left = blanks(&table);
        assert!(left.len() > 0);
        while !left.is_empty() {
            assert!(table.obvious_step(&mut left));
        }
        assert_eq!(table.grid, solution);
    }
}

#[test]
fn no_further_hole_can_be_made_in_the_same_round() {
    // A second round from the same cell accepts nothing new.
    let mut table = solved_four();
    table.unsolve_from(5);
    let once = table.grid.clone();
    table.unsolve_from(5);
    assert_eq!(table.grid, once);
}

#[test]
fn unsolve_from_on_an_empty_grid_changes_nothing() {
    let mut table = Table::new(2);
    table.unsolve_from(3);
    assert_eq!(table.grid, vec![0u8; 16]);
}

#[test]
fn no_given_can_be_taken_after_the_round() {
    for start in [0usize, 5, 15] {
        let mut table = solved_four();
        table.unsolve_from(start);
        let puzzle = table.grid.clone();
        let holes = blanks(&table);
        for i in 0..16 {
            if puzzle[i] != 0 {
                let mut more = holes.clone();
                more.insert(i);
                table.grid[i] = 0;
                assert!(!table.obvious(&more));
                table.grid[i] = puzzle[i];
                assert_eq!(table.grid, puzzle);
            }
        }
    }
}

#[test]
fn every_part_of_the_holes_is_deducible() {
    let mut table = shifted_nine();
    let solution = table.grid.clone();
    table.unsolve_from(40);
    let holes: Vec<usize> = blanks(&table).into_iter().collect();
    for skip in 0..holes.len() {
        let part: HashSet<usize> =
            holes.iter().enumerate().filter(|(k, _)| k % 7 != skip % 7).map(|(_, h)| *h).collect();
        let mut dense = Table { grid: solution.clone(), quadrant_side: 3, side: 9 };
        for h in part.iter() {
            dense.grid[*h] = 0;
        }
        assert!(dense.obvious(&part));
    }
}
