use std::collections::HashSet;
use sudoku::Table;

fn holes(list: &[usize]) -> HashSet<usize> {
    list.iter().copied().collect()
}

fn solved_four() -> Table {
    Table {
        grid: vec![1, 2, 3, 4, 3, 4, 1, 2, 2, 1, 4, 3, 4, 3, 2, 1],
        quadrant_side: 2,
        side: 4,
    }
}

#[test]
fn step_without_holes_makes_no_progress() {
    let mut table = solved_four();
    let before = table.grid.clone();
    let mut none = holes(&[]);
    assert!(!table.obvious_step(&mut none));
    assert!(none.is_empty());
    assert_eq!(table.grid, before);
}

#[test]
fn step_fills_a_forced_hole() {
    let mut table = solved_four();
    table.grid[5] = 0;
    let mut left = holes(&[5]);
    assert!(table.obvious_step(&mut left));
    assert!(left.is_empty());
    assert_eq!(table.grid, solved_four().grid);
}

#[test]
fn step_fills_one_hole_at_a_time() {
    let mut table = solved_four();
    table.grid[0] = 0;
    table.grid[15] = 0;
    let mut left = holes(&[0, 15]);
    assert!(table.obvious_step(&mut left));
    assert_eq!(left.len(), 1);
    let open = *left.iter().next().unwrap();
    assert_eq!(table.grid[open], 0);
    let filled = if open == 0 { 15 } else { 0 };
    assert_eq!(table.grid[filled], solved_four().grid[filled]);
    assert!(table.obvious_step(&mut left));
    assert!(left.is_empty());
    assert_eq!(table.grid, solved_four().grid);
    assert!(!table.obvious_step(&mut left));
}

#[test]
fn step_stops_at_a_hole_without_candidates() {
    let mut table = Table::new(2);
    table.grid[1] = 1;
    table.grid[2] = 2;
    table.grid[4] = 3;
    table.grid[8] = 4;
    let before = table.grid.clone();
    let mut left = holes(&[0]);
    assert!(!table.obvious_step(&mut left));
    assert_eq!(left, holes(&[0]));
    assert_eq!(table.grid, before);
}

#[test]
fn step_makes_no_progress_where_every_hole_has_a_choice() {
    let mut table = Table::new(2);
    let mut left = holes(&[0, 5, 10]);
    assert!(!table.obvious_step(&mut left));
    assert_eq!(left, holes(&[0, 5, 10]));
    assert_eq!(table.grid, vec![0u8; 16]);
}

#[test]
fn obvious_without_holes_is_true_and_changes_nothing() {
    let mut table = solved_four();
    assert!(table.obvious(&holes(&[])));
    assert_eq!(table.grid, solved_four().grid);
    let mut table = Table::new(3);
    assert!(table.obvious(&holes(&[])));
    assert_eq!(table.grid, vec![0u8; 81]);
    let mut table = Table::new(2);
    table.grid[0] = 1;
    table.grid[1] = 1;
    assert!(table.obvious(&holes(&[])));
    assert_eq!(&table.grid[..2], &[1, 1]);
}

#[test]
fn obvious_leaves_the_holes_empty_and_the_rest_alone() {
    let mut table = solved_four();
    for h in [0, 1, 6, 11] {
        table.grid[h] = 0;
    }
    let puzzle = table.grid.clone();
    let asked = holes(&[0, 1, 6, 11]);
    assert!(table.obvious(&asked));
    assert_eq!(table.grid, puzzle);
    assert_eq!(asked, holes(&[0, 1, 6, 11]));
}

#[test]
fn obvious_is_false_where_guessing_is_needed() {
    let mut table = Table::new(2);
    let all: Vec<usize> = (0..16).collect();
    assert!(!table.obvious(&holes(&all)));
    assert_eq!(table.grid, vec![0u8; 16]);
    // Two rows of a solved grid that can be swapped digit by digit.
    let mut table = solved_four();
    for h in [0, 2, 8, 10] {
        table.grid[h] = 0;
    }
    let puzzle = table.grid.clone();
    let asked = holes(&[0, 2, 8, 10]);
    let verdict = table.obvious(&asked);
    assert_eq!(table.grid, puzzle);
    // Cell 0 sees 2, 4 in its row, 3, 4 in its column and quadrant: only 1 is left.
    assert!(verdict);
}

#[test]
fn obvious_is_false_where_a_hole_has_no_candidate() {
    let mut table = Table::new(2);
    table.grid[1] = 1;
    table.grid[2] = 2;
    table.grid[4] = 3;
    table.grid[8] = 4;
    let before = table.grid.clone();
    assert!(!table.obvious(&holes(&[0])));
    assert_eq!(table.grid, before);
    assert!(!table.obvious(&holes(&[0, 3])));
    assert_eq!(table.grid, before);
}

#[test]
fn obvious_asked_twice_answers_the_same() {
    let mut table = solved_four();
    for h in [0, 5, 10, 15, 3] {
        table.grid[h] = 0;
    }
    let puzzle = table.grid.clone();
    let asked = holes(&[0, 5, 10, 15, 3]);
    let first = table.obvious(&asked);
    assert_eq!(table.grid, puzzle);
    let second = table.obvious(&asked);
    assert_eq!(table.grid, puzzle);
    assert_eq!(first, second);
    assert!(first);

    let mut table = Table::new(3);
    let asked = holes(&[0, 40, 80]);
    let first = table.obvious(&asked);
    let second = table.obvious(&asked);
    assert_eq!(first, second);
    assert!(!first);
    assert_eq!(table.grid, vec![0u8; 81]);
}

#[test]
fn obvious_reads_digits_that_holes_still_hold() {
    // While the holes still hold their digits, every hole of a solved grid
    // is forced to its own digit. Once they are empty, nothing is forced.
    let mut table = solved_four();
    let all: Vec<usize> = (0..16).collect();
    let asked = holes(&all);
    assert!(table.obvious(&asked));
    assert_eq!(table.grid, vec![0u8; 16]);
    assert!(!table.obvious(&asked));
    assert_eq!(table.grid, vec![0u8; 16]);
}

#[test]
fn steps_rebuild_the_solution() {
    let solution = solved_four().grid;
    let mut table = solved_four();
    let mut left = holes(&[0, 1, 6, 11, 12]);
    for h in left.iter() {
        table.grid[*h] = 0;
    }
    let mut steps = 0;
    while !left.is_empty() {
        assert!(table.obvious_step(&mut left));
        steps += 1;
    }
    assert_eq!(steps, 5);
    assert_eq!(table.grid, solution);
}

// Deduction that always takes the hole with the smallest index that is forced.
fn lowest_first(table: &Table, asked: &HashSet<usize>) -> bool {
    let mut grid = table.grid.clone();
    let mut left: Vec<usize> = asked.iter().copied().collect();
    left.sort();
    while !left.is_empty() {
        let probe = Table { grid: grid.clone(), quadrant_side: table.quadrant_side, side: table.side };
        let mut moved = false;
        for k in 0..left.len() {
            let possibles = probe.valid(left[k]);
            if possibles.len() == 1 {
                grid[left[k]] = *possibles.iter().next().unwrap();
                left.remove(k);
                moved = true;
                break;
            }
        }
        if !moved {
            return false;
        }
    }
    true
}

#[test]
fn verdict_does_not_depend_on_the_order_of_the_holes() {
    let solution = solved_four().grid;
    // Every set of holes of the grid of sixteen cells that has up to four
    // members, and a few larger ones.
    let mut sets: Vec<Vec<usize>> = vec![vec![]];
    for a in 0..16 {
        sets.push(vec![a]);
        for b in a + 1..16 {
            sets.push(vec![a, b]);
            for c in b + 1..16 {
                sets.push(vec![a, b, c]);
                for d in c + 1..16 {
                    sets.push(vec![a, b, c, d]);
                }
            }
        }
    }
    for skip in 0..16 {
        sets.push((0..16).filter(|i| *i != skip).collect());
        sets.push((0..16).filter(|i| i % 4 != skip % 4 || i / 4 == skip / 4).collect());
    }
    let mut yes = 0;
    let mut no = 0;
    for set in sets {
        let asked = holes(&set);
        let mut table = Table { grid: solution.clone(), quadrant_side: 2, side: 4 };
        for h in set.iter() {
            table.grid[*h] = 0;
        }
        let puzzle = table.grid.clone();
        let expected = lowest_first(&table, &asked);
        // A set built anew hands out its members in an order of its own.
        for _ in 0..3 {
            let again: HashSet<usize> = set.iter().rev().copied().collect();
            assert_eq!(table.obvious(&again), expected);
            assert_eq!(table.grid, puzzle);
        }
        if expected {
            yes += 1;
        } else {
            no += 1;
        }
    }
    assert!(yes > 0 && no > 0);
}
