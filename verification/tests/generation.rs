use sudoku::Table;

fn groups(table: &Table) -> Vec<Vec<usize>> {
    let mut all = Vec::new();
    for c in 0..table.side {
        all.push(table.column(c));
        all.push(table.row(c));
    }
    let q = table.quadrant_side;
    for by in 0..q {
        for bx in 0..q {
            all.push(table.quadrant(bx * q, by * q));
        }
    }
    all
}

fn is_solved(table: &Table) -> bool {
    groups(table).iter().all(|cells| {
        let mut held: Vec<u8> = cells.iter().map(|c| table.grid[*c]).collect();
        held.sort();
        held == (1..=table.side as u8).collect::<Vec<u8>>()
    })
}

#[test]
fn fill_solves_an_empty_grid_of_every_small_size() {
    for q in 1..=4usize {
        let mut table = Table::new(q);
        assert!(table.fill(0));
        assert!(table.grid.iter().all(|d| *d != 0));
        assert!(is_solved(&table));
    }
}

#[test]
fn fill_of_the_smallest_grid_places_a_one() {
    let mut table = Table::new(1);
    assert!(table.fill(0));
    assert_eq!(table.grid, vec![1]);
}

#[test]
fn fill_past_the_last_cell_succeeds_and_changes_nothing() {
    let mut table = Table::new(2);
    table.grid[3] = 4;
    let before = table.grid.clone();
    assert!(table.fill(16));
    assert_eq!(table.grid, before);
    assert!(table.fill(1000));
    assert_eq!(table.grid, before);
}

#[test]
fn fill_of_a_standard_grid() {
    let mut table = Table::new(3);
    assert!(table.fill(0));
    assert_eq!(table.grid.len(), 81);
    assert!(table.grid.iter().all(|d| (1..=9).contains(d)));
    assert!(is_solved(&table));
}

#[test]
fn fill_after_clear_solves_again() {
    let mut table = Table::new(3);
    assert!(table.fill(0));
    table.clear();
    assert_eq!(table.grid, vec![0u8; 81]);
    assert!(table.fill(0));
    assert!(is_solved(&table));
}

#[test]
fn fill_keeps_the_cells_before_its_start() {
    let mut table = Table::new(2);
    table.grid[0] = 1;
    table.grid[1] = 2;
    table.grid[2] = 3;
    table.grid[3] = 4;
    assert!(table.fill(4));
    assert_eq!(&table.grid[0..4], &[1, 2, 3, 4]);
    assert!(is_solved(&table));
}

#[test]
fn fill_completes_the_only_completion() {
    // All but the last row is given: the last row is forced.
    let mut table = Table::new(2);
    let given = [1, 2, 3, 4, 3, 4, 1, 2, 2, 1, 4, 3];
    table.grid[..12].copy_from_slice(&given);
    assert!(table.fill(12));
    assert_eq!(table.grid, vec![1, 2, 3, 4, 3, 4, 1, 2, 2, 1, 4, 3, 4, 3, 2, 1]);
}

#[test]
fn fill_fails_where_the_first_cell_has_no_candidate() {
    let mut table = Table::new(2);
    table.grid[1] = 1;
    table.grid[2] = 2;
    table.grid[4] = 3;
    table.grid[8] = 4;
    let before = table.grid.clone();
    assert!(!table.fill(0));
    assert_eq!(table.grid, before);
}

#[test]
fn fill_fails_on_a_contradiction_and_restores_the_grid() {
    // Cell 7 sees 1 and 2 in its quadrant and 3 and 4 in its row.
    let mut table = Table::new(2);
    table.grid[2] = 1;
    table.grid[3] = 2;
    table.grid[4] = 3;
    table.grid[5] = 4;
    let before = table.grid.clone();
    assert!(!table.fill(7));
    assert_eq!(table.grid, before);
}

#[test]
fn fill_backtracks_before_it_fails() {
    // Cell 6 can only take 1, and then cell 7 can take nothing.
    let mut table = Table::new(2);
    table.grid[3] = 2;
    table.grid[4] = 3;
    table.grid[5] = 4;
    let before = table.grid.clone();
    assert!(!table.fill(6));
    assert_eq!(table.grid, before);
}

#[test]
fn fill_overwrites_what_lies_behind_its_start() {
    let mut table = Table::new(2);
    for i in 0..16 {
        table.grid[i] = 1;
    }
    table.grid[0] = 2;
    let done = table.fill(1);
    assert_eq!(table.grid[0], 2);
    if done {
        assert!(is_solved(&table));
    } else {
        assert!(table.grid.iter().enumerate().all(|(i, d)| *d == 0 || (i == 0 && *d == 2) || *d == 1));
    }
}

#[test]
fn fill_draws_different_grids() {
    let mut first = Table::new(3);
    assert!(first.fill(0));
    let mut differs = false;
    for _ in 0..8 {
        let mut next = Table::new(3);
        assert!(next.fill(0));
        if next.grid != first.grid {
            differs = true;
        }
    }
    assert!(differs);
}
