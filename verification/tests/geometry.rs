use sudoku::Table;

#[test]
fn new_table_is_empty_and_square() {
    let table = Table::new(3);
    assert_eq!(table.quadrant_side, 3);
    assert_eq!(table.side, 9);
    assert_eq!(table.grid, vec![0u8; 81]);
}

#[test]
fn smallest_table_has_one_cell() {
    let table = Table::new(1);
    assert_eq!(table.side, 1);
    assert_eq!(table.grid, vec![0u8]);
    assert_eq!(table.index(0, 0), 0);
    assert_eq!(table.position(0), (0, 0));
    assert_eq!(table.column(0), vec![0]);
    assert_eq!(table.row(0), vec![0]);
    assert_eq!(table.quadrant(0, 0), vec![0]);
    assert_eq!(table.neighborhood(0, 0), vec![0, 0, 0]);
}

#[test]
fn largest_table_has_225_digits() {
    let table = Table::new(15);
    assert_eq!(table.side, 225);
    assert_eq!(table.grid.len(), 50625);
    assert_eq!(table.index(224, 224), 50624);
    assert_eq!(table.position(50624), (224, 224));
}

#[test]
fn clear_empties_every_cell() {
    let mut table = Table::new(2);
    for i in 0..16 {
        table.grid[i] = (i % 4) as u8 + 1;
    }
    table.clear();
    assert_eq!(table.grid, vec![0u8; 16]);
    assert_eq!(table.quadrant_side, 2);
    assert_eq!(table.side, 4);
}

#[test]
fn index_is_column_plus_row_times_side() {
    let table = Table::new(3);
    assert_eq!(table.index(0, 0), 0);
    assert_eq!(table.index(8, 0), 8);
    assert_eq!(table.index(0, 1), 9);
    assert_eq!(table.index(4, 7), 67);
    assert_eq!(table.index(8, 8), 80);
}

#[test]
fn position_is_remainder_and_quotient() {
    let table = Table::new(3);
    assert_eq!(table.position(0), (0, 0));
    assert_eq!(table.position(8), (8, 0));
    assert_eq!(table.position(9), (0, 1));
    assert_eq!(table.position(67), (4, 7));
    assert_eq!(table.position(80), (8, 8));
}

#[test]
fn index_and_position_are_inverse() {
    for q in 1..=4usize {
        let table = Table::new(q);
        let side = table.side;
        for i in 0..side * side {
            let (x, y) = table.position(i);
            assert!(x < side && y < side);
            assert_eq!(table.index(x, y), i);
        }
        for y in 0..side {
            for x in 0..side {
                assert_eq!(table.position(table.index(x, y)), (x, y));
            }
        }
    }
}

#[test]
fn column_runs_top_down() {
    let table = Table::new(2);
    assert_eq!(table.column(0), vec![0, 4, 8, 12]);
    assert_eq!(table.column(3), vec![3, 7, 11, 15]);
    let table = Table::new(3);
    assert_eq!(table.column(4), vec![4, 13, 22, 31, 40, 49, 58, 67, 76]);
}

#[test]
fn row_runs_left_to_right() {
    let table = Table::new(2);
    assert_eq!(table.row(0), vec![0, 1, 2, 3]);
    assert_eq!(table.row(3), vec![12, 13, 14, 15]);
    let table = Table::new(3);
    assert_eq!(table.row(7), vec![63, 64, 65, 66, 67, 68, 69, 70, 71]);
}

#[test]
fn quadrant_runs_column_by_column() {
    let table = Table::new(2);
    assert_eq!(table.quadrant(0, 0), vec![0, 4, 1, 5]);
    assert_eq!(table.quadrant(1, 1), vec![0, 4, 1, 5]);
    assert_eq!(table.quadrant(3, 0), vec![2, 6, 3, 7]);
    assert_eq!(table.quadrant(2, 3), vec![10, 14, 11, 15]);
    let table = Table::new(3);
    assert_eq!(table.quadrant(4, 7), vec![57, 66, 75, 58, 67, 76, 59, 68, 77]);
    assert_eq!(table.quadrant(8, 8), vec![60, 69, 78, 61, 70, 79, 62, 71, 80]);
}

#[test]
fn every_cell_of_a_quadrant_names_the_same_quadrant() {
    let table = Table::new(3);
    for y in 0..9 {
        for x in 0..9 {
            let corner = table.quadrant((x / 3) * 3, (y / 3) * 3);
            assert_eq!(table.quadrant(x, y), corner);
            assert!(corner.contains(&table.index(x, y)));
        }
    }
}

#[test]
fn neighborhood_is_column_then_row_then_quadrant() {
    let table = Table::new(2);
    assert_eq!(table.neighborhood(1, 2), vec![1, 5, 9, 13, 8, 9, 10, 11, 8, 12, 9, 13]);
    let table = Table::new(3);
    for y in 0..9 {
        for x in 0..9 {
            let mut expected = table.column(x);
            expected.extend(table.row(y));
            expected.extend(table.quadrant(x, y));
            let cells = table.neighborhood(x, y);
            assert_eq!(cells, expected);
            assert_eq!(cells.len(), 27);
            let own = table.index(x, y);
            assert_eq!(cells.iter().filter(|c| **c == own).count(), 3);
        }
    }
}
