use gomoku::table::{Cell, Figure, Table};

fn assert_cell(table: &mut Table, col: usize, row: usize) {
    assert_eq!(None, table.get(Cell { col, row }));
    table.set(Cell { col, row }, Some(Figure::X));
    assert_eq!(Some(Figure::X), table.get(Cell { col, row }));
}

#[test]
fn new_table() {
    let table = Table::new(10, 12);
    assert_eq!(None, table.get(Cell { row: 0, col: 0 }));
    assert_eq!(None, table.get(Cell { row: 9, col: 11 }));
}

#[test]
fn put_to_free_cell() {
    let mut table = Table::new(10, 10);
    table.set(Cell { row: 5, col: 5 }, Some(Figure::X));
    assert_eq!(Some(Figure::X), table.get(Cell { row: 5, col: 5 }));
}

#[test]
fn cell() {
    let mut table = Table::new(10, 10);
    assert_cell(&mut table, 0, 0);
    assert_cell(&mut table, 1, 0);
    assert_cell(&mut table, 9, 9);
    assert_cell(&mut table, 0, 9);
}

#[test]
fn iter() {
    let mut table = Table::new(10, 10);
    table.set(Cell { row: 0, col: 4 }, Some(Figure::X));
    let row0 = table.iter().next().unwrap();
    let cell04 = row0.iter().nth(4).unwrap();
    assert_eq!(&Some(Figure::X), cell04);

    let mut rows = 0;
    let mut it = table.iter();
    while let Some(_row) = it.next() {
        rows = rows + 1;
    }
    assert_eq!(10, rows);
}

#[test]
fn opponent_is_an_involution() {
    assert_eq!(Figure::O, Figure::X.opponent());
    assert_eq!(Figure::X, Figure::O.opponent());
    for f in [Figure::X, Figure::O] {
        assert_eq!(f, f.opponent().opponent());
        assert_ne!(f, f.opponent());
    }
}

#[test]
fn every_cell_starts_empty() {
    for (rows, cols) in [(1, 1), (1, 7), (4, 1), (3, 5), (10, 10)] {
        let table = Table::new(rows, cols);
        assert_eq!(rows, table.row_count());
        assert_eq!(cols, table.col_count());
        for row in 0..rows {
            for col in 0..cols {
                assert_eq!(None, table.get(Cell { row, col }));
            }
        }
    }
}

#[test]
fn set_then_get_round_trips() {
    let mut table = Table::new(3, 4);
    table.set(Cell { row: 2, col: 3 }, Some(Figure::O));
    assert_eq!(Some(Figure::O), table.get(Cell { row: 2, col: 3 }));
    table.set(Cell { row: 1, col: 0 }, Some(Figure::X));
    assert_eq!(Some(Figure::X), table.get(Cell { row: 1, col: 0 }));
    assert_eq!(Some(Figure::O), table.get(Cell { row: 2, col: 3 }));
    table.set(Cell { row: 2, col: 3 }, None);
    assert_eq!(None, table.get(Cell { row: 2, col: 3 }));
    // the neighbours in storage order are untouched
    assert_eq!(None, table.get(Cell { row: 0, col: 3 }));
    assert_eq!(None, table.get(Cell { row: 1, col: 1 }));
}

#[test]
fn is_valid_checks_both_bounds() {
    let table = Table::new(10, 12);
    assert!(Cell { row: 0, col: 0 }.is_valid(&table));
    assert!(Cell { row: 9, col: 11 }.is_valid(&table));
    assert!(!Cell { row: 10, col: 0 }.is_valid(&table));
    assert!(!Cell { row: 0, col: 12 }.is_valid(&table));
    assert!(!Cell { row: 10, col: 10 }.is_valid(&Table::new(10, 10)));
    let empty = Table::new(0, 5);
    assert!(!Cell { row: 0, col: 0 }.is_valid(&empty));
}

#[test]
fn rows_are_row_major_slices() {
    let mut table = Table::new(3, 4);
    table.set(Cell { row: 1, col: 2 }, Some(Figure::O));
    table.set(Cell { row: 2, col: 0 }, Some(Figure::X));
    assert_eq!(&[None, None, None, None], table.row(0));
    assert_eq!(&[None, None, Some(Figure::O), None], table.row(1));
    assert_eq!(&[Some(Figure::X), None, None, None], table.row(2));
}

#[test]
fn row_iteration_marker_and_count() {
    let mut table = Table::new(10, 10);
    table.set(Cell { row: 0, col: 4 }, Some(Figure::O));
    let mut it = table.iter();
    assert_eq!((10, Some(10)), it.size_hint());
    let first = it.next().unwrap();
    assert_eq!(10, first.len());
    for (col, value) in first.iter().enumerate() {
        if col == 4 {
            assert_eq!(&Some(Figure::O), value);
        } else {
            assert_eq!(&None, value);
        }
    }
    assert_eq!((9, Some(9)), it.size_hint());
    let mut rest = 0;
    while let Some(row) = it.next() {
        assert!(row.iter().all(|v| v.is_none()));
        rest = rest + 1;
    }
    assert_eq!(9, rest);
    assert_eq!((0, Some(0)), it.size_hint());
    assert!(it.next().is_none());
}

#[test]
fn iteration_restarts() {
    let table = Table::new(2, 3);
    let mut first = table.iter();
    assert!(first.next().is_some());
    let mut again = table.iter();
    assert_eq!((2, Some(2)), again.size_hint());
    assert!(again.next().is_some());
    assert!(again.next().is_some());
    assert!(again.next().is_none());
}

#[test]
fn zero_sized_boards() {
    let no_rows = Table::new(0, 5);
    assert_eq!((0, Some(0)), no_rows.iter().size_hint());
    assert!(no_rows.iter().next().is_none());
    let no_cols = Table::new(3, 0);
    assert!(!Cell { row: 0, col: 0 }.is_valid(&no_cols));
    let mut it = no_cols.iter();
    assert_eq!((0, Some(0)), it.size_hint());
    assert!(it.next().is_none());
}
