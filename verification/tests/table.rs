use shadow::ids::ColumnKey;
use shadow::storage::table::{Column, ColumnCell, Row, Table};

fn row(a: u32, b: u32) -> Row<u32> {
    let mut row = Row::new();
    row.add_cell(ColumnKey(1), ColumnCell::from(a));
    row.add_cell(ColumnKey(2), ColumnCell::from(b));
    row
}

fn table() -> Table<u64, u32> {
    Table::builder()
        .with_column(ColumnKey(1), Column::new())
        .with_column(ColumnKey(2), Column::new())
        .build()
}

#[test]
fn rows_are_stored_by_column() {
    let mut t = table();
    t.insert(10, row(1, 2));
    t.insert(20, row(3, 4));
    assert_eq!(t.rows(), &[10, 20]);
    assert_eq!(t.columns(), &[ColumnKey(1), ColumnKey(2)]);
    assert_eq!(t.item(&ColumnKey(1), 10), Some(&1));
    assert_eq!(t.item(&ColumnKey(2), 20), Some(&4));
    assert_eq!(t.item(&ColumnKey(3), 20), None);
    assert_eq!(t.item(&ColumnKey(1), 30), None);
    assert!(t.contains(20));
}

#[test]
fn remove_hands_back_the_row_and_moves_the_last_in() {
    let mut t = table();
    t.insert(10, row(1, 2));
    t.insert(20, row(3, 4));
    t.insert(30, row(5, 6));
    let removed = t.remove(10).unwrap();
    assert_eq!(removed.cell(&ColumnKey(1)).map(|c| *c.value()), Some(1));
    assert_eq!(removed.cell(&ColumnKey(2)).map(|c| *c.value()), Some(2));
    assert_eq!(t.rows(), &[30, 20]);
    assert_eq!(t.item(&ColumnKey(1), 30), Some(&5));
    assert!(t.remove(40).is_none());
}

#[test]
fn row_cells_can_be_added_replaced_and_taken() {
    let mut r: Row<u32> = Row::new();
    assert!(r.add_cell(ColumnKey(5), ColumnCell::from(50)).is_none());
    let replaced = r.add_cell(ColumnKey(5), ColumnCell::from(55)).unwrap();
    assert_eq!(*replaced.value(), 50);
    assert_eq!(r.cell(&ColumnKey(5)).map(|c| *c.value()), Some(55));
    assert!(r.contains(&ColumnKey(5)));
    assert_eq!(r.remove_cell(ColumnKey(5)).map(|c| c.take()), Some(55));
    assert!(!r.contains(&ColumnKey(5)));
    assert!(r.remove_cell(ColumnKey(5)).is_none());
}

#[test]
fn column_keeps_values_in_order() {
    let mut c: Column<u32> = Column::new();
    c.push(1);
    c.push(3);
    c.insert(1, 2);
    assert_eq!(c.len(), 3);
    assert_eq!(c.get(1), Some(&2));
    assert_eq!(c.swap_remove(0), 1);
    assert_eq!(c.get(0), Some(&3));
    assert_eq!(c.remove(0), 3);
    assert_eq!(c.get(0), Some(&2));
    assert_eq!(c.get(5), None);
}

struct Speed;
struct Mass;

#[test]
fn remove_field_keeps_the_other_fields() {
    let mut r: Row<u32> = Row::new();
    r.add_field::<Speed>(5);
    r.add_field::<Mass>(9);
    r.add_cell(ColumnKey(77), ColumnCell::from(3));
    assert_eq!(r.remove_field::<Speed>(), Some(5));
    assert_eq!(r.remove_field::<Speed>(), None);
    assert_eq!(r.field::<Mass>(), Some(&9));
    assert!(r.contains(&ColumnKey(77)));
    assert_eq!(r.columns().len(), 2);
}
