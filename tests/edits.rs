use phone_stats::record::{Cell, EditError};

fn named(oem: &str) -> Cell {
    let mut c = Cell::new();
    c.oem = Some(oem.to_string());
    c
}

fn oems(cells: &[Cell]) -> Vec<String> {
    cells.iter().map(|c| c.oem.clone().unwrap_or_default()).collect()
}

#[test]
fn insert_within_and_past_the_end() {
    let mut cells = vec![named("A"), named("C")];
    assert_eq!(Cell::insert_cell(&mut cells, 1, named("B")), Ok(()));
    assert_eq!(Cell::insert_cell(&mut cells, 3, named("D")), Ok(()));
    assert_eq!(oems(&cells), vec!["A", "B", "C", "D"]);
    assert_eq!(Cell::insert_cell(&mut cells, 5, named("F")), Err(EditError::OutOfBounds));
    assert_eq!(cells.len(), 4);
}

#[test]
fn modify_within_and_past_the_end() {
    let mut cells = vec![named("A"), named("B")];
    assert_eq!(Cell::modify_cell(&mut cells, 0, named("Z")), Ok(()));
    assert_eq!(oems(&cells), vec!["Z", "B"]);
    assert_eq!(Cell::modify_cell(&mut cells, 2, named("Y")), Err(EditError::OutOfBounds));
    assert_eq!(oems(&cells), vec!["Z", "B"]);
}

#[test]
fn delete_within_and_past_the_end() {
    let mut cells = vec![named("A"), named("B"), named("C")];
    assert_eq!(Cell::delete_cell(&mut cells, 1), Ok(()));
    assert_eq!(oems(&cells), vec!["A", "C"]);
    assert_eq!(Cell::delete_cell(&mut cells, 2), Err(EditError::OutOfBounds));
    assert_eq!(oems(&cells), vec!["A", "C"]);
}
