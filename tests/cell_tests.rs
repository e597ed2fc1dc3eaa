use hexgame::cell::{Cell, Ownership};

#[test]
fn test_cell_constructor() {
    let c: Cell = Cell::new(0, 1);
    assert_eq!(c.x, 0);
    assert_eq!(c.y, 1);
    assert_eq!(c.ownership, Ownership::Unowned);
}

#[test]
fn test_cell_constructor_from_ownership() {
    let c: Cell = Cell::new_from_ownership(0, 1, Ownership::Player1);
    assert_eq!(c.x, 0);
    assert_eq!(c.y, 1);
    assert_eq!(c.ownership, Ownership::Player1);
}

#[test]
fn test_equals() {
    let c_1: Cell = Cell::new_from_ownership(0, 1, Ownership::Player1);
    let mut c_2: Cell = Cell::new(0, 1);
    assert_ne!(c_1, c_2);
    c_2.ownership = Ownership::Player1;
    assert_eq!(c_1, c_2);
}

#[test]
fn cells_differ_by_coordinates() {
    assert_ne!(Cell::new(0, 1), Cell::new(1, 0));
    assert_eq!(Cell::new(2, 3), Cell::new_from_ownership(2, 3, Ownership::Unowned));
}
