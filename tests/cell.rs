use rpgtools::cell::{Area, Cell};

#[test]
fn cell_new() {
    let cell = Cell::new();
    assert_eq!(Area::Nothing, cell.area);
}

#[test]
fn cell_is_empty() {
    let mut cell = Cell::new();
    // Do checks
    cell.area = Area::Nothing;
    assert_eq!(true, cell.is_empty());
    cell.area = Area::Entrance;
    assert_eq!(false, cell.is_empty());
    cell.area = Area::Room;
    assert_eq!(false, cell.is_empty());
}

#[test]
fn cell_is_room() {
    let mut cell = Cell::new();
    // Do checks
    cell.area = Area::Nothing;
    assert_eq!(false, cell.is_room());
    cell.area = Area::Entrance;
    assert_eq!(true, cell.is_room());
    cell.area = Area::Room;
    assert_eq!(true, cell.is_room());
}

#[test]
fn cell_set_area_and_default() {
    let mut cell = Cell::default();
    assert_eq!(Area::Nothing, *cell.area());
    cell.set_area(Area::Entrance);
    assert_eq!(Area::Entrance, *cell.area());
    assert!(!cell.is_empty());
}
