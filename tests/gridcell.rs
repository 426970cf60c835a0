use rpgtools::gridcell::{AreaType, GridCell};

#[test]
fn gridcell_new() {
    let cell = GridCell::new();
    assert_eq!(AreaType::Nothing, cell.area);
}

#[test]
fn gridcell_is_empty() {
    let mut cell = GridCell::new();
    // Do checks
    cell.area = AreaType::Nothing;
    assert_eq!(true, cell.is_empty());
    cell.area = AreaType::Entrance;
    assert_eq!(false, cell.is_empty());
    cell.area = AreaType::Room;
    assert_eq!(false, cell.is_empty());
}

#[test]
fn gridcell_is_room() {
    let mut cell = GridCell::new();
    // Do checks
    cell.area = AreaType::Nothing;
    assert_eq!(false, cell.is_room());
    cell.area = AreaType::Entrance;
    assert_eq!(true, cell.is_room());
    cell.area = AreaType::Room;
    assert_eq!(true, cell.is_room());
}

#[test]
fn gridcell_area_and_default() {
    let mut cell = GridCell::default();
    assert_eq!(AreaType::Nothing, *cell.area());
    cell.area = AreaType::Room;
    assert_eq!(AreaType::Room, *cell.area());
}
