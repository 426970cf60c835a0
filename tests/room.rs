use rpgtools::point::Point;
use rpgtools::room::Room;
use rpgtools::RpgError;

#[test]
fn room_new() {
    let room = Room::new();

    assert_eq!(0, room.iter_cells().count());
}

#[test]
fn room_nearest_square() {
    let mut r1 = Room::new();
    let mut r2 = Room::new();

    // r1 is a square 0,0 -> 1,1
    r1.add_cell((0, 0).into()).unwrap();
    r1.add_cell((0, 1).into()).unwrap();
    r1.add_cell((1, 0).into()).unwrap();
    r1.add_cell((1, 1).into()).unwrap();

    // r2 is a square on the diagonal @ 3,3 -> 4,4
    r2.add_cell((3, 3).into()).unwrap();
    r2.add_cell((3, 4).into()).unwrap();
    r2.add_cell((4, 3).into()).unwrap();
    r2.add_cell((4, 4).into()).unwrap();

    // Closest should be 1,1 and 3,3
    assert_eq!(
        (Point::new(1, 1), Point::new(3, 3)),
        r1.nearest_cells(&r2).unwrap()
    )
}

#[test]
fn room_add_remove_and_empty() {
    let mut room = Room::default();
    assert!(room.is_empty());
    assert!(room.add_cell(Point::new(-2, 7)).unwrap());
    assert!(!room.add_cell(Point::new(-2, 7)).unwrap());
    assert!(room.add_cell(Point::new(4, 4)).unwrap());
    assert_eq!(2, room.iter_cells().count());
    assert!(room.iter_cells().any(|p| *p == Point::new(-2, 7)));
    assert!(!room.remove_cell(Point::new(0, 0)).unwrap());
    assert!(room.remove_cell(Point::new(-2, 7)).unwrap());
    assert_eq!(1, room.iter_cells().count());
    assert!(!room.is_empty());
}

#[test]
fn room_nearest_cells_of_empty_room_fails() {
    let mut full = Room::new();
    full.add_cell(Point::new(1, 1)).unwrap();
    let empty = Room::new();
    assert!(matches!(empty.nearest_cells(&full), Err(RpgError::Empty(_))));
    assert!(matches!(full.nearest_cells(&empty), Err(RpgError::Empty(_))));
}

#[test]
fn room_nearest_cells_single_points() {
    let mut r1 = Room::new();
    let mut r2 = Room::new();
    r1.add_cell(Point::new(0, 0)).unwrap();
    r1.add_cell(Point::new(10, 0)).unwrap();
    r2.add_cell(Point::new(12, 1)).unwrap();
    r2.add_cell(Point::new(-5, -5)).unwrap();
    assert_eq!(
        (Point::new(10, 0), Point::new(12, 1)),
        r1.nearest_cells(&r2).unwrap()
    );
}
