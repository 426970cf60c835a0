use rpgtools::gridroom::GridRoom;

#[test]
fn gridroom_new() {
    let room = GridRoom::new();

    assert_eq!(0, room.iter_cells().count());
}

#[test]
fn gridroom_nearest_square() {
    let mut r1 = GridRoom::new();
    let mut r2 = GridRoom::new();

    // r1 is a square 0,0 -> 1,1
    r1.add_cell(&(0, 0)).unwrap();
    r1.add_cell(&(0, 1)).unwrap();
    r1.add_cell(&(1, 0)).unwrap();
    r1.add_cell(&(1, 1)).unwrap();

    // r2 is a square on the diagonal @ 3,3 -> 4,4
    r2.add_cell(&(3, 3)).unwrap();
    r2.add_cell(&(3, 4)).unwrap();
    r2.add_cell(&(4, 3)).unwrap();
    r2.add_cell(&(4, 4)).unwrap();

    // Closest should be 1,1 and 3,3
    assert_eq!(((1, 1), (3, 3)), r1.nearest_cells(&r2).unwrap())
}

#[test]
fn gridroom_add_remove_and_empty() {
    let mut room = GridRoom::new();
    assert!(room.is_empty());
    assert_eq!(Ok(true), room.add_cell(&(2, 3)));
    assert_eq!(Ok(false), room.add_cell(&(2, 3)));
    assert_eq!(1, room.iter_cells().count());
    assert!(!room.is_empty());
    assert_eq!(Ok(false), room.remove_cell(&(9, 9)));
    assert_eq!(Ok(true), room.remove_cell(&(2, 3)));
    assert!(room.is_empty());
    let other = GridRoom::new();
    assert!(room.nearest_cells(&other).is_err());
}
