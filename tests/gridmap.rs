use rpgtools::cell::Area;
use rpgtools::gridmap::GridMap;
use rpgtools::point::Point;
use rpgtools::route::RouteMethod;
use rpgtools::RpgError;

fn area(map: &GridMap, x: i64, y: i64) -> Area {
    *map.get_cell_ref(Point::new(x, y)).unwrap().area()
}

fn areas(map: &GridMap) -> Vec<Vec<Area>> {
    let (w, h) = map.get_limits();
    (0..w as i64)
        .map(|x| (0..h as i64).map(|y| area(map, x, y)).collect())
        .collect()
}

fn count(map: &GridMap, a: Area) -> usize {
    areas(map).iter().flatten().filter(|c| **c == a).count()
}

/// Ensure that regenerating halls multiple times doesn't hang
#[test]
fn regenerate_dungeon() {
    let mut map = GridMap::new(25, 25);

    // This used to fail due to an infinite loop in the halls algorithm.
    for _ in 0..10 {
        map.generate_dungeon(10, 10);
    }
}

#[test]
fn new_map_is_empty() {
    let map = GridMap::new(7, 4);
    assert_eq!(map.get_limits(), (7, 4));
    for x in 0..7 {
        for y in 0..4 {
            assert_eq!(area(&map, x, y), Area::Nothing);
        }
    }
}

#[test]
fn cell_access_out_of_bounds_fails() {
    let mut map = GridMap::new(3, 3);
    assert!(matches!(map.get_cell_ref(Point::new(3, 0)), Err(RpgError::OutOfBounds)));
    assert!(matches!(map.get_cell_ref(Point::new(0, -1)), Err(RpgError::OutOfBounds)));
    assert!(matches!(map.get_cell_mut(Point::new(0, 3)), Err(RpgError::OutOfBounds)));
}

#[test]
fn cell_access_mut_changes_cell() {
    let mut map = GridMap::new(3, 3);
    map.get_cell_mut(Point::new(1, 2)).unwrap().set_area(Area::Room);
    assert_eq!(area(&map, 1, 2), Area::Room);
    assert_eq!(count(&map, Area::Room), 1);
}

#[test]
fn entrance_survives_room_placement() {
    let mut map = GridMap::new(5, 5);
    map.place_room(Point::new(0, 0), Point::new(0, 0));
    map.place_entrance(Point::new(0, 0)).unwrap();
    map.place_room(Point::new(0, 0), Point::new(2, 2));
    assert_eq!(area(&map, 0, 0), Area::Entrance);
    assert_eq!(area(&map, 1, 1), Area::Room);
    assert_eq!(area(&map, 2, 2), Area::Room);
    assert_eq!(area(&map, 3, 3), Area::Nothing);
    assert_eq!(count(&map, Area::Room), 8);
}

#[test]
fn place_entrance_out_of_bounds_fails() {
    let mut map = GridMap::new(5, 5);
    assert!(matches!(map.place_entrance(Point::new(5, 0)), Err(RpgError::OutOfBounds)));
    assert!(matches!(map.place_entrance(Point::new(-1, 0)), Err(RpgError::OutOfBounds)));
    assert_eq!(count(&map, Area::Nothing), 25);
}

#[test]
fn place_room_in_any_corner_order_and_clamped() {
    let mut a = GridMap::new(6, 6);
    let mut b = GridMap::new(6, 6);
    a.place_room(Point::new(4, 1), Point::new(1, 3));
    b.place_room(Point::new(1, 3), Point::new(4, 1));
    assert_eq!(areas(&a), areas(&b));
    assert_eq!(count(&a, Area::Room), 12);

    let mut c = GridMap::new(6, 6);
    c.place_room(Point::new(4, 4), Point::new(20, 9));
    assert_eq!(count(&c, Area::Room), 4);
    assert_eq!(area(&c, 5, 5), Area::Room);
}

#[test]
fn place_room_twice_is_like_once() {
    let mut once = GridMap::new(8, 8);
    once.place_entrance(Point::new(3, 3)).unwrap();
    let mut twice = GridMap::new(8, 8);
    twice.place_entrance(Point::new(3, 3)).unwrap();
    once.place_room(Point::new(1, 2), Point::new(5, 6));
    twice.place_room(Point::new(1, 2), Point::new(5, 6));
    twice.place_room(Point::new(1, 2), Point::new(5, 6));
    assert_eq!(areas(&once), areas(&twice));
}

#[test]
fn place_room_with_negative_dimensions() {
    let mut map = GridMap::new(10, 10);
    map.place_room_dimensions(Point::new(5, 5), (-2, -3));
    assert_eq!(count(&map, Area::Room), 12);
    assert_eq!(area(&map, 3, 2), Area::Room);
    assert_eq!(area(&map, 5, 5), Area::Room);
    assert_eq!(area(&map, 6, 5), Area::Nothing);

    let mut other = GridMap::new(10, 10);
    other.place_room_dimensions(Point::new(1, 1), (2, 0));
    assert_eq!(count(&other, Area::Room), 3);
    assert_eq!(area(&other, 3, 1), Area::Room);
}

#[test]
fn hallway_horizontal_first() {
    let mut map = GridMap::new(6, 6);
    map.place_hallway(Point::new(1, 1), Point::new(4, 3), RouteMethod::HorizontalFirst);
    assert_eq!(count(&map, Area::Room), 6);
    assert_eq!(area(&map, 4, 1), Area::Room);
    assert_eq!(area(&map, 1, 3), Area::Nothing);
}

#[test]
fn hallway_vertical_first() {
    let mut map = GridMap::new(6, 6);
    map.place_hallway(Point::new(1, 1), Point::new(4, 3), RouteMethod::VerticalFirst);
    assert_eq!(count(&map, Area::Room), 6);
    assert_eq!(area(&map, 1, 3), Area::Room);
    assert_eq!(area(&map, 4, 1), Area::Nothing);
}

#[test]
fn hallway_manhattan_is_one_of_the_two() {
    let mut h = GridMap::new(6, 6);
    h.place_hallway(Point::new(1, 1), Point::new(4, 3), RouteMethod::HorizontalFirst);
    let mut v = GridMap::new(6, 6);
    v.place_hallway(Point::new(1, 1), Point::new(4, 3), RouteMethod::VerticalFirst);
    for _ in 0..20 {
        let mut m = GridMap::new(6, 6);
        m.place_hallway(Point::new(1, 1), Point::new(4, 3), RouteMethod::Manhattan);
        assert!(areas(&m) == areas(&h) || areas(&m) == areas(&v));
    }
}

#[test]
fn find_on_empty_map_is_none() {
    let map = GridMap::new(9, 6);
    assert_eq!(map.find_nearest_connected(Point::new(4, 2)), None);
    assert_eq!(map.find_nearest_connected(Point::new(0, 0)), None);
    assert_eq!(map.find_nearest_connected(Point::new(20, 0)), None);
}

#[test]
fn find_returns_the_nearest_room() {
    let mut map = GridMap::new(9, 9);
    map.place_room(Point::new(7, 7), Point::new(7, 7));
    map.place_room(Point::new(3, 5), Point::new(3, 5));
    assert_eq!(map.find_nearest_connected(Point::new(2, 2)), Some(Point::new(3, 5)));
    assert_eq!(map.find_nearest_connected(Point::new(8, 8)), Some(Point::new(7, 7)));
}

#[test]
fn find_picks_among_the_nearest_ring() {
    let mut map = GridMap::new(9, 9);
    map.place_room(Point::new(2, 4), Point::new(2, 4));
    map.place_room(Point::new(6, 4), Point::new(6, 4));
    map.place_room(Point::new(0, 0), Point::new(0, 0));
    for _ in 0..20 {
        let p = map.find_nearest_connected(Point::new(4, 4)).unwrap();
        assert!(p == Point::new(2, 4) || p == Point::new(6, 4));
    }
}

#[test]
fn entrance_near_a_room() {
    let mut map = GridMap::new(8, 8);
    map.place_room(Point::new(5, 5), Point::new(6, 6));
    map.place_entrance_near(Point::new(1, 1)).unwrap();
    assert_eq!(area(&map, 5, 5), Area::Entrance);
    assert_eq!(count(&map, Area::Entrance), 1);
    assert_eq!(count(&map, Area::Room), 3);
}

#[test]
fn entrance_near_fails_without_rooms_or_bounds() {
    let mut map = GridMap::new(8, 8);
    assert!(matches!(map.place_entrance_near(Point::new(1, 1)), Err(RpgError::Empty(_))));
    assert!(matches!(map.place_entrance_near(Point::new(8, 1)), Err(RpgError::OutOfBounds)));
    assert_eq!(count(&map, Area::Nothing), 64);
}

#[test]
fn partition_of_empty_map() {
    let map = GridMap::new(5, 5);
    let with_nothing = map.partition_spaces(true);
    assert_eq!(with_nothing.len(), 1);
    assert_eq!(with_nothing[0].iter_cells().count(), 25);
    let rooms = map.partition_spaces(false);
    assert_eq!(rooms.len(), 0);
}

#[test]
fn partition_splits_by_area_and_connection() {
    let mut map = GridMap::new(7, 5);
    map.place_room(Point::new(0, 0), Point::new(1, 1));
    map.place_room(Point::new(4, 0), Point::new(6, 0));
    map.place_room(Point::new(4, 3), Point::new(4, 3));
    map.place_entrance(Point::new(4, 3)).unwrap();
    let rooms = map.partition_spaces(false);
    assert_eq!(rooms.len(), 3);
    let mut sizes: Vec<usize> = rooms.iter().map(|r| r.iter_cells().count()).collect();
    sizes.sort();
    assert_eq!(sizes, vec![1, 3, 4]);
    let all = map.partition_spaces(true);
    assert_eq!(all.len(), 4);
    let total: usize = all.iter().map(|r| r.iter_cells().count()).sum();
    assert_eq!(total, 35);
}

#[test]
fn dungeon_is_one_connected_group() {
    let mut map = GridMap::new(25, 25);
    for _ in 0..10 {
        map.generate_dungeon(10, 5);
        let rooms = map.partition_spaces(false);
        assert_eq!(rooms.len(), 1);
        assert_eq!(rooms[0].iter_cells().count(), count(&map, Area::Room));
        assert_eq!(count(&map, Area::Entrance), 0);
    }
}

#[test]
fn dungeon_without_rooms_is_empty() {
    let mut map = GridMap::new(6, 6);
    map.place_room(Point::new(1, 1), Point::new(3, 3));
    map.generate_dungeon(0, 5);
    assert_eq!(count(&map, Area::Nothing), 36);
}

#[test]
fn random_cells_at_the_limits() {
    let mut map = GridMap::new(10, 10);
    map.generate_random_cells(99);
    assert_eq!(count(&map, Area::Nothing), 100);
    map.generate_random_cells(0);
    assert_eq!(count(&map, Area::Room), 100);
    map.generate_random_cells(50);
    assert_eq!(count(&map, Area::Room) + count(&map, Area::Nothing), 100);
}

#[test]
fn annealed_random_cells_hold_no_entrance() {
    let mut map = GridMap::new(12, 12);
    map.generate_annealed_random_cells();
    assert_eq!(count(&map, Area::Entrance), 0);
}

#[test]
fn centred_room_uses_width_for_lower_side() {
    let mut map = GridMap::new(12, 12);
    map.place_centred_room(Point::new(5, 5), 4, 2);
    // x from 3 to 7, y from 4 to 7 (the width sets the lower side)
    assert_eq!(count(&map, Area::Room), 20);
    assert_eq!(area(&map, 3, 4), Area::Room);
    assert_eq!(area(&map, 7, 7), Area::Room);
    assert_eq!(area(&map, 5, 3), Area::Nothing);
    assert_eq!(area(&map, 5, 8), Area::Nothing);
}

#[test]
fn random_room_is_placed() {
    for _ in 0..20 {
        let mut map = GridMap::new(15, 15);
        map.place_random_room(5, false);
        let rooms = count(&map, Area::Room);
        assert!(rooms >= 1 && rooms <= 25);
    }
}

#[test]
fn random_room_connects_to_existing_room() {
    for _ in 0..10 {
        let mut map = GridMap::new(20, 20);
        map.place_room(Point::new(10, 10), Point::new(11, 11));
        map.place_entrance(Point::new(10, 10)).unwrap();
        map.place_random_room(4, true);
        assert_eq!(area(&map, 10, 10), Area::Entrance);
        assert_eq!(map.partition_spaces(false).len() >= 1, true);
    }
}

#[test]
fn cave_holds_rooms_only() {
    let mut map = GridMap::new(30, 30);
    map.generate_cave(4, 50);
    assert_eq!(count(&map, Area::Entrance), 0);
    map.place_entrance_near(Point::new(15, 15)).ok();
    assert!(count(&map, Area::Entrance) <= 1);
}

#[test]
fn cave_of_full_seed_keeps_inside() {
    let mut map = GridMap::new(8, 8);
    map.generate_cave(1, 0);
    // every inner cell sees nine rooms; the edge becomes empty
    assert_eq!(count(&map, Area::Room), 36);
    assert_eq!(area(&map, 0, 3), Area::Nothing);
    assert_eq!(area(&map, 1, 1), Area::Room);
}

#[test]
fn gray_pixels_of_small_map() {
    let mut map = GridMap::new(2, 1);
    map.place_room(Point::new(1, 0), Point::new(1, 0));
    let pixels = map.gray_pixels(2);
    assert_eq!(pixels, vec![25, 25, 200, 200, 25, 25, 200, 200]);
    map.place_entrance(Point::new(0, 0)).unwrap();
    assert_eq!(map.gray_pixels(1), vec![255, 200]);
    assert_eq!(GridMap::shade_of(Area::Nothing), 25);
}

#[test]
fn index_by_point() {
    let mut map = GridMap::new(4, 4);
    map.place_room(Point::new(1, 1), Point::new(1, 2));
    assert_eq!(map[Point::new(1, 2)].area, Area::Room);
    assert_eq!(map[Point::new(2, 2)].area, Area::Nothing);
}

#[test]
fn cave_never_touches_edge() {
    for _ in 0..5 {
        let mut map = GridMap::new(20, 15);
        map.generate_cave(4, 45);
        for x in 0..20 {
            assert_eq!(area(&map, x, 0), Area::Nothing);
            assert_eq!(area(&map, x, 14), Area::Nothing);
        }
        for y in 0..15 {
            assert_eq!(area(&map, 0, y), Area::Nothing);
            assert_eq!(area(&map, 19, y), Area::Nothing);
        }
    }
}

#[test]
fn annealed_cells_keep_no_isolated_room() {
    for _ in 0..5 {
        let mut map = GridMap::new(15, 12);
        map.generate_annealed_random_cells();
        for x in 1..14 {
            for y in 1..11 {
                if area(&map, x, y) == Area::Room {
                    let near = [(x - 1, y), (x + 1, y), (x, y - 1), (x, y + 1)];
                    assert!(near.iter().any(|(a, b)| area(&map, *a, *b) != Area::Nothing));
                }
            }
        }
    }
}

#[test]
fn connected_random_room_joins_existing_room() {
    for _ in 0..10 {
        let mut map = GridMap::new(20, 20);
        map.place_room(Point::new(3, 3), Point::new(4, 4));
        map.place_random_room(4, true);
        assert_eq!(map.partition_spaces(false).len(), 1);
        assert_eq!(area(&map, 3, 3), Area::Room);
    }
}

#[test]
fn cave_groups_hold_at_least_fifteen_cells() {
    for _ in 0..5 {
        let mut map = GridMap::new(30, 30);
        map.generate_cave(4, 50);
        for group in map.partition_spaces(false) {
            assert!(group.iter_cells().count() >= 15);
        }
    }
}
