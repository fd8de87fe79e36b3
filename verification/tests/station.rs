use oorandom::Rand32;
use space_station_god_game::item::{
    get_drink_types, get_food_types, ContainerType, FoodType, Item, ItemType,
};
use space_station_god_game::station::gridposition::GridPosition;
use space_station_god_game::station::pathfinding::{Frontier, Movement};
use space_station_god_game::station::station::Station;
use space_station_god_game::station::tile::{Tile, TileType, WallDirection};

// Function to make an empty station, used in tests
fn test_station() -> Station {
    Station::empty()
}

// Function to make a 4x4 floor station surrounded by walls, used in tests
fn test_station_full() -> Station {
    let mut s = test_station();

    // Make top wall
    s.add_tile(Tile::new(
        GridPosition::new(0, 0),
        TileType::Wall(WallDirection::ExteriorCornerTopLeft),
    ));
    s.add_tile(Tile::new(
        GridPosition::new(1, 0),
        TileType::Wall(WallDirection::ExteriorTop),
    ));
    s.add_tile(Tile::new(
        GridPosition::new(2, 0),
        TileType::Wall(WallDirection::ExteriorTop),
    ));
    s.add_tile(Tile::new(
        GridPosition::new(3, 0),
        TileType::Wall(WallDirection::ExteriorCornerTopRight),
    ));

    // Make bottom wall
    s.add_tile(Tile::new(
        GridPosition::new(0, 3),
        TileType::Wall(WallDirection::ExteriorCornerBottomLeft),
    ));
    s.add_tile(Tile::new(
        GridPosition::new(1, 3),
        TileType::Wall(WallDirection::ExteriorBottom),
    ));
    s.add_tile(Tile::new(
        GridPosition::new(2, 3),
        TileType::Wall(WallDirection::ExteriorBottom),
    ));
    s.add_tile(Tile::new(
        GridPosition::new(3, 3),
        TileType::Wall(WallDirection::ExteriorCornerBottomRight),
    ));

    // Left wall
    s.add_tile(Tile::new(
        GridPosition::new(0, 1),
        TileType::Wall(WallDirection::ExteriorLeft),
    ));
    s.add_tile(Tile::new(
        GridPosition::new(0, 2),
        TileType::Wall(WallDirection::ExteriorLeft),
    ));

    // Right wall
    s.add_tile(Tile::new(
        GridPosition::new(3, 1),
        TileType::Wall(WallDirection::ExteriorRight),
    ));
    s.add_tile(Tile::new(
        GridPosition::new(3, 2),
        TileType::Wall(WallDirection::ExteriorRight),
    ));

    // Floors
    s.add_tile(Tile::new(GridPosition::new(1, 1), TileType::Floor));
    s.add_tile(Tile::new(GridPosition::new(1, 2), TileType::Floor));
    s.add_tile(Tile::new(GridPosition::new(2, 1), TileType::Floor));
    s.add_tile(Tile::new(GridPosition::new(2, 2), TileType::Floor));

    s
}

// A room of floor tiles between two corners, with nothing around it
fn open_room(lo: (i32, i32), hi: (i32, i32)) -> Station {
    let mut s = test_station();
    for x in lo.0..=hi.0 {
        for y in lo.1..=hi.1 {
            s.add_tile(Tile::new(GridPosition::new(x, y), TileType::Floor));
        }
    }
    s
}

fn neighbor_at<'a>(neighbors: &[&'a Tile], x: i32, y: i32) -> &'a Tile {
    neighbors
        .iter()
        .copied()
        .find(|tile| tile.pos == GridPosition::new(x, y))
        .unwrap()
}

fn is_step(a: GridPosition, b: GridPosition) -> bool {
    (a.x - b.x).abs() + (a.y - b.y).abs() == 1
}

#[test]
fn tile_num_tiles() {
    let s = test_station();
    assert_eq!(0, s.num_tiles());
}

#[test]
fn add_tile() {
    let mut s = test_station();
    let tile = Tile::new(GridPosition::new(1, 1), TileType::Floor);
    s.add_tile(tile);
    assert_eq!(1, s.num_tiles());
}

#[test]
fn has_tile() {
    let mut s = test_station();
    let pos = GridPosition::new(1, 1);
    let tile = Tile::new(pos, TileType::Floor);
    s.add_tile(tile);
    assert!(s.has_tile(pos));
}

#[test]
fn get_tile() {
    let mut s = test_station();
    let pos = GridPosition::new(1, 1);
    let tile = Tile::new(pos, TileType::Floor);
    s.add_tile(tile);

    let tile2 = s.get_tile(pos).unwrap();
    assert_eq!(pos, tile2.pos);
    assert_eq!(TileType::Floor, tile2.kind);
}

#[test]
fn get_tile_empty() {
    let mut s = test_station();
    let pos = GridPosition::new(1, 1);
    let tile = Tile::new(pos, TileType::Floor);
    s.add_tile(tile);

    let tile2 = s.get_tile(GridPosition::new(1, 2));
    assert_eq!(None, tile2);
}

#[test]
fn remove_tile() {
    let mut s = test_station();
    let pos = GridPosition::new(1, 1);
    let tile = Tile::new(pos, TileType::Floor);
    s.add_tile(tile);
    assert!(s.has_tile(pos));
    s.remove_tile(pos);
    assert!(!s.has_tile(pos));
}

#[test]
fn get_random_tile() {
    let s = test_station_full();

    let mut seed: [u8; 8] = [0; 8];
    getrandom::getrandom(&mut seed[..]).expect("Could not create RNG seed");
    let mut rng = Rand32::new(u64::from_ne_bytes(seed));

    let floor_tile = s.get_random_tile(TileType::Floor, &mut rng).unwrap();
    assert_eq!(floor_tile.kind, TileType::Floor, "Finds a floor tile");

    let wall_tile1 = s
        .get_random_tile(TileType::Wall(WallDirection::ExteriorTop), &mut rng)
        .unwrap();
    assert_eq!(
        wall_tile1.kind,
        TileType::Wall(WallDirection::ExteriorTop),
        "Finds an exterior top wall tile"
    );

    let wall_tile2 = s
        .get_random_tile(
            TileType::Wall(WallDirection::ExteriorCornerBottomRight),
            &mut rng,
        )
        .unwrap();
    assert_eq!(
        wall_tile2.kind,
        TileType::Wall(WallDirection::ExteriorCornerBottomRight),
        "Finds the bottom-right exterior wall"
    );

    let door_tile = s.get_random_tile(TileType::Door(WallDirection::InteriorVertical), &mut rng);
    assert_eq!(door_tile, None, "Does not find any doors");
}

#[test]
fn get_neighbors() {
    let s = test_station_full();

    // Test neighbors of the top-left corner
    let neighbors1 = s.get_neighbors(GridPosition::new(0, 0));
    assert_eq!(neighbors1.len(), 2, "Has two neighbors");
    assert_eq!(
        neighbor_at(&neighbors1, 0, 1).kind,
        TileType::Wall(WallDirection::ExteriorLeft),
        "Neighbor below is an exterior left wall"
    );
    assert_eq!(
        neighbor_at(&neighbors1, 1, 0).kind,
        TileType::Wall(WallDirection::ExteriorTop),
        "Neighbor to the right is an exterior top wall"
    );

    // Test neighbors in the middle-ish
    let neighbors2 = s.get_neighbors(GridPosition::new(1, 1));
    assert_eq!(neighbors2.len(), 4, "Has four neighbors");
    assert_eq!(
        neighbor_at(&neighbors2, 1, 0).kind,
        TileType::Wall(WallDirection::ExteriorTop),
        "Upper neighbor is an exterior top wall"
    );
    assert_eq!(
        neighbor_at(&neighbors2, 2, 1).kind,
        TileType::Floor,
        "Right neighbor is a floor"
    );
    assert_eq!(
        neighbor_at(&neighbors2, 1, 2).kind,
        TileType::Floor,
        "Below neighbor is a floor"
    );
    assert_eq!(
        neighbor_at(&neighbors2, 0, 1).kind,
        TileType::Wall(WallDirection::ExteriorLeft),
        "Left neighbor is an exterior left wall"
    );
}

#[test]
fn search() {
    let s = test_station_full();
    let start = GridPosition::new(1, 1);
    let target = GridPosition::new(2, 2);
    let search = s.search(start, target);

    assert_eq!(search.len(), 4, "We can reach 3 tiles plus ourselves");
    assert_ne!(
        search.get(target).unwrap().from,
        Some(start),
        "Source of target tile is not start (because that would be a diagonal move)"
    );
}

#[test]
fn path_to() {
    let mut s = test_station_full();
    let start = GridPosition::new(1, 1);
    let target = GridPosition::new(2, 2);

    let path = s.path_to(start, target);
    assert_eq!(path.len(), 2, "Can path to the target in 2 moves");

    s.add_tile(Tile::new(target, TileType::Wall(WallDirection::Full)));
    let path = s.path_to(start, target);
    assert_eq!(path.len(), 0, "Cannnot path to a wall");
}

#[test]
fn neighbors_come_in_alternating_order() {
    let s = open_room((0, 0), (4, 4));
    let order = |pos: GridPosition| -> Vec<(i32, i32)> {
        s.get_neighbors(pos)
            .iter()
            .map(|tile| (tile.pos.x, tile.pos.y))
            .collect()
    };
    // odd sum: east, west, north, south
    assert_eq!(vec![(3, 1), (1, 1), (2, 0), (2, 2)], order(GridPosition::new(2, 1)));
    // even sum: south, north, west, east
    assert_eq!(vec![(2, 3), (2, 1), (1, 2), (3, 2)], order(GridPosition::new(2, 2)));
}

#[test]
fn neighbors_at_the_edge_of_the_grid() {
    let mut s = test_station();
    let corner = GridPosition::new(i32::MAX, i32::MIN);
    s.add_tile(Tile::new(corner, TileType::Floor));
    s.add_tile(Tile::new(GridPosition::new(i32::MAX - 1, i32::MIN), TileType::Floor));
    let neighbors = s.get_neighbors(corner);
    assert_eq!(1, neighbors.len());
    assert_eq!(GridPosition::new(i32::MAX - 1, i32::MIN), neighbors[0].pos);
}

#[test]
fn path_in_open_room_is_as_long_as_the_distance() {
    let s = open_room((-2, -3), (5, 4));
    let cells = [(-2, -3), (5, 4), (0, 0), (3, -1), (-2, 4), (5, -3)];
    for a in cells {
        for b in cells {
            let from = GridPosition::new(a.0, a.1);
            let to = GridPosition::new(b.0, b.1);
            let path = s.path_to(from, to);
            assert_eq!(from.distance(to) as usize, path.len());
            let mut at = from;
            for step in path.iter() {
                assert!(is_step(at, *step));
                at = *step;
            }
            assert_eq!(to, at);
        }
    }
}

#[test]
fn path_goes_round_walls_and_never_through() {
    // a wall across the room with one opening at the bottom
    let mut s = open_room((0, 0), (4, 4));
    for y in 0..4 {
        s.add_tile(Tile::new(
            GridPosition::new(2, y),
            TileType::Wall(WallDirection::InteriorVertical),
        ));
    }
    let from = GridPosition::new(0, 0);
    let to = GridPosition::new(4, 0);
    let path = s.path_to(from, to);
    assert_eq!(12, path.len());
    assert_eq!(Some(&to), path.last());
    for step in path.iter() {
        let tile = s.get_tile(*step).unwrap();
        assert!(!matches!(tile.kind, TileType::Wall(_)));
    }
    assert!(path.contains(&GridPosition::new(2, 4)));
}

#[test]
fn doors_let_routes_through() {
    let mut s = open_room((0, 0), (2, 0));
    s.add_tile(Tile::new(
        GridPosition::new(1, 0),
        TileType::Door(WallDirection::InteriorVertical),
    ));
    let path = s.path_to(GridPosition::new(0, 0), GridPosition::new(2, 0));
    assert_eq!(
        vec![GridPosition::new(1, 0), GridPosition::new(2, 0)],
        path
    );
}

#[test]
fn walled_in_target_cannot_be_reached() {
    let mut s = open_room((0, 0), (6, 6));
    let target = GridPosition::new(3, 3);
    for (x, y) in [(2, 3), (4, 3), (3, 2), (3, 4)] {
        s.add_tile(Tile::new(
            GridPosition::new(x, y),
            TileType::Wall(WallDirection::Full),
        ));
    }
    for (x, y) in [(0, 0), (6, 6), (2, 2), (4, 4), (3, 0), (0, 3)] {
        let path = s.path_to(GridPosition::new(x, y), target);
        assert!(path.is_empty());
    }
}

#[test]
fn path_to_itself_is_empty() {
    let s = test_station_full();
    let here = GridPosition::new(1, 1);
    assert!(s.path_to(here, here).is_empty());
}

#[test]
fn path_to_a_missing_tile_is_empty() {
    let s = test_station_full();
    assert!(s
        .path_to(GridPosition::new(1, 1), GridPosition::new(9, 9))
        .is_empty());
}

#[test]
fn path_may_start_off_the_station() {
    let s = open_room((0, 0), (2, 0));
    let path = s.path_to(GridPosition::new(-1, 0), GridPosition::new(1, 0));
    assert_eq!(
        vec![GridPosition::new(0, 0), GridPosition::new(1, 0)],
        path
    );
}

#[test]
fn nearest_prefers_the_shorter_way_and_the_earlier_candidate() {
    let s = open_room((0, 0), (4, 0));
    let from = GridPosition::new(2, 0);
    let far = GridPosition::new(0, 0);
    let near_right = GridPosition::new(3, 0);
    let near_left = GridPosition::new(1, 0);
    let nowhere = GridPosition::new(9, 9);
    assert_eq!(
        Some(near_right),
        s.nearest(from, &vec![far, nowhere, near_right, near_left, from])
    );
    assert_eq!(None, s.nearest(from, &vec![nowhere, from]));
    assert_eq!(None, s.nearest(from, &vec![]));
}

#[test]
fn frontier_gives_cheapest_first_and_breaks_ties_by_position() {
    let mut frontier = Frontier::new();
    let entries = [
        Movement { cost: 7, pos: GridPosition::new(0, 0) },
        Movement { cost: 3, pos: GridPosition::new(2, 5) },
        Movement { cost: 3, pos: GridPosition::new(1, 1) },
        Movement { cost: 3, pos: GridPosition::new(1, 4) },
        Movement { cost: 9, pos: GridPosition::new(-3, 0) },
    ];
    for entry in entries {
        frontier.push(entry);
    }
    assert_eq!(5, frontier.len());
    let mut out = Vec::new();
    while let Some(m) = frontier.pop() {
        out.push((m.cost, m.pos.x, m.pos.y));
    }
    assert_eq!(
        vec![(3, 1, 4), (3, 1, 1), (3, 2, 5), (7, 0, 0), (9, -3, 0)],
        out
    );
    assert!(frontier.is_empty());
}

#[test]
fn movement_order_puts_the_cheaper_one_on_top() {
    let cheap = Movement { cost: 1, pos: GridPosition::new(5, 5) };
    let dear = Movement { cost: 2, pos: GridPosition::new(0, 0) };
    assert!(cheap > dear);
    let left = Movement { cost: 2, pos: GridPosition::new(-1, 0) };
    assert!(left > dear);
    assert!(GridPosition::new(0, 1) > GridPosition::new(0, 0));
    assert!(GridPosition::new(0, 0) > GridPosition::new(1, 7));
}

#[test]
fn distance_is_manhattan() {
    assert_eq!(7, GridPosition::new(1, 2).distance(GridPosition::new(-2, 6)));
    assert_eq!(0, GridPosition::new(3, 3).distance(GridPosition::new(3, 3)));
    assert_eq!(
        (u32::MAX as u64) * 2,
        GridPosition::new(i32::MIN, i32::MAX).steps_to(GridPosition::new(i32::MAX, i32::MIN))
    );
    assert_eq!(GridPosition::new(4, -4), GridPosition::from((4, -4)));
}

#[test]
fn replacing_a_tile_keeps_the_count_and_the_order() {
    let mut s = test_station();
    s.add_tile(Tile::new(GridPosition::new(0, 0), TileType::Floor));
    s.add_tile(Tile::new(GridPosition::new(1, 0), TileType::Floor));
    s.add_tile(Tile::new(
        GridPosition::new(0, 0),
        TileType::Wall(WallDirection::Full),
    ));
    assert_eq!(2, s.num_tiles());
    assert_eq!(
        &vec![GridPosition::new(0, 0), GridPosition::new(1, 0)],
        s.positions()
    );
    assert_eq!(
        TileType::Wall(WallDirection::Full),
        s.get_tile(GridPosition::new(0, 0)).unwrap().kind
    );
    s.remove_tile(GridPosition::new(0, 0));
    assert_eq!(&vec![GridPosition::new(1, 0)], s.positions());
    s.remove_tile(GridPosition::new(7, 7));
    assert_eq!(1, s.num_tiles());
}

#[test]
fn random_tile_is_always_one_of_the_kind() {
    let s = test_station_full();
    let mut rng = Rand32::new(17);
    let mut seen = std::collections::HashSet::new();
    for _ in 0..200 {
        let tile = s.get_random_tile(TileType::Floor, &mut rng).unwrap();
        assert_eq!(TileType::Floor, tile.kind);
        seen.insert((tile.pos.x, tile.pos.y));
    }
    assert_eq!(4, seen.len());
    for _ in 0..50 {
        let tile = s
            .get_random_tile(TileType::Wall(WallDirection::ExteriorCornerTopLeft), &mut rng)
            .unwrap();
        assert_eq!(GridPosition::new(0, 0), tile.pos);
    }
}

#[test]
fn tiles_of_a_kind_come_oldest_first() {
    let s = test_station_full();
    assert_eq!(
        vec![
            GridPosition::new(1, 1),
            GridPosition::new(1, 2),
            GridPosition::new(2, 1),
            GridPosition::new(2, 2)
        ],
        s.tiles_of_kind(TileType::Floor)
    );
    assert_eq!(
        GridPosition::new(2, 1),
        s.nth_of_kind(TileType::Floor, 2).unwrap().pos
    );
    assert_eq!(None, s.nth_of_kind(TileType::Floor, 4));
}

#[test]
fn items_are_found_on_tiles_and_in_containers() {
    let mut s = open_room((0, 0), (3, 0));
    let fridge_at = GridPosition::new(2, 0);
    let bar_at = GridPosition::new(0, 0);
    assert!(s.place_item(
        fridge_at,
        Item::new(fridge_at, ItemType::Container(ContainerType::Fridge))
    ));
    let bar = Item::new(bar_at, ItemType::Food(FoodType::EnergyBar));
    let bar_id = bar.get_id();
    assert!(s.place_item(bar_at, bar));
    assert!(!s.place_item(
        GridPosition::new(9, 9),
        Item::new(bar_at, ItemType::Food(FoodType::EnergyBar))
    ));
    assert_eq!(vec![bar_at, fridge_at], s.find_items(get_food_types()));
    assert_eq!(vec![fridge_at], s.find_items(get_drink_types()));
    let tile = s.get_tile(fridge_at).unwrap();
    assert!(tile.has_item(get_drink_types()));
    assert_eq!(
        ItemType::Container(ContainerType::Fridge),
        tile.get_item(get_drink_types()).unwrap().get_type()
    );
    s.remove_item(bar_at, bar_id);
    assert_eq!(vec![fridge_at], s.find_items(get_food_types()));
}
