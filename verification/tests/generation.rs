use oorandom::Rand32;
use space_station_god_game::item::{ContainerType, DrinkType, FoodType, ItemType};
use space_station_god_game::station::gridposition::GridPosition;
use space_station_god_game::station::station::Station;
use space_station_god_game::station::tile::{Tile, TileType, WallDirection};

fn floors(cells: &[(i32, i32)]) -> Station {
    let mut s = Station::empty();
    for (x, y) in cells {
        s.add_tile(Tile::new(GridPosition::new(*x, *y), TileType::Floor));
    }
    s
}

fn cells_of(s: &Station) -> Vec<(i32, i32)> {
    let mut cells: Vec<(i32, i32)> = s.positions().iter().map(|p| (p.x, p.y)).collect();
    cells.sort();
    cells
}

fn around(x: i32, y: i32) -> Vec<(i32, i32)> {
    let mut cells = Vec::new();
    for dx in -1..=1 {
        for dy in -1..=1 {
            if dx != 0 || dy != 0 {
                cells.push((x + dx, y + dy));
            }
        }
    }
    cells
}

#[test]
fn generated_station_has_no_open_boundary() {
    for seed in 0..25u64 {
        let mut rng = Rand32::new(seed);
        let s = Station::new(21, 13, &mut rng);
        for pos in s.positions() {
            let tile = s.get_tile(*pos).unwrap();
            assert_eq!(*pos, tile.pos);
            match tile.kind {
                TileType::Floor => {
                    assert!(0 <= pos.x && pos.x < 21 && 0 <= pos.y && pos.y < 13);
                    for (x, y) in around(pos.x, pos.y) {
                        assert!(s.has_tile(GridPosition::new(x, y)));
                    }
                }
                TileType::Wall(direction) => {
                    assert_eq!(WallDirection::Full, direction);
                    assert!(around(pos.x, pos.y).iter().any(|(x, y)| {
                        s.get_tile(GridPosition::new(*x, *y))
                            .map_or(false, |t| t.kind == TileType::Floor)
                    }));
                }
                TileType::Door(_) => panic!("generation builds no doors"),
            }
        }
    }
}

#[test]
fn generation_is_decided_by_the_seed() {
    let a = Station::new(21, 13, &mut Rand32::new(42));
    let b = Station::new(21, 13, &mut Rand32::new(42));
    assert_eq!(a.positions(), b.positions());
    for pos in a.positions() {
        assert_eq!(a.get_tile(*pos).unwrap().kind, b.get_tile(*pos).unwrap().kind);
    }
}

#[test]
fn generated_station_has_one_fridge_on_its_oldest_floor() {
    let s = Station::new(21, 13, &mut Rand32::new(7));
    let first_floor = s
        .positions()
        .iter()
        .copied()
        .find(|p| s.get_tile(*p).unwrap().kind == TileType::Floor)
        .unwrap();
    for pos in s.positions() {
        let tile = s.get_tile(*pos).unwrap();
        if *pos == first_floor {
            assert_eq!(1, tile.items.len());
            let fridge = &tile.items[0];
            assert_eq!(ItemType::Container(ContainerType::Fridge), fridge.get_type());
            assert_eq!(first_floor, fridge.pos);
            assert_eq!(10, fridge.get_items().len());
            assert_eq!(
                ItemType::Food(FoodType::EnergyBar),
                fridge.get_items()[0].get_type()
            );
            assert_eq!(
                ItemType::Drink(DrinkType::Water),
                fridge.get_items()[1].get_type()
            );
        } else {
            assert!(tile.items.is_empty());
        }
    }
}

#[test]
fn empty_grid_gives_an_empty_station() {
    let s = Station::new(0, 0, &mut Rand32::new(1));
    assert_eq!(0, s.num_tiles());
    let s = Station::new(5, 0, &mut Rand32::new(1));
    assert_eq!(0, s.num_tiles());
    assert_eq!(None, s.get_random_tile(TileType::Floor, &mut Rand32::new(1)));
}

#[test]
fn seeding_lays_floor_below_the_mark_only() {
    let mut s = Station::empty();
    s.seed_cell(GridPosition::new(0, 0), 0);
    s.seed_cell(GridPosition::new(1, 0), 69);
    s.seed_cell(GridPosition::new(2, 0), 70);
    s.seed_cell(GridPosition::new(3, 0), 99);
    assert_eq!(vec![(0, 0), (1, 0)], cells_of(&s));
    assert_eq!(
        TileType::Floor,
        s.get_tile(GridPosition::new(1, 0)).unwrap().kind
    );
}

#[test]
fn about_seven_cells_in_ten_are_seeded() {
    let mut s = Station::empty();
    s.seed_floor(100, 100, &mut Rand32::new(2024));
    let n = s.num_tiles();
    assert!(6500 < n && n < 7500);
}

#[test]
fn floor_neighbors_are_counted_on_all_eight_sides() {
    let s = floors(&[(0, 0), (1, 1), (2, 2), (0, 2), (1, 0)]);
    assert_eq!(4, s.count_floor_neighbors(GridPosition::new(1, 1)));
    assert_eq!(2, s.count_floor_neighbors(GridPosition::new(0, 0)));
    assert_eq!(1, s.count_floor_neighbors(GridPosition::new(2, 2)));
    assert_eq!(0, s.count_floor_neighbors(GridPosition::new(9, 9)));
    assert_eq!(0, s.count_floor_neighbors(GridPosition::new(i32::MAX, i32::MAX)));
}

#[test]
fn smoothing_wears_away_and_fills_in_by_the_old_plan() {
    // (0,0), (2,0) and (2,2) have one floor neighbour each and go; (1,1) has
    // three and stays. (1,0) and (2,1) are empty with three floor neighbours
    // each, counting those that go in the same sweep: they are filled.
    let mut s = floors(&[(0, 0), (1, 1), (2, 0), (2, 2)]);
    s.smooth(3, 3);
    assert_eq!(vec![(1, 0), (1, 1), (2, 1)], cells_of(&s));
}

#[test]
fn smoothing_leaves_cells_outside_the_grid_alone() {
    let mut s = floors(&[(5, 5), (0, 0)]);
    s.smooth(2, 2);
    assert_eq!(vec![(5, 5)], cells_of(&s));
}

#[test]
fn walls_go_on_every_empty_cell_around_floor() {
    let mut s = floors(&[(0, 0), (1, 0)]);
    s.place_walls();
    let mut expected = vec![(0, 0), (1, 0)];
    for x in -1..=2 {
        expected.push((x, -1));
        expected.push((x, 1));
    }
    expected.push((-1, 0));
    expected.push((2, 0));
    expected.sort();
    assert_eq!(expected, cells_of(&s));
    assert_eq!(
        TileType::Wall(WallDirection::Full),
        s.get_tile(GridPosition::new(2, 1)).unwrap().kind
    );
    assert_eq!(
        TileType::Floor,
        s.get_tile(GridPosition::new(1, 0)).unwrap().kind
    );
}

#[test]
fn furnishing_without_floor_does_nothing() {
    let mut s = Station::empty();
    s.add_tile(Tile::new(
        GridPosition::new(0, 0),
        TileType::Wall(WallDirection::Full),
    ));
    s.furnish();
    assert!(s.get_tile(GridPosition::new(0, 0)).unwrap().items.is_empty());
}

#[test]
fn wall_direction_is_full() {
    let s = floors(&[(0, 0)]);
    assert_eq!(WallDirection::Full, s.get_wall_direction(GridPosition::new(0, 0)));
}

#[test]
fn a_plan_is_completed_the_same_way_every_time() {
    let plan = [(0, 0), (1, 0), (2, 0), (0, 1), (1, 1), (2, 1), (4, 4)];
    let mut a = floors(&plan);
    a.complete(5, 5);
    let mut b = floors(&plan);
    b.complete(5, 5);
    assert_eq!(a.positions(), b.positions());
    // the lone tile at (4,4) is worn away; the block stays and is walled in
    assert!(!a.has_tile(GridPosition::new(4, 4)));
    assert_eq!(
        TileType::Floor,
        a.get_tile(GridPosition::new(1, 1)).unwrap().kind
    );
    assert_eq!(
        TileType::Wall(WallDirection::Full),
        a.get_tile(GridPosition::new(-1, -1)).unwrap().kind
    );
    // the oldest floor tile comes first and gets the fridge
    assert_eq!(GridPosition::new(0, 0), a.positions()[0]);
    assert_eq!(1, a.get_tile(GridPosition::new(0, 0)).unwrap().items.len());
}

#[test]
fn seeded_floor_comes_in_the_order_of_the_sweep() {
    let mut s = Station::empty();
    s.seed_floor(6, 4, &mut Rand32::new(5));
    let cells: Vec<(i32, i32)> = s.positions().iter().map(|p| (p.x, p.y)).collect();
    let mut sorted = cells.clone();
    sorted.sort();
    assert_eq!(sorted, cells);
}

#[test]
fn smoothing_keeps_old_tiles_first_and_adds_new_ones_in_sweep_order() {
    let mut s = floors(&[(2, 2), (1, 1), (2, 0), (0, 0)]);
    s.smooth(3, 3);
    let cells: Vec<(i32, i32)> = s.positions().iter().map(|p| (p.x, p.y)).collect();
    assert_eq!(vec![(1, 1), (1, 0), (2, 1)], cells);
}
