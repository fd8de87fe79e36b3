use oorandom::Rand32;
use space_station_god_game::inhabitant::{
    crew_kind, random_crew_kind, Behavior, Inhabitant, InhabitantRecord, InhabitantType,
};
use space_station_god_game::item::{
    get_drink_types, get_food_types, ContainerType, DrinkType, FoodType, Item, ItemType,
};
use space_station_god_game::station::gridposition::GridPosition;
use space_station_god_game::station::station::Station;
use space_station_god_game::station::tile::{Tile, TileType, WallDirection};

fn corridor(len: i32) -> Station {
    let mut s = Station::empty();
    for x in 0..len {
        s.add_tile(Tile::new(GridPosition::new(x, 0), TileType::Floor));
    }
    s
}

fn strip(inhabitant: &mut Inhabitant) {
    let ids: Vec<u128> = inhabitant.get_items().iter().map(|item| item.get_id()).collect();
    for id in ids {
        inhabitant.remove_item(id);
    }
}

fn tile_at(s: &Station, x: i32) -> &Tile {
    s.get_tile(GridPosition::new(x, 0)).unwrap()
}

#[test]
fn inhabitant_can_move_to() {
    let inhabitant = Inhabitant::new(InhabitantType::Engineer);

    let floor_tile = Tile::new(GridPosition::new(1, 1), TileType::Floor);
    let wall_tile = Tile::new(GridPosition::new(1, 2), TileType::Wall(WallDirection::Full));
    let door_tile = Tile::new(GridPosition::new(1, 3), TileType::Door(WallDirection::Full));

    assert!(
        inhabitant.can_move_to(Some(&floor_tile)),
        "Inhabitants can move to floors"
    );
    assert!(
        inhabitant.can_move_to(Some(&door_tile)),
        "Inhabitants can move to doors"
    );
    assert!(
        !inhabitant.can_move_to(Some(&wall_tile)),
        "Inhabitants cannot move to walls"
    );
    assert!(
        !inhabitant.can_move_to(None),
        "Inhabitants cannot move to empty tiles"
    );

    let ghost = Inhabitant::new(InhabitantType::Phantom);
    assert!(
        ghost.can_move_to(Some(&floor_tile)),
        "Ghosts can move to floors"
    );
    assert!(
        ghost.can_move_to(Some(&door_tile)),
        "Ghosts can move to doors"
    );
    assert!(
        ghost.can_move_to(Some(&wall_tile)),
        "Ghosts can move to walls"
    );
    assert!(ghost.can_move_to(None), "Ghosts can move to empty tiles");
}

#[test]
fn inhabitant_wants_food() {
    let mut inhabitant = Inhabitant::new(InhabitantType::Engineer);
    assert_eq!(
        0.0,
        inhabitant.wants_food() as f32 / 100.0,
        "New inhabitants don't want food"
    );

    inhabitant.add_hunger(50);
    assert_eq!(0.5, inhabitant.wants_food() as f32 / 100.0, "Partly hungry");

    inhabitant.add_hunger(50);
    assert_eq!(1.0, inhabitant.wants_food() as f32 / 100.0, "Starving");

    inhabitant.die();
    assert_eq!(
        0.0,
        inhabitant.wants_food() as f32 / 100.0,
        "Ghosts aren't hungry"
    );
}

#[test]
fn inhabitant_wants_drink() {
    let mut inhabitant = Inhabitant::new(InhabitantType::Engineer);
    assert_eq!(
        0.0,
        inhabitant.wants_drink() as f32 / 100.0,
        "New inhabitants don't want drink"
    );

    inhabitant.add_thirst(50);
    assert_eq!(0.5, inhabitant.wants_drink() as f32 / 100.0, "Partly thirsty");

    inhabitant.add_thirst(50);
    assert_eq!(1.0, inhabitant.wants_drink() as f32 / 100.0, "Parched");

    inhabitant.die();
    assert_eq!(
        0.0,
        inhabitant.wants_drink() as f32 / 100.0,
        "Ghosts aren't thirsty"
    );
}

#[test]
fn new_inhabitant_is_healthy_and_carries_provisions() {
    let pilot = Inhabitant::new(InhabitantType::Pilot);
    assert_eq!(InhabitantType::Pilot, pilot.get_kind());
    assert_eq!((100, 0, 0), (pilot.get_health(), pilot.get_hunger(), pilot.get_thirst()));
    assert_eq!(0, pilot.get_age());
    assert_eq!(None, pilot.get_dest());
    assert!(pilot.get_behaviors().is_empty());
    let kinds: Vec<ItemType> = pilot.get_items().iter().map(|i| i.get_type()).collect();
    assert_eq!(
        vec![
            ItemType::Food(FoodType::EnergyBar),
            ItemType::Drink(DrinkType::Water)
        ],
        kinds
    );
    assert!(pilot.has_item(get_food_types()));
    let phantom = Inhabitant::new(InhabitantType::Phantom);
    assert!(phantom.get_items().is_empty());
    assert!(!phantom.has_item(get_food_types()));
    assert_ne!(pilot.get_id(), phantom.get_id());
}

#[test]
fn needs_never_exceed_the_full_mark() {
    let mut cook = Inhabitant::new(InhabitantType::Cook);
    for _ in 0..60 {
        cook.add_hunger(7);
        cook.add_thirst(255);
        assert!(cook.get_hunger() <= 100);
        assert!(cook.get_thirst() <= 100);
        assert!(cook.get_health() <= 100);
    }
}

#[test]
fn starving_hurts_one_point_at_a_time() {
    let mut miner = Inhabitant::new(InhabitantType::Miner);
    miner.add_hunger(99);
    assert_eq!((99, 100), (miner.get_hunger(), miner.get_health()));
    miner.add_hunger(1);
    assert_eq!((100, 99), (miner.get_hunger(), miner.get_health()));
    miner.add_hunger(0);
    assert_eq!((100, 98), (miner.get_hunger(), miner.get_health()));
    miner.add_thirst(200);
    assert_eq!((100, 97), (miner.get_thirst(), miner.get_health()));
}

#[test]
fn losing_all_health_makes_a_phantom() {
    let mut medic = Inhabitant::new(InhabitantType::Medic);
    medic.take_damage(99);
    assert_eq!((1, InhabitantType::Medic), (medic.get_health(), medic.get_kind()));
    medic.take_damage(200);
    assert_eq!(0, medic.get_health());
    assert_eq!(InhabitantType::Phantom, medic.get_kind());
    let wall = Tile::new(GridPosition::new(0, 0), TileType::Wall(WallDirection::Full));
    assert!(medic.can_move_to(Some(&wall)));
    assert!(medic.can_move_to(None));
    // phantoms are beyond hunger, thirst and harm
    medic.add_hunger(10);
    medic.add_thirst(10);
    medic.take_damage(10);
    assert_eq!((0, 0, 0), (medic.get_health(), medic.get_hunger(), medic.get_thirst()));
}

#[test]
fn eating_and_drinking_stop_at_nothing() {
    let mut soldier = Inhabitant::new(InhabitantType::Soldier);
    let at = GridPosition::new(0, 0);
    soldier.add_hunger(55);
    soldier.add_thirst(15);
    soldier.eat(&Item::new(at, ItemType::Food(FoodType::MealReadyToEat)));
    assert_eq!(5, soldier.get_hunger());
    soldier.eat(&Item::new(at, ItemType::Food(FoodType::EnergyBar)));
    assert_eq!(0, soldier.get_hunger());
    soldier.drink(&Item::new(at, ItemType::Drink(DrinkType::Coffee)));
    assert_eq!(7, soldier.get_thirst());
    soldier.drink(&Item::new(at, ItemType::Drink(DrinkType::Water)));
    assert_eq!(0, soldier.get_thirst());
}

#[test]
fn idle_inhabitant_decides_by_its_needs() {
    let mut a = Inhabitant::new(InhabitantType::Scientist);
    a.decide();
    assert_eq!(vec![Behavior::Wander], *a.get_behaviors());

    let mut b = Inhabitant::new(InhabitantType::Scientist);
    b.add_thirst(50);
    b.add_hunger(49);
    b.decide();
    assert_eq!(vec![Behavior::Drink], *b.get_behaviors());

    let mut c = Inhabitant::new(InhabitantType::Scientist);
    c.add_thirst(80);
    c.add_hunger(50);
    c.decide();
    assert_eq!(vec![Behavior::Eat], *c.get_behaviors());

    let mut d = Inhabitant::new(InhabitantType::Scientist);
    d.add_hunger(90);
    d.die();
    d.decide();
    assert_eq!(vec![Behavior::Wander], *d.get_behaviors());
}

#[test]
fn eating_from_the_pack_meets_the_goal() {
    let s = corridor(3);
    let mut rng = Rand32::new(1);
    let mut e = Inhabitant::new(InhabitantType::Engineer);
    e.add_hunger(60);
    assert_eq!(None, e.update(1000, tile_at(&s, 0), false, &s, &mut rng));
    assert_eq!(vec![Behavior::Eat], *e.get_behaviors());
    assert_eq!(None, e.update(1000, tile_at(&s, 0), false, &s, &mut rng));
    assert!(e.get_behaviors().is_empty());
    assert_eq!(50, e.get_hunger());
    assert_eq!(2, e.get_items().len());
    assert_eq!(2000, e.get_age());
}

#[test]
fn thirsty_without_drink_goes_searching_and_walks_there() {
    let mut s = corridor(5);
    let fridge_cell = GridPosition::new(3, 0);
    s.place_item(
        fridge_cell,
        Item::new(fridge_cell, ItemType::Container(ContainerType::Fridge)),
    );
    let mut rng = Rand32::new(1);
    let mut e = Inhabitant::new(InhabitantType::Engineer);
    strip(&mut e);
    e.add_thirst(70);

    // makes up its mind, finds nothing at hand, looks for the nearest drink
    e.update(10, tile_at(&s, 0), false, &s, &mut rng);
    assert_eq!(vec![Behavior::Drink], *e.get_behaviors());
    e.update(10, tile_at(&s, 0), false, &s, &mut rng);
    assert_eq!(
        vec![Behavior::Drink, Behavior::Search(get_drink_types())],
        *e.get_behaviors()
    );
    assert_eq!(None, e.update(10, tile_at(&s, 0), false, &s, &mut rng));
    assert_eq!(Some(fridge_cell), e.get_dest());
    assert_eq!(
        &vec![
            GridPosition::new(1, 0),
            GridPosition::new(2, 0),
            fridge_cell
        ],
        e.get_path()
    );
    assert_eq!(Some(GridPosition::new(1, 0)), e.next_waypoint());

    // on its way to the first cell
    assert_eq!(
        Some(GridPosition::new(1, 0)),
        e.update(500, tile_at(&s, 0), false, &s, &mut rng)
    );
    assert_eq!(500, e.get_move_elapsed());
    e.arrive(false);
    assert_eq!(Some(fridge_cell), e.get_dest());

    // found standing on the first cell: turns to the second, at a price
    assert_eq!(
        Some(GridPosition::new(1, 0)),
        e.update(500, tile_at(&s, 1), true, &s, &mut rng)
    );
    assert_eq!(Some(GridPosition::new(2, 0)), e.next_waypoint());
    assert_eq!(500, e.get_move_elapsed());
    assert_eq!((1, 71), (e.get_hunger(), e.get_thirst()));
    e.arrive(false);

    e.update(500, tile_at(&s, 2), true, &s, &mut rng);
    assert_eq!(Some(fridge_cell), e.next_waypoint());
    e.arrive(false);

    // the host sees it arrive: the search is over, drinking is next
    assert_eq!(
        Some(fridge_cell),
        e.update(500, tile_at(&s, 2), false, &s, &mut rng)
    );
    e.arrive(true);
    assert_eq!(None, e.get_dest());
    assert_eq!(vec![Behavior::Drink], *e.get_behaviors());
    e.update(10, tile_at(&s, 3), false, &s, &mut rng);
    assert!(e.get_behaviors().is_empty());
    assert_eq!(62, e.get_thirst());
}

#[test]
fn standing_on_the_last_waypoint_is_arrival() {
    let s = corridor(2);
    let mut e = Inhabitant::new(InhabitantType::Engineer);
    e.decide();
    e.set_destination(&s, GridPosition::new(0, 0), GridPosition::new(1, 0));
    assert_eq!(Some(GridPosition::new(1, 0)), e.get_dest());
    assert_eq!(Some(GridPosition::new(1, 0)), e.keep_moving(true, 5));
    assert_eq!(None, e.get_dest());
    assert!(e.get_behaviors().is_empty());
    assert_eq!((1, 1), (e.get_hunger(), e.get_thirst()));
    assert_eq!(None, e.keep_moving(true, 5));
}

#[test]
fn search_without_a_reachable_candidate_stalls() {
    let s = corridor(3);
    let mut e = Inhabitant::new(InhabitantType::Engineer);
    e.seek(&s, GridPosition::new(0, 0), &get_food_types());
    assert_eq!(None, e.get_dest());
    assert!(e.get_path().is_empty());
}

#[test]
fn no_way_means_no_destination() {
    let mut s = corridor(3);
    s.add_tile(Tile::new(
        GridPosition::new(1, 0),
        TileType::Wall(WallDirection::Full),
    ));
    let mut e = Inhabitant::new(InhabitantType::Engineer);
    e.set_destination(&s, GridPosition::new(0, 0), GridPosition::new(2, 0));
    assert_eq!(None, e.get_dest());
    e.set_destination(&s, GridPosition::new(0, 0), GridPosition::new(0, 0));
    assert_eq!(None, e.get_dest());
    let wall = s.get_tile(GridPosition::new(1, 0));
    e.head_for(&s, GridPosition::new(0, 0), wall);
    assert_eq!(None, e.get_dest());
}

#[test]
fn wandering_picks_a_floor_tile() {
    let s = corridor(6);
    let mut rng = Rand32::new(99);
    for _ in 0..20 {
        let mut e = Inhabitant::new(InhabitantType::Pilot);
        e.update(1, tile_at(&s, 2), false, &s, &mut rng);
        assert_eq!(vec![Behavior::Wander], *e.get_behaviors());
        e.update(1, tile_at(&s, 2), false, &s, &mut rng);
        match e.get_dest() {
            Some(dest) => {
                assert_ne!(GridPosition::new(2, 0), dest);
                assert_eq!(Some(&dest), e.get_path().last());
                assert_eq!((dest.x - 2).abs() as usize, e.get_path().len());
            }
            None => assert!(e.get_path().is_empty()),
        }
    }
}

#[test]
fn wandering_in_a_station_without_floor_stays_put() {
    let mut s = Station::empty();
    s.add_tile(Tile::new(
        GridPosition::new(0, 0),
        TileType::Wall(WallDirection::Full),
    ));
    let mut rng = Rand32::new(3);
    let mut phantom = Inhabitant::new(InhabitantType::Phantom);
    phantom.wander(&s, GridPosition::new(0, 0), &mut rng);
    assert_eq!(None, phantom.get_dest());
}

#[test]
fn times_stop_at_the_most_a_counter_holds() {
    let s = corridor(3);
    let mut rng = Rand32::new(1);
    let mut e = Inhabitant::new(InhabitantType::Engineer);
    e.update(u64::MAX, tile_at(&s, 0), false, &s, &mut rng);
    e.update(5, tile_at(&s, 0), false, &s, &mut rng);
    assert_eq!(u64::MAX, e.get_age());
}

#[test]
fn removing_an_item_from_the_pack() {
    let mut e = Inhabitant::new(InhabitantType::Engineer);
    let id = e.get_items()[0].get_id();
    e.remove_item(id);
    assert_eq!(1, e.get_items().len());
    assert!(!e.has_item(get_food_types()));
    assert!(e.has_item(get_drink_types()));
}

fn record() -> InhabitantRecord {
    InhabitantRecord {
        dest: Some(GridPosition::new(2, 0)),
        path: vec![GridPosition::new(1, 0), GridPosition::new(2, 0)],
        current_waypoint: 1,
        move_elapsed: 250,
        behaviors: vec![Behavior::Eat, Behavior::Search(get_food_types())],
        kind: InhabitantType::Cook,
        health: 80,
        hunger: 60,
        thirst: 10,
        age: 5_000_000,
        items: vec![],
        id: 42,
    }
}

#[test]
fn restoring_an_inhabitant_keeps_what_was_written_down() {
    let cook = Inhabitant::restore(record()).unwrap();
    assert_eq!(42, cook.get_id());
    assert_eq!(InhabitantType::Cook, cook.get_kind());
    assert_eq!((80, 60, 10), (cook.get_health(), cook.get_hunger(), cook.get_thirst()));
    assert_eq!(Some(GridPosition::new(2, 0)), cook.get_dest());
    assert_eq!(Some(GridPosition::new(2, 0)), cook.next_waypoint());
    assert_eq!(1, cook.get_current_waypoint());
    assert_eq!(250, cook.get_move_elapsed());
    assert_eq!(5_000_000, cook.get_age());
    assert_eq!(
        vec![Behavior::Eat, Behavior::Search(get_food_types())],
        *cook.get_behaviors()
    );
}

#[test]
fn restoring_refuses_what_is_not_sound() {
    let mut too_hungry = record();
    too_hungry.hunger = 101;
    assert!(Inhabitant::restore(too_hungry).is_none());

    let mut dead_but_no_phantom = record();
    dead_but_no_phantom.health = 0;
    assert!(Inhabitant::restore(dead_but_no_phantom).is_none());

    let mut phantom = record();
    phantom.health = 0;
    phantom.kind = InhabitantType::Phantom;
    assert!(Inhabitant::restore(phantom).is_some());

    let mut lost = record();
    lost.current_waypoint = 2;
    assert!(Inhabitant::restore(lost).is_none());

    let mut resting = record();
    resting.dest = None;
    resting.current_waypoint = 9;
    assert!(Inhabitant::restore(resting).is_some());
}

#[test]
fn crew_is_drawn_from_the_first_six_kinds() {
    assert_eq!(InhabitantType::Pilot, crew_kind(0));
    assert_eq!(InhabitantType::Engineer, crew_kind(1));
    assert_eq!(InhabitantType::Scientist, crew_kind(2));
    assert_eq!(InhabitantType::Medic, crew_kind(3));
    assert_eq!(InhabitantType::Soldier, crew_kind(4));
    assert_eq!(InhabitantType::Miner, crew_kind(5));
    assert_eq!(InhabitantType::Cook, crew_kind(6));
    let mut rng = Rand32::new(11);
    let mut seen = Vec::new();
    for _ in 0..300 {
        let kind = random_crew_kind(&mut rng);
        assert_ne!(InhabitantType::Phantom, kind);
        assert_ne!(InhabitantType::Cook, kind);
        if !seen.contains(&kind) {
            seen.push(kind);
        }
    }
    assert_eq!(6, seen.len());
}
