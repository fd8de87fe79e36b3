use space_station_god_game::item::{
    decimal_text, get_container_types, get_drink_types, get_food_types, ContainerType, DrinkType,
    FoodType, Item, ItemError, ItemType,
};
use space_station_god_game::station::gridposition::GridPosition;

fn fridge_at(x: i32, y: i32) -> Item {
    Item::new(GridPosition::new(x, y), ItemType::Container(ContainerType::Fridge))
}

fn empty(container: &mut Item) {
    let ids: Vec<u128> = container.get_items().iter().map(|item| item.get_id()).collect();
    for id in ids {
        container.remove_item(id);
    }
}

#[test]
fn new_fridge_contains_items() {
    let fridge = fridge_at(1, 1);
    assert_eq!(fridge.get_capacity(), fridge.get_items().len()); // Fridges come full
}

#[test]
fn fridge_add_item() {
    let mut fridge = fridge_at(1, 1);
    empty(&mut fridge); // Empty the fridge
    assert!(fridge
        .add_item(Item::new(fridge.pos, ItemType::Food(FoodType::EnergyBar)))
        .is_ok());
    assert_eq!(1, fridge.get_items().len());
}

#[test]
fn fridge_max_items() {
    let mut fridge = fridge_at(1, 1);
    while fridge.get_items().len() < fridge.get_capacity() {
        assert!(fridge
            .add_item(Item::new(fridge.pos, ItemType::Food(FoodType::EnergyBar)))
            .is_ok());
    }

    let result = fridge.add_item(Item::new(fridge.pos, ItemType::Food(FoodType::EnergyBar)));
    assert!(result.is_err());
}

#[test]
fn fridge_remove_item() {
    let mut fridge = fridge_at(1, 1);

    let id = fridge.get_items().last().unwrap().get_id();
    fridge.remove_item(id);
    assert_eq!(9, fridge.get_items().len()); // Fridges come full, so we should be down one item
}

#[test]
fn full_container_rejects_and_keeps_its_items() {
    let mut fridge = fridge_at(3, 4);
    let before: Vec<u128> = fridge.get_items().iter().map(|item| item.get_id()).collect();
    assert_eq!(10, before.len());
    let result = fridge.add_item(Item::new(fridge.pos, ItemType::Drink(DrinkType::Coffee)));
    assert_eq!(Err(ItemError::AtCapacity), result);
    let after: Vec<u128> = fridge.get_items().iter().map(|item| item.get_id()).collect();
    assert_eq!(before, after);
}

#[test]
fn fridge_is_stocked_in_turn() {
    let fridge = fridge_at(5, 5);
    assert_eq!(10, fridge.get_capacity());
    for (i, item) in fridge.get_items().iter().enumerate() {
        let expected = if i % 2 == 0 {
            ItemType::Food(FoodType::EnergyBar)
        } else {
            ItemType::Drink(DrinkType::Water)
        };
        assert_eq!(expected, item.get_type());
        assert_eq!(GridPosition::new(i as i32, 0), item.pos);
        assert_eq!(0, item.get_capacity());
        assert!(item.get_items().is_empty());
    }
}

#[test]
fn locker_comes_empty_with_room() {
    let locker = Item::new(GridPosition::new(0, 0), ItemType::Container(ContainerType::Locker));
    assert_eq!(10, locker.get_capacity());
    assert!(locker.get_items().is_empty());
}

#[test]
fn plain_item_takes_nothing() {
    let mut bar = Item::new(GridPosition::new(0, 0), ItemType::Food(FoodType::EnergyBar));
    assert_eq!(0, bar.get_capacity());
    let result = bar.add_item(Item::new(bar.pos, ItemType::Drink(DrinkType::Water)));
    assert_eq!(Err(ItemError::AtCapacity), result);
    assert!(bar.get_items().is_empty());
}

#[test]
fn fresh_items_differ_in_identity() {
    let a = Item::new(GridPosition::new(0, 0), ItemType::Food(FoodType::EnergyBar));
    let b = Item::new(GridPosition::new(0, 0), ItemType::Food(FoodType::EnergyBar));
    assert_ne!(a.get_id(), b.get_id());
}

#[test]
fn energy_and_hydration_by_kind() {
    let at = GridPosition::new(0, 0);
    let bar = Item::new(at, ItemType::Food(FoodType::EnergyBar));
    let meal = Item::new(at, ItemType::Food(FoodType::MealReadyToEat));
    let water = Item::new(at, ItemType::Drink(DrinkType::Water));
    let coffee = Item::new(at, ItemType::Drink(DrinkType::Coffee));
    let fridge = Item::new(at, ItemType::Container(ContainerType::Fridge));
    assert_eq!((10, 0), (bar.get_energy(), bar.get_hydration()));
    assert_eq!((50, 0), (meal.get_energy(), meal.get_hydration()));
    assert_eq!((0, 10), (water.get_energy(), water.get_hydration()));
    assert_eq!((3, 8), (coffee.get_energy(), coffee.get_hydration()));
    assert_eq!((0, 0), (fridge.get_energy(), fridge.get_hydration()));
}

#[test]
fn kinds_are_listed_in_order() {
    assert_eq!(
        vec![
            ItemType::Food(FoodType::EnergyBar),
            ItemType::Food(FoodType::MealReadyToEat)
        ],
        get_food_types()
    );
    assert_eq!(
        vec![
            ItemType::Drink(DrinkType::Water),
            ItemType::Drink(DrinkType::Coffee)
        ],
        get_drink_types()
    );
    assert_eq!(
        vec![
            ItemType::Container(ContainerType::Fridge),
            ItemType::Container(ContainerType::Locker)
        ],
        get_container_types()
    );
}

#[test]
fn container_offers_what_it_holds() {
    let fridge = fridge_at(0, 0);
    assert_eq!(
        Some(ItemType::Food(FoodType::EnergyBar)),
        fridge.offered(&get_food_types())
    );
    assert_eq!(
        Some(ItemType::Drink(DrinkType::Water)),
        fridge.offered(&get_drink_types())
    );
    assert_eq!(
        Some(ItemType::Container(ContainerType::Fridge)),
        fridge.offered(&get_container_types())
    );
    let locker = Item::new(GridPosition::new(0, 0), ItemType::Container(ContainerType::Locker));
    assert_eq!(None, locker.offered(&get_food_types()));
}

#[test]
fn removing_an_unknown_identity_changes_nothing() {
    let mut fridge = fridge_at(0, 0);
    let stranger = Item::new(GridPosition::new(0, 0), ItemType::Food(FoodType::EnergyBar));
    fridge.remove_item(stranger.get_id());
    assert_eq!(10, fridge.get_items().len());
}

#[test]
fn names_tell_what_an_item_is_good_for() {
    let at = GridPosition::new(0, 0);
    let name = |kind: ItemType| Item::new(at, kind).get_name();
    assert_eq!(
        "Your basic energy bar. Restores 10 hunger",
        name(ItemType::Food(FoodType::EnergyBar))
    );
    assert_eq!(
        "An entire MRE. Restores 50 hunger",
        name(ItemType::Food(FoodType::MealReadyToEat))
    );
    assert_eq!(
        "Your standard bottle of water. Restores 10 thirst",
        name(ItemType::Drink(DrinkType::Water))
    );
    assert_eq!(
        "A cup of \"fresh\"-brewed coffed. Restores 8 thirst and 3 energy",
        name(ItemType::Drink(DrinkType::Coffee))
    );
    assert_eq!(
        "Keeps food and drink cold. Has 10 items.",
        name(ItemType::Container(ContainerType::Fridge))
    );
    assert_eq!(
        "Storage container. Has 0 items.",
        name(ItemType::Container(ContainerType::Locker))
    );
}

#[test]
fn numbers_are_written_in_decimal() {
    assert_eq!("0", decimal_text(0));
    assert_eq!("7", decimal_text(7));
    assert_eq!("10", decimal_text(10));
    assert_eq!("4096", decimal_text(4096));
    assert_eq!(usize::MAX.to_string(), decimal_text(usize::MAX));
}

#[test]
fn restoring_keeps_what_was_written_down() {
    let at = GridPosition::new(2, 3);
    let inner = Item::restore(7, ItemType::Drink(DrinkType::Coffee), at, vec![]).unwrap();
    let locker =
        Item::restore(8, ItemType::Container(ContainerType::Locker), at, vec![inner]).unwrap();
    assert_eq!(8, locker.get_id());
    assert_eq!(ItemType::Container(ContainerType::Locker), locker.get_type());
    assert_eq!(at, locker.pos);
    assert_eq!(10, locker.get_capacity());
    assert_eq!(1, locker.get_items().len());
    assert_eq!(7, locker.get_items()[0].get_id());
}

#[test]
fn restoring_refuses_what_does_not_fit() {
    let at = GridPosition::new(0, 0);
    let inner = Item::restore(1, ItemType::Food(FoodType::EnergyBar), at, vec![]).unwrap();
    let result = Item::restore(2, ItemType::Drink(DrinkType::Water), at, vec![inner]);
    assert_eq!(Some(ItemError::AtCapacity), result.err());
    let mut many = Vec::new();
    for id in 0..11 {
        many.push(Item::restore(id, ItemType::Food(FoodType::EnergyBar), at, vec![]).unwrap());
    }
    let result = Item::restore(99, ItemType::Container(ContainerType::Fridge), at, many);
    assert_eq!(Some(ItemError::AtCapacity), result.err());
}
