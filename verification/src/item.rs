use crate::random::fresh_id;
use crate::station::gridposition::GridPosition;
use vstd::prelude::*;
use vstd::string::StringExecFns;

verus! {

#[derive(Copy, Clone, Eq, PartialEq, Structural, Debug)]
pub enum ItemType {
    Food(FoodType),
    Drink(DrinkType),
    Container(ContainerType),
}

#[derive(Copy, Clone, Eq, PartialEq, Structural, Debug)]
pub enum FoodType {
    EnergyBar,
    MealReadyToEat,
}

#[derive(Copy, Clone, Eq, PartialEq, Structural, Debug)]
pub enum DrinkType {
    Water,
    Coffee,
}

#[derive(Copy, Clone, Eq, PartialEq, Structural, Debug)]
pub enum ContainerType {
    Fridge,
    Locker,
}

/// Why an item could not be stored.
#[derive(Copy, Clone, Eq, PartialEq, Structural, Debug)]
pub enum ItemError {
    /// The container already holds as many items as it has room for.
    AtCapacity,
}

/// How many items a container takes.
pub const CONTAINER_CAPACITY: usize = 10;

/// Every kind of food, in declaration order.
pub fn get_food_types() -> (types: Vec<ItemType>)
    ensures
        types@ == seq![
            ItemType::Food(FoodType::EnergyBar),
            ItemType::Food(FoodType::MealReadyToEat),
        ],
{
    let mut types: Vec<ItemType> = Vec::new();
    types.push(ItemType::Food(FoodType::EnergyBar));
    types.push(ItemType::Food(FoodType::MealReadyToEat));
    assert(types@ =~= seq![
        ItemType::Food(FoodType::EnergyBar),
        ItemType::Food(FoodType::MealReadyToEat),
    ]);
    types
}

/// Every kind of drink, in declaration order.
pub fn get_drink_types() -> (types: Vec<ItemType>)
    ensures
        types@ == seq![ItemType::Drink(DrinkType::Water), ItemType::Drink(DrinkType::Coffee)],
{
    let mut types: Vec<ItemType> = Vec::new();
    types.push(ItemType::Drink(DrinkType::Water));
    types.push(ItemType::Drink(DrinkType::Coffee));
    assert(types@ =~= seq![
        ItemType::Drink(DrinkType::Water),
        ItemType::Drink(DrinkType::Coffee),
    ]);
    types
}

/// Every kind of container, in declaration order.
pub fn get_container_types() -> (types: Vec<ItemType>)
    ensures
        types@ == seq![
            ItemType::Container(ContainerType::Fridge),
            ItemType::Container(ContainerType::Locker),
        ],
{
    let mut types: Vec<ItemType> = Vec::new();
    types.push(ItemType::Container(ContainerType::Fridge));
    types.push(ItemType::Container(ContainerType::Locker));
    assert(types@ =~= seq![
        ItemType::Container(ContainerType::Fridge),
        ItemType::Container(ContainerType::Locker),
    ]);
    types
}

/// Hunger that one item of this kind takes away.
pub open spec fn energy_of(kind: ItemType) -> u8 {
    match kind {
        ItemType::Food(FoodType::EnergyBar) => 10,
        ItemType::Food(FoodType::MealReadyToEat) => 50,
        ItemType::Drink(DrinkType::Coffee) => 3,
        ItemType::Drink(DrinkType::Water) => 0,
        ItemType::Container(_) => 0,
    }
}

/// Thirst that one item of this kind takes away.
pub open spec fn hydration_of(kind: ItemType) -> u8 {
    match kind {
        ItemType::Drink(DrinkType::Water) => 10,
        ItemType::Drink(DrinkType::Coffee) => 8,
        _ => 0,
    }
}

/// Room inside an item of this kind: containers have some, nothing else does.
pub open spec fn capacity_of(kind: ItemType) -> usize {
    match kind {
        ItemType::Container(_) => CONTAINER_CAPACITY,
        _ => 0,
    }
}

/// What a new item of this kind comes filled with. A fridge comes full, energy
/// bars and water bottles in turn; everything else comes empty.
pub open spec fn stock_of(kind: ItemType) -> Seq<ItemType> {
    match kind {
        ItemType::Container(ContainerType::Fridge) => Seq::new(
            CONTAINER_CAPACITY as nat,
            |i: int|
                if i % 2 == 0 {
                    ItemType::Food(FoodType::EnergyBar)
                } else {
                    ItemType::Drink(DrinkType::Water)
                },
        ),
        _ => Seq::empty(),
    }
}

pub fn energy_for(kind: ItemType) -> (e: u8)
    ensures
        e == energy_of(kind),
{
    match kind {
        ItemType::Food(food_type) => match food_type {
            FoodType::EnergyBar => 10,
            FoodType::MealReadyToEat => 50,
        },
        ItemType::Drink(drink_type) => match drink_type {
            DrinkType::Coffee => 3,
            DrinkType::Water => 0,
        },
        _ => 0,
    }
}

pub fn hydration_for(kind: ItemType) -> (h: u8)
    ensures
        h == hydration_of(kind),
{
    match kind {
        ItemType::Drink(drink_type) => match drink_type {
            DrinkType::Water => 10,
            DrinkType::Coffee => 8,
        },
        _ => 0,
    }
}

/// The character for a single digit.
pub open spec fn digit(d: nat) -> char {
    if d == 0 {
        '0'
    } else if d == 1 {
        '1'
    } else if d == 2 {
        '2'
    } else if d == 3 {
        '3'
    } else if d == 4 {
        '4'
    } else if d == 5 {
        '5'
    } else if d == 6 {
        '6'
    } else if d == 7 {
        '7'
    } else if d == 8 {
        '8'
    } else {
        '9'
    }
}

/// A number written in decimal digits.
pub open spec fn decimal(n: nat) -> Seq<char>
    decreases n,
{
    if n < 10 {
        seq![digit(n)]
    } else {
        decimal(n / 10).push(digit(n % 10))
    }
}

/// What an item of the given kind that holds `held` items is called.
pub open spec fn name_of(kind: ItemType, held: nat) -> Seq<char> {
    match kind {
        ItemType::Food(FoodType::EnergyBar) => "Your basic energy bar. Restores "@ + decimal(
            energy_of(kind) as nat,
        ) + " hunger"@,
        ItemType::Food(FoodType::MealReadyToEat) => "An entire MRE. Restores "@ + decimal(
            energy_of(kind) as nat,
        ) + " hunger"@,
        ItemType::Drink(DrinkType::Water) => "Your standard bottle of water. Restores "@ + decimal(
            hydration_of(kind) as nat,
        ) + " thirst"@,
        ItemType::Drink(DrinkType::Coffee) => "A cup of \"fresh\"-brewed coffed. Restores "@
            + decimal(hydration_of(kind) as nat) + " thirst and "@ + decimal(
            energy_of(kind) as nat,
        ) + " energy"@,
        ItemType::Container(ContainerType::Fridge) => "Keeps food and drink cold. Has "@ + decimal(
            held,
        ) + " items."@,
        ItemType::Container(ContainerType::Locker) => "Storage container. Has "@ + decimal(held)
            + " items."@,
    }
}

fn digit_text(d: usize) -> (text: &'static str)
    requires
        d < 10,
    ensures
        text@ == seq![digit(d as nat)],
{
    proof {
        reveal_strlit("0");
        reveal_strlit("1");
        reveal_strlit("2");
        reveal_strlit("3");
        reveal_strlit("4");
        reveal_strlit("5");
        reveal_strlit("6");
        reveal_strlit("7");
        reveal_strlit("8");
        reveal_strlit("9");
    }
    let text = if d == 0 {
        "0"
    } else if d == 1 {
        "1"
    } else if d == 2 {
        "2"
    } else if d == 3 {
        "3"
    } else if d == 4 {
        "4"
    } else if d == 5 {
        "5"
    } else if d == 6 {
        "6"
    } else if d == 7 {
        "7"
    } else if d == 8 {
        "8"
    } else {
        "9"
    };
    assert(text@ =~= seq![digit(d as nat)]);
    text
}

/// Writes a number in decimal digits.
pub fn decimal_text(n: usize) -> (text: String)
    ensures
        text@ == decimal(n as nat),
    decreases n,
{
    if n < 10 {
        String::from_str(digit_text(n))
    } else {
        let mut text = decimal_text(n / 10);
        text.append(digit_text(n % 10));
        assert(text@ =~= decimal(n as nat));
        text
    }
}

/// An object that lies on a tile, is carried by an inhabitant or is stored in
/// a container.
#[derive(Debug)]
pub struct Item {
    id: u128,
    kind: ItemType,
    pub pos: GridPosition,
    items: Vec<Item>,
    capacity: usize,
}

/// `items` without every item whose identity is `id`, the others in order.
pub open spec fn without_id(items: Seq<Item>, id: u128) -> Seq<Item>
    decreases items.len(),
{
    if items.len() == 0 {
        Seq::empty()
    } else if items[0].id() == id {
        without_id(items.skip(1), id)
    } else {
        seq![items[0]] + without_id(items.skip(1), id)
    }
}

/// Whether `item` counts as one of `kinds`: it is of such a kind itself, or it
/// is a container that directly holds an item of such a kind.
pub open spec fn offers(item: Item, kinds: Seq<ItemType>) -> bool {
    kinds.contains(item.kind()) || (item.kind() is Container && exists|j: int|
        0 <= j < item.contents().len() && kinds.contains(#[trigger] item.contents()[j].kind()))
}

/// The kind by which `item` counts as one of `kinds`: its own if that is among
/// them, else that of the first such item it holds.
pub open spec fn offered_kind(item: Item, kinds: Seq<ItemType>) -> ItemType
    recommends
        offers(item, kinds),
{
    if kinds.contains(item.kind()) {
        item.kind()
    } else {
        let j = first_of_kinds(item.contents(), kinds);
        item.contents()[j].kind()
    }
}

/// Index of the first of `items` whose own kind is among `kinds`, or the
/// length of `items` if there is none.
pub open spec fn first_of_kinds(items: Seq<Item>, kinds: Seq<ItemType>) -> int
    decreases items.len(),
{
    if items.len() == 0 {
        0
    } else if kinds.contains(items[0].kind()) {
        0
    } else {
        1 + first_of_kinds(items.skip(1), kinds)
    }
}

/// Index of the first of `items` that counts as one of `kinds`, or the length
/// of `items` if there is none.
pub open spec fn first_offering(items: Seq<Item>, kinds: Seq<ItemType>) -> int
    decreases items.len(),
{
    if items.len() == 0 {
        0
    } else if offers(items[0], kinds) {
        0
    } else {
        1 + first_offering(items.skip(1), kinds)
    }
}

impl Item {
    /// The identity of the item.
    pub closed spec fn id(&self) -> u128 {
        self.id
    }

    /// The cell the item is recorded at.
    pub closed spec fn position(&self) -> GridPosition {
        self.pos
    }

    /// The kind of the item.
    pub closed spec fn kind(&self) -> ItemType {
        self.kind
    }

    /// The items stored directly inside this one, in order of arrival.
    pub closed spec fn contents(&self) -> Seq<Item> {
        self.items@
    }

    /// How many items this one has room for.
    pub closed spec fn capacity(&self) -> usize {
        self.capacity
    }

    /// The item holds no more than it has room for.
    pub open spec fn within_capacity(&self) -> bool {
        self.contents().len() <= self.capacity()
    }

    fn bare(pos: GridPosition, kind: ItemType) -> (item: Item)
        ensures
            item.kind() == kind,
            item.position() == pos,
            item.contents() == Seq::<Item>::empty(),
            item.capacity() == capacity_of(kind),
    {
        let capacity: usize = match kind {
            ItemType::Container(_) => CONTAINER_CAPACITY,
            _ => 0,
        };
        Item { id: fresh_id(), kind, pos, items: Vec::new(), capacity }
    }

    /// Makes an item of the given kind with a fresh identity. Its room and its
    /// first contents follow from the kind alone; the contents of a fridge
    /// are laid out in a row starting at the origin.
    pub fn new(pos: GridPosition, kind: ItemType) -> (item: Item)
        ensures
            item.kind() == kind,
            item.position() == pos,
            item.capacity() == capacity_of(kind),
            item.within_capacity(),
            item.contents().len() == stock_of(kind).len(),
            forall|i: int|
                0 <= i < item.contents().len() ==> {
                    let inner = #[trigger] item.contents()[i];
                    &&& inner.kind() == stock_of(kind)[i]
                    &&& inner.position() == (GridPosition { x: i as i32, y: 0 })
                    &&& inner.contents().len() == 0
                    &&& inner.capacity() == 0
                },
    {
        let mut item = Item::bare(pos, kind);
        match kind {
            ItemType::Container(ContainerType::Fridge) => {
                let mut i: usize = 0;
                while i < CONTAINER_CAPACITY
                    invariant
                        i <= CONTAINER_CAPACITY,
                        item.kind == kind,
                        item.pos == pos,
                        item.capacity == CONTAINER_CAPACITY,
                        kind == ItemType::Container(ContainerType::Fridge),
                        item.items@.len() == i,
                        forall|k: int|
                            0 <= k < i ==> {
                                let inner = #[trigger] item.items@[k];
                                &&& inner.kind() == stock_of(kind)[k]
                                &&& inner.position() == (GridPosition { x: k as i32, y: 0 })
                                &&& inner.contents().len() == 0
                                &&& inner.capacity() == 0
                            },
                    decreases CONTAINER_CAPACITY - i,
                {
                    let inner_kind = if i % 2 == 0 {
                        ItemType::Food(FoodType::EnergyBar)
                    } else {
                        ItemType::Drink(DrinkType::Water)
                    };
                    let inner = Item::bare(GridPosition::new(i as i32, 0), inner_kind);
                    item.items.push(inner);
                    i = i + 1;
                }
            },
            _ => {},
        }
        item
    }

    /// Puts an item together again from what was written down of it. Its
    /// room follows from its kind; contents that do not fit are refused.
    pub fn restore(id: u128, kind: ItemType, pos: GridPosition, items: Vec<Item>) -> (r: Result<
        Item,
        ItemError,
    >)
        ensures
            items@.len() > capacity_of(kind) ==> r == Err::<Item, ItemError>(ItemError::AtCapacity),
            items@.len() <= capacity_of(kind) ==> r is Ok && {
                let item = r->Ok_0;
                &&& item.id() == id
                &&& item.kind() == kind
                &&& item.position() == pos
                &&& item.contents() == items@
                &&& item.capacity() == capacity_of(kind)
            },
    {
        let capacity: usize = match kind {
            ItemType::Container(_) => CONTAINER_CAPACITY,
            _ => 0,
        };
        if items.len() > capacity {
            return Err(ItemError::AtCapacity);
        }
        Ok(Item { id, kind, pos, items, capacity })
    }

    pub fn get_id(&self) -> (id: u128)
        ensures
            id == self.id(),
    {
        self.id
    }

    /// What the item is called, with what it is good for.
    pub fn get_name(&self) -> (name: String)
        ensures
            name@ == name_of(self.kind(), self.contents().len()),
    {
        match self.kind {
            ItemType::Food(food_type) => {
                let mut name = match food_type {
                    FoodType::EnergyBar => String::from_str("Your basic energy bar. Restores "),
                    FoodType::MealReadyToEat => String::from_str("An entire MRE. Restores "),
                };
                name.append(decimal_text(self.get_energy() as usize).as_str());
                name.append(" hunger");
                name
            },
            ItemType::Drink(drink_type) => match drink_type {
                DrinkType::Water => {
                    let mut name = String::from_str("Your standard bottle of water. Restores ");
                    name.append(decimal_text(self.get_hydration() as usize).as_str());
                    name.append(" thirst");
                    name
                },
                DrinkType::Coffee => {
                    let mut name = String::from_str("A cup of \"fresh\"-brewed coffed. Restores ");
                    name.append(decimal_text(self.get_hydration() as usize).as_str());
                    name.append(" thirst and ");
                    name.append(decimal_text(self.get_energy() as usize).as_str());
                    name.append(" energy");
                    name
                },
            },
            ItemType::Container(container_type) => {
                let mut name = match container_type {
                    ContainerType::Fridge => String::from_str("Keeps food and drink cold. Has "),
                    ContainerType::Locker => String::from_str("Storage container. Has "),
                };
                name.append(decimal_text(self.items.len()).as_str());
                name.append(" items.");
                name
            },
        }
    }

    pub fn get_type(&self) -> (kind: ItemType)
        ensures
            kind == self.kind(),
    {
        self.kind
    }

    pub fn get_items(&self) -> (items: &Vec<Item>)
        ensures
            items@ == self.contents(),
    {
        &self.items
    }

    pub fn get_capacity(&self) -> (capacity: usize)
        ensures
            capacity == self.capacity(),
    {
        self.capacity
    }

    /// Stores `item` at the end of the contents, unless there is no room left:
    /// then nothing changes and the item is dropped.
    pub fn add_item(&mut self, item: Item) -> (r: Result<(), ItemError>)
        ensures
            old(self).contents().len() >= old(self).capacity() ==> r == Err::<(), ItemError>(
                ItemError::AtCapacity,
            ) && *final(self) == *old(self),
            old(self).contents().len() < old(self).capacity() ==> r is Ok
                && final(self).contents() == old(self).contents().push(item),
            final(self).id() == old(self).id(),
            final(self).kind() == old(self).kind(),
            final(self).position() == old(self).position(),
            final(self).capacity() == old(self).capacity(),
            old(self).within_capacity() ==> final(self).within_capacity(),
    {
        if self.items.len() >= self.capacity {
            return Err(ItemError::AtCapacity);
        }
        self.items.push(item);
        Ok(())
    }

    /// Takes every item with the given identity out of the contents.
    pub fn remove_item(&mut self, id: u128)
        ensures
            final(self).contents() == without_id(old(self).contents(), id),
            final(self).id() == old(self).id(),
            final(self).kind() == old(self).kind(),
            final(self).position() == old(self).position(),
            final(self).capacity() == old(self).capacity(),
            old(self).within_capacity() ==> final(self).within_capacity(),
    {
        proof {
            lemma_without_id_len(self.items@, id);
        }
        remove_by_id(&mut self.items, id);
    }

    /// Tells whether this item counts as one of `kinds`, and by which kind.
    pub fn offered(&self, kinds: &Vec<ItemType>) -> (kind: Option<ItemType>)
        ensures
            match kind {
                Some(k) => offers(*self, kinds@) && k == offered_kind(*self, kinds@),
                None => !offers(*self, kinds@),
            },
    {
        if kind_in(kinds, self.kind) {
            return Some(self.kind);
        }
        match self.kind {
            ItemType::Container(_) => {
                proof {
                    lemma_first_of_kinds(self.items@, kinds@);
                }
                let j = find_of_kinds(&self.items, kinds);
                if j < self.items.len() {
                    Some(self.items[j].kind)
                } else {
                    None
                }
            },
            _ => None,
        }
    }

    pub fn get_energy(&self) -> (e: u8)
        ensures
            e == energy_of(self.kind()),
    {
        energy_for(self.kind)
    }

    pub fn get_hydration(&self) -> (h: u8)
        ensures
            h == hydration_of(self.kind()),
    {
        hydration_for(self.kind)
    }
}

/// Removing items never makes a sequence longer.
pub proof fn lemma_without_id_len(items: Seq<Item>, id: u128)
    ensures
        without_id(items, id).len() <= items.len(),
    decreases items.len(),
{
    if items.len() > 0 {
        lemma_without_id_len(items.skip(1), id);
    }
}

/// Takes every item with the given identity out of `items` and keeps the
/// order of the others.
pub fn remove_by_id(items: &mut Vec<Item>, id: u128)
    ensures
        final(items)@ == without_id(old(items)@, id),
{
    let ghost before = items@;
    let mut i: usize = items.len();
    assert(before.skip(i as int) =~= Seq::<Item>::empty());
    assert(before.take(i as int) =~= before);
    while i > 0
        invariant
            i <= before.len(),
            items@ == before.take(i as int) + without_id(before.skip(i as int), id),
        decreases i,
    {
        i = i - 1;
        let ghost tail = before.skip(i as int);
        assert(tail.skip(1) =~= before.skip(i + 1));
        assert(before.take(i + 1) =~= before.take(i as int).push(before[i as int]));
        assert(items@[i as int] == before[i as int]);
        if items[i].id == id {
            items.remove(i);
            assert(items@ =~= before.take(i as int) + without_id(tail, id));
        } else {
            assert(items@ =~= before.take(i as int) + without_id(tail, id));
        }
    }
    assert(before.skip(0) =~= before);
}

/// Whether `kind` is one of `kinds`.
pub fn kind_in(kinds: &Vec<ItemType>, kind: ItemType) -> (found: bool)
    ensures
        found == kinds@.contains(kind),
{
    let mut i: usize = 0;
    while i < kinds.len()
        invariant
            i <= kinds@.len(),
            forall|k: int| 0 <= k < i ==> kinds@[k] != kind,
        decreases kinds@.len() - i,
    {
        if kinds[i] == kind {
            return true;
        }
        i = i + 1;
    }
    false
}

/// Whether any of `items` counts as one of `kinds`.
pub open spec fn holds_any(items: Seq<Item>, kinds: Seq<ItemType>) -> bool {
    exists|i: int| 0 <= i < items.len() && offers(#[trigger] items[i], kinds)
}

/// `first_of_kinds` gives the least index whose item is of one of the kinds.
pub proof fn lemma_first_of_kinds(items: Seq<Item>, kinds: Seq<ItemType>)
    ensures
        0 <= first_of_kinds(items, kinds) <= items.len(),
        first_of_kinds(items, kinds) < items.len() ==> kinds.contains(
            items[first_of_kinds(items, kinds)].kind(),
        ),
        forall|k: int|
            0 <= k < first_of_kinds(items, kinds) ==> !kinds.contains((#[trigger] items[k]).kind()),
    decreases items.len(),
{
    if items.len() > 0 && !kinds.contains(items[0].kind()) {
        let rest = items.skip(1);
        lemma_first_of_kinds(rest, kinds);
        assert forall|k: int| 0 <= k < first_of_kinds(items, kinds) implies !kinds.contains(
            (#[trigger] items[k]).kind(),
        ) by {
            if k > 0 {
                assert(items[k] == rest[k - 1]);
            }
        }
    }
}

/// `first_offering` gives the least index whose item counts as one of the
/// kinds.
pub proof fn lemma_first_offering(items: Seq<Item>, kinds: Seq<ItemType>)
    ensures
        0 <= first_offering(items, kinds) <= items.len(),
        first_offering(items, kinds) < items.len() ==> offers(
            items[first_offering(items, kinds)],
            kinds,
        ),
        forall|k: int|
            0 <= k < first_offering(items, kinds) ==> !offers(#[trigger] items[k], kinds),
        holds_any(items, kinds) <==> first_offering(items, kinds) < items.len(),
    decreases items.len(),
{
    if items.len() > 0 && !offers(items[0], kinds) {
        let rest = items.skip(1);
        lemma_first_offering(rest, kinds);
        assert forall|k: int| 0 <= k < first_offering(items, kinds) implies !offers(
            #[trigger] items[k],
            kinds,
        ) by {
            if k > 0 {
                assert(items[k] == rest[k - 1]);
            }
        }
    }
}

/// Finds the first of `items` whose own kind is one of `kinds`.
pub fn find_of_kinds(items: &Vec<Item>, kinds: &Vec<ItemType>) -> (i: usize)
    ensures
        i == first_of_kinds(items@, kinds@),
        i <= items@.len(),
{
    let mut i: usize = 0;
    assert(items@.skip(0) =~= items@);
    while i < items.len()
        invariant
            i <= items@.len(),
            first_of_kinds(items@, kinds@) == i + first_of_kinds(items@.skip(i as int), kinds@),
        decreases items@.len() - i,
    {
        assert(items@.skip(i as int).skip(1) =~= items@.skip(i + 1));
        if kind_in(kinds, items[i].get_type()) {
            return i;
        }
        i = i + 1;
    }
    i
}

/// Finds the first of `items` that counts as one of `kinds`.
pub fn find_offering(items: &Vec<Item>, kinds: &Vec<ItemType>) -> (i: usize)
    ensures
        i == first_offering(items@, kinds@),
        i <= items@.len(),
        i < items@.len() <==> holds_any(items@, kinds@),
{
    proof {
        lemma_first_offering(items@, kinds@);
    }
    let mut i: usize = 0;
    assert(items@.skip(0) =~= items@);
    while i < items.len()
        invariant
            i <= items@.len(),
            first_offering(items@, kinds@) == i + first_offering(items@.skip(i as int), kinds@),
        decreases items@.len() - i,
    {
        assert(items@.skip(i as int).skip(1) =~= items@.skip(i + 1));
        if items[i].offered(kinds).is_some() {
            return i;
        }
        i = i + 1;
    }
    i
}

/// The kind by which the first of `items` that counts as one of `kinds` does
/// so.
pub open spec fn found_kind(items: Seq<Item>, kinds: Seq<ItemType>) -> ItemType
    recommends
        holds_any(items, kinds),
{
    offered_kind(items[first_offering(items, kinds)], kinds)
}

/// Looks through `items` for one that counts as one of `kinds` and tells by
/// which kind the first such item does.
pub fn find_kind(items: &Vec<Item>, kinds: &Vec<ItemType>) -> (kind: Option<ItemType>)
    ensures
        match kind {
            Some(k) => holds_any(items@, kinds@) && k == found_kind(items@, kinds@),
            None => !holds_any(items@, kinds@),
        },
{
    let i = find_offering(items, kinds);
    if i < items.len() {
        proof {
            lemma_first_offering(items@, kinds@);
        }
        items[i].offered(kinds)
    } else {
        None
    }
}

} // verus!
