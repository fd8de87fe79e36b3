use crate::item::{
    energy_for, energy_of, find_kind, found_kind, get_drink_types, get_food_types, holds_any,
    hydration_for, hydration_of, remove_by_id, without_id, DrinkType, FoodType, Item, ItemType,
};
use crate::random::rand_below;
use crate::station::gridposition::GridPosition;
use crate::station::routing::{is_answer, lemma_answer_length, nearest_among, route_length};
use crate::station::station::{cells_offering, Station};
use crate::station::tile::{is_walkable, walkable, Tile, TileType};
use oorandom::Rand32;
use vstd::prelude::*;

verus! {

/// The most that health, hunger and thirst can come to.
pub const FULL: u8 = 100;

/// From this much hunger or thirst on, an idle inhabitant goes for food or
/// drink.
pub const CRAVING: u8 = 50;

#[derive(Copy, Clone, PartialEq, Eq, Structural, Debug)]
pub enum InhabitantType {
    Pilot,
    Engineer,
    Scientist,
    Medic,
    Soldier,
    Miner,
    Cook,
    /// What is left of an inhabitant after its death.
    Phantom,
}

/// How many kinds of crew new inhabitants are drawn from.
pub const CREW_KINDS: u32 = 6;

/// The kind of inhabitant that stands at the given place in the list of
/// kinds. Phantoms are not in the list: nobody starts out as one.
pub open spec fn kind_at(place: u32) -> InhabitantType {
    if place == 0 {
        InhabitantType::Pilot
    } else if place == 1 {
        InhabitantType::Engineer
    } else if place == 2 {
        InhabitantType::Scientist
    } else if place == 3 {
        InhabitantType::Medic
    } else if place == 4 {
        InhabitantType::Soldier
    } else if place == 5 {
        InhabitantType::Miner
    } else {
        InhabitantType::Cook
    }
}

/// The kind of inhabitant for a place in the list of kinds.
pub fn crew_kind(place: u32) -> (kind: InhabitantType)
    requires
        place <= 6,
    ensures
        kind == kind_at(place),
{
    match place {
        0 => InhabitantType::Pilot,
        1 => InhabitantType::Engineer,
        2 => InhabitantType::Scientist,
        3 => InhabitantType::Medic,
        4 => InhabitantType::Soldier,
        5 => InhabitantType::Miner,
        _ => InhabitantType::Cook,
    }
}

/// A kind of crew picked by the generator.
pub fn random_crew_kind(rng: &mut Rand32) -> (kind: InhabitantType)
    ensures
        exists|place: u32| place < CREW_KINDS && kind == #[trigger] kind_at(place),
        !(kind is Phantom),
        !(kind is Cook),
{
    let place = rand_below(rng, CREW_KINDS);
    crew_kind(place)
}

/// A goal an inhabitant pursues.
#[derive(Clone, PartialEq, Debug)]
pub enum Behavior {
    Wander,
    Search(Vec<ItemType>),
    Eat,
    Drink,
    Work,
}

/// A goal, with the kinds searched for as a plain sequence.
pub enum Goal {
    Wander,
    Search(Seq<ItemType>),
    Eat,
    Drink,
    Work,
}

impl View for Behavior {
    type V = Goal;

    open spec fn view(&self) -> Goal {
        match self {
            Behavior::Wander => Goal::Wander,
            Behavior::Search(kinds) => Goal::Search(kinds@),
            Behavior::Eat => Goal::Eat,
            Behavior::Drink => Goal::Drink,
            Behavior::Work => Goal::Work,
        }
    }
}

/// Everything that is known of an inhabitant.
pub struct InhabitantState {
    /// The cell the inhabitant is heading for, if any.
    pub dest: Option<GridPosition>,
    /// The cells to step on to get there.
    pub path: Seq<GridPosition>,
    /// Place in `path` of the cell being walked to.
    pub current_waypoint: nat,
    /// Microseconds spent on the way to that cell.
    pub move_elapsed: u64,
    /// The goals, the one being pursued last.
    pub behaviors: Seq<Goal>,
    pub kind: InhabitantType,
    pub health: u8,
    pub hunger: u8,
    pub thirst: u8,
    /// Microseconds since the inhabitant came to be.
    pub age: u64,
    /// What the inhabitant carries.
    pub items: Seq<Item>,
    pub id: u128,
}

/// An inhabitant written down as plain values, for keeping and for bringing
/// back.
#[derive(Debug)]
pub struct InhabitantRecord {
    pub dest: Option<GridPosition>,
    pub path: Vec<GridPosition>,
    pub current_waypoint: usize,
    pub move_elapsed: u64,
    pub behaviors: Vec<Behavior>,
    pub kind: InhabitantType,
    pub health: u8,
    pub hunger: u8,
    pub thirst: u8,
    pub age: u64,
    pub items: Vec<Item>,
    pub id: u128,
}

impl View for InhabitantRecord {
    type V = InhabitantState;

    open spec fn view(&self) -> InhabitantState {
        InhabitantState {
            dest: self.dest,
            path: self.path@,
            current_waypoint: self.current_waypoint as nat,
            move_elapsed: self.move_elapsed,
            behaviors: goals(self.behaviors@),
            kind: self.kind,
            health: self.health,
            hunger: self.hunger,
            thirst: self.thirst,
            age: self.age,
            items: self.items@,
            id: self.id,
        }
    }
}

/// The goals of a list of behaviors.
pub open spec fn goals(behaviors: Seq<Behavior>) -> Seq<Goal> {
    Seq::new(behaviors.len(), |i: int| behaviors[i]@)
}

/// An inhabitant of the station.
#[derive(Debug)]
pub struct Inhabitant {
    dest: Option<GridPosition>,
    path: Vec<GridPosition>,
    current_waypoint: usize,
    move_elapsed: u64,
    behaviors: Vec<Behavior>,
    kind: InhabitantType,
    health: u8,
    hunger: u8,
    thirst: u8,
    age: u64,
    items: Vec<Item>,
    id: u128,
}

impl View for Inhabitant {
    type V = InhabitantState;

    closed spec fn view(&self) -> InhabitantState {
        InhabitantState {
            dest: self.dest,
            path: self.path@,
            current_waypoint: self.current_waypoint as nat,
            move_elapsed: self.move_elapsed,
            behaviors: goals(self.behaviors@),
            kind: self.kind,
            health: self.health,
            hunger: self.hunger,
            thirst: self.thirst,
            age: self.age,
            items: self.items@,
            id: self.id,
        }
    }
}

/// The lesser of a sum and the full mark.
pub open spec fn capped(level: u8, more: u8) -> u8 {
    if level + more >= FULL {
        FULL
    } else {
        (level + more) as u8
    }
}

/// What is left of a level after taking `less` away, never below nothing.
pub open spec fn lowered(level: u8, less: u8) -> u8 {
    if level >= less {
        (level - less) as u8
    } else {
        0
    }
}

/// The state after a blow of the given strength. Phantoms feel nothing; who
/// loses the last of their health becomes a phantom.
pub open spec fn after_damage(s: InhabitantState, amount: u8) -> InhabitantState {
    if s.kind is Phantom {
        s
    } else if lowered(s.health, amount) == 0 {
        InhabitantState { health: 0, kind: InhabitantType::Phantom, ..s }
    } else {
        InhabitantState { health: lowered(s.health, amount), ..s }
    }
}

/// The state after growing hungrier. Hunger stops at the full mark, and
/// reaching the mark hurts. Phantoms feel nothing.
pub open spec fn after_hunger(s: InhabitantState, value: u8) -> InhabitantState {
    if s.kind is Phantom {
        s
    } else if s.hunger + value >= FULL {
        after_damage(InhabitantState { hunger: FULL, ..s }, 1)
    } else {
        InhabitantState { hunger: capped(s.hunger, value), ..s }
    }
}

/// The state after growing thirstier. Thirst stops at the full mark, and
/// reaching the mark hurts. Phantoms feel nothing.
pub open spec fn after_thirst(s: InhabitantState, value: u8) -> InhabitantState {
    if s.kind is Phantom {
        s
    } else if s.thirst + value >= FULL {
        after_damage(InhabitantState { thirst: FULL, ..s }, 1)
    } else {
        InhabitantState { thirst: capped(s.thirst, value), ..s }
    }
}

/// An inhabitant of this kind may stand on such a tile. Phantoms go anywhere,
/// even where no tile is; everyone else needs a tile that is no wall.
pub open spec fn may_enter(kind: InhabitantType, tile: Option<TileType>) -> bool {
    kind is Phantom || (tile matches Some(t) && walkable(t))
}

/// How much an inhabitant wants something that it has a level of need for, in
/// hundredths. Phantoms want nothing.
pub open spec fn wants(kind: InhabitantType, level: u8) -> u8 {
    if kind is Phantom {
        0
    } else {
        level
    }
}

/// The needs are within bounds, whoever has no health left is a phantom, and
/// whoever is heading somewhere has a waypoint to walk to.
pub open spec fn is_sound(s: InhabitantState) -> bool {
    &&& s.health <= FULL
    &&& s.hunger <= FULL
    &&& s.thirst <= FULL
    &&& s.health == 0 ==> s.kind is Phantom
    &&& s.dest is Some ==> s.current_waypoint < s.path.len()
}

impl Inhabitant {
    /// The state is sound.
    pub open spec fn well_formed(&self) -> bool {
        is_sound(self@)
    }

    /// Makes an inhabitant of the given kind with a fresh identity, in full
    /// health, with nothing to do yet. All but phantoms carry an energy bar and
    /// a bottle of water.
    pub fn new(kind: InhabitantType) -> (inhabitant: Inhabitant)
        ensures
            inhabitant.well_formed(),
            inhabitant@.kind == kind,
            inhabitant@.dest is None,
            inhabitant@.path.len() == 0,
            inhabitant@.current_waypoint == 0,
            inhabitant@.move_elapsed == 0,
            inhabitant@.behaviors.len() == 0,
            inhabitant@.health == FULL,
            inhabitant@.hunger == 0,
            inhabitant@.thirst == 0,
            inhabitant@.age == 0,
            kind is Phantom ==> inhabitant@.items.len() == 0,
            !(kind is Phantom) ==> {
                &&& inhabitant@.items.len() == 2
                &&& inhabitant@.items[0].kind() == ItemType::Food(FoodType::EnergyBar)
                &&& inhabitant@.items[0].position() == (GridPosition { x: 0, y: 0 })
                &&& inhabitant@.items[0].contents().len() == 0
                &&& inhabitant@.items[1].kind() == ItemType::Drink(DrinkType::Water)
                &&& inhabitant@.items[1].position() == (GridPosition { x: 1, y: 0 })
                &&& inhabitant@.items[1].contents().len() == 0
            },
    {
        let mut items: Vec<Item> = Vec::new();
        match kind {
            InhabitantType::Phantom => {},
            _ => {
                items.push(Item::new(GridPosition::new(0, 0), ItemType::Food(FoodType::EnergyBar)));
                items.push(Item::new(GridPosition::new(1, 0), ItemType::Drink(DrinkType::Water)));
            },
        }
        Inhabitant {
            id: crate::random::fresh_id(),
            dest: None,
            path: Vec::new(),
            current_waypoint: 0,
            move_elapsed: 0,
            kind,
            health: FULL,
            hunger: 0,
            thirst: 0,
            age: 0,
            items,
            behaviors: Vec::new(),
        }
    }

    /// Brings an inhabitant back from what was written down of it, unless
    /// what was written down is not sound.
    pub fn restore(record: InhabitantRecord) -> (inhabitant: Option<Inhabitant>)
        ensures
            inhabitant is Some <==> is_sound(record@),
            inhabitant matches Some(i) ==> i@ == record@,
    {
        let sound = record.health <= FULL && record.hunger <= FULL && record.thirst <= FULL && (
        record.health > 0 || record.kind == InhabitantType::Phantom) && (record.dest.is_none()
            || record.current_waypoint < record.path.len());
        if !sound {
            return None;
        }
        Some(
            Inhabitant {
                dest: record.dest,
                path: record.path,
                current_waypoint: record.current_waypoint,
                move_elapsed: record.move_elapsed,
                behaviors: record.behaviors,
                kind: record.kind,
                health: record.health,
                hunger: record.hunger,
                thirst: record.thirst,
                age: record.age,
                items: record.items,
                id: record.id,
            },
        )
    }

    /// Whether the inhabitant can be on such a tile. This does not say
    /// whether it can get there.
    pub fn can_move_to(&self, tile: Option<&Tile>) -> (can: bool)
        ensures
            can == may_enter(
                self@.kind,
                match tile {
                    Some(t) => Some(t.kind),
                    None => None,
                },
            ),
    {
        match self.kind {
            InhabitantType::Phantom => true,
            _ => match tile {
                Some(t) => is_walkable(t.kind),
                None => false,
            },
        }
    }

    /// Takes health away, never more than there is. Phantoms are beyond harm;
    /// who loses the last of their health dies.
    pub fn take_damage(&mut self, amount: u8)
        ensures
            final(self)@ == after_damage(old(self)@, amount),
            old(self).well_formed() ==> final(self).well_formed(),
    {
        if self.kind == InhabitantType::Phantom {
            return ;
        }
        self.health = if self.health >= amount {
            self.health - amount
        } else {
            0
        };
        if self.health == 0 {
            self.die();
        }
    }

    /// Turns the inhabitant into a phantom.
    pub fn die(&mut self)
        ensures
            final(self)@ == (InhabitantState { kind: InhabitantType::Phantom, ..old(self)@ }),
            old(self).well_formed() ==> final(self).well_formed(),
    {
        self.kind = InhabitantType::Phantom;
    }

    /// Makes the inhabitant hungrier, up to the full mark. At the mark it
    /// starves: reaching it, and every further push against it, costs one
    /// point of health. Phantoms do not hunger.
    pub fn add_hunger(&mut self, value: u8)
        ensures
            final(self)@ == after_hunger(old(self)@, value),
            !(old(self)@.kind is Phantom) ==> final(self)@.hunger <= FULL,
            old(self).well_formed() ==> final(self).well_formed(),
    {
        if self.kind == InhabitantType::Phantom {
            return ;
        }
        if self.hunger >= FULL || value >= FULL - self.hunger {
            self.hunger = FULL;
            self.take_damage(1);
        } else {
            self.hunger = self.hunger + value;
        }
    }

    /// Makes the inhabitant thirstier, up to the full mark. At the mark it
    /// is parched: reaching it, and every further push against it, costs one
    /// point of health. Phantoms do not thirst.
    pub fn add_thirst(&mut self, value: u8)
        ensures
            final(self)@ == after_thirst(old(self)@, value),
            !(old(self)@.kind is Phantom) ==> final(self)@.thirst <= FULL,
            old(self).well_formed() ==> final(self).well_formed(),
    {
        if self.kind == InhabitantType::Phantom {
            return ;
        }
        if self.thirst >= FULL || value >= FULL - self.thirst {
            self.thirst = FULL;
            self.take_damage(1);
        } else {
            self.thirst = self.thirst + value;
        }
    }

    /// Eats the item: hunger goes down by what the item is worth, never
    /// below nothing. The item itself is left alone.
    pub fn eat(&mut self, item: &Item)
        ensures
            final(self)@ == (InhabitantState {
                hunger: lowered(old(self)@.hunger, energy_of(item.kind())),
                ..old(self)@
            }),
            old(self).well_formed() ==> final(self).well_formed(),
    {
        self.sate(item.get_energy());
    }

    /// Drinks the item: thirst goes down by what the item is worth, never
    /// below nothing. The item itself is left alone.
    pub fn drink(&mut self, item: &Item)
        ensures
            final(self)@ == (InhabitantState {
                thirst: lowered(old(self)@.thirst, hydration_of(item.kind())),
                ..old(self)@
            }),
            old(self).well_formed() ==> final(self).well_formed(),
    {
        self.quench(item.get_hydration());
    }

    fn sate(&mut self, energy: u8)
        ensures
            final(self)@ == (InhabitantState {
                hunger: lowered(old(self)@.hunger, energy),
                ..old(self)@
            }),
    {
        self.hunger = if self.hunger >= energy {
            self.hunger - energy
        } else {
            0
        };
    }

    fn quench(&mut self, hydration: u8)
        ensures
            final(self)@ == (InhabitantState {
                thirst: lowered(old(self)@.thirst, hydration),
                ..old(self)@
            }),
    {
        self.thirst = if self.thirst >= hydration {
            self.thirst - hydration
        } else {
            0
        };
    }

    /// How much the inhabitant wants food, in hundredths.
    pub fn wants_food(&self) -> (want: u8)
        ensures
            want == wants(self@.kind, self@.hunger),
    {
        if self.kind == InhabitantType::Phantom {
            return 0;
        }
        self.hunger
    }

    /// How much the inhabitant wants drink, in hundredths.
    pub fn wants_drink(&self) -> (want: u8)
        ensures
            want == wants(self@.kind, self@.thirst),
    {
        if self.kind == InhabitantType::Phantom {
            return 0;
        }
        self.thirst
    }

    /// Whether the inhabitant carries something that counts as one of the
    /// given kinds.
    pub fn has_item(&self, item_types: Vec<ItemType>) -> (found: bool)
        ensures
            found == holds_any(self@.items, item_types@),
    {
        crate::item::find_offering(&self.items, &item_types) < self.items.len()
    }

    /// Takes every item with the given identity out of what the inhabitant
    /// carries.
    pub fn remove_item(&mut self, id: u128)
        ensures
            final(self)@ == (InhabitantState {
                items: without_id(old(self)@.items, id),
                ..old(self)@
            }),
            old(self).well_formed() ==> final(self).well_formed(),
    {
        remove_by_id(&mut self.items, id);
    }
}

/// The goals without the one being pursued, if there is any.
pub open spec fn popped(goals: Seq<Goal>) -> Seq<Goal> {
    if goals.len() > 0 {
        goals.drop_last()
    } else {
        goals
    }
}

/// A sum of microseconds that stops at the most a counter can hold.
pub open spec fn added(time: u64, more: u64) -> u64 {
    if time + more > u64::MAX {
        u64::MAX
    } else {
        (time + more) as u64
    }
}

/// The state after setting out for `dest` along `path`. Without a path the
/// inhabitant stays as it is.
pub open spec fn heading(
    s: InhabitantState,
    dest: GridPosition,
    path: Seq<GridPosition>,
) -> InhabitantState {
    if path.len() > 0 {
        InhabitantState { dest: Some(dest), path, current_waypoint: 0, move_elapsed: 0, ..s }
    } else {
        s
    }
}

/// `after` is what becomes of `before` when the inhabitant, standing on
/// `from`, is told to go to `dest`: it sets out along what routing answers,
/// or stays as it is if routing answers nothing.
pub open spec fn headed(
    before: InhabitantState,
    after: InhabitantState,
    map: Map<GridPosition, Tile>,
    from: GridPosition,
    dest: GridPosition,
) -> bool {
    &&& route_length(map, from, dest) == 0 ==> after == before
    &&& route_length(map, from, dest) > 0 ==> is_answer(map, from, dest, after.path) && after
        == heading(before, dest, after.path)
}

/// The cell the inhabitant is walking to.
pub open spec fn step_target(s: InhabitantState) -> Option<GridPosition> {
    if s.dest is Some && s.current_waypoint < s.path.len() {
        Some(s.path[s.current_waypoint as int])
    } else {
        None
    }
}

/// The state after one more stretch of the way, `dt` microseconds long. An
/// inhabitant found standing on the cell it was walking to turns to the next
/// cell of its path, which makes it a little hungrier and thirstier; if that
/// cell was the last one, it has arrived: it heads nowhere any more and
/// drops the goal it was pursuing.
pub open spec fn after_step(s: InhabitantState, at_waypoint: bool, dt: u64) -> InhabitantState {
    if s.dest is None {
        s
    } else if s.current_waypoint >= s.path.len() {
        InhabitantState { dest: None, ..s }
    } else if at_waypoint {
        let turned = after_thirst(
            after_hunger(
                InhabitantState {
                    current_waypoint: s.current_waypoint + 1,
                    move_elapsed: 0,
                    ..s
                },
                1,
            ),
            1,
        );
        let walked = InhabitantState { move_elapsed: dt, ..turned };
        if s.current_waypoint + 1 == s.path.len() {
            InhabitantState { dest: None, behaviors: popped(walked.behaviors), ..walked }
        } else {
            walked
        }
    } else {
        InhabitantState { move_elapsed: added(s.move_elapsed, dt), ..s }
    }
}

/// The state after the host has looked whether the inhabitant stands on the
/// cell it is heading for: if so, it heads nowhere any more and drops the
/// goal it was pursuing.
pub open spec fn after_arrival(s: InhabitantState, arrived: bool) -> InhabitantState {
    if s.dest is Some && arrived {
        InhabitantState { dest: None, behaviors: popped(s.behaviors), ..s }
    } else {
        s
    }
}

/// The state after an idle inhabitant has made up its mind: food first, then
/// drink, else a stroll.
pub open spec fn decided(s: InhabitantState) -> InhabitantState {
    let goal = if wants(s.kind, s.hunger) >= CRAVING {
        Goal::Eat
    } else if wants(s.kind, s.thirst) >= CRAVING {
        Goal::Drink
    } else {
        Goal::Wander
    };
    InhabitantState { behaviors: s.behaviors.push(goal), ..s }
}

/// Every kind of food.
pub open spec fn food_kinds() -> Seq<ItemType> {
    seq![ItemType::Food(FoodType::EnergyBar), ItemType::Food(FoodType::MealReadyToEat)]
}

/// Every kind of drink.
pub open spec fn drink_kinds() -> Seq<ItemType> {
    seq![ItemType::Drink(DrinkType::Water), ItemType::Drink(DrinkType::Coffee)]
}

/// The state after trying to eat: from what the inhabitant carries, else
/// from what lies on its tile, and then the goal is met; else it goes
/// looking for food first.
pub open spec fn after_meal(s: InhabitantState, on_tile: Seq<Item>) -> InhabitantState {
    if holds_any(s.items, food_kinds()) {
        InhabitantState {
            hunger: lowered(s.hunger, energy_of(found_kind(s.items, food_kinds()))),
            behaviors: popped(s.behaviors),
            ..s
        }
    } else if holds_any(on_tile, food_kinds()) {
        InhabitantState {
            hunger: lowered(s.hunger, energy_of(found_kind(on_tile, food_kinds()))),
            behaviors: popped(s.behaviors),
            ..s
        }
    } else {
        InhabitantState { behaviors: s.behaviors.push(Goal::Search(food_kinds())), ..s }
    }
}

/// The state after trying to drink: from what the inhabitant carries, else
/// from what lies on its tile, and then the goal is met; else it goes
/// looking for drink first.
pub open spec fn after_sip(s: InhabitantState, on_tile: Seq<Item>) -> InhabitantState {
    if holds_any(s.items, drink_kinds()) {
        InhabitantState {
            thirst: lowered(s.thirst, hydration_of(found_kind(s.items, drink_kinds()))),
            behaviors: popped(s.behaviors),
            ..s
        }
    } else if holds_any(on_tile, drink_kinds()) {
        InhabitantState {
            thirst: lowered(s.thirst, hydration_of(found_kind(on_tile, drink_kinds()))),
            behaviors: popped(s.behaviors),
            ..s
        }
    } else {
        InhabitantState { behaviors: s.behaviors.push(Goal::Search(drink_kinds())), ..s }
    }
}

/// `after` is what becomes of `before` when the inhabitant, standing on
/// `from`, looks for the nearest tile with something of the given kinds: it
/// sets out for it, or stays as it is if there is none it can get to.
pub open spec fn sought(
    before: InhabitantState,
    after: InhabitantState,
    map: Map<GridPosition, Tile>,
    order: Seq<GridPosition>,
    from: GridPosition,
    kinds: Seq<ItemType>,
) -> bool {
    let cells = cells_offering(map, order, kinds);
    match nearest_among(map, from, cells, cells.len() as int) {
        Some(i) => headed(before, after, map, from, cells[i]),
        None => after == before,
    }
}

/// `after` is what becomes of `before` when the inhabitant, standing on
/// `from`, picks a floor tile to stroll to: it sets out for some floor tile,
/// or stays as it is if the station has no floor.
pub open spec fn wandered(
    before: InhabitantState,
    after: InhabitantState,
    map: Map<GridPosition, Tile>,
    from: GridPosition,
) -> bool {
    ||| after == before && forall|p: GridPosition|
        map.contains_key(p) ==> (#[trigger] map[p]).kind != TileType::Floor
    ||| exists|p: GridPosition|
        map.contains_key(p) && (#[trigger] map[p]).kind == TileType::Floor && headed(
            before,
            after,
            map,
            from,
            p,
        )
}

/// Taking the last behavior away takes the last goal away.
proof fn lemma_goals_popped(behaviors: Seq<Behavior>)
    requires
        behaviors.len() > 0,
    ensures
        goals(behaviors.drop_last()) == popped(goals(behaviors)),
{
    assert(goals(behaviors.drop_last()) =~= goals(behaviors).drop_last());
}

/// One more behavior is one more goal.
proof fn lemma_goals_pushed(behaviors: Seq<Behavior>, behavior: Behavior)
    ensures
        goals(behaviors.push(behavior)) == goals(behaviors).push(behavior@),
{
    assert(goals(behaviors.push(behavior)) =~= goals(behaviors).push(behavior@));
}

impl Inhabitant {
    fn pop_behavior(&mut self)
        ensures
            final(self)@ == (InhabitantState { behaviors: popped(old(self)@.behaviors), ..old(self)@ }),
    {
        if self.behaviors.len() > 0 {
            proof {
                lemma_goals_popped(self.behaviors@);
            }
            self.behaviors.pop();
        }
    }

    fn push_behavior(&mut self, behavior: Behavior)
        ensures
            final(self)@ == (InhabitantState {
                behaviors: old(self)@.behaviors.push(behavior@),
                ..old(self)@
            }),
    {
        proof {
            lemma_goals_pushed(self.behaviors@, behavior);
        }
        self.behaviors.push(behavior);
    }

    /// Sends the inhabitant, standing on `from`, on its way to `dest`. If
    /// there is no way, nothing changes.
    pub fn set_destination(&mut self, station: &Station, from: GridPosition, dest: GridPosition)
        requires
            station.well_formed(),
        ensures
            headed(old(self)@, final(self)@, station@, from, dest),
            old(self).well_formed() ==> final(self).well_formed(),
    {
        let path = station.path_to(from, dest);
        proof {
            lemma_answer_length(station@, from, dest, path@);
        }
        if path.len() > 0 {
            self.move_elapsed = 0;
            self.path = path;
            self.current_waypoint = 0;
            self.dest = Some(dest);
        }
    }

    /// Sends the inhabitant on its way to the given tile, if there is one
    /// and it is of a kind the inhabitant can be on.
    pub fn head_for(&mut self, station: &Station, from: GridPosition, tile: Option<&Tile>)
        requires
            station.well_formed(),
        ensures
            match tile {
                Some(t) => if may_enter(old(self)@.kind, Some(t.kind)) {
                    headed(old(self)@, final(self)@, station@, from, t.pos)
                } else {
                    final(self)@ == old(self)@
                },
                None => final(self)@ == old(self)@,
            },
            old(self).well_formed() ==> final(self).well_formed(),
    {
        if self.can_move_to(tile) {
            if let Some(t) = tile {
                self.set_destination(station, from, t.pos);
            }
        }
    }

    /// Moves the inhabitant on along its path by `dt` microseconds.
    /// `at_waypoint` says whether it was found standing on the cell it was
    /// walking to. The result is that cell: the host moves the inhabitant
    /// towards it.
    pub fn keep_moving(&mut self, at_waypoint: bool, dt: u64) -> (toward: Option<GridPosition>)
        ensures
            final(self)@ == after_step(old(self)@, at_waypoint, dt),
            toward == step_target(old(self)@),
            old(self).well_formed() ==> final(self).well_formed(),
    {
        if self.dest.is_none() {
            return None;
        }
        if self.current_waypoint >= self.path.len() {
            self.dest = None;
            return None;
        }
        let next_waypoint = self.path[self.current_waypoint];
        if at_waypoint {
            self.current_waypoint = self.current_waypoint + 1;
            self.move_elapsed = 0;
            self.add_hunger(1);
            self.add_thirst(1);
            self.move_elapsed = dt;
            if self.current_waypoint == self.path.len() {
                self.dest = None;
                self.pop_behavior();
            }
        } else {
            self.move_elapsed = if dt > u64::MAX - self.move_elapsed {
                u64::MAX
            } else {
                self.move_elapsed + dt
            };
        }
        Some(next_waypoint)
    }

    /// Takes note of what the host saw after moving the inhabitant: whether
    /// it now stands on the cell it is heading for.
    pub fn arrive(&mut self, arrived: bool)
        ensures
            final(self)@ == after_arrival(old(self)@, arrived),
            old(self).well_formed() ==> final(self).well_formed(),
    {
        if self.dest.is_some() && arrived {
            self.dest = None;
            self.pop_behavior();
        }
    }

    /// Makes up the mind of an inhabitant with nothing to do.
    pub fn decide(&mut self)
        ensures
            final(self)@ == decided(old(self)@),
            old(self).well_formed() ==> final(self).well_formed(),
    {
        if self.wants_food() >= CRAVING {
            self.push_behavior(Behavior::Eat);
        } else if self.wants_drink() >= CRAVING {
            self.push_behavior(Behavior::Drink);
        } else {
            self.push_behavior(Behavior::Wander);
        }
    }

    /// Eats from what the inhabitant carries or from what lies on its tile,
    /// or sets it looking for food.
    pub fn eat_or_search(&mut self, current_tile: &Tile)
        ensures
            final(self)@ == after_meal(old(self)@, current_tile.items@),
            old(self).well_formed() ==> final(self).well_formed(),
    {
        let kinds = get_food_types();
        assert(kinds@ == food_kinds());
        if let Some(kind) = find_kind(&self.items, &kinds) {
            self.sate(energy_for(kind));
            self.pop_behavior();
        } else if let Some(kind) = find_kind(&current_tile.items, &kinds) {
            self.sate(energy_for(kind));
            self.pop_behavior();
        } else {
            self.push_behavior(Behavior::Search(kinds));
        }
    }

    /// Drinks from what the inhabitant carries or from what lies on its
    /// tile, or sets it looking for drink.
    pub fn drink_or_search(&mut self, current_tile: &Tile)
        ensures
            final(self)@ == after_sip(old(self)@, current_tile.items@),
            old(self).well_formed() ==> final(self).well_formed(),
    {
        let kinds = get_drink_types();
        assert(kinds@ == drink_kinds());
        if let Some(kind) = find_kind(&self.items, &kinds) {
            self.quench(hydration_for(kind));
            self.pop_behavior();
        } else if let Some(kind) = find_kind(&current_tile.items, &kinds) {
            self.quench(hydration_for(kind));
            self.pop_behavior();
        } else {
            self.push_behavior(Behavior::Search(kinds));
        }
    }

    /// Sends the inhabitant, standing on `from`, to the nearest tile with
    /// something of the given kinds, if it can get to any.
    pub fn seek(&mut self, station: &Station, from: GridPosition, item_types: &Vec<ItemType>)
        requires
            station.well_formed(),
        ensures
            sought(old(self)@, final(self)@, station@, station.order(), from, item_types@),
            old(self).well_formed() ==> final(self).well_formed(),
    {
        let found = station.cells_with(item_types);
        if let Some(dest) = station.nearest(from, &found) {
            self.set_destination(station, from, dest);
        }
    }
}

/// The goal being pursued, if any.
pub open spec fn current_goal(s: InhabitantState) -> Option<Goal> {
    if s.behaviors.len() > 0 {
        Some(s.behaviors.last())
    } else {
        None
    }
}

/// `after` and `toward` are what one round of the simulation makes of
/// `before`, an inhabitant that stands on the tile at `from` with `on_tile`
/// lying there: it pursues its current goal, and makes up its mind if it has
/// none.
pub open spec fn updated(
    before: InhabitantState,
    after: InhabitantState,
    toward: Option<GridPosition>,
    map: Map<GridPosition, Tile>,
    order: Seq<GridPosition>,
    from: GridPosition,
    on_tile: Seq<Item>,
    at_waypoint: bool,
    dt: u64,
) -> bool {
    let moving = after == after_step(before, at_waypoint, dt) && toward == step_target(before);
    match current_goal(before) {
        None => after == decided(before) && toward is None,
        Some(Goal::Eat) => after == after_meal(before, on_tile) && toward is None,
        Some(Goal::Drink) => after == after_sip(before, on_tile) && toward is None,
        Some(Goal::Work) => after == before && toward is None,
        Some(Goal::Wander) => if before.dest is Some {
            moving
        } else {
            wandered(before, after, map, from) && toward is None
        },
        Some(Goal::Search(kinds)) => if before.dest is Some {
            moving
        } else {
            sought(before, after, map, order, from, kinds) && toward is None
        },
    }
}

/// What an inhabitant is up to, for telling the branches of a round apart.
enum Pursuit {
    Nothing,
    Wander,
    Search(Vec<ItemType>),
    Eat,
    Drink,
    Work,
}

fn copy_kinds(kinds: &Vec<ItemType>) -> (copy: Vec<ItemType>)
    ensures
        copy@ == kinds@,
{
    let mut copy: Vec<ItemType> = Vec::new();
    let mut i: usize = 0;
    while i < kinds.len()
        invariant
            i <= kinds@.len(),
            copy@ == kinds@.take(i as int),
        decreases kinds@.len() - i,
    {
        copy.push(kinds[i]);
        assert(kinds@.take(i + 1) =~= kinds@.take(i as int).push(kinds@[i as int]));
        i = i + 1;
    }
    assert(kinds@.take(i as int) =~= kinds@);
    copy
}

impl Inhabitant {
    fn pursuit(&self) -> (pursuit: Pursuit)
        ensures
            match pursuit {
                Pursuit::Nothing => current_goal(self@) is None,
                Pursuit::Wander => current_goal(self@) == Some(Goal::Wander),
                Pursuit::Search(kinds) => current_goal(self@) == Some(Goal::Search(kinds@)),
                Pursuit::Eat => current_goal(self@) == Some(Goal::Eat),
                Pursuit::Drink => current_goal(self@) == Some(Goal::Drink),
                Pursuit::Work => current_goal(self@) == Some(Goal::Work),
            },
    {
        let n = self.behaviors.len();
        if n == 0 {
            return Pursuit::Nothing;
        }
        match &self.behaviors[n - 1] {
            Behavior::Wander => Pursuit::Wander,
            Behavior::Search(kinds) => Pursuit::Search(copy_kinds(kinds)),
            Behavior::Eat => Pursuit::Eat,
            Behavior::Drink => Pursuit::Drink,
            Behavior::Work => Pursuit::Work,
        }
    }

    /// Sends the inhabitant, standing on `from`, strolling to a floor tile
    /// picked by the generator.
    pub fn wander(&mut self, station: &Station, from: GridPosition, rng: &mut Rand32)
        requires
            station.well_formed(),
        ensures
            wandered(old(self)@, final(self)@, station@, from),
            old(self).well_formed() ==> final(self).well_formed(),
    {
        let tile = station.get_random_tile(TileType::Floor, rng);
        self.head_for(station, from, tile);
    }

    /// One round of the simulation, `dt` microseconds long, for an
    /// inhabitant that stands on `current_tile`. `at_waypoint` says whether
    /// the inhabitant was found standing on the cell it was walking to. The
    /// result is the cell to move the inhabitant towards, if it is on its
    /// way; after moving it, the host reports to `arrive`.
    pub fn update(
        &mut self,
        dt: u64,
        current_tile: &Tile,
        at_waypoint: bool,
        station: &Station,
        rng: &mut Rand32,
    ) -> (toward: Option<GridPosition>)
        requires
            station.well_formed(),
        ensures
            updated(
                InhabitantState { age: added(old(self)@.age, dt), ..old(self)@ },
                final(self)@,
                toward,
                station@,
                station.order(),
                current_tile.pos,
                current_tile.items@,
                at_waypoint,
                dt,
            ),
            old(self).well_formed() ==> final(self).well_formed(),
    {
        self.age = if dt > u64::MAX - self.age {
            u64::MAX
        } else {
            self.age + dt
        };
        let from = current_tile.pos;
        match self.pursuit() {
            Pursuit::Wander => {
                if self.dest.is_some() {
                    self.keep_moving(at_waypoint, dt)
                } else {
                    self.wander(station, from, rng);
                    None
                }
            },
            Pursuit::Eat => {
                self.eat_or_search(current_tile);
                None
            },
            Pursuit::Drink => {
                self.drink_or_search(current_tile);
                None
            },
            Pursuit::Search(item_types) => {
                if self.dest.is_some() {
                    self.keep_moving(at_waypoint, dt)
                } else {
                    self.seek(station, from, &item_types);
                    None
                }
            },
            Pursuit::Work => None,
            Pursuit::Nothing => {
                self.decide();
                None
            },
        }
    }

    pub fn get_id(&self) -> (id: u128)
        ensures
            id == self@.id,
    {
        self.id
    }

    pub fn get_kind(&self) -> (kind: InhabitantType)
        ensures
            kind == self@.kind,
    {
        self.kind
    }

    pub fn get_health(&self) -> (health: u8)
        ensures
            health == self@.health,
    {
        self.health
    }

    pub fn get_hunger(&self) -> (hunger: u8)
        ensures
            hunger == self@.hunger,
    {
        self.hunger
    }

    pub fn get_thirst(&self) -> (thirst: u8)
        ensures
            thirst == self@.thirst,
    {
        self.thirst
    }

    /// Microseconds since the inhabitant came to be.
    pub fn get_age(&self) -> (age: u64)
        ensures
            age == self@.age,
    {
        self.age
    }

    /// The cell the inhabitant is heading for, if any.
    pub fn get_dest(&self) -> (dest: Option<GridPosition>)
        ensures
            dest == self@.dest,
    {
        self.dest
    }

    /// The cells of the way the inhabitant is on.
    pub fn get_path(&self) -> (path: &Vec<GridPosition>)
        ensures
            path@ == self@.path,
    {
        &self.path
    }

    /// Place in the path of the cell being walked to.
    pub fn get_current_waypoint(&self) -> (place: usize)
        ensures
            place == self@.current_waypoint,
    {
        self.current_waypoint
    }

    /// The cell the inhabitant is walking to, if it is on its way.
    pub fn next_waypoint(&self) -> (next: Option<GridPosition>)
        ensures
            next == step_target(self@),
    {
        if self.dest.is_some() && self.current_waypoint < self.path.len() {
            Some(self.path[self.current_waypoint])
        } else {
            None
        }
    }

    /// Microseconds spent on the way to the cell being walked to.
    pub fn get_move_elapsed(&self) -> (elapsed: u64)
        ensures
            elapsed == self@.move_elapsed,
    {
        self.move_elapsed
    }

    /// The goals of the inhabitant, the one being pursued last.
    pub fn get_behaviors(&self) -> (behaviors: &Vec<Behavior>)
        ensures
            goals(behaviors@) == self@.behaviors,
    {
        &self.behaviors
    }

    /// What the inhabitant carries.
    pub fn get_items(&self) -> (items: &Vec<Item>)
        ensures
            items@ == self@.items,
    {
        &self.items
    }
}

/// Whoever loses the last of its health is a phantom from then on, and a
/// phantom may be anywhere: on floor, in doors, in walls and where no tile
/// is.
pub proof fn lemma_death_makes_phantom(s: InhabitantState, amount: u8, tile: Option<TileType>)
    requires
        !(s.kind is Phantom),
        after_damage(s, amount).health == 0,
    ensures
        after_damage(s, amount).kind is Phantom,
        may_enter(after_damage(s, amount).kind, tile),
{
}

/// However often and however much hunger and thirst grow, and whatever blows
/// fall, the needs stay within bounds.
pub proof fn lemma_needs_stay_bounded(s: InhabitantState, value: u8)
    requires
        is_sound(s),
    ensures
        is_sound(after_hunger(s, value)),
        is_sound(after_thirst(s, value)),
        is_sound(after_damage(s, value)),
        after_hunger(s, value).hunger <= FULL,
        after_thirst(s, value).thirst <= FULL,
        0 <= after_damage(s, value).health <= s.health,
{
}

} // verus!
