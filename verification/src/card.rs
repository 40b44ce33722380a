//! Cards: the entities that form stacks.

use vstd::prelude::*;

verus! {

/// The closed set of card varieties. Decisions about a card (stackability,
/// player control, slot eligibility) go through its class, so new varieties
/// only extend the two `match`es below.
#[derive(Clone, Copy, PartialEq, Eq, Structural, Debug)]
pub enum CardType {
    Villager,
    Log,
    Goblin,
}

/// The behavioural class of a card variety.
#[derive(Clone, Copy, PartialEq, Eq, Structural, Debug)]
pub enum CardClass {
    Villager,
    Resource,
    Enemy,
}

/// Combat-style statistics carried by every card.
#[derive(Clone, Copy, PartialEq, Eq, Structural, Debug)]
pub struct CardStats {
    pub health: usize,
    pub max_health: usize,
    pub damage: usize,
}

impl CardStats {
    /// A card never has more health than its maximum.
    pub open spec fn wf(self) -> bool {
        self.health <= self.max_health
    }
}

/// The gameplay identity of a card: its variety and its statistics.
#[derive(Clone, Copy, PartialEq, Eq, Structural, Debug)]
pub struct CardInfo {
    pub card_type: CardType,
    pub stats: CardStats,
}

impl CardType {
    pub open spec fn class_spec(self) -> CardClass {
        match self {
            CardType::Villager => CardClass::Villager,
            CardType::Log => CardClass::Resource,
            CardType::Goblin => CardClass::Enemy,
        }
    }

    pub fn class(&self) -> (c: CardClass)
        ensures
            c == self.class_spec(),
    {
        match self {
            CardType::Villager => CardClass::Villager,
            CardType::Log => CardClass::Resource,
            CardType::Goblin => CardClass::Enemy,
        }
    }

    pub open spec fn initial_stats_spec(self) -> CardStats {
        match self {
            CardType::Villager => CardStats { health: 3, max_health: 3, damage: 1 },
            CardType::Goblin => CardStats { health: 1, max_health: 1, damage: 1 },
            CardType::Log => CardStats { health: 0, max_health: 0, damage: 0 },
        }
    }

    pub fn get_initial_stats(&self) -> (s: CardStats)
        ensures
            s == self.initial_stats_spec(),
            s.wf(),
    {
        match self {
            CardType::Villager => CardStats { health: 3, max_health: 3, damage: 1 },
            CardType::Goblin => CardStats { health: 1, max_health: 1, damage: 1 },
            CardType::Log => CardStats { health: 0, max_health: 0, damage: 0 },
        }
    }
}

impl CardInfo {
    pub fn from_type(card_type: CardType) -> (info: CardInfo)
        ensures
            info.card_type == card_type,
            info.stats == card_type.initial_stats_spec(),
    {
        CardInfo { card_type, stats: card_type.get_initial_stats() }
    }
}

/// One card of the arena. The identity of a card is its index in the
/// simulation's card arena; links store such indices. Positions are
/// fixed-point world coordinates in thousandths of a world unit.
#[derive(Clone, Copy, Debug)]
pub struct Card {
    pub info: CardInfo,
    pub stack_parent: Option<usize>,
    pub stack_child: Option<usize>,
    pub slotted_in_tile: Option<usize>,
    pub x: i64,
    pub y: i64,
    pub z: i64,
}

impl Card {
    pub fn from_type(card_type: CardType) -> (card: Card)
        ensures
            card.info.card_type == card_type,
            card.info.stats == card_type.initial_stats_spec(),
            card.stack_parent is None,
            card.stack_child is None,
            card.slotted_in_tile is None,
            card.x == 0 && card.y == 0 && card.z == 0,
    {
        Card {
            info: CardInfo::from_type(card_type),
            stack_parent: None,
            stack_child: None,
            slotted_in_tile: None,
            x: 0,
            y: 0,
            z: 0,
        }
    }

    pub fn card_type(&self) -> (t: CardType)
        ensures
            t == self.info.card_type,
    {
        self.info.card_type
    }

    pub open spec fn class_spec(self) -> CardClass {
        self.info.card_type.class_spec()
    }

    pub fn class(&self) -> (c: CardClass)
        ensures
            c == self.class_spec(),
    {
        self.info.card_type.class()
    }

    /// A card may take part in stacking only while it sits in no tile slot
    /// and is not hostile.
    pub open spec fn is_stackable_spec(self) -> bool {
        self.slotted_in_tile is None && self.class_spec() != CardClass::Enemy
    }

    pub fn is_stackable(&self) -> (r: bool)
        ensures
            r == self.is_stackable_spec(),
    {
        let c = self.class();
        self.slotted_in_tile.is_none() && !(c == CardClass::Enemy)
    }

    /// Only villagers and resources answer the pointer.
    pub open spec fn is_player_controlled_spec(self) -> bool {
        match self.class_spec() {
            CardClass::Villager => true,
            CardClass::Resource => true,
            CardClass::Enemy => false,
        }
    }

    pub fn is_player_controlled(&self) -> (r: bool)
        ensures
            r == self.is_player_controlled_spec(),
    {
        match self.class() {
            CardClass::Villager => true,
            CardClass::Resource => true,
            CardClass::Enemy => false,
        }
    }

    pub open spec fn in_stack_spec(self) -> bool {
        self.stack_parent is Some || self.stack_child is Some
    }

    pub fn in_stack(&self) -> (r: bool)
        ensures
            r == self.in_stack_spec(),
    {
        self.stack_parent.is_some() || self.stack_child.is_some()
    }
}

} // verus!
