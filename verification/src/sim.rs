//! The simulation instance: arenas, registry, and pointer state.

use vstd::prelude::*;

use crate::card::{Card, CardInfo, CardType};
use crate::chain::{acyclic, chain, lemma_push_none_acyclic, links_in_range, mirror_ok, mirrored};
use crate::progress_bar::BarEntity;
use crate::tile::{GRID_LIMIT, Tile, TileKind};

verus! {

/// How long two stacked villagers take to breed a new one.
pub const BREED_DURATION_MS: u64 = 5000;

/// A bred villager appears this far from its stack root.
pub const CARD_SPAWN_OFFSET: i64 = 1000;

/// Lift height of a held card.
pub const SELECT_LIFT_Z: i64 = 500;

/// Cascade offset of each stacked card below the one it sits on.
pub const STACK_OFFSET_Y: i64 = -300;

/// Depth offset of each stacked card, so it renders above its base.
pub const STACK_OFFSET_Z: i64 = 10;

/// Derived classification of one stack root.
#[derive(Clone, Copy, PartialEq, Eq, Structural, Debug)]
pub enum StackType {
    /// Freshly (re)queued, not yet classified.
    Pending,
    /// Classified: no rule applies.
    Nothing,
    /// Two villagers breeding; owns the countdown entity.
    Breed { progress_bar: usize },
}

/// The stack-root registry and its recomputation queue, both keyed by card
/// id. `roots[k]` is the registry entry of card `k`; `queued[k]` marks `k`
/// as awaiting reclassification. A vector of options over the whole arena
/// plays the map; a vector of booleans plays the deduplicated,
/// order-independent set.
pub struct StackRoots {
    pub roots: Vec<Option<StackType>>,
    pub queued: Vec<bool>,
}

/// World-space point under the pointer, in thousandths of a world unit.
#[derive(Clone, Copy, PartialEq, Eq, Structural, Debug)]
pub struct HoverPoint {
    pub x: i64,
    pub y: i64,
}

/// One simulation instance: the card arena with its stacking graph, the
/// tiles, the spawned timer entities, the root registry with its queue, and
/// the transient pointer state. Entity ids are arena indices; cards and
/// tiles are never destroyed, timers are despawned by marking them dead.
pub struct Simulation {
    pub cards: Vec<Card>,
    pub tiles: Vec<Tile>,
    pub bars: Vec<BarEntity>,
    pub stack_roots: StackRoots,
    pub selected_card: Option<usize>,
    pub hover_point: Option<HoverPoint>,
    pub hovered_tile: Option<usize>,
}

impl Simulation {
    /// Number of cards in the arena.
    pub open spec fn n(self) -> int {
        self.cards@.len() as int
    }

    /// The `stack_child` column of the arena.
    pub open spec fn child_links(self) -> Seq<Option<usize>> {
        self.cards@.map_values(|c: Card| c.stack_child)
    }

    /// The `stack_parent` column of the arena.
    pub open spec fn parent_links(self) -> Seq<Option<usize>> {
        self.cards@.map_values(|c: Card| c.stack_parent)
    }

    /// The members of the stack through card `i`, from `i` up to the top.
    pub open spec fn stack_seq(self, i: int) -> Seq<int> {
        chain(self.child_links(), i, self.cards@.len())
    }

    /// The topmost card of the stack through `i`: the end of the child walk.
    pub open spec fn stack_top_of(self, i: int) -> int {
        self.stack_seq(i).last()
    }

    /// The members walking from `i` down to its root.
    pub open spec fn root_seq(self, i: int) -> Seq<int> {
        chain(self.parent_links(), i, self.cards@.len())
    }

    /// The root of the stack through `i`: the card with no parent, which
    /// owns the stack's classification.
    pub open spec fn stack_root_of(self, i: int) -> int {
        self.root_seq(i).last()
    }

    /// Card `k` currently heads a stack of at least two cards.
    pub open spec fn proper_root(self, k: int) -> bool {
        self.cards@[k].stack_parent is None && self.cards@[k].stack_child is Some
    }

    /// The one classification rule: a stack breeds exactly when it holds
    /// exactly two cards, both villagers.
    pub open spec fn breed_condition(self, r: int) -> bool {
        let s = self.stack_seq(r);
        s.len() == 2 && forall|k: int|
            0 <= k < s.len() ==> (#[trigger] self.cards@[s[k]]).info.card_type
                == CardType::Villager
    }

    /// The stacking graph stays inside the arena, parent and child links
    /// mirror each other, and following either direction terminates.
    pub open spec fn wf_links(self) -> bool {
        &&& mirrored(self.child_links(), self.parent_links())
        &&& links_in_range(self.child_links())
        &&& links_in_range(self.parent_links())
        &&& acyclic(self.child_links())
        &&& acyclic(self.parent_links())
    }

    /// A slotted card is in no stack and is pointed back at by its tile.
    pub open spec fn card_slot_ok(self, i: int) -> bool {
        match self.cards@[i].slotted_in_tile {
            Option::Some(t) => {
                &&& (t as int) < self.tiles@.len()
                &&& self.cards@[i].stack_parent is None
                &&& self.cards@[i].stack_child is None
                &&& match self.tiles@[t as int].slotted_villager {
                    Option::Some(c) => c as int == i,
                    Option::None => false,
                }
            },
            Option::None => true,
        }
    }

    /// A tile's slot points at a card that points back, and a slot is
    /// occupied exactly while a production timer runs.
    pub open spec fn tile_slot_ok(self, t: int) -> bool {
        &&& match self.tiles@[t].slotted_villager {
            Option::Some(c) => (c as int) < self.n() && match self.cards@[
                c as int
            ].slotted_in_tile {
                Option::Some(t2) => t2 as int == t,
                Option::None => false,
            },
            Option::None => true,
        }
        &&& (self.tiles@[t].slotted_villager is Some <==> self.tiles@[t].progress_bar is Some)
    }

    pub open spec fn wf_slots(self) -> bool {
        &&& forall|i: int| 0 <= i < self.n() ==> #[trigger] self.card_slot_ok(i)
        &&& forall|t: int| 0 <= t < self.tiles@.len() ==> #[trigger] self.tile_slot_ok(t)
    }

    /// Timer `b` exists and is alive.
    pub open spec fn bar_live(self, b: int) -> bool {
        0 <= b < self.bars@.len() && self.bars@[b].alive
    }

    /// Registry entry `k` owns timer `b`.
    pub open spec fn root_owns_bar(self, k: int, b: int) -> bool {
        0 <= k < self.stack_roots.roots@.len() && match self.stack_roots.roots@[k] {
            Option::Some(StackType::Breed { progress_bar }) => progress_bar as int == b,
            _ => false,
        }
    }

    /// Tile `t` owns timer `b`.
    pub open spec fn tile_owns_bar(self, t: int, b: int) -> bool {
        0 <= t < self.tiles@.len() && match self.tiles@[t].progress_bar {
            Option::Some(p) => p as int == b,
            Option::None => false,
        }
    }

    /// Timer `b` has an owner.
    pub open spec fn bar_owned(self, b: int) -> bool {
        (exists|k: int| self.root_owns_bar(k, b)) || (exists|t: int| self.tile_owns_bar(t, b))
    }

    /// Timer ownership: every owned timer is alive, owners are exclusive,
    /// and no alive timer is orphaned — timers neither leak nor are shared.
    pub open spec fn wf_bars(self) -> bool {
        &&& forall|k: int, b: int| #[trigger] self.root_owns_bar(k, b) ==> self.bar_live(b)
        &&& forall|t: int, b: int| #[trigger] self.tile_owns_bar(t, b) ==> self.bar_live(b)
        &&& forall|k1: int, k2: int, b: int|
            #[trigger] self.root_owns_bar(k1, b) && #[trigger] self.root_owns_bar(k2, b) ==> k1
                == k2
        &&& forall|t1: int, t2: int, b: int|
            #[trigger] self.tile_owns_bar(t1, b) && #[trigger] self.tile_owns_bar(t2, b) ==> t1
                == t2
        &&& forall|k: int, t: int, b: int|
            !(#[trigger] self.root_owns_bar(k, b) && #[trigger] self.tile_owns_bar(t, b))
        &&& forall|b: int|
            0 <= b < self.bars@.len() && (#[trigger] self.bars@[b]).alive ==> self.bar_owned(b)
        &&& forall|b: int| 0 <= b < self.bars@.len() ==> (#[trigger] self.bars@[b]).bar.wf()
    }

    /// Registry discipline at key `k`: while `k` is not queued, it has an
    /// entry exactly when it currently heads a non-trivial stack; and a
    /// `Pending` entry is always queued for resolution.
    pub open spec fn registry_ok(self, k: int) -> bool {
        &&& !self.stack_roots.queued@[k] ==> (self.stack_roots.roots@[k] is Some
            <==> self.proper_root(k))
        &&& self.stack_roots.roots@[k] == Option::Some(StackType::Pending)
            ==> self.stack_roots.queued@[k]
    }

    pub open spec fn wf_registry(self) -> bool {
        &&& self.stack_roots.roots@.len() == self.cards@.len()
        &&& self.stack_roots.queued@.len() == self.cards@.len()
        &&& forall|k: int| 0 <= k < self.n() ==> #[trigger] self.registry_ok(k)
    }

    /// The held card, if any, exists, sits in no slot and has no parent
    /// (it was unslotted and unstacked when picked up).
    pub open spec fn wf_selection(self) -> bool {
        &&& match self.selected_card {
            Option::Some(c) => (c as int) < self.n() && self.cards@[c as int].slotted_in_tile
                is None && self.cards@[c as int].stack_parent is None,
            Option::None => true,
        }
        &&& match self.hovered_tile {
            Option::Some(t) => (t as int) < self.tiles@.len(),
            Option::None => true,
        }
    }

    pub open spec fn wf_cards(self) -> bool {
        forall|i: int| 0 <= i < self.n() ==> (#[trigger] self.cards@[i]).info.stats.wf()
    }

    /// The grid coordinate of tile `t`.
    pub open spec fn tile_grid(self, t: int) -> (int, int) {
        (self.tiles@[t].grid_x as int, self.tiles@[t].grid_y as int)
    }

    /// Tiles sit on bounded, pairwise distinct grid cells: the grid index is
    /// a one-to-one map.
    pub open spec fn wf_tiles(self) -> bool {
        &&& forall|t: int|
            0 <= t < self.tiles@.len() ==> -GRID_LIMIT <= (#[trigger] self.tiles@[t]).grid_x
                <= GRID_LIMIT && -GRID_LIMIT <= self.tiles@[t].grid_y <= GRID_LIMIT
        &&& forall|t1: int, t2: int|
            0 <= t1 < self.tiles@.len() && 0 <= t2 < self.tiles@.len() && #[trigger] self.tile_grid(
                t1,
            ) == #[trigger] self.tile_grid(t2) ==> t1 == t2
    }

    /// Everything but the registry discipline. The stack evaluator restores
    /// `registry_ok` only once its queue is drained, so its helper works
    /// under this core invariant.
    pub open spec fn wf_core(self) -> bool {
        &&& self.wf_links()
        &&& self.wf_slots()
        &&& self.stack_roots.roots@.len() == self.cards@.len()
        &&& self.stack_roots.queued@.len() == self.cards@.len()
        &&& self.wf_bars()
        &&& self.wf_selection()
        &&& self.wf_cards()
        &&& self.wf_tiles()
    }

    /// The whole well-formedness invariant: every public operation preserves
    /// it.
    pub open spec fn wf(self) -> bool {
        &&& self.wf_core()
        &&& self.wf_registry()
    }

    /// A fresh, empty simulation.
    pub fn new() -> (sim: Simulation)
        ensures
            sim.wf(),
            sim.cards@.len() == 0,
            sim.tiles@.len() == 0,
            sim.bars@.len() == 0,
            sim.selected_card is None,
            sim.hover_point is None,
            sim.hovered_tile is None,
    {
        Simulation {
            cards: Vec::new(),
            tiles: Vec::new(),
            bars: Vec::new(),
            stack_roots: StackRoots { roots: Vec::new(), queued: Vec::new() },
            selected_card: None,
            hover_point: None,
            hovered_tile: None,
        }
    }

    /// Spawn a freestanding card at a world position. The new card has all
    /// links clear and takes the initial statistics of its variety.
    pub fn spawn_card(&mut self, card_type: CardType, x: i64, y: i64) -> (id: usize)
        requires
            old(self).wf(),
        ensures
            final(self).wf(),
            id == old(self).cards@.len(),
            final(self).cards@ == old(self).cards@.push(spawned_card(card_type, x, y)),
            final(self).stack_roots.roots@ == old(self).stack_roots.roots@.push(
                Option::<StackType>::None,
            ),
            final(self).stack_roots.queued@ == old(self).stack_roots.queued@.push(false),
            final(self).tiles == old(self).tiles,
            final(self).bars == old(self).bars,
            final(self).selected_card == old(self).selected_card,
            final(self).hover_point == old(self).hover_point,
            final(self).hovered_tile == old(self).hovered_tile,
    {
        let id = self.cards.len();
        let mut card = Card::from_type(card_type);
        card.x = x;
        card.y = y;
        self.cards.push(card);
        self.stack_roots.roots.push(None);
        self.stack_roots.queued.push(false);
        proof {
            let o = *old(self);
            assert(self.cards@ =~= o.cards@.push(spawned_card(card_type, x, y)));
            assert(self.child_links() =~= o.child_links().push(Option::None));
            assert(self.parent_links() =~= o.parent_links().push(Option::None));
            lemma_push_none_acyclic(o.child_links());
            lemma_push_none_acyclic(o.parent_links());
            assert forall|i: int|
                0 <= i < self.child_links().len() implies #[trigger] mirror_ok(
                self.child_links(),
                self.parent_links(),
                i,
            ) by {
                if i < o.n() {
                    assert(mirror_ok(o.child_links(), o.parent_links(), i));
                }
            }
            assert forall|i: int|
                0 <= i < self.parent_links().len() implies #[trigger] mirror_ok(
                self.parent_links(),
                self.child_links(),
                i,
            ) by {
                if i < o.n() {
                    assert(mirror_ok(o.parent_links(), o.child_links(), i));
                }
            }
            assert forall|i: int| 0 <= i < self.n() implies #[trigger] self.card_slot_ok(i) by {
                if i < o.n() {
                    assert(o.card_slot_ok(i));
                }
            }
            assert forall|t: int|
                0 <= t < self.tiles@.len() implies #[trigger] self.tile_slot_ok(t) by {
                assert(o.tile_slot_ok(t));
            }
            assert forall|k: int| 0 <= k < self.n() implies #[trigger] self.registry_ok(k) by {
                if k < o.n() {
                    assert(o.registry_ok(k));
                }
            }
            assert(self.wf_bars()) by {
                lemma_bars_same(o, *self);
            }
            assert forall|i: int|
                0 <= i < self.n() implies (#[trigger] self.cards@[i]).info.stats.wf() by {
                if i < o.n() {
                    assert(o.cards@[i].info.stats.wf());
                }
            }
            assert forall|t1: int, t2: int|
                0 <= t1 < self.tiles@.len() && 0 <= t2 < self.tiles@.len()
                    && #[trigger] self.tile_grid(t1) == #[trigger] self.tile_grid(t2) implies t1
                == t2 by {
                assert(o.tile_grid(t1) == self.tile_grid(t1));
                assert(o.tile_grid(t2) == self.tile_grid(t2));
            }
        }
        id
    }

    /// Spawn a tile on a free grid cell. Returns its id, or `None` when the
    /// cell is outside the representable board or already taken.
    pub fn spawn_tile(&mut self, grid_x: i64, grid_y: i64) -> (id: Option<usize>)
        requires
            old(self).wf(),
        ensures
            final(self).wf(),
            match id {
                Option::Some(t) => {
                    &&& -GRID_LIMIT <= grid_x <= GRID_LIMIT && -GRID_LIMIT <= grid_y <= GRID_LIMIT
                    &&& forall|t2: int|
                        0 <= t2 < old(self).tiles@.len() ==> #[trigger] old(self).tile_grid(t2)
                            != (grid_x as int, grid_y as int)
                    &&& t == old(self).tiles@.len()
                    &&& final(self).tiles@ == old(self).tiles@.push(fresh_tile(grid_x, grid_y))
                },
                Option::None => {
                    &&& !(-GRID_LIMIT <= grid_x <= GRID_LIMIT && -GRID_LIMIT <= grid_y
                        <= GRID_LIMIT) || exists|t2: int|
                        0 <= t2 < old(self).tiles@.len() && #[trigger] old(self).tile_grid(t2)
                            == (grid_x as int, grid_y as int)
                    &&& final(self).tiles == old(self).tiles
                },
            },
            final(self).cards == old(self).cards,
            final(self).bars == old(self).bars,
            final(self).stack_roots.roots == old(self).stack_roots.roots,
            final(self).stack_roots.queued == old(self).stack_roots.queued,
            final(self).selected_card == old(self).selected_card,
            final(self).hover_point == old(self).hover_point,
            final(self).hovered_tile == old(self).hovered_tile,
    {
        if !(-GRID_LIMIT <= grid_x && grid_x <= GRID_LIMIT && -GRID_LIMIT <= grid_y && grid_y
            <= GRID_LIMIT) {
            return None;
        }
        if self.tile_at(grid_x, grid_y).is_some() {
            return None;
        }
        let id = self.tiles.len();
        self.tiles.push(
            Tile {
                kind: TileKind::Woods,
                grid_x,
                grid_y,
                slotted_villager: None,
                progress_bar: None,
            },
        );
        proof {
            let o = *old(self);
            assert(self.tiles@ =~= o.tiles@.push(fresh_tile(grid_x, grid_y)));
            assert(self.child_links() =~= o.child_links());
            assert(self.parent_links() =~= o.parent_links());
            assert forall|i: int| 0 <= i < self.n() implies #[trigger] self.card_slot_ok(i) by {
                assert(o.card_slot_ok(i));
            }
            assert forall|t: int|
                0 <= t < self.tiles@.len() implies #[trigger] self.tile_slot_ok(t) by {
                if t < o.tiles@.len() {
                    assert(o.tile_slot_ok(t));
                }
            }
            assert forall|k: int| 0 <= k < self.n() implies #[trigger] self.registry_ok(k) by {
                assert(o.registry_ok(k));
            }
            assert(self.wf_bars()) by {
                // the appended tile owns nothing, so ownership is unchanged
                assert forall|k: int, b: int| #[trigger] self.root_owns_bar(k, b) implies (
                o.root_owns_bar(k, b) || b >= o.bars@.len()) && self.bar_live(b) by {
                    assert(o.root_owns_bar(k, b));
                    assert(o.bar_live(b));
                }
                assert forall|t: int, b: int| #[trigger] self.tile_owns_bar(t, b) implies (
                o.tile_owns_bar(t, b) || b >= o.bars@.len()) && self.bar_live(b) by {
                    assert(t < o.tiles@.len());
                    assert(o.tile_owns_bar(t, b));
                    assert(o.bar_live(b));
                }
                assert forall|k: int, b: int|
                    #[trigger] o.root_owns_bar(k, b) && self.bar_live(b) && b
                    < o.bars@.len() implies self.root_owns_bar(k, b) by {}
                assert forall|t: int, b: int|
                    #[trigger] o.tile_owns_bar(t, b) && self.bar_live(b) && b
                    < o.bars@.len() implies self.tile_owns_bar(t, b) by {}
                assert forall|b: int|
                    0 <= b < self.bars@.len() implies (#[trigger] self.bars@[b]).bar.wf() by {
                    assert(o.bars@[b].bar.wf());
                }
                lemma_wf_bars_rewire(o, *self);
            }
            assert forall|t1: int, t2: int|
                0 <= t1 < self.tiles@.len() && 0 <= t2 < self.tiles@.len()
                    && #[trigger] self.tile_grid(t1) == #[trigger] self.tile_grid(t2) implies t1
                == t2 by {
                if t1 < o.tiles@.len() && t2 < o.tiles@.len() {
                    assert(o.tile_grid(t1) == self.tile_grid(t1));
                    assert(o.tile_grid(t2) == self.tile_grid(t2));
                } else if t1 < o.tiles@.len() && t2 == o.tiles@.len() {
                    assert(o.tile_grid(t1) != (grid_x as int, grid_y as int));
                    assert(false);
                } else if t2 < o.tiles@.len() && t1 == o.tiles@.len() {
                    assert(o.tile_grid(t2) != (grid_x as int, grid_y as int));
                    assert(false);
                }
            }
        }
        Some(id)
    }

    /// Look the tile up that occupies a grid cell, if any: the grid index.
    pub fn tile_at(&self, grid_x: i64, grid_y: i64) -> (r: Option<usize>)
        ensures
            match r {
                Option::Some(t) => (t as int) < self.tiles@.len() && self.tile_grid(t as int)
                    == (grid_x as int, grid_y as int),
                Option::None => forall|t: int|
                    0 <= t < self.tiles@.len() ==> #[trigger] self.tile_grid(t)
                        != (grid_x as int, grid_y as int),
            },
    {
        let mut t: usize = 0;
        while t < self.tiles.len()
            invariant
                t <= self.tiles@.len(),
                forall|t2: int|
                    0 <= t2 < t ==> #[trigger] self.tile_grid(t2) != (grid_x as int, grid_y as int),
            decreases self.tiles@.len() - t,
        {
            if self.tiles[t].grid_x == grid_x && self.tiles[t].grid_y == grid_y {
                return Some(t);
            }
            t = t + 1;
        }
        None
    }
}

/// The card `spawn_card` appends.
pub open spec fn spawned_card(card_type: CardType, x: i64, y: i64) -> Card {
    Card {
        info: CardInfo { card_type, stats: card_type.initial_stats_spec() },
        stack_parent: Option::None,
        stack_child: Option::None,
        slotted_in_tile: Option::None,
        x,
        y,
        z: 0,
    }
}

/// The tile `spawn_tile` appends.
pub open spec fn fresh_tile(grid_x: i64, grid_y: i64) -> Tile {
    Tile {
        kind: TileKind::Woods,
        grid_x,
        grid_y,
        slotted_villager: Option::None,
        progress_bar: Option::None,
    }
}

impl Simulation {
    /// Mark timer `b` despawned. Internal: callers restore the ownership
    /// invariant themselves. Requiring a live timer is what makes a double
    /// despawn impossible.
    pub(crate) fn despawn_bar(&mut self, b: usize)
        requires
            (b as int) < old(self).bars@.len(),
            old(self).bars@[b as int].alive,
        ensures
            final(self).bars@ == old(self).bars@.update(
                b as int,
                BarEntity { bar: old(self).bars@[b as int].bar, alive: false },
            ),
            final(self).cards == old(self).cards,
            final(self).tiles == old(self).tiles,
            final(self).stack_roots.roots == old(self).stack_roots.roots,
            final(self).stack_roots.queued == old(self).stack_roots.queued,
            final(self).selected_card == old(self).selected_card,
            final(self).hover_point == old(self).hover_point,
            final(self).hovered_tile == old(self).hovered_tile,
    {
        let mut be = self.bars[b];
        be.alive = false;
        self.bars[b] = be;
    }
}

/// The entry owns a timer.
pub open spec fn entry_is_breed(e: Option<StackType>) -> bool {
    match e {
        Option::Some(StackType::Breed { .. }) => true,
        _ => false,
    }
}

/// Timer ownership is untouched by changes that keep the tiles and the
/// timer arena as they were and alter or add only registry entries that own
/// no timer.
pub proof fn lemma_bars_same(o: Simulation, s: Simulation)
    requires
        o.wf_bars(),
        s.bars@ == o.bars@,
        s.tiles@ == o.tiles@,
        s.stack_roots.roots@.len() >= o.stack_roots.roots@.len(),
        forall|k: int|
            0 <= k < o.stack_roots.roots@.len() ==> #[trigger] s.stack_roots.roots@[k]
                == o.stack_roots.roots@[k] || (!entry_is_breed(o.stack_roots.roots@[k])
                && !entry_is_breed(s.stack_roots.roots@[k])),
        forall|k: int|
            o.stack_roots.roots@.len() <= k < s.stack_roots.roots@.len() ==> !entry_is_breed(
                #[trigger] s.stack_roots.roots@[k],
            ),
    ensures
        s.wf_bars(),
{
    assert forall|k: int, b: int| #[trigger] s.root_owns_bar(k, b) implies s.bar_live(b) by {
        assert(o.root_owns_bar(k, b));
    }
    assert forall|t: int, b: int| #[trigger] s.tile_owns_bar(t, b) implies s.bar_live(b) by {
        assert(o.tile_owns_bar(t, b));
    }
    assert forall|k1: int, k2: int, b: int|
        #[trigger] s.root_owns_bar(k1, b) && #[trigger] s.root_owns_bar(k2, b) implies k1
        == k2 by {
        assert(o.root_owns_bar(k1, b) && o.root_owns_bar(k2, b));
    }
    assert forall|t1: int, t2: int, b: int|
        #[trigger] s.tile_owns_bar(t1, b) && #[trigger] s.tile_owns_bar(t2, b) implies t1
        == t2 by {
        assert(o.tile_owns_bar(t1, b) && o.tile_owns_bar(t2, b));
    }
    assert forall|k: int, t: int, b: int|
        !(#[trigger] s.root_owns_bar(k, b) && #[trigger] s.tile_owns_bar(t, b)) by {
        if s.root_owns_bar(k, b) && s.tile_owns_bar(t, b) {
            assert(o.root_owns_bar(k, b) && o.tile_owns_bar(t, b));
        }
    }
    assert forall|b: int|
        0 <= b < s.bars@.len() && (#[trigger] s.bars@[b]).alive implies s.bar_owned(b) by {
        assert(o.bars@[b].alive);
        assert(o.bar_owned(b));
        if exists|k: int| o.root_owns_bar(k, b) {
            let k = choose|k: int| o.root_owns_bar(k, b);
            assert(s.root_owns_bar(k, b));
        } else {
            let t = choose|t: int| o.tile_owns_bar(t, b);
            assert(s.tile_owns_bar(t, b));
        }
    }
    assert forall|b: int| 0 <= b < s.bars@.len() implies (#[trigger] s.bars@[b]).bar.wf() by {
        assert(o.bars@[b].bar.wf());
    }
}

/// Well-formedness carries over when one timer merely changes its reading:
/// ownership is blind to a timer's contents, it reads only liveness.
pub proof fn lemma_wf_bar_value(o: Simulation, s: Simulation, b: int)
    requires
        o.wf(),
        0 <= b < o.bars@.len(),
        s.bars@ == o.bars@.update(b, BarEntity { bar: s.bars@[b].bar, alive: o.bars@[b].alive }),
        s.bars@[b].bar.wf(),
        s.cards@ == o.cards@,
        s.tiles@ == o.tiles@,
        s.stack_roots.roots@ == o.stack_roots.roots@,
        s.stack_roots.queued@ == o.stack_roots.queued@,
        s.selected_card == o.selected_card,
        s.hovered_tile == o.hovered_tile,
    ensures
        s.wf(),
{
    assert(s.child_links() =~= o.child_links());
    assert(s.parent_links() =~= o.parent_links());
    assert forall|i: int| 0 <= i < s.n() implies #[trigger] s.card_slot_ok(i) by {
        assert(o.card_slot_ok(i));
    }
    assert forall|t: int| 0 <= t < s.tiles@.len() implies #[trigger] s.tile_slot_ok(t) by {
        assert(o.tile_slot_ok(t));
    }
    assert forall|k: int| 0 <= k < s.n() implies #[trigger] s.registry_ok(k) by {
        assert(o.registry_ok(k));
    }
    assert forall|k: int, b2: int| #[trigger] s.root_owns_bar(k, b2) implies s.bar_live(b2) by {
        assert(o.root_owns_bar(k, b2));
    }
    assert forall|t: int, b2: int| #[trigger] s.tile_owns_bar(t, b2) implies s.bar_live(b2) by {
        assert(o.tile_owns_bar(t, b2));
    }
    assert forall|k1: int, k2: int, b2: int|
        #[trigger] s.root_owns_bar(k1, b2) && #[trigger] s.root_owns_bar(k2, b2) implies k1
        == k2 by {
        assert(o.root_owns_bar(k1, b2) && o.root_owns_bar(k2, b2));
    }
    assert forall|t1: int, t2: int, b2: int|
        #[trigger] s.tile_owns_bar(t1, b2) && #[trigger] s.tile_owns_bar(t2, b2) implies t1
        == t2 by {
        assert(o.tile_owns_bar(t1, b2) && o.tile_owns_bar(t2, b2));
    }
    assert forall|k: int, t: int, b2: int|
        !(#[trigger] s.root_owns_bar(k, b2) && #[trigger] s.tile_owns_bar(t, b2)) by {
        if s.root_owns_bar(k, b2) && s.tile_owns_bar(t, b2) {
            assert(o.root_owns_bar(k, b2) && o.tile_owns_bar(t, b2));
        }
    }
    assert forall|b2: int|
        0 <= b2 < s.bars@.len() && (#[trigger] s.bars@[b2]).alive implies s.bar_owned(b2) by {
        assert(o.bars@[b2].alive);
        assert(o.bar_owned(b2));
        if exists|k: int| o.root_owns_bar(k, b2) {
            let k = choose|k: int| o.root_owns_bar(k, b2);
            assert(s.root_owns_bar(k, b2));
        } else {
            let t = choose|t: int| o.tile_owns_bar(t, b2);
            assert(s.tile_owns_bar(t, b2));
        }
    }
    assert forall|b2: int| 0 <= b2 < s.bars@.len() implies (#[trigger] s.bars@[b2]).bar.wf() by {
        if b2 != b {
            assert(o.bars@[b2].bar.wf());
        }
    }
    assert forall|i: int| 0 <= i < s.n() implies (#[trigger] s.cards@[i]).info.stats.wf() by {
        assert(o.cards@[i].info.stats.wf());
    }
    assert forall|t1: int, t2: int|
        0 <= t1 < s.tiles@.len() && 0 <= t2 < s.tiles@.len() && #[trigger] s.tile_grid(t1)
            == #[trigger] s.tile_grid(t2) implies t1 == t2 by {
        assert(o.tile_grid(t1) == s.tile_grid(t1));
        assert(o.tile_grid(t2) == s.tile_grid(t2));
    }
}

/// The two cards agree on everything but their position.
pub open spec fn same_card_apart_positions(a: Card, b: Card) -> bool {
    &&& a.info == b.info
    &&& a.stack_parent == b.stack_parent
    &&& a.stack_child == b.stack_child
    &&& a.slotted_in_tile == b.slotted_in_tile
}

/// Timer ownership survives an arbitrary rewiring step, provided: timers
/// still alive are bit-identical; every owner either kept its old timer or
/// owns a freshly appended one; freshly appended timers have at most one
/// owner; old owners keep their timer while it lives; and no live timer —
/// old or fresh — is left without an owner. Every operation that despawns,
/// spawns or re-assigns timers discharges these local conditions instead of
/// re-proving the ownership clauses one by one.
pub proof fn lemma_wf_bars_rewire(o: Simulation, s: Simulation)
    requires
        o.wf_bars(),
        s.bars@.len() >= o.bars@.len(),
        forall|b: int|
            0 <= b < o.bars@.len() && (#[trigger] s.bars@[b]).alive ==> s.bars@[b] == o.bars@[b]
                && o.bars@[b].alive,
        forall|b: int| 0 <= b < s.bars@.len() ==> (#[trigger] s.bars@[b]).bar.wf(),
        forall|k: int, b: int|
            #[trigger] s.root_owns_bar(k, b) ==> (o.root_owns_bar(k, b) || b >= o.bars@.len())
                && s.bar_live(b),
        forall|t: int, b: int|
            #[trigger] s.tile_owns_bar(t, b) ==> (o.tile_owns_bar(t, b) || b >= o.bars@.len())
                && s.bar_live(b),
        forall|k1: int, k2: int, b: int|
            b >= o.bars@.len() && #[trigger] s.root_owns_bar(k1, b) && #[trigger] s.root_owns_bar(
                k2,
                b,
            ) ==> k1 == k2,
        forall|t1: int, t2: int, b: int|
            b >= o.bars@.len() && #[trigger] s.tile_owns_bar(t1, b) && #[trigger] s.tile_owns_bar(
                t2,
                b,
            ) ==> t1 == t2,
        forall|k: int, t: int, b: int|
            b >= o.bars@.len() ==> !(#[trigger] s.root_owns_bar(k, b) && #[trigger] s.tile_owns_bar(
                t,
                b,
            )),
        forall|k: int, b: int|
            #[trigger] o.root_owns_bar(k, b) && s.bar_live(b) && b < o.bars@.len()
                ==> s.root_owns_bar(k, b),
        forall|t: int, b: int|
            #[trigger] o.tile_owns_bar(t, b) && s.bar_live(b) && b < o.bars@.len()
                ==> s.tile_owns_bar(t, b),
        forall|b: int|
            o.bars@.len() <= b < s.bars@.len() && (#[trigger] s.bars@[b]).alive ==> s.bar_owned(b),
    ensures
        s.wf_bars(),
{
    assert forall|k1: int, k2: int, b: int|
        #[trigger] s.root_owns_bar(k1, b) && #[trigger] s.root_owns_bar(k2, b) implies k1
        == k2 by {
        if b < o.bars@.len() {
            assert(o.root_owns_bar(k1, b) && o.root_owns_bar(k2, b));
        }
    }
    assert forall|t1: int, t2: int, b: int|
        #[trigger] s.tile_owns_bar(t1, b) && #[trigger] s.tile_owns_bar(t2, b) implies t1
        == t2 by {
        if b < o.bars@.len() {
            assert(o.tile_owns_bar(t1, b) && o.tile_owns_bar(t2, b));
        }
    }
    assert forall|k: int, t: int, b: int|
        !(#[trigger] s.root_owns_bar(k, b) && #[trigger] s.tile_owns_bar(t, b)) by {
        if s.root_owns_bar(k, b) && s.tile_owns_bar(t, b) && b < o.bars@.len() {
            assert(o.root_owns_bar(k, b) && o.tile_owns_bar(t, b));
        }
    }
    assert forall|b: int|
        0 <= b < s.bars@.len() && (#[trigger] s.bars@[b]).alive implies s.bar_owned(b) by {
        if b < o.bars@.len() {
            assert(o.bars@[b].alive);
            assert(o.bar_owned(b));
            if exists|k: int| o.root_owns_bar(k, b) {
                let k = choose|k: int| o.root_owns_bar(k, b);
                assert(s.root_owns_bar(k, b));
            } else {
                let t = choose|t: int| o.tile_owns_bar(t, b);
                assert(s.tile_owns_bar(t, b));
            }
        }
    }
}

/// The core invariant never reads the queue's contents, so it carries over
/// to a state that differs only there (and in the hover point).
pub proof fn lemma_wf_core_frame(o: Simulation, s: Simulation)
    requires
        o.wf_core(),
        s.cards@ == o.cards@,
        s.tiles@ == o.tiles@,
        s.bars@ == o.bars@,
        s.stack_roots.roots@ == o.stack_roots.roots@,
        s.stack_roots.queued@.len() == o.stack_roots.queued@.len(),
        s.selected_card == o.selected_card,
        s.hovered_tile == o.hovered_tile,
    ensures
        s.wf_core(),
{
    assert(s.child_links() =~= o.child_links());
    assert(s.parent_links() =~= o.parent_links());
    assert forall|i: int| 0 <= i < s.n() implies #[trigger] s.card_slot_ok(i) by {
        assert(o.card_slot_ok(i));
    }
    assert forall|t: int| 0 <= t < s.tiles@.len() implies #[trigger] s.tile_slot_ok(t) by {
        assert(o.tile_slot_ok(t));
    }
    lemma_bars_same(o, s);
    assert forall|i: int| 0 <= i < s.n() implies (#[trigger] s.cards@[i]).info.stats.wf() by {
        assert(o.cards@[i].info.stats.wf());
    }
    assert forall|t1: int, t2: int|
        0 <= t1 < s.tiles@.len() && 0 <= t2 < s.tiles@.len() && #[trigger] s.tile_grid(t1)
            == #[trigger] s.tile_grid(t2) implies t1 == t2 by {
        assert(o.tile_grid(t1) == s.tile_grid(t1));
        assert(o.tile_grid(t2) == s.tile_grid(t2));
    }
}

/// Well-formedness carries over to a state with the same arenas: only the
/// transient pointer state may differ, and the caller shows the selection
/// part itself.
pub proof fn lemma_wf_frame(o: Simulation, s: Simulation)
    requires
        o.wf(),
        s.cards@ == o.cards@,
        s.tiles@ == o.tiles@,
        s.bars@ == o.bars@,
        s.stack_roots.roots@ == o.stack_roots.roots@,
        s.stack_roots.queued@ == o.stack_roots.queued@,
        s.wf_selection(),
    ensures
        s.wf(),
{
    assert(s.child_links() =~= o.child_links());
    assert(s.parent_links() =~= o.parent_links());
    assert forall|i: int| 0 <= i < s.n() implies #[trigger] s.card_slot_ok(i) by {
        assert(o.card_slot_ok(i));
    }
    assert forall|t: int| 0 <= t < s.tiles@.len() implies #[trigger] s.tile_slot_ok(t) by {
        assert(o.tile_slot_ok(t));
    }
    assert forall|k: int| 0 <= k < s.n() implies #[trigger] s.registry_ok(k) by {
        assert(o.registry_ok(k));
    }
    lemma_bars_same(o, s);
    assert forall|i: int| 0 <= i < s.n() implies (#[trigger] s.cards@[i]).info.stats.wf() by {
        assert(o.cards@[i].info.stats.wf());
    }
    assert forall|t1: int, t2: int|
        0 <= t1 < s.tiles@.len() && 0 <= t2 < s.tiles@.len() && #[trigger] s.tile_grid(t1)
            == #[trigger] s.tile_grid(t2) implies t1 == t2 by {
        assert(o.tile_grid(t1) == s.tile_grid(t1));
        assert(o.tile_grid(t2) == s.tile_grid(t2));
    }
}

/// Well-formedness carries over to a state in which cards have merely
/// moved: every link, slot, registry and timer fact is position-blind.
pub proof fn lemma_wf_positions_frame(o: Simulation, s: Simulation)
    requires
        o.wf(),
        s.cards@.len() == o.cards@.len(),
        forall|i: int|
            0 <= i < o.cards@.len() ==> same_card_apart_positions(
                #[trigger] s.cards@[i],
                o.cards@[i],
            ),
        s.tiles@ == o.tiles@,
        s.bars@ == o.bars@,
        s.stack_roots.roots@ == o.stack_roots.roots@,
        s.stack_roots.queued@ == o.stack_roots.queued@,
        s.selected_card == o.selected_card,
        s.hovered_tile == o.hovered_tile,
    ensures
        s.wf(),
{
    assert(s.child_links() =~= o.child_links());
    assert(s.parent_links() =~= o.parent_links());
    assert forall|i: int| 0 <= i < s.n() implies #[trigger] s.card_slot_ok(i) by {
        assert(o.card_slot_ok(i));
        assert(same_card_apart_positions(s.cards@[i], o.cards@[i]));
    }
    assert forall|t: int| 0 <= t < s.tiles@.len() implies #[trigger] s.tile_slot_ok(t) by {
        assert(o.tile_slot_ok(t));
        match o.tiles@[t].slotted_villager {
            Option::Some(c) => {
                assert(same_card_apart_positions(s.cards@[c as int], o.cards@[c as int]));
            },
            Option::None => {},
        }
    }
    assert forall|k: int| 0 <= k < s.n() implies #[trigger] s.registry_ok(k) by {
        assert(o.registry_ok(k));
        assert(same_card_apart_positions(s.cards@[k], o.cards@[k]));
    }
    lemma_bars_same(o, s);
    match o.selected_card {
        Option::Some(c) => {
            assert(same_card_apart_positions(s.cards@[c as int], o.cards@[c as int]));
        },
        Option::None => {},
    }
    assert forall|i: int| 0 <= i < s.n() implies (#[trigger] s.cards@[i]).info.stats.wf() by {
        assert(o.cards@[i].info.stats.wf());
        assert(same_card_apart_positions(s.cards@[i], o.cards@[i]));
    }
    assert forall|t1: int, t2: int|
        0 <= t1 < s.tiles@.len() && 0 <= t2 < s.tiles@.len() && #[trigger] s.tile_grid(t1)
            == #[trigger] s.tile_grid(t2) implies t1 == t2 by {
        assert(o.tile_grid(t1) == s.tile_grid(t1));
        assert(o.tile_grid(t2) == s.tile_grid(t2));
    }
}

} // verus!
