//! Tiles: fixed board positions with single-occupancy production slots.

use vstd::prelude::*;

use crate::card::{Card, CardClass, CardType};
use crate::coord::{clamp_coord, coord_add};
use crate::progress_bar::{BarEntity, ProgressBar};
use crate::sim::{
    lemma_wf_bar_value, lemma_wf_bars_rewire, lemma_wf_frame, spawned_card, Simulation,
};

verus! {

/// Grid pitch: tile size plus inter-tile gap, in thousandths of a world
/// unit.
pub const TILE_PITCH: i64 = 2950;

/// Half of it, the rounding threshold of `translation_to_grid`.
pub const TILE_PITCH_HALF: i64 = 1475;

/// Half extents of a tile's slot footprint, in thousandths.
pub const TILE_SLOT_HALF_WIDTH: i64 = 500;

pub const TILE_SLOT_HALF_HEIGHT: i64 = 600;

/// How long a slotted villager takes to produce one resource.
pub const PRODUCTION_DURATION_MS: u64 = 2000;

/// A produced resource appears this far from its tile.
pub const TILE_SPAWN_OFFSET: i64 = 950;

/// Largest grid coordinate magnitude; keeps tile world coordinates well
/// inside the i64 range.
pub const GRID_LIMIT: i64 = 1_000_000_000_000;

/// The closed set of tile varieties.
#[derive(Clone, Copy, PartialEq, Eq, Structural, Debug)]
pub enum TileKind {
    Woods,
}

/// One tile of the board. Its grid coordinate never changes after spawning;
/// `slotted_villager` and `progress_bar` are `Some` together: a slotted
/// villager always works against a running production timer.
#[derive(Clone, Copy, Debug)]
pub struct Tile {
    pub kind: TileKind,
    pub grid_x: i64,
    pub grid_y: i64,
    pub slotted_villager: Option<usize>,
    pub progress_bar: Option<usize>,
}

impl Tile {
    /// Where a grid coordinate sits in the world, one axis at a time.
    pub open spec fn grid_axis_to_world(g: int) -> int {
        g * TILE_PITCH
    }

    /// The nearest lattice cell of a world coordinate, one axis at a time:
    /// round to nearest, halves away from zero.
    pub open spec fn world_axis_to_grid(t: int) -> int {
        if t >= 0 {
            (t + TILE_PITCH_HALF) / (TILE_PITCH as int)
        } else {
            -(((-t) + TILE_PITCH_HALF) / (TILE_PITCH as int))
        }
    }

    /// World position of a grid coordinate.
    pub fn grid_to_translation(grid_x: i64, grid_y: i64) -> (r: (i64, i64))
        requires
            -GRID_LIMIT <= grid_x <= GRID_LIMIT,
            -GRID_LIMIT <= grid_y <= GRID_LIMIT,
        ensures
            r.0 as int == Self::grid_axis_to_world(grid_x as int),
            r.1 as int == Self::grid_axis_to_world(grid_y as int),
    {
        (grid_x * TILE_PITCH, grid_y * TILE_PITCH)
    }

    /// Grid cell under a world position.
    pub fn translation_to_grid(x: i64, y: i64) -> (r: (i64, i64))
        ensures
            r.0 as int == Self::world_axis_to_grid(x as int),
            r.1 as int == Self::world_axis_to_grid(y as int),
    {
        (Self::axis_to_grid(x), Self::axis_to_grid(y))
    }

    fn axis_to_grid(t: i64) -> (g: i64)
        ensures
            g as int == Self::world_axis_to_grid(t as int),
    {
        if t >= 0 {
            let w: i128 = (t as i128 + TILE_PITCH_HALF as i128) / (TILE_PITCH as i128);
            w as i64
        } else {
            let w: i128 = ((-(t as i128)) + TILE_PITCH_HALF as i128) / (TILE_PITCH as i128);
            (-w) as i64
        }
    }

    /// Footprint of the slot indicator, in thousandths.
    pub fn slot_size() -> (s: (i64, i64))
        ensures
            s.0 == 2 * TILE_SLOT_HALF_WIDTH,
            s.1 == 2 * TILE_SLOT_HALF_HEIGHT,
    {
        (2 * TILE_SLOT_HALF_WIDTH, 2 * TILE_SLOT_HALF_HEIGHT)
    }
}

/// Rounding a tile's world position recovers its grid coordinate exactly:
/// `world_axis_to_grid` inverts `grid_axis_to_world` on every representable
/// cell.
pub proof fn lemma_grid_roundtrip(g: int)
    requires
        -GRID_LIMIT <= g <= GRID_LIMIT,
    ensures
        Tile::world_axis_to_grid(Tile::grid_axis_to_world(g)) == g,
{
    let t = g * (TILE_PITCH as int);
    if g >= 0 {
        assert(t == g * 2950);
        assert(t >= 0) by (nonlinear_arith)
            requires
                g >= 0,
                t == g * 2950,
        ;
        assert((g * 2950 + 1475) / 2950 == g) by (nonlinear_arith)
            requires
                g >= 0,
        ;
    } else {
        assert(t < 0) by (nonlinear_arith)
            requires
                g < 0,
                t == g * 2950,
        ;
        assert(((-t) + 1475) / 2950 == -g) by (nonlinear_arith)
            requires
                g < 0,
                t == g * 2950,
        ;
    }
}

/// The hover point lies inside the slot footprint of a tile centred at
/// `(tx, ty)`.
pub open spec fn within_slot_footprint(tx: int, ty: int, hx: int, hy: int) -> bool {
    &&& tx - TILE_SLOT_HALF_WIDTH < hx < tx + TILE_SLOT_HALF_WIDTH
    &&& ty - TILE_SLOT_HALF_HEIGHT < hy < ty + TILE_SLOT_HALF_HEIGHT
}

/// Footprint test over raw coordinates, wide enough that no bound on how far
/// anything has drifted is needed.
pub fn in_slot_footprint(tx: i64, ty: i64, hx: i64, hy: i64) -> (r: bool)
    ensures
        r == within_slot_footprint(tx as int, ty as int, hx as int, hy as int),
{
    let txw = tx as i128;
    let tyw = ty as i128;
    let hxw = hx as i128;
    let hyw = hy as i128;
    txw - (TILE_SLOT_HALF_WIDTH as i128) < hxw && hxw < txw + (TILE_SLOT_HALF_WIDTH as i128)
        && tyw - (TILE_SLOT_HALF_HEIGHT as i128) < hyw && hyw < tyw + (
    TILE_SLOT_HALF_HEIGHT as i128)
}

impl Simulation {
    /// When a villager may be slotted into a tile: the slot is free, the
    /// card is a villager, and it is neither held, in a stack, nor slotted
    /// elsewhere — slots and stacks are mutually exclusive.
    pub open spec fn slot_allowed(self, tile: int, card: int) -> bool {
        &&& 0 <= tile < self.tiles@.len()
        &&& 0 <= card < self.n()
        &&& self.tiles@[tile].slotted_villager is None
        &&& self.cards@[card].class_spec() == CardClass::Villager
        &&& !self.cards@[card].in_stack_spec()
        &&& self.cards@[card].slotted_in_tile is None
        &&& match self.selected_card {
            Option::Some(c) => c as int != card,
            Option::None => true,
        }
    }

    /// Try to slot `card` into `tile`. On success the tile records the
    /// villager, a fresh production timer starts, and the card records its
    /// tile. Anything else is silently rejected.
    pub fn try_slotting_card(&mut self, tile: usize, card: usize) -> (ok: bool)
        requires
            old(self).wf(),
        ensures
            final(self).wf(),
            ok == old(self).slot_allowed(tile as int, card as int),
            !ok ==> *final(self) == *old(self),
            ok ==> ({
                let o = *old(self);
                let s = *final(self);
                &&& s.tiles@.len() == o.tiles@.len()
                &&& s.cards@.len() == o.cards@.len()
                &&& s.tiles@[tile as int].slotted_villager == Option::Some(card)
                &&& s.tiles@[tile as int].progress_bar == Option::Some(o.bars@.len() as usize)
                &&& s.tiles@[tile as int].kind == o.tiles@[tile as int].kind
                &&& s.tiles@[tile as int].grid_x == o.tiles@[tile as int].grid_x
                &&& s.tiles@[tile as int].grid_y == o.tiles@[tile as int].grid_y
                &&& forall|t2: int|
                    0 <= t2 < o.tiles@.len() && t2 != tile as int ==> s.tiles@[t2]
                        == #[trigger] o.tiles@[t2]
                &&& s.cards@[card as int] == Card {
                    slotted_in_tile: Option::Some(tile),
                    ..o.cards@[card as int]
                }
                &&& forall|i: int|
                    0 <= i < o.n() && i != card as int ==> s.cards@[i] == #[trigger] o.cards@[i]
                &&& s.bars@ == o.bars@.push(
                    BarEntity {
                        bar: ProgressBar { current_ms: 0, total_ms: PRODUCTION_DURATION_MS },
                        alive: true,
                    },
                )
                &&& s.stack_roots.roots == o.stack_roots.roots
                &&& s.stack_roots.queued == o.stack_roots.queued
                &&& s.selected_card == o.selected_card
                &&& s.hover_point == o.hover_point
                &&& s.hovered_tile == o.hovered_tile
            }),
    {
        if tile >= self.tiles.len() || card >= self.cards.len() {
            return false;
        }
        let tl = self.tiles[tile];
        if tl.slotted_villager.is_some() {
            return false;
        }
        let c = self.cards[card];
        if !(c.class() == CardClass::Villager) {
            return false;
        }
        if c.in_stack() {
            return false;
        }
        if c.slotted_in_tile.is_some() {
            return false;
        }
        match self.selected_card {
            Some(sc) => {
                if sc == card {
                    return false;
                }
            },
            None => {},
        }
        let ghost o = *old(self);
        let b = self.bars.len();
        self.bars.push(BarEntity { bar: ProgressBar::new(PRODUCTION_DURATION_MS), alive: true });
        let mut tm = tl;
        tm.slotted_villager = Some(card);
        tm.progress_bar = Some(b);
        self.tiles[tile] = tm;
        let mut cm = c;
        cm.slotted_in_tile = Some(tile);
        self.cards[card] = cm;
        proof {
            let s = *self;
            assert(s.child_links() =~= o.child_links());
            assert(s.parent_links() =~= o.parent_links());
            assert forall|i: int| 0 <= i < s.n() implies #[trigger] s.card_slot_ok(i) by {
                assert(o.card_slot_ok(i));
            }
            assert forall|t2: int|
                0 <= t2 < s.tiles@.len() implies #[trigger] s.tile_slot_ok(t2) by {
                assert(o.tile_slot_ok(t2));
                if t2 != tile as int {
                    match o.tiles@[t2].slotted_villager {
                        Option::Some(c2) => {
                            assert(c2 != card);
                        },
                        Option::None => {},
                    }
                }
            }
            assert forall|k: int| 0 <= k < s.n() implies #[trigger] s.registry_ok(k) by {
                assert(o.registry_ok(k));
            }
            // Timer ownership: the fresh timer belongs to this tile alone.
            let ghost fresh = o.bars@.len() as int;
            assert forall|k: int, b2: int| #[trigger] s.root_owns_bar(k, b2) implies (
            o.root_owns_bar(k, b2) || b2 >= fresh) && s.bar_live(b2) by {
                assert(o.root_owns_bar(k, b2));
                assert(o.bar_live(b2));
            }
            assert forall|t2: int, b2: int| #[trigger] s.tile_owns_bar(t2, b2) implies (
            o.tile_owns_bar(t2, b2) || b2 >= fresh) && s.bar_live(b2) by {
                if t2 != tile as int {
                    assert(o.tile_owns_bar(t2, b2));
                    assert(o.bar_live(b2));
                } else {
                    assert(b2 == fresh);
                }
            }
            assert forall|t1: int, t2: int, b2: int|
                b2 >= fresh && #[trigger] s.tile_owns_bar(t1, b2) && #[trigger] s.tile_owns_bar(
                t2,
                b2,
            ) implies t1 == t2 by {
                if t1 != tile as int {
                    assert(o.tile_owns_bar(t1, b2));
                    assert(o.bar_live(b2));
                }
                if t2 != tile as int {
                    assert(o.tile_owns_bar(t2, b2));
                    assert(o.bar_live(b2));
                }
            }
            assert forall|k: int, b2: int|
                b2 >= fresh && #[trigger] s.root_owns_bar(k, b2) implies false by {
                assert(o.root_owns_bar(k, b2));
                assert(o.bar_live(b2));
            }
            assert forall|t2: int, b2: int|
                #[trigger] o.tile_owns_bar(t2, b2) && s.bar_live(b2) && b2 < fresh implies s
                .tile_owns_bar(t2, b2) by {
                if t2 == tile as int {
                    assert(o.tile_slot_ok(tile as int));
                }
            }
            assert forall|b2: int|
                fresh <= b2 < s.bars@.len() && (#[trigger] s.bars@[b2]).alive implies s.bar_owned(
                b2,
            ) by {
                assert(s.tile_owns_bar(tile as int, b2));
            }
            assert forall|b2: int|
                0 <= b2 < s.bars@.len() implies (#[trigger] s.bars@[b2]).bar.wf() by {
                if b2 < fresh {
                    assert(o.bars@[b2].bar.wf());
                }
            }
            lemma_wf_bars_rewire(o, s);
            assert forall|i: int|
                0 <= i < s.n() implies (#[trigger] s.cards@[i]).info.stats.wf() by {
                assert(o.cards@[i].info.stats.wf());
            }
            assert forall|t1: int, t2: int|
                0 <= t1 < s.tiles@.len() && 0 <= t2 < s.tiles@.len() && #[trigger] s.tile_grid(t1)
                    == #[trigger] s.tile_grid(t2) implies t1 == t2 by {
                assert(o.tile_grid(t1) == s.tile_grid(t1));
                assert(o.tile_grid(t2) == s.tile_grid(t2));
            }
        }
        true
    }

    /// Whether a tile's slot indicator shows: permanently for an occupied
    /// tile, and transiently for the tile under the pointer while a card is
    /// held — independent of occupancy.
    pub open spec fn slot_indicator_visible_spec(self, t: int) -> bool {
        ||| self.tiles@[t].slotted_villager is Some
        ||| (self.selected_card is Some && self.hovered_tile == Option::Some(t as usize))
    }

    pub fn slot_indicator_visible(&self, t: usize) -> (r: bool)
        requires
            self.wf(),
            (t as int) < self.tiles@.len(),
        ensures
            r == self.slot_indicator_visible_spec(t as int),
    {
        if self.tiles[t].slotted_villager.is_some() {
            return true;
        }
        if self.selected_card.is_some() {
            match self.hovered_tile {
                Some(h) => h == t,
                None => false,
            }
        } else {
            false
        }
    }

    /// Re-resolve which tile the pointer hovers. Only meaningful while a
    /// card is held: the hover target feeds the drop logic of the next
    /// release, so it is left alone otherwise.
    pub fn hover_tile(&mut self)
        requires
            old(self).wf(),
        ensures
            final(self).wf(),
            hover_tile_post(*old(self), *final(self)),
    {
        let ghost o = *old(self);
        if self.selected_card.is_some() {
            match self.hover_point {
                Some(hp) => {
                    let (gx, gy) = Tile::translation_to_grid(hp.x, hp.y);
                    let target = self.tile_at(gx, gy);
                    self.hovered_tile = target;
                },
                None => {
                    self.hovered_tile = None;
                },
            }
        }
        proof {
            lemma_wf_frame(o, *self);
        }
    }

    /// A villager finished producing on tile `t` within `delta_ms`.
    pub open spec fn finished_production(self, delta_ms: u64, t: int) -> bool {
        match self.tiles@[t].progress_bar {
            Option::Some(b) => self.bars@[b as int].bar.current_ms + delta_ms >= self.bars@[
                b as int
            ].bar.total_ms,
            Option::None => false,
        }
    }

    /// The resource a tile's completed production run spawns.
    pub open spec fn produced_card(self, t: int) -> Card {
        spawned_card(
            CardType::Log,
            (crate::coord::clamp_coord(
                Tile::grid_axis_to_world(self.tiles@[t].grid_x as int) + TILE_SPAWN_OFFSET,
            )) as i64,
            (crate::coord::clamp_coord(
                Tile::grid_axis_to_world(self.tiles@[t].grid_y as int),
            )) as i64,
        )
    }

    /// The resources all tiles spawn this tick, in tile order.
    pub open spec fn production_spawns(self, delta_ms: u64, upto: int) -> Seq<Card>
        decreases upto,
    {
        if upto <= 0 {
            Seq::empty()
        } else {
            self.production_spawns(delta_ms, upto - 1) + if self.finished_production(
                delta_ms,
                upto - 1,
            ) {
                seq![self.produced_card(upto - 1)]
            } else {
                Seq::empty()
            }
        }
    }

    /// Advance every occupied tile's production timer. A timer that
    /// completes spawns one resource beside its tile and starts over —
    /// unlike breeding, production repeats indefinitely, so the timer is
    /// reset, never despawned.
    pub fn evaluate_tiles(&mut self, delta_ms: u64)
        requires
            old(self).wf(),
        ensures
            final(self).wf(),
            evaluate_tiles_post(*old(self), *final(self), delta_ms),
    {
        let ghost o = *old(self);
        let mut spawned: Vec<(i64, i64)> = Vec::new();
        let n_tiles = self.tiles.len();
        let mut t: usize = 0;
        while t < n_tiles
            invariant
                self.wf(),
                o.wf(),
                n_tiles == o.tiles@.len(),
                t <= n_tiles,
                self.tiles == o.tiles,
                self.cards == o.cards,
                self.stack_roots.roots == o.stack_roots.roots,
                self.stack_roots.queued == o.stack_roots.queued,
                self.selected_card == o.selected_card,
                self.hover_point == o.hover_point,
                self.hovered_tile == o.hovered_tile,
                self.bars@.len() == o.bars@.len(),
                tile_bars_advanced_upto(o, *self, delta_ms, t as int),
                bars_untouched_upto(o, *self, t as int),
                spawned@.len() == o.production_spawns(delta_ms, t as int).len(),
                forall|d: int|
                    0 <= d < spawned@.len() ==> spawned_card(
                        CardType::Log,
                        (#[trigger] spawned@[d]).0,
                        spawned@[d].1,
                    ) == o.production_spawns(delta_ms, t as int)[d],
            decreases n_tiles - t,
        {
            let ghost spawns_before = o.production_spawns(delta_ms, t as int);
            let tl = self.tiles[t];
            match tl.progress_bar {
                Some(b) => {
                    proof {
                        assert(self.tile_owns_bar(t as int, b as int));
                        assert(self.bar_live(b as int));
                        // this tile's timer has not been touched yet: no
                        // earlier tile owns it
                        assert(self.bars@[b as int] == o.bars@[b as int]) by {
                            assert(bars_untouched_upto(o, *self, t as int));
                            if exists|t2: int| 0 <= t2 < t && o.tile_owns_bar(t2, b as int) {
                                let t2 = choose|t2: int|
                                    0 <= t2 < t && o.tile_owns_bar(t2, b as int);
                                assert(o.tile_owns_bar(t as int, b as int));
                            }
                        }
                    }
                    let ghost prev = *self;
                    let mut bar = self.bars[b].bar;
                    bar.add(delta_ms);
                    let fin = bar.finished();
                    if fin {
                        let (wx, wy) = Tile::grid_to_translation(tl.grid_x, tl.grid_y);
                        spawned.push((coord_add(wx, TILE_SPAWN_OFFSET), wy));
                        bar.reset();
                    }
                    self.bars[b] = BarEntity { bar, alive: true };
                    proof {
                        assert(self.bars@ =~= prev.bars@.update(
                            b as int,
                            BarEntity { bar: self.bars@[b as int].bar, alive: true },
                        ));
                        lemma_wf_bar_value(prev, *self, b as int);
                        assert(fin == o.finished_production(delta_ms, t as int));
                        assert forall|t2: int|
                            0 <= t2 < t + 1 implies #[trigger] tile_bar_advanced(
                            o,
                            *self,
                            delta_ms,
                            t2,
                        ) by {
                            if t2 < t {
                                assert(tile_bar_advanced(o, prev, delta_ms, t2));
                                match o.tiles@[t2].progress_bar {
                                    Option::Some(b2) => {
                                        assert(o.tile_owns_bar(t2, b2 as int));
                                        assert(o.bar_live(b2 as int));
                                        if b2 == b {
                                            assert(o.tile_owns_bar(t as int, b as int));
                                            assert(false);
                                        }
                                        assert(self.bars@[b2 as int] == prev.bars@[b2 as int]);
                                    },
                                    Option::None => {},
                                }
                            }
                        }
                        assert forall|b2: int|
                            0 <= b2 < o.bars@.len() && !(exists|t2: int|
                                0 <= t2 < t + 1 && o.tile_owns_bar(t2, b2)) implies self.bars@[b2]
                            == #[trigger] o.bars@[b2] by {
                            assert(o.tile_owns_bar(t as int, b as int));
                            assert(b2 != b as int);
                            assert(!(exists|t2: int| 0 <= t2 < t && o.tile_owns_bar(t2, b2)));
                            assert(bars_untouched_upto(o, prev, t as int));
                            assert(prev.bars@[b2] == o.bars@[b2]);
                        }
                        if fin {
                            assert(o.produced_card(t as int) == spawned_card(
                                CardType::Log,
                                spawned@.last().0,
                                spawned@.last().1,
                            )) by {
                                assert(-GRID_LIMIT <= o.tiles@[t as int].grid_x <= GRID_LIMIT);
                                assert(clamp_coord(
                                    Tile::grid_axis_to_world(o.tiles@[t as int].grid_x as int),
                                ) == Tile::grid_axis_to_world(o.tiles@[t as int].grid_x as int));
                                assert(clamp_coord(
                                    Tile::grid_axis_to_world(o.tiles@[t as int].grid_y as int),
                                ) == Tile::grid_axis_to_world(o.tiles@[t as int].grid_y as int));
                            }
                            assert(o.production_spawns(delta_ms, t as int + 1) == spawns_before
                                + seq![o.produced_card(t as int)]);
                        } else {
                            assert(o.production_spawns(delta_ms, t as int + 1) =~= spawns_before);
                        }
                    }
                },
                None => {
                    proof {
                        assert(!o.finished_production(delta_ms, t as int));
                        assert(o.production_spawns(delta_ms, t as int + 1) =~= spawns_before);
                        assert forall|t2: int|
                            0 <= t2 < t + 1 implies #[trigger] tile_bar_advanced(
                            o,
                            *self,
                            delta_ms,
                            t2,
                        ) by {
                            if t2 < t {
                                assert(tile_bar_advanced(o, *self, delta_ms, t2));
                            }
                        }
                    }
                },
            }
            t = t + 1;
        }
        let ghost mid = *self;
        let ghost all_spawns = o.production_spawns(delta_ms, o.tiles@.len() as int);
        let mut j: usize = 0;
        while j < spawned.len()
            invariant
                self.wf(),
                j <= spawned@.len(),
                spawned@.len() == all_spawns.len(),
                forall|d: int|
                    0 <= d < spawned@.len() ==> spawned_card(
                        CardType::Log,
                        (#[trigger] spawned@[d]).0,
                        spawned@[d].1,
                    ) == all_spawns[d],
                self.tiles == mid.tiles,
                self.bars == mid.bars,
                self.selected_card == mid.selected_card,
                self.hover_point == mid.hover_point,
                self.hovered_tile == mid.hovered_tile,
                mid.cards@ == o.cards@,
                self.cards@.len() == o.cards@.len() + j,
                forall|k: int| 0 <= k < o.n() ==> self.cards@[k] == #[trigger] o.cards@[k],
                forall|d: int| 0 <= d < j ==> self.cards@[o.n() + d] == #[trigger] all_spawns[d],
                self.stack_roots.roots@.len() == self.cards@.len(),
                self.stack_roots.queued@.len() == self.cards@.len(),
                forall|k: int|
                    0 <= k < o.n() ==> self.stack_roots.roots@[k] == #[trigger] o.stack_roots.roots@[k]
                        && self.stack_roots.queued@[k] == o.stack_roots.queued@[k],
                appended_keys_blank(o, *self),
            decreases spawned@.len() - j,
        {
            let ghost prev = *self;
            let (sx, sy) = spawned[j];
            self.spawn_card(CardType::Log, sx, sy);
            proof {
                assert(spawned_card(CardType::Log, sx, sy) == all_spawns[j as int]);
                assert forall|k: int|
                    0 <= k < o.n() implies (#[trigger] self.stack_roots.roots@[k])
                    == o.stack_roots.roots@[k] && self.stack_roots.queued@[k]
                    == o.stack_roots.queued@[k] by {
                    assert(crate::evaluate::entries_untouched_from(o, prev, 0));
                    assert(prev.stack_roots.roots@[k] == o.stack_roots.roots@[k]);
                    assert(prev.stack_roots.queued@[k] == o.stack_roots.queued@[k]);
                }
                assert(crate::evaluate::entries_untouched_from(o, *self, 0));
                assert forall|k: int|
                    o.n() <= k < self.n() implies (#[trigger] self.stack_roots.roots@[k]) is None
                    && !self.stack_roots.queued@[k] by {
                    if k < prev.n() {
                        assert(appended_keys_blank(o, prev));
                        assert(prev.stack_roots.roots@[k] is None);
                        assert(!prev.stack_roots.queued@[k]);
                    }
                }
                assert(appended_keys_blank(o, *self));
            }
            j = j + 1;
        }
        proof {
            assert(self.cards@ =~= o.cards@ + all_spawns);
            assert forall|t2: int|
                0 <= t2 < o.tiles@.len() implies #[trigger] tile_bar_advanced(
                o,
                *self,
                delta_ms,
                t2,
            ) by {
                assert(tile_bar_advanced(o, mid, delta_ms, t2));
            }
        }
    }
}

/// After the production pass, tile `t`'s timer shows the advanced reading:
/// reset on completion, advanced by the elapsed time otherwise, alive either
/// way.
pub open spec fn tile_bar_advanced(o: Simulation, s: Simulation, delta_ms: u64, t: int) -> bool {
    match o.tiles@[t].progress_bar {
        Option::Some(b) => {
            let ob = o.bars@[b as int].bar;
            &&& s.bars@[b as int].alive == o.bars@[b as int].alive
            &&& s.bars@[b as int].bar.total_ms == ob.total_ms
            &&& (o.finished_production(delta_ms, t) ==> s.bars@[b as int].bar.current_ms == 0)
            &&& (!o.finished_production(delta_ms, t) ==> s.bars@[b as int].bar.current_ms
                == ob.current_ms + delta_ms)
        },
        Option::None => true,
    }
}

pub open spec fn tile_bars_advanced_upto(
    o: Simulation,
    s: Simulation,
    delta_ms: u64,
    upto: int,
) -> bool {
    forall|t: int| 0 <= t < upto ==> #[trigger] tile_bar_advanced(o, s, delta_ms, t)
}

/// Everything `hover_tile` leaves behind: with a card held, the hover target
/// is re-resolved through the grid index from the pointer's board point;
/// with nothing held it is left alone. Nothing else changes.
pub open spec fn hover_tile_post(o: Simulation, s: Simulation) -> bool {
    &&& s.cards == o.cards
    &&& s.tiles == o.tiles
    &&& s.bars == o.bars
    &&& s.stack_roots.roots == o.stack_roots.roots
    &&& s.stack_roots.queued == o.stack_roots.queued
    &&& s.selected_card == o.selected_card
    &&& s.hover_point == o.hover_point
    &&& (o.selected_card is None ==> s.hovered_tile == o.hovered_tile)
    &&& (o.selected_card is Some ==> match o.hover_point {
        Option::Some(hp) => ({
            let gx = Tile::world_axis_to_grid(hp.x as int);
            let gy = Tile::world_axis_to_grid(hp.y as int);
            match s.hovered_tile {
                Option::Some(t) => (t as int) < o.tiles@.len() && o.tile_grid(t as int) == (
                    gx,
                    gy,
                ),
                Option::None => forall|t: int|
                    0 <= t < o.tiles@.len() ==> #[trigger] o.tile_grid(t) != (gx, gy),
            }
        }),
        Option::None => s.hovered_tile is None,
    })
}

/// Everything `evaluate_tiles` leaves behind: every occupied tile's
/// production timer advanced — reset to zero on completion — one resource
/// spawned per completed run, and everything else untouched.
pub open spec fn evaluate_tiles_post(o: Simulation, s: Simulation, delta_ms: u64) -> bool {
    &&& s.tiles == o.tiles
    &&& s.selected_card == o.selected_card
    &&& s.hover_point == o.hover_point
    &&& s.hovered_tile == o.hovered_tile
    &&& s.bars@.len() == o.bars@.len()
    &&& tile_bars_advanced_upto(o, s, delta_ms, o.tiles@.len() as int)
    &&& bars_untouched_upto(o, s, o.tiles@.len() as int)
    &&& s.cards@ == o.cards@ + o.production_spawns(delta_ms, o.tiles@.len() as int)
    &&& crate::evaluate::entries_untouched_from(o, s, 0)
    &&& appended_keys_blank(o, s)
}

/// Card ids appended beyond the old arena have no registry entry and are
/// not queued.
pub open spec fn appended_keys_blank(o: Simulation, s: Simulation) -> bool {
    forall|k: int|
        o.n() <= k < s.n() ==> (#[trigger] s.stack_roots.roots@[k]) is None
            && !s.stack_roots.queued@[k]
}

/// Timers owned by no tile below `upto` are exactly as they were.
pub open spec fn bars_untouched_upto(o: Simulation, s: Simulation, upto: int) -> bool {
    forall|b: int|
        0 <= b < o.bars@.len() && !(exists|t: int| 0 <= t < upto && o.tile_owns_bar(t, b))
            ==> s.bars@[b] == #[trigger] o.bars@[b]
}

} // verus!
